//! Credential stores, the vault, and which agents can run.

use cuartel::agent::AgentType;
use cuartel::availability::{
    probe_harness, probe_outcome, probe_registry, AvailabilityStatus, EnvSource, HarnessInfo,
    NoEnv, ProbeResult,
};
use cuartel::credential_store::{
    env_for_harness, env_with, keychain_account, lookup_present, CredentialStore, EnvMap,
    MemoryCredentialStore, KEYCHAIN_SERVICE,
};
use cuartel::db::credentials::{open_credential, seal_credential, CredentialRow};
use cuartel::db::crypto::{key_file_path, Vault};

fn pi_extra() -> Vec<(String, String)> {
    vec![
        ("PI_DEFAULT_PROVIDER".into(), "anthropic".into()),
        ("PI_DEFAULT_MODEL".into(), "sonnet-4-20250514".into()),
    ]
}

fn env_of(
    store: &MemoryCredentialStore,
    provider: &str,
    agent: AgentType,
    extra: Vec<(String, String)>,
) -> EnvMap {
    env_for_harness(Some(&info(agent, provider, None, "")), &extra, store)
}

#[test]
fn memory_store_round_trip() {
    let mut store = MemoryCredentialStore::new();
    assert!(store.get("anthropic", "ANTHROPIC_API_KEY").unwrap().is_none());
    store.set("anthropic", "ANTHROPIC_API_KEY", "sk-test").unwrap();
    assert_eq!(
        store.get("anthropic", "ANTHROPIC_API_KEY").unwrap().as_deref(),
        Some("sk-test"),
    );
    store.delete("anthropic", "ANTHROPIC_API_KEY").unwrap();
    assert!(store.get("anthropic", "ANTHROPIC_API_KEY").unwrap().is_none());
}

#[test]
fn memory_store_scopes_by_provider_and_env_key() {
    let mut store = MemoryCredentialStore::new();
    store.set("anthropic", "ANTHROPIC_API_KEY", "sk-a").unwrap();
    store.set("anthropic", "ANTHROPIC_OAUTH_TOKEN", "oa-a").unwrap();
    store.set("openai", "OPENAI_API_KEY", "sk-o").unwrap();
    assert_eq!(store.get("anthropic", "ANTHROPIC_API_KEY").unwrap().unwrap(), "sk-a");
    assert_eq!(store.get("anthropic", "ANTHROPIC_OAUTH_TOKEN").unwrap().unwrap(), "oa-a");
    assert_eq!(store.get("openai", "OPENAI_API_KEY").unwrap().unwrap(), "sk-o");
    store.set("openai", "OPENAI_API_KEY", "sk-p").unwrap();
    assert_eq!(store.get("openai", "OPENAI_API_KEY").unwrap().unwrap(), "sk-p");
}

#[test]
fn env_source_blanket_impl_answers_present_when_value_nonempty() {
    let mut store = MemoryCredentialStore::new();
    assert!(!store.has("anthropic", "ANTHROPIC_API_KEY"));
    store.set("anthropic", "ANTHROPIC_API_KEY", "sk-x").unwrap();
    assert!(store.has("anthropic", "ANTHROPIC_API_KEY"));
}

#[test]
fn env_source_blanket_impl_skips_empty_string_values() {
    let mut store = MemoryCredentialStore::new();
    store.set("anthropic", "ANTHROPIC_API_KEY", "").unwrap();
    assert!(!store.has("anthropic", "ANTHROPIC_API_KEY"));
}

#[test]
fn env_for_harness_returns_required_keys_when_present() {
    let mut store = MemoryCredentialStore::new();
    store.set("anthropic", "ANTHROPIC_API_KEY", "sk-a").unwrap();
    let env = env_of(&store, "anthropic", AgentType::Pi, pi_extra());
    assert_eq!(env.get("ANTHROPIC_API_KEY").map(String::as_str), Some("sk-a"));
}

#[test]
fn env_for_harness_skips_missing_keys_silently() {
    let store = MemoryCredentialStore::new();
    let env = env_of(&store, "openai", AgentType::Codex, vec![]);
    assert_eq!(env.len(), 0);
}

#[test]
fn env_for_harness_includes_extra_env_from_harness() {
    let mut store = MemoryCredentialStore::new();
    store.set("anthropic", "ANTHROPIC_API_KEY", "sk-a").unwrap();
    let env = env_of(&store, "anthropic", AgentType::Pi, pi_extra());
    assert_eq!(env.get("ANTHROPIC_API_KEY").map(String::as_str), Some("sk-a"));
    assert_eq!(env.get("PI_DEFAULT_PROVIDER").map(String::as_str), Some("anthropic"));
    assert_eq!(
        env.get("PI_DEFAULT_MODEL").map(String::as_str),
        Some("sonnet-4-20250514")
    );
}

#[test]
fn failed_lookups_count_as_absent() {
    assert!(!lookup_present(&Err("locked".into())));
    assert!(!lookup_present(&Ok(None)));
    assert!(!lookup_present(&Ok(Some("".into()))));
    assert!(lookup_present(&Ok(Some("k".into()))));
    let keys = vec!["A".to_string(), "B".to_string(), "C".to_string()];
    let lookups = vec![Err("locked".into()), Ok(Some("".into())), Ok(Some("c".into()))];
    let env = env_with(&keys, &lookups, &vec![]);
    assert_eq!(env.len(), 1);
    assert_eq!(env.get("C").map(String::as_str), Some("c"));
}

#[test]
fn later_values_replace_earlier_ones() {
    let keys = vec!["A".to_string()];
    let lookups = vec![Ok(Some("mine".into()))];
    let env = env_with(&keys, &lookups, &vec![("A".into(), "theirs".into())]);
    assert_eq!(env.len(), 1);
    assert_eq!(env.get("A").map(String::as_str), Some("theirs"));
}

#[test]
fn an_unknown_agent_has_no_environment() {
    let store = MemoryCredentialStore::new();
    assert_eq!(env_for_harness(None, &pi_extra(), &store).len(), 0);
}

#[test]
fn accounts_join_provider_and_key() {
    assert_eq!(keychain_account("anthropic", "KEY"), "anthropic:KEY");
    assert_eq!(KEYCHAIN_SERVICE, "dev.cuartel.credentials");
}

#[test]
fn vault_opens_what_it_sealed() {
    let vault = Vault::new(&[7u8; 32]);
    let (sealed, nonce) = vault.encrypt(&b"secret".to_vec()).unwrap();
    assert_eq!(nonce.len(), 12);
    assert_eq!(sealed.len(), 6 + 16);
    assert_eq!(vault.decrypt(&sealed, &nonce).unwrap(), b"secret".to_vec());
    let mut tampered = sealed.clone();
    tampered[0] ^= 1;
    assert!(vault.decrypt(&tampered, &nonce).is_err());
    let other = Vault::new(&[8u8; 32]);
    assert!(other.decrypt(&sealed, &nonce).is_err());
}

#[test]
fn vault_keys_are_thirty_two_bytes() {
    assert!(Vault::from_key_file(&vec![1u8; 31]).is_err());
    assert!(Vault::from_key_file(&vec![1u8; 33]).is_err());
    let a = Vault::from_key_file(&vec![1u8; 32]).unwrap();
    let b = Vault::new(&[1u8; 32]);
    let nonce = vec![3u8; 12];
    assert_eq!(
        a.encrypt_with(&b"x".to_vec(), &nonce).unwrap(),
        b.encrypt_with(&b"x".to_vec(), &nonce).unwrap()
    );
    assert_eq!(key_file_path(Some("/data")), "/data/cuartel/cuartel.key");
    assert_eq!(key_file_path(None), "./cuartel/cuartel.key");
}

fn row_of(encrypted_value: Vec<u8>, nonce: Vec<u8>) -> CredentialRow {
    CredentialRow {
        id: "c1".into(),
        provider: "anthropic".into(),
        env_key: "KEY".into(),
        encrypted_value,
        nonce,
        created_at: "2024-01-01".into(),
        updated_at: "2024-01-01".into(),
    }
}

#[test]
fn stored_credentials_read_back() {
    let vault = Vault::new(&[9u8; 32]);
    let (encrypted_value, nonce) = seal_credential(&vault, "sk-päss").unwrap();
    let row = row_of(encrypted_value, nonce);
    assert_eq!(open_credential(&vault, "anthropic", "KEY", &row).unwrap(), "sk-päss");
    let other = Vault::new(&[1u8; 32]);
    assert!(open_credential(&other, "anthropic", "KEY", &row).is_err());
    let (encrypted_value, nonce) = vault.encrypt(&vec![0xff, 0xfe]).unwrap();
    let bad = row_of(encrypted_value, nonce);
    assert!(open_credential(&vault, "anthropic", "KEY", &bad).is_err());
}

struct FakeEnv {
    present: Vec<(String, String)>,
}

impl EnvSource for FakeEnv {
    fn has(&self, provider_id: &str, env_key: &str) -> bool {
        self.present.iter().any(|(p, k)| p == provider_id && k == env_key)
    }
}

fn info(agent: AgentType, provider: &str, program: Option<&str>, hint: &str) -> HarnessInfo {
    let required_env_keys = agent.required_env_keys().iter().map(|k| k.to_string()).collect();
    HarnessInfo {
        agent,
        provider_id: provider.into(),
        probe_program: program.map(|p| p.to_string()),
        install_hint: hint.into(),
        required_env_keys,
    }
}

fn builtins() -> Vec<HarnessInfo> {
    vec![
        info(AgentType::Pi, "anthropic", Some("pi"), "npm install -g pi"),
        info(AgentType::ClaudeCode, "anthropic", Some("cc"), "npm install -g cc"),
        info(AgentType::Codex, "openai", Some("codex"), "npm install -g @openai/codex"),
        info(AgentType::OpenCode, "anthropic", Some("opencode"), ""),
    ]
}

#[test]
fn ready_when_installed_and_all_envs_present() {
    let probe =
        Some(ProbeResult { path: "/usr/local/bin/pi".into(), version: Some("pi 1.0.0".into()) });
    let env = FakeEnv { present: vec![("anthropic".into(), "ANTHROPIC_API_KEY".into())] };
    let avail = probe_harness(&builtins()[0], &probe, &env);
    assert!(avail.installed);
    assert_eq!(avail.version.as_deref(), Some("pi 1.0.0"));
    assert_eq!(avail.status(), AvailabilityStatus::Ready);
    assert!(avail.missing_env_keys().is_empty());
}

#[test]
fn needs_credentials_when_env_missing() {
    let probe = Some(ProbeResult { path: "/usr/local/bin/cc".into(), version: None });
    let env = FakeEnv { present: vec![] };
    let avail = probe_harness(&builtins()[1], &probe, &env);
    assert!(avail.installed);
    assert_eq!(avail.status(), AvailabilityStatus::NeedsCredentials);
    assert_eq!(avail.missing_env_keys(), vec!["ANTHROPIC_API_KEY"]);
}

#[test]
fn not_installed_when_which_returns_none() {
    let env = FakeEnv { present: vec![("openai".into(), "OPENAI_API_KEY".into())] };
    let avail = probe_harness(&builtins()[2], &None, &env);
    assert!(!avail.installed);
    assert_eq!(avail.status(), AvailabilityStatus::NotInstalled);
    assert_eq!(avail.install_hint.as_deref(), Some("npm install -g @openai/codex"));
}

#[test]
fn probe_registry_returns_all_harnesses_sorted() {
    let env = FakeEnv { present: vec![] };
    let out = probe_registry(&builtins(), &vec![None, None, None, None], &env);
    assert_eq!(out.len(), 4);
    let names: Vec<&str> = out.iter().map(|a| a.display_name.as_str()).collect();
    let mut expected = names.clone();
    expected.sort();
    assert_eq!(names, expected);
    assert_eq!(names[0], AgentType::ClaudeCode.display_name());
    assert_eq!(&names[1..], &["OpenAI Codex", "OpenCode", "Pi"]);
}

#[test]
fn lookups_are_trimmed() {
    assert_eq!(probe_outcome(None, Some("1.0")), None);
    assert_eq!(probe_outcome(Some(" \n"), Some("1.0")), None);
    let p = probe_outcome(Some("/usr/bin/cc\n"), Some(" 1.2.3 (x) \nmore\n")).unwrap();
    assert_eq!(p.path, "/usr/bin/cc");
    assert_eq!(p.version.as_deref(), Some("1.2.3 (x)"));
    assert_eq!(probe_outcome(Some("/bin/pi"), Some("\n")).unwrap().version, None);
}

#[test]
fn an_agent_without_a_program_is_always_installed() {
    let i = info(AgentType::Custom("x".into()), "p", None, "hint");
    let a = probe_harness(&i, &None, &NoEnv);
    assert!(a.installed);
    assert_eq!(a.status(), AvailabilityStatus::Ready);
    assert_eq!(a.status().label(), AvailabilityStatus::Ready.label());
}

#[test]
fn agents_have_names_and_keys() {
    assert_eq!(AgentType::all_builtin().len(), 4);
    assert_eq!(AgentType::OpenCode.rivet_name(), "opencode");
    let lower = "ClaudeCode".to_lowercase();
    assert_eq!(AgentType::ClaudeCode.rivet_name(), format!("{}-{}", &lower[..6], &lower[6..]));
    assert_eq!(AgentType::ClaudeCode.display_name().replace(' ', ""), "ClaudeCode");
    assert_eq!(AgentType::Codex.display_name(), "OpenAI Codex");
    assert_eq!(AgentType::Codex.required_env_keys(), vec!["OPENAI_API_KEY"]);
    assert_eq!(AgentType::Custom("x".into()).rivet_name(), "x");
    assert!(AgentType::Custom("x".into()).required_env_keys().is_empty());
}
