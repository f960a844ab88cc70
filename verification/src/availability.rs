//! Which agents can run on this host.

use vstd::prelude::*;
use vstd::string::*;
use crate::agent::AgentType;
use crate::text;

verus! {

/// Something that knows which credentials there are.
pub trait EnvSource {
    /// Whether there is a credential of the provider under the key.
    fn has(&self, provider_id: &str, env_key: &str) -> bool;
}

/// Whether a source may answer `r` when it is asked for the key of a provider.
pub open spec fn answers<E: EnvSource>(
    env: &E,
    provider_id: Seq<char>,
    env_key: Seq<char>,
    r: bool,
) -> bool {
    exists|p: &str, k: &str|
        p@ == provider_id && k@ == env_key && #[trigger] call_ensures(E::has, (env, p, k), r)
}

/// A source without any credential.
pub struct NoEnv;

impl EnvSource for NoEnv {
    fn has(&self, provider_id: &str, env_key: &str) -> (r: bool)
        ensures
            !r,
    {
        false
    }
}

/// What is known of an agent's program.
#[derive(PartialEq, Eq, Debug)]
pub struct HarnessInfo {
    pub agent: AgentType,
    pub provider_id: String,
    /// The program to look for; none where the agent comes with the product.
    pub probe_program: Option<String>,
    /// How to install it; empty where there is nothing to say.
    pub install_hint: String,
    pub required_env_keys: Vec<String>,
}

/// A key that an agent needs.
#[derive(Clone, PartialEq, Eq, Debug)]
pub struct RequiredEnv {
    pub key: String,
    pub present: bool,
}

/// Whether an agent can run on this host.
#[derive(Clone, PartialEq, Eq, Debug)]
pub struct HarnessAvailability {
    pub agent: AgentType,
    pub display_name: String,
    pub provider_id: String,
    pub installed: bool,
    pub version: Option<String>,
    pub install_hint: Option<String>,
    pub required_env: Vec<RequiredEnv>,
}

/// The model of [`HarnessAvailability`].
#[verifier::ext_equal]
pub struct AvailabilityView {
    pub agent: AgentType,
    pub display_name: Seq<char>,
    pub provider_id: Seq<char>,
    pub installed: bool,
    pub version: Option<Seq<char>>,
    pub install_hint: Option<Seq<char>>,
    pub required_env: Seq<(Seq<char>, bool)>,
}

/// The models of keys.
pub open spec fn env_views(v: Seq<RequiredEnv>) -> Seq<(Seq<char>, bool)> {
    Seq::new(v.len(), |i: int| (v[i].key@, v[i].present))
}

impl View for HarnessAvailability {
    type V = AvailabilityView;

    open spec fn view(&self) -> AvailabilityView {
        AvailabilityView {
            agent: self.agent,
            display_name: self.display_name@,
            provider_id: self.provider_id@,
            installed: self.installed,
            version: text::opt_view(self.version),
            install_hint: text::opt_view(self.install_hint),
            required_env: env_views(self.required_env@),
        }
    }
}

/// In short, whether an agent can run.
#[derive(Clone, Copy, PartialEq, Eq, Structural, Debug)]
pub enum AvailabilityStatus {
    Ready,
    NeedsCredentials,
    NotInstalled,
}

impl AvailabilityStatus {
    /// The name to show.
    pub fn label(self) -> (r: &'static str)
        ensures
            r@ == (match self {
                AvailabilityStatus::Ready => "ready"@,
                AvailabilityStatus::NeedsCredentials => "needs credentials"@,
                AvailabilityStatus::NotInstalled => "not installed"@,
            }),
    {
        match self {
            AvailabilityStatus::Ready => "ready",
            AvailabilityStatus::NeedsCredentials => "needs credentials",
            AvailabilityStatus::NotInstalled => "not installed",
        }
    }
}

/// The keys that are missing, in order.
pub open spec fn missing(v: Seq<(Seq<char>, bool)>) -> Seq<Seq<char>>
    decreases v.len(),
{
    if v.len() == 0 {
        Seq::empty()
    } else if v.last().1 {
        missing(v.drop_last())
    } else {
        missing(v.drop_last()).push(v.last().0)
    }
}

/// In short, whether an agent can run: a program that is not there outranks a
/// credential that is not there.
pub open spec fn status_of(a: AvailabilityView) -> AvailabilityStatus {
    if !a.installed {
        AvailabilityStatus::NotInstalled
    } else if exists|i: int| 0 <= i < a.required_env.len() && !(#[trigger] a.required_env[i]).1 {
        AvailabilityStatus::NeedsCredentials
    } else {
        AvailabilityStatus::Ready
    }
}

impl HarnessAvailability {
    /// In short, whether the agent can run.
    pub fn status(&self) -> (r: AvailabilityStatus)
        ensures
            r == status_of(self@),
    {
        if !self.installed {
            return AvailabilityStatus::NotInstalled;
        }
        let mut i: usize = 0;
        while i < self.required_env.len()
            invariant
                i <= self.required_env@.len(),
                self.installed,
                forall|j: int| 0 <= j < i ==> (#[trigger] self@.required_env[j]).1,
            decreases self.required_env@.len() - i,
        {
            if !self.required_env[i].present {
                proof {
                    assert(!self@.required_env[i as int].1);
                }
                return AvailabilityStatus::NeedsCredentials;
            }
            i += 1;
        }
        AvailabilityStatus::Ready
    }

    /// The keys that are missing.
    pub fn missing_env_keys(&self) -> (r: Vec<String>)
        ensures
            text::views(r@) == missing(self@.required_env),
    {
        let ghost all = self@.required_env;
        let mut out: Vec<String> = Vec::new();
        let mut i: usize = 0;
        proof {
            assert(all.take(0) =~= Seq::empty());
            assert(text::views(out@) =~= Seq::empty());
        }
        while i < self.required_env.len()
            invariant
                i <= self.required_env@.len(),
                all == env_views(self.required_env@),
                text::views(out@) == missing(all.take(i as int)),
            decreases self.required_env@.len() - i,
        {
            proof {
                assert(all.take(i as int + 1).drop_last() =~= all.take(i as int));
                assert(all.take(i as int + 1).last() == all[i as int]);
            }
            if !self.required_env[i].present {
                proof {
                    text::lemma_views_push(out@, self.required_env@[i as int].key);
                }
                out.push(self.required_env[i].key.clone());
            }
            i += 1;
        }
        proof {
            assert(all.take(all.len() as int) =~= all);
        }
        out
    }
}

/// A program that was found.
#[derive(Clone, PartialEq, Eq, Debug)]
pub struct ProbeResult {
    pub path: String,
    pub version: Option<String>,
}

/// The first line of a text, without white space around it.
pub open spec fn first_line(s: Seq<char>) -> Seq<char> {
    text::trimmed(s.take(text::first_of(s, '\n')))
}

/// What a lookup of a program comes to: `which` is what the search printed
/// where it succeeded, and `version` what the program printed of its version
/// where it did.
pub open spec fn probed(which: Option<Seq<char>>, version: Option<Seq<char>>) -> Option<
    (Seq<char>, Option<Seq<char>>),
> {
    match which {
        None => None,
        Some(out) => if text::trimmed(out).len() == 0 {
            None
        } else {
            Some(
                (
                    text::trimmed(out),
                    match version {
                        Some(v) => if first_line(v).len() == 0 {
                            None
                        } else {
                            Some(first_line(v))
                        },
                        None => None,
                    },
                ),
            )
        },
    }
}

/// What a lookup of a program comes to.
pub fn probe_outcome(which: Option<&str>, version: Option<&str>) -> (r: Option<ProbeResult>)
    ensures
        match r {
            Some(p) => probed(text::opt_str_view(which), text::opt_str_view(version)) == Some(
                (p.path@, text::opt_view(p.version)),
            ),
            None => probed(text::opt_str_view(which), text::opt_str_view(version)) is None,
        },
{
    let path = match which {
        Some(out) => text::trim(out),
        None => {
            return None;
        },
    };
    if path.as_str().unicode_len() == 0 {
        return None;
    }
    let found = match version {
        Some(v) => {
            let chars = text::to_chars(v);
            let end: usize = match text::find_char(&chars, '\n') {
                Some(i) => i,
                None => chars.len(),
            };
            let head = text::from_range(&chars, 0, end);
            proof {
                assert(head@ =~= v@.take(end as int));
            }
            let line = text::trim(head.as_str());
            if line.as_str().unicode_len() == 0 {
                None
            } else {
                Some(line)
            }
        },
        None => None,
    };
    Some(ProbeResult { path, version: found })
}

/// Whether an agent can run, given what the lookup of its program found and
/// which of its keys are there. One without a program to look for counts as
/// installed.
pub open spec fn availability_of(
    info: HarnessInfo,
    probe: Option<ProbeResult>,
    present: Seq<bool>,
) -> AvailabilityView {
    AvailabilityView {
        agent: info.agent,
        display_name: info.agent.shown_name(),
        provider_id: info.provider_id@,
        installed: info.probe_program is None || probe is Some,
        version: match (info.probe_program, probe) {
            (Some(_), Some(p)) => text::opt_view(p.version),
            _ => None,
        },
        install_hint: if info.install_hint@.len() == 0 {
            None
        } else {
            Some(info.install_hint@)
        },
        required_env: Seq::new(
            info.required_env_keys@.len(),
            |i: int| (info.required_env_keys@[i]@, present[i]),
        ),
    }
}

/// Whether an agent can run, given what the lookup of its program found and
/// which of its keys are there.
pub fn assess_harness(
    info: &HarnessInfo,
    probe: &Option<ProbeResult>,
    present: &Vec<bool>,
) -> (r: HarnessAvailability)
    requires
        present@.len() == info.required_env_keys@.len(),
    ensures
        r@ == availability_of(*info, *probe, present@),
{
    let mut required_env: Vec<RequiredEnv> = Vec::new();
    let mut i: usize = 0;
    while i < info.required_env_keys.len()
        invariant
            i <= info.required_env_keys@.len(),
            present@.len() == info.required_env_keys@.len(),
            env_views(required_env@) == Seq::new(
                i as nat,
                |j: int| (info.required_env_keys@[j]@, present@[j]),
            ),
        decreases info.required_env_keys@.len() - i,
    {
        let ghost before = env_views(required_env@);
        required_env.push(
            RequiredEnv { key: info.required_env_keys[i].clone(), present: present[i] },
        );
        i += 1;
        proof {
            assert(env_views(required_env@) =~= before.push(
                (info.required_env_keys@[i - 1]@, present@[i - 1]),
            ));
            assert(env_views(required_env@) =~= Seq::new(
                i as nat,
                |j: int| (info.required_env_keys@[j]@, present@[j]),
            ));
        }
    }
    let (installed, version) = match &info.probe_program {
        None => (true, None),
        Some(_) => match probe {
            Some(p) => (true, p.version.clone()),
            None => (false, None),
        },
    };
    let install_hint = if info.install_hint.as_str().unicode_len() == 0 {
        None
    } else {
        Some(info.install_hint.clone())
    };
    HarnessAvailability {
        agent: info.agent.clone(),
        display_name: info.agent.display_name(),
        provider_id: info.provider_id.clone(),
        installed,
        version,
        install_hint,
        required_env,
    }
}

/// Whether a source may answer so for each key that an agent needs.
pub open spec fn all_answered<E: EnvSource>(env: &E, info: HarnessInfo, present: Seq<bool>) -> bool {
    &&& present.len() == info.required_env_keys@.len()
    &&& forall|j: int|
        0 <= j < present.len() ==> answers(
            env,
            info.provider_id@,
            info.required_env_keys@[j]@,
            #[trigger] present[j],
        )
}

/// Whether an agent can run, given what the lookup of its program found. The
/// source decides which keys are there.
pub fn probe_harness<E: EnvSource>(info: &HarnessInfo, probe: &Option<ProbeResult>, env: &E) -> (r:
    HarnessAvailability)
    ensures
        exists|present: Seq<bool>|
            #[trigger] all_answered(env, *info, present) && r@ == availability_of(
                *info,
                *probe,
                present,
            ),
{
    let mut present: Vec<bool> = Vec::new();
    let mut i: usize = 0;
    while i < info.required_env_keys.len()
        invariant
            i <= info.required_env_keys@.len(),
            present@.len() == i,
            forall|j: int|
                0 <= j < i ==> answers(
                    env,
                    info.provider_id@,
                    info.required_env_keys@[j]@,
                    #[trigger] present@[j],
                ),
        decreases info.required_env_keys@.len() - i,
    {
        let p = info.provider_id.as_str();
        let k = info.required_env_keys[i].as_str();
        let b = env.has(p, k);
        proof {
            assert(call_ensures(E::has, (env, p, k), b));
            assert(answers(env, info.provider_id@, info.required_env_keys@[i as int]@, b));
        }
        present.push(b);
        i += 1;
    }
    proof {
        assert(all_answered(env, *info, present@));
    }
    assess_harness(info, probe, &present)
}

/// The models of agents' availability.
pub open spec fn availability_views(v: Seq<HarnessAvailability>) -> Seq<AvailabilityView> {
    Seq::new(v.len(), |i: int| v[i]@)
}

/// Where a name goes among those in order: behind those that are not greater.
pub open spec fn name_slot(v: Seq<AvailabilityView>, name: Seq<char>) -> int
    decreases v.len(),
{
    if v.len() == 0 {
        0
    } else if text::lex_lt(name, v.last().display_name) {
        name_slot(v.drop_last(), name)
    } else {
        v.len() as int
    }
}

/// The agents in order of the names to show; those of one name keep theirs.
pub open spec fn by_name(v: Seq<AvailabilityView>) -> Seq<AvailabilityView>
    decreases v.len(),
{
    if v.len() == 0 {
        Seq::empty()
    } else {
        let front = by_name(v.drop_last());
        front.insert(name_slot(front, v.last().display_name), v.last())
    }
}

/// Puts an agent where its name goes.
pub fn insert_by_name(v: &mut Vec<HarnessAvailability>, x: HarnessAvailability)
    ensures
        availability_views(final(v)@) == availability_views(old(v)@).insert(
            name_slot(availability_views(old(v)@), x@.display_name),
            x@,
        ),
{
    let ghost all = availability_views(v@);
    let ghost name = x@.display_name;
    let mut n: usize = v.len();
    proof {
        assert(all.take(all.len() as int) =~= all);
    }
    while n > 0 && text::str_lt(x.display_name.as_str(), v[n - 1].display_name.as_str())
        invariant
            n <= v@.len(),
            v@ == old(v)@,
            all == availability_views(v@),
            name == x.display_name@,
            name_slot(all, name) == name_slot(all.take(n as int), name),
        decreases n,
    {
        proof {
            assert(all.take(n as int).last() == v@[n - 1]@);
            assert(all.take(n as int).drop_last() =~= all.take(n - 1));
        }
        n -= 1;
    }
    proof {
        if n > 0 {
            assert(all.take(n as int).last() == v@[n - 1]@);
        }
        assert(availability_views(v@.insert(n as int, x)) =~= all.insert(n as int, x@));
    }
    v.insert(n, x);
}

/// The agents in order of the names to show.
pub fn sort_by_name(list: Vec<HarnessAvailability>) -> (r: Vec<HarnessAvailability>)
    ensures
        availability_views(r@) == by_name(availability_views(list@)),
{
    let ghost all = availability_views(list@);
    let mut rest = list;
    let mut out: Vec<HarnessAvailability> = Vec::new();
    let ghost n = all.len();
    let mut i: usize = 0;
    let count = rest.len();
    proof {
        assert(all.take(0) =~= Seq::empty());
        assert(availability_views(out@) =~= Seq::empty());
        assert(all.skip(0) =~= all);
    }
    while i < count
        invariant
            i <= count,
            count == all.len(),
            rest@.len() == count - i,
            availability_views(rest@) == all.skip(i as int),
            availability_views(out@) == by_name(all.take(i as int)),
        decreases count - i,
    {
        let ghost before = rest@;
        let x = rest.remove(0);
        proof {
            assert(x@ == availability_views(before)[0]);
            assert(x@ == all[i as int]);
            assert(availability_views(rest@) =~= availability_views(before).skip(1));
            assert(all.skip(i as int).skip(1) =~= all.skip(i as int + 1));
            assert(all.take(i as int + 1).drop_last() =~= all.take(i as int));
            assert(all.take(i as int + 1).last() == x@);
        }
        insert_by_name(&mut out, x);
        i += 1;
    }
    proof {
        assert(all.take(all.len() as int) =~= all);
    }
    out
}

/// Whether `list` tells of each agent in order, as the source answered.
pub open spec fn tells_of<E: EnvSource>(
    list: Seq<AvailabilityView>,
    infos: Seq<HarnessInfo>,
    probes: Seq<Option<ProbeResult>>,
    env: &E,
    present: Seq<Seq<bool>>,
) -> bool {
    &&& list.len() == infos.len()
    &&& present.len() == infos.len()
    &&& forall|i: int|
        0 <= i < list.len() ==> (#[trigger] list[i]) == availability_of(
            infos[i],
            probes[i],
            present[i],
        ) && all_answered(env, infos[i], present[i])
}

/// Which agents can run, in order of the names to show; `probes` holds what the
/// lookup of each program found. The source decides which keys are there.
pub fn probe_registry<E: EnvSource>(
    infos: &Vec<HarnessInfo>,
    probes: &Vec<Option<ProbeResult>>,
    env: &E,
) -> (r: Vec<HarnessAvailability>)
    requires
        probes@.len() == infos@.len(),
    ensures
        exists|list: Seq<AvailabilityView>, present: Seq<Seq<bool>>|
            #[trigger] tells_of(list, infos@, probes@, env, present) && availability_views(r@)
                == by_name(list),
{
    let mut out: Vec<HarnessAvailability> = Vec::new();
    let ghost mut present: Seq<Seq<bool>> = Seq::empty();
    let mut i: usize = 0;
    while i < infos.len()
        invariant
            i <= infos@.len(),
            probes@.len() == infos@.len(),
            out@.len() == i,
            present.len() == i,
            forall|j: int|
                0 <= j < i ==> (#[trigger] out@[j])@ == availability_of(
                    infos@[j],
                    probes@[j],
                    present[j],
                ) && all_answered(env, infos@[j], present[j]),
        decreases infos@.len() - i,
    {
        let a = probe_harness(&infos[i], &probes[i], env);
        proof {
            let p = choose|p: Seq<bool>|
                #[trigger] all_answered(env, infos@[i as int], p) && a@ == availability_of(
                    infos@[i as int],
                    probes@[i as int],
                    p,
                );
            present = present.push(p);
        }
        out.push(a);
        i += 1;
    }
    let ghost list = availability_views(out@);
    proof {
        assert forall|j: int| 0 <= j < list.len() implies (#[trigger] list[j]) == availability_of(
            infos@[j],
            probes@[j],
            present[j],
        ) && all_answered(env, infos@[j], present[j]) by {
            assert(list[j] == out@[j]@);
        }
        assert(tells_of(list, infos@, probes@, env, present));
    }
    sort_by_name(out)
}

/// An agent is ready exactly where it is installed and no key is missing.
pub proof fn law_ready_lacks_nothing(a: AvailabilityView)
    ensures
        status_of(a) is Ready <==> a.installed && missing(a.required_env).len() == 0,
{
    lemma_missing(a.required_env);
}

proof fn lemma_missing(v: Seq<(Seq<char>, bool)>)
    ensures
        missing(v).len() == 0 <==> !exists|i: int| 0 <= i < v.len() && !(#[trigger] v[i]).1,
    decreases v.len(),
{
    if v.len() > 0 {
        let front = v.drop_last();
        lemma_missing(front);
        if exists|i: int| 0 <= i < front.len() && !(#[trigger] front[i]).1 {
            let i = choose|i: int| 0 <= i < front.len() && !(#[trigger] front[i]).1;
            assert(!v[i].1);
        }
        if exists|i: int| 0 <= i < v.len() && !(#[trigger] v[i]).1 {
            let i = choose|i: int| 0 <= i < v.len() && !(#[trigger] v[i]).1;
            if i < front.len() {
                assert(!front[i].1);
            }
        }
        if !v.last().1 {
            assert(!v[v.len() - 1].1);
        }
    }
}

} // verus!
