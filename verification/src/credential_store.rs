//! Credentials by provider and key.

use vstd::prelude::*;
use vstd::string::*;
use crate::availability::{EnvSource, HarnessInfo};
use crate::text;

verus! {

/// The service under which the system's keychain keeps credentials.
pub const KEYCHAIN_SERVICE: &'static str = "dev.cuartel.credentials";

/// The account under which the system's keychain keeps a credential.
pub fn keychain_account(provider_id: &str, env_key: &str) -> (r: String)
    ensures
        r@ == provider_id@ + ":"@ + env_key@,
{
    text::concat3(provider_id, ":", env_key)
}

/// Where credentials are kept.
pub trait CredentialStore {
    /// The credential of a provider under a key, where there is one.
    fn get(&self, provider_id: &str, env_key: &str) -> Result<Option<String>, String>;

    /// Keeps a credential, in place of the one that was there.
    fn set(&mut self, provider_id: &str, env_key: &str, value: &str) -> Result<(), String>;

    /// Forgets a credential, where it is there.
    fn delete(&mut self, provider_id: &str, env_key: &str) -> Result<(), String>;
}

/// Whether a store may answer `r` when it is asked for a credential.
pub open spec fn gives<S: CredentialStore>(
    store: &S,
    provider_id: Seq<char>,
    env_key: Seq<char>,
    r: Result<Option<String>, String>,
) -> bool {
    exists|p: &str, k: &str|
        p@ == provider_id && k@ == env_key && #[trigger] call_ensures(S::get, (store, p, k), r)
}

/// Whether a lookup counts as a credential: one that failed does not, and an
/// empty value does not.
pub open spec fn is_present(lookup: Result<Option<String>, String>) -> bool {
    lookup matches Ok(Some(v)) && v@.len() > 0
}

/// Whether a lookup counts as a credential.
pub fn lookup_present(lookup: &Result<Option<String>, String>) -> (r: bool)
    ensures
        r == is_present(*lookup),
{
    match lookup {
        Ok(found) => match found {
            Some(v) => v.as_str().unicode_len() > 0,
            None => false,
        },
        Err(_) => false,
    }
}

/// A store has a credential where its lookup gives one.
impl<S: CredentialStore> EnvSource for S {
    fn has(&self, provider_id: &str, env_key: &str) -> (r: bool)
        ensures
            exists|lookup: Result<Option<String>, String>|
                #[trigger] gives(self, provider_id@, env_key@, lookup) && r == is_present(lookup),
    {
        let lookup = self.get(provider_id, env_key);
        proof {
            assert(call_ensures(S::get, (self, provider_id, env_key), lookup));
            assert(gives(self, provider_id@, env_key@, lookup));
        }
        lookup_present(&lookup)
    }
}

/// Values under names, each name once.
pub struct EnvMap {
    entries: Vec<(String, String)>,
}

/// The models of values under names.
pub open spec fn pair_views(s: Seq<(String, String)>) -> Seq<(Seq<char>, Seq<char>)> {
    Seq::new(s.len(), |i: int| (s[i].0@, s[i].1@))
}

/// The first position of a name, or the number of names.
pub open spec fn name_index(s: Seq<(Seq<char>, Seq<char>)>, name: Seq<char>, i: int) -> int
    decreases s.len() - i,
{
    if i < 0 || i >= s.len() {
        s.len() as int
    } else if s[i].0 == name {
        i
    } else {
        name_index(s, name, i + 1)
    }
}

/// The values with one under a name, in place of the one that was there.
pub open spec fn with_value(
    s: Seq<(Seq<char>, Seq<char>)>,
    name: Seq<char>,
    value: Seq<char>,
) -> Seq<(Seq<char>, Seq<char>)> {
    let i = name_index(s, name, 0);
    if i < s.len() {
        s.update(i, (name, value))
    } else {
        s.push((name, value))
    }
}

/// The value under a name.
pub open spec fn value_under(s: Seq<(Seq<char>, Seq<char>)>, name: Seq<char>) -> Option<
    Seq<char>,
> {
    let i = name_index(s, name, 0);
    if i < s.len() {
        Some(s[i].1)
    } else {
        None
    }
}

impl EnvMap {
    /// The values under names, in order of the first insertion.
    pub closed spec fn model(&self) -> Seq<(Seq<char>, Seq<char>)> {
        pair_views(self.entries@)
    }

    /// No values.
    pub fn new() -> (r: Self)
        ensures
            r.model() == Seq::<(Seq<char>, Seq<char>)>::empty(),
    {
        let r = EnvMap { entries: Vec::new() };
        proof {
            assert(r.model() =~= Seq::empty());
        }
        r
    }

    fn find(&self, name: &str) -> (r: usize)
        ensures
            r == name_index(self.model(), name@, 0),
            r <= self.entries@.len(),
    {
        let ghost m = self.model();
        let mut i: usize = 0;
        while i < self.entries.len()
            invariant
                i <= self.entries@.len(),
                m == pair_views(self.entries@),
                m == self.model(),
                name_index(m, name@, 0) == name_index(m, name@, i as int),
            decreases self.entries@.len() - i,
        {
            if text::str_eq(self.entries[i].0.as_str(), name) {
                return i;
            }
            i += 1;
        }
        i
    }

    /// Puts a value under a name, in place of the one that was there.
    pub fn insert(&mut self, name: &str, value: String)
        ensures
            final(self).model() == with_value(old(self).model(), name@, value@),
    {
        let i = self.find(name);
        let ghost before = self.model();
        let ghost v = value@;
        if i < self.entries.len() {
            self.entries.set(i, (name.to_owned(), value));
            proof {
                assert(self.model() =~= before.update(i as int, (name@, v)));
            }
        } else {
            self.entries.push((name.to_owned(), value));
            proof {
                assert(self.model() =~= before.push((name@, v)));
            }
        }
    }

    /// The value under a name.
    pub fn get(&self, name: &str) -> (r: Option<&String>)
        ensures
            match r {
                Some(v) => value_under(self.model(), name@) == Some(v@),
                None => value_under(self.model(), name@) is None,
            },
    {
        let i = self.find(name);
        if i < self.entries.len() {
            Some(&self.entries[i].1)
        } else {
            None
        }
    }

    /// How many names there are.
    pub fn len(&self) -> (r: usize)
        ensures
            r == self.model().len(),
    {
        self.entries.len()
    }

    /// The names and values.
    pub fn entries(&self) -> (r: &Vec<(String, String)>)
        ensures
            pair_views(r@) == self.model(),
    {
        &self.entries
    }
}

/// The environment that lookups give: the first `n` keys that are there.
pub open spec fn found_env(
    keys: Seq<Seq<char>>,
    lookups: Seq<Result<Option<String>, String>>,
    n: int,
) -> Seq<(Seq<char>, Seq<char>)>
    decreases n,
{
    if n <= 0 {
        Seq::empty()
    } else {
        let front = found_env(keys, lookups, n - 1);
        match lookups[n - 1] {
            Ok(Some(v)) if v@.len() > 0 => with_value(front, keys[n - 1], v@),
            _ => front,
        }
    }
}

/// An environment with the first `n` extra values put in.
pub open spec fn with_extra(
    env: Seq<(Seq<char>, Seq<char>)>,
    extra: Seq<(Seq<char>, Seq<char>)>,
    n: int,
) -> Seq<(Seq<char>, Seq<char>)>
    decreases n,
{
    if n <= 0 {
        env
    } else {
        with_value(with_extra(env, extra, n - 1), extra[n - 1].0, extra[n - 1].1)
    }
}

/// The environment of an agent: the credentials that it needs and that are
/// there, and then its extra values. `lookups` holds what the store gave for
/// each key.
pub fn env_with(
    keys: &Vec<String>,
    lookups: &Vec<Result<Option<String>, String>>,
    extra: &Vec<(String, String)>,
) -> (r: EnvMap)
    requires
        lookups@.len() == keys@.len(),
    ensures
        r.model() == with_extra(
            found_env(text::views(keys@), lookups@, keys@.len() as int),
            pair_views(extra@),
            extra@.len() as int,
        ),
{
    let ghost kv = text::views(keys@);
    let ghost ev = pair_views(extra@);
    let mut out = EnvMap::new();
    let mut i: usize = 0;
    while i < keys.len()
        invariant
            i <= keys@.len(),
            lookups@.len() == keys@.len(),
            kv == text::views(keys@),
            out.model() == found_env(kv, lookups@, i as int),
        decreases keys@.len() - i,
    {
        proof {
            assert(kv[i as int] == keys@[i as int]@);
        }
        match &lookups[i] {
            Ok(found) => match found {
                Some(v) => {
                    if v.as_str().unicode_len() > 0 {
                        out.insert(keys[i].as_str(), v.clone());
                    }
                },
                None => {},
            },
            Err(_) => {},
        }
        i += 1;
    }
    let ghost base = out.model();
    let mut j: usize = 0;
    while j < extra.len()
        invariant
            j <= extra@.len(),
            ev == pair_views(extra@),
            out.model() == with_extra(base, ev, j as int),
        decreases extra@.len() - j,
    {
        out.insert(extra[j].0.as_str(), extra[j].1.clone());
        j += 1;
    }
    out
}

/// Whether a store may answer so for each key that an agent needs.
pub open spec fn all_given<S: CredentialStore>(
    store: &S,
    harness: HarnessInfo,
    lookups: Seq<Result<Option<String>, String>>,
) -> bool {
    &&& lookups.len() == harness.required_env_keys@.len()
    &&& forall|j: int|
        0 <= j < lookups.len() ==> gives(
            store,
            harness.provider_id@,
            harness.required_env_keys@[j]@,
            #[trigger] lookups[j],
        )
}

/// The environment of an agent, with the credentials that the store gives: none
/// at all for an agent that is not known.
pub fn env_for_harness<S: CredentialStore>(
    harness: Option<&HarnessInfo>,
    extra: &Vec<(String, String)>,
    store: &S,
) -> (r: EnvMap)
    ensures
        match harness {
            None => r.model() == Seq::<(Seq<char>, Seq<char>)>::empty(),
            Some(h) => exists|lookups: Seq<Result<Option<String>, String>>|
                #[trigger] all_given(store, *h, lookups) && r.model() == with_extra(
                    found_env(
                        text::views(h.required_env_keys@),
                        lookups,
                        h.required_env_keys@.len() as int,
                    ),
                    pair_views(extra@),
                    extra@.len() as int,
                ),
        },
{
    let h = match harness {
        Some(h) => h,
        None => {
            return EnvMap::new();
        },
    };
    let mut lookups: Vec<Result<Option<String>, String>> = Vec::new();
    let mut i: usize = 0;
    while i < h.required_env_keys.len()
        invariant
            i <= h.required_env_keys@.len(),
            lookups@.len() == i,
            forall|j: int|
                0 <= j < i ==> gives(
                    store,
                    h.provider_id@,
                    h.required_env_keys@[j]@,
                    #[trigger] lookups@[j],
                ),
        decreases h.required_env_keys@.len() - i,
    {
        let p = h.provider_id.as_str();
        let k = h.required_env_keys[i].as_str();
        let lookup = store.get(p, k);
        proof {
            assert(call_ensures(S::get, (store, p, k), lookup));
            assert(gives(store, h.provider_id@, h.required_env_keys@[i as int]@, lookup));
        }
        lookups.push(lookup);
        i += 1;
    }
    proof {
        assert(all_given(store, *h, lookups@));
    }
    env_with(&h.required_env_keys, &lookups, extra)
}

/// Credentials that are kept in memory.
pub struct MemoryCredentialStore {
    inner: Vec<(String, String, String)>,
}

/// The credentials as a map: of two entries with the same provider and key the
/// later one counts.
pub open spec fn credential_map(s: Seq<(String, String, String)>) -> Map<
    (Seq<char>, Seq<char>),
    Seq<char>,
>
    decreases s.len(),
{
    if s.len() == 0 {
        Map::empty()
    } else {
        credential_map(s.drop_last()).insert((s.last().0@, s.last().1@), s.last().2@)
    }
}

/// The provider and key of an entry.
pub open spec fn scope_of(e: (String, String, String)) -> (Seq<char>, Seq<char>) {
    (e.0@, e.1@)
}

proof fn lemma_map_has(s: Seq<(String, String, String)>, i: int)
    requires
        0 <= i < s.len(),
        forall|j: int| i < j < s.len() ==> scope_of(#[trigger] s[j]) != scope_of(s[i]),
    ensures
        credential_map(s).dom().contains(scope_of(s[i])),
        credential_map(s)[scope_of(s[i])] == s[i].2@,
    decreases s.len(),
{
    if i < s.len() - 1 {
        let front = s.drop_last();
        assert forall|j: int| i < j < front.len() implies scope_of(#[trigger] front[j])
            != scope_of(front[i]) by {
            assert(front[j] == s[j]);
        }
        lemma_map_has(front, i);
        assert(scope_of(s[s.len() - 1]) != scope_of(s[i]));
    }
}

proof fn lemma_map_lacks(s: Seq<(String, String, String)>, k: (Seq<char>, Seq<char>))
    requires
        forall|i: int| 0 <= i < s.len() ==> scope_of(#[trigger] s[i]) != k,
    ensures
        !credential_map(s).dom().contains(k),
    decreases s.len(),
{
    if s.len() > 0 {
        let front = s.drop_last();
        assert forall|i: int| 0 <= i < front.len() implies scope_of(#[trigger] front[i]) != k by {
            assert(front[i] == s[i]);
        }
        lemma_map_lacks(front, k);
        assert(scope_of(s[s.len() - 1]) != k);
    }
}

/// What an entry says does not matter for other providers and keys.
proof fn lemma_map_update(s: Seq<(String, String, String)>, i: int, x: (String, String, String))
    requires
        0 <= i < s.len(),
        scope_of(x) == scope_of(s[i]),
        forall|j: int| i < j < s.len() ==> scope_of(#[trigger] s[j]) != scope_of(s[i]),
    ensures
        credential_map(s.update(i, x)) == credential_map(s).insert(scope_of(x), x.2@),
    decreases s.len(),
{
    let t = s.update(i, x);
    let front = s.drop_last();
    if i == s.len() - 1 {
        assert(t.drop_last() =~= front);
        assert(credential_map(t) =~= credential_map(s).insert(scope_of(x), x.2@));
    } else {
        assert forall|j: int| i < j < front.len() implies scope_of(#[trigger] front[j])
            != scope_of(front[i]) by {
            assert(front[j] == s[j]);
        }
        lemma_map_update(front, i, x);
        assert(t.drop_last() =~= front.update(i, x));
        assert(t.last() == s.last());
        assert(scope_of(s[s.len() - 1]) != scope_of(s[i]));
        assert(credential_map(t) =~= credential_map(s).insert(scope_of(x), x.2@));
    }
}

proof fn lemma_map_remove(s: Seq<(String, String, String)>, i: int)
    requires
        0 <= i < s.len(),
    ensures
        credential_map(s.remove(i)).remove(scope_of(s[i])) == credential_map(s).remove(
            scope_of(s[i]),
        ),
    decreases s.len(),
{
    let k = scope_of(s[i]);
    let t = s.remove(i);
    let front = s.drop_last();
    if i == s.len() - 1 {
        assert(t =~= front);
        assert(credential_map(t).remove(k) =~= credential_map(s).remove(k));
    } else {
        lemma_map_remove(front, i);
        assert(front[i] == s[i]);
        assert(t.drop_last() =~= front.remove(i));
        assert(t.last() == s.last());
        let m = credential_map(front.remove(i));
        let n = credential_map(front);
        let l = scope_of(s.last());
        let v = s.last().2@;
        assert(credential_map(t) == m.insert(l, v));
        assert(credential_map(s) == n.insert(l, v));
        if l == k {
            assert(m.insert(l, v).remove(k) =~= m.remove(k));
            assert(n.insert(l, v).remove(k) =~= n.remove(k));
        } else {
            assert(m.insert(l, v).remove(k) =~= m.remove(k).insert(l, v));
            assert(n.insert(l, v).remove(k) =~= n.remove(k).insert(l, v));
        }
    }
}

impl Default for MemoryCredentialStore {
    fn default() -> (r: Self)
        ensures
            r.model() == Map::<(Seq<char>, Seq<char>), Seq<char>>::empty(),
    {
        MemoryCredentialStore::new()
    }
}

impl MemoryCredentialStore {
    /// The credentials.
    pub closed spec fn model(&self) -> Map<(Seq<char>, Seq<char>), Seq<char>> {
        credential_map(self.inner@)
    }

    /// No credentials.
    pub fn new() -> (r: Self)
        ensures
            r.model() == Map::<(Seq<char>, Seq<char>), Seq<char>>::empty(),
    {
        MemoryCredentialStore { inner: Vec::new() }
    }

    /// The last entry of a provider under a key.
    fn find(&self, provider_id: &str, env_key: &str) -> (r: Option<usize>)
        ensures
            match r {
                Some(i) => i < self.inner@.len() && scope_of(self.inner@[i as int]) == (
                    provider_id@,
                    env_key@,
                ) && forall|j: int|
                    i < j < self.inner@.len() ==> scope_of(#[trigger] self.inner@[j]) != (
                        provider_id@,
                        env_key@,
                    ),
                None => forall|j: int|
                    0 <= j < self.inner@.len() ==> scope_of(#[trigger] self.inner@[j]) != (
                        provider_id@,
                        env_key@,
                    ),
            },
    {
        let mut i: usize = self.inner.len();
        while i > 0
            invariant
                i <= self.inner@.len(),
                forall|j: int|
                    i <= j < self.inner@.len() ==> scope_of(#[trigger] self.inner@[j]) != (
                        provider_id@,
                        env_key@,
                    ),
            decreases i,
        {
            i -= 1;
            if text::str_eq(self.inner[i].0.as_str(), provider_id) && text::str_eq(
                self.inner[i].1.as_str(),
                env_key,
            ) {
                return Some(i);
            }
        }
        None
    }
}

impl CredentialStore for MemoryCredentialStore {
    fn get(&self, provider_id: &str, env_key: &str) -> (r: Result<Option<String>, String>)
        ensures
            match r {
                Ok(Some(v)) => self.model().dom().contains((provider_id@, env_key@))
                    && self.model()[(provider_id@, env_key@)] == v@,
                Ok(None) => !self.model().dom().contains((provider_id@, env_key@)),
                Err(_) => false,
            },
    {
        match self.find(provider_id, env_key) {
            Some(i) => {
                proof {
                    lemma_map_has(self.inner@, i as int);
                }
                Ok(Some(self.inner[i].2.clone()))
            },
            None => {
                proof {
                    lemma_map_lacks(self.inner@, (provider_id@, env_key@));
                }
                Ok(None)
            },
        }
    }

    fn set(&mut self, provider_id: &str, env_key: &str, value: &str) -> (r: Result<(), String>)
        ensures
            r is Ok,
            final(self).model() == old(self).model().insert((provider_id@, env_key@), value@),
    {
        let entry = (provider_id.to_owned(), env_key.to_owned(), value.to_owned());
        let ghost before = self.inner@;
        let ghost x = entry;
        match self.find(provider_id, env_key) {
            Some(i) => {
                proof {
                    lemma_map_update(before, i as int, x);
                }
                self.inner.set(i, entry);
            },
            None => {
                self.inner.push(entry);
                proof {
                    assert(self.inner@.drop_last() =~= before);
                }
            },
        }
        Ok(())
    }

    fn delete(&mut self, provider_id: &str, env_key: &str) -> (r: Result<(), String>)
        ensures
            r is Ok,
            final(self).model() == old(self).model().remove((provider_id@, env_key@)),
    {
        let ghost k = (provider_id@, env_key@);
        let ghost wanted = self.model().remove(k);
        let mut found = self.find(provider_id, env_key);
        while found.is_some()
            invariant
                k == (provider_id@, env_key@),
                self.model().remove(k) == wanted,
                match found {
                    Some(i) => i < self.inner@.len() && scope_of(self.inner@[i as int]) == k,
                    None => forall|j: int|
                        0 <= j < self.inner@.len() ==> scope_of(#[trigger] self.inner@[j]) != k,
                },
            decreases self.inner@.len(),
        {
            match found {
                Some(i) => {
                    proof {
                        lemma_map_remove(self.inner@, i as int);
                    }
                    self.inner.remove(i);
                },
                None => {},
            }
            found = self.find(provider_id, env_key);
        }
        proof {
            lemma_map_lacks(self.inner@, k);
            assert(self.model().remove(k) =~= self.model());
        }
        Ok(())
    }
}

/// A store gives back the credential that it was last told to keep, as long as
/// it was not told to forget it; what it is told of others changes nothing.
pub proof fn law_kept_credentials_are_given(
    before: Map<(Seq<char>, Seq<char>), Seq<char>>,
    k: (Seq<char>, Seq<char>),
    value: Seq<char>,
    other: (Seq<char>, Seq<char>),
    next: Seq<char>,
)
    requires
        other != k,
    ensures
        before.insert(k, value).insert(other, next)[k] == value,
        before.insert(k, value).remove(other)[k] == value,
        !before.insert(k, value).remove(k).dom().contains(k),
{
}

} // verus!
