//! What the environment of an agent holds.

use vstd::prelude::*;
use crate::credential_store as store;

verus! {

proof fn lemma_name_index(s: Seq<(Seq<char>, Seq<char>)>, name: Seq<char>, from: int)
    requires
        0 <= from <= s.len(),
    ensures
        ({
            let i = store::name_index(s, name, from);
            &&& from <= i <= s.len()
            &&& i < s.len() ==> s[i].0 == name
            &&& forall|j: int| from <= j < i ==> (#[trigger] s[j]).0 != name
        }),
    decreases s.len() - from,
{
    if from < s.len() && s[from].0 != name {
        lemma_name_index(s, name, from + 1);
    }
}

/// The value under a name is that of the first entry of the name.
pub proof fn law_value_under_a_name(s: Seq<(Seq<char>, Seq<char>)>, name: Seq<char>, i: int)
    requires
        0 <= i <= s.len(),
        forall|j: int| 0 <= j < i ==> (#[trigger] s[j]).0 != name,
        i < s.len() ==> s[i].0 == name,
    ensures
        store::value_under(s, name) == if i < s.len() {
            Some(s[i].1)
        } else {
            None
        },
{
    lemma_name_index(s, name, 0);
    let k = store::name_index(s, name, 0);
    if k < i {
        assert(s[k].0 != name);
    }
    if i < k {
        assert(s[i].0 != name);
    }
}

/// A value that is put under a name is found there, every other name keeps its
/// value, and the names stay in their order, a new one behind them.
pub proof fn law_value_is_put(
    s: Seq<(Seq<char>, Seq<char>)>,
    name: Seq<char>,
    value: Seq<char>,
    other: Seq<char>,
)
    ensures
        ({
            let t = store::with_value(s, name, value);
            &&& store::value_under(t, name) == Some(value)
            &&& other != name ==> store::value_under(t, other) == store::value_under(s, other)
            &&& t.len() == if store::value_under(s, name) is Some {
                s.len()
            } else {
                s.len() + 1
            }
            &&& forall|i: int| 0 <= i < s.len() ==> (#[trigger] t[i]).0 == s[i].0
        }),
{
    let t = store::with_value(s, name, value);
    lemma_name_index(s, name, 0);
    lemma_name_index(t, name, 0);
    lemma_name_index(s, other, 0);
    lemma_name_index(t, other, 0);
    let (i, k) = (store::name_index(s, name, 0), store::name_index(t, name, 0));
    assert(t[i].0 == name && t[i].1 == value);
    if k < i {
        assert(t[k].0 == s[k].0);
        assert(s[k].0 != name);
    }
    if i < k {
        assert(t[i].0 != name);
    }
    if other != name {
        let (a, b) = (store::name_index(s, other, 0), store::name_index(t, other, 0));
        if a < s.len() {
            assert(a != i);
            assert(t[a] == s[a]);
            if b < a {
                assert(t[b].0 == s[b].0);
                assert(s[b].0 != other);
            }
            if a < b {
                assert(t[a].0 != other);
            }
        } else if b < t.len() {
            if b < s.len() {
                assert(t[b].0 == s[b].0);
                assert(s[b].0 != other);
            }
        }
    }
}

/// What a list of pairs says of a name: the value of its last entry.
pub open spec fn said_last(
    pairs: Seq<(Seq<char>, Seq<char>)>,
    name: Seq<char>,
    value: Option<Seq<char>>,
) -> bool {
    match value {
        Some(v) => exists|k: int|
            0 <= k < pairs.len() && (#[trigger] pairs[k]) == (name, v) && forall|j: int|
                k < j < pairs.len() ==> (#[trigger] pairs[j]).0 != name,
        None => forall|j: int| 0 <= j < pairs.len() ==> (#[trigger] pairs[j]).0 != name,
    }
}

/// An extra value takes the place of one that was there; where there are several
/// of a name, the last counts. Other values stay.
pub proof fn law_extra_values_count(
    env: Seq<(Seq<char>, Seq<char>)>,
    extra: Seq<(Seq<char>, Seq<char>)>,
    n: int,
    name: Seq<char>,
)
    requires
        0 <= n <= extra.len(),
    ensures
        ({
            let r = store::value_under(store::with_extra(env, extra, n), name);
            ||| said_last(extra.take(n), name, r)
            ||| said_last(extra.take(n), name, None) && r == store::value_under(env, name)
        }),
        (exists|k: int| 0 <= k < n && (#[trigger] extra[k]).0 == name) ==> said_last(
            extra.take(n),
            name,
            store::value_under(store::with_extra(env, extra, n), name),
        ),
        !(exists|k: int| 0 <= k < n && (#[trigger] extra[k]).0 == name) ==> store::value_under(
            store::with_extra(env, extra, n),
            name,
        ) == store::value_under(env, name),
    decreases n,
{
    if n > 0 {
        law_extra_values_count(env, extra, n - 1, name);
        let before = store::with_extra(env, extra, n - 1);
        let (key, value) = extra[n - 1];
        law_value_is_put(before, key, value, name);
        let (less, all) = (extra.take(n - 1), extra.take(n));
        let r = store::value_under(store::with_extra(env, extra, n), name);
        if key == name {
            assert(all[n - 1] == (name, value));
            assert(said_last(all, name, Some(value)));
        } else {
            assert(r == store::value_under(before, name));
            if said_last(less, name, r) && r is Some {
                let k = choose|k: int|
                    0 <= k < less.len() && (#[trigger] less[k]) == (name, r->0) && forall|j: int|
                        k < j < less.len() ==> (#[trigger] less[j]).0 != name;
                assert(all[k] == (name, r->0));
                assert forall|j: int| k < j < all.len() implies (#[trigger] all[j]).0 != name by {
                    if j < n - 1 {
                        assert(all[j] == less[j]);
                    }
                }
            }
            if said_last(less, name, None) {
                assert forall|j: int| 0 <= j < all.len() implies (#[trigger] all[j]).0 != name by {
                    if j < n - 1 {
                        assert(all[j] == less[j]);
                    }
                }
            }
            if exists|k: int| 0 <= k < n && (#[trigger] extra[k]).0 == name {
                let k = choose|k: int| 0 <= k < n && (#[trigger] extra[k]).0 == name;
                assert(0 <= k < n - 1 && extra[k].0 == name);
            }
        }
    }
}

/// A key whose lookup gave a value that is not empty stands in the environment
/// with it, the last such lookup of a key counting; a key without one does not.
pub proof fn law_found_credentials_count(
    keys: Seq<Seq<char>>,
    lookups: Seq<Result<Option<String>, String>>,
    n: int,
    name: Seq<char>,
)
    requires
        0 <= n <= keys.len(),
        keys.len() == lookups.len(),
    ensures
        (store::value_under(store::found_env(keys, lookups, n), name) matches Some(v)
            ==> exists|k: int|
            0 <= k < n && #[trigger] keys[k] == name && (lookups[k] matches Ok(Some(x)) && x@ == v
                && x@.len() > 0)),
        store::value_under(store::found_env(keys, lookups, n), name) is None ==> forall|k: int|
            0 <= k < n && #[trigger] keys[k] == name ==> !(lookups[k] matches Ok(Some(x)) && x@.len()
                > 0),
    decreases n,
{
    if n > 0 {
        law_found_credentials_count(keys, lookups, n - 1, name);
        let before = store::found_env(keys, lookups, n - 1);
        if lookups[n - 1] is Ok && lookups[n - 1]->Ok_0 is Some && (lookups[n
            - 1]->Ok_0->0)@.len() > 0 {
            let v = (lookups[n - 1]->Ok_0->0)@;
            law_value_is_put(before, keys[n - 1], v, name);
            if keys[n - 1] == name {
                assert(keys[n - 1] == name);
            }
        }
    } else {
        lemma_name_index(store::found_env(keys, lookups, n), name, 0);
    }
}

/// A lookup counts as a credential where it gave a value that is not empty.
pub proof fn law_present_lookups(lookup: Result<Option<String>, String>)
    ensures
        lookup is Err ==> !store::is_present(lookup),
        (lookup matches Ok(None)) ==> !store::is_present(lookup),
        (lookup matches Ok(Some(v)) ==> (store::is_present(lookup) <==> v@.len() > 0)),
{
}

/// Of the entries with one provider and key the last counts, whatever stands
/// before it; without one there is no value.
pub proof fn law_last_entry_counts(
    s: Seq<(String, String, String)>,
    e: (String, String, String),
    more: Seq<(String, String, String)>,
    key: (Seq<char>, Seq<char>),
)
    requires
        forall|i: int|
            0 <= i < more.len() ==> ((#[trigger] more[i]).0@, more[i].1@) != (e.0@, e.1@),
    ensures
        store::credential_map(s.push(e) + more).dom().contains((e.0@, e.1@)),
        store::credential_map(s.push(e) + more)[(e.0@, e.1@)] == e.2@,
        (forall|i: int| 0 <= i < s.len() ==> ((#[trigger] s[i]).0@, s[i].1@) != key)
            ==> !store::credential_map(s).dom().contains(key),
    decreases more.len() + s.len(),
{
    let all = s.push(e) + more;
    if more.len() > 0 {
        let less = more.drop_last();
        assert forall|i: int| 0 <= i < less.len() implies ((#[trigger] less[i]).0@, less[i].1@)
            != (e.0@, e.1@) by {
            assert(less[i] == more[i]);
        }
        law_last_entry_counts(s, e, less, key);
        assert(all.drop_last() =~= s.push(e) + less);
        assert(all.last() == more[more.len() - 1]);
    } else {
        assert(all =~= s.push(e));
        assert(s.push(e).drop_last() =~= s);
    }
    lemma_no_entry(s, key);
}

proof fn lemma_no_entry(s: Seq<(String, String, String)>, key: (Seq<char>, Seq<char>))
    ensures
        (forall|i: int| 0 <= i < s.len() ==> ((#[trigger] s[i]).0@, s[i].1@) != key)
            ==> !store::credential_map(s).dom().contains(key),
    decreases s.len(),
{
    if s.len() > 0 && (forall|i: int|
        0 <= i < s.len() ==> ((#[trigger] s[i]).0@, s[i].1@) != key) {
        let front = s.drop_last();
        assert forall|i: int| 0 <= i < front.len() implies ((#[trigger] front[i]).0@, front[i].1@)
            != key by {
            assert(front[i] == s[i]);
        }
        lemma_no_entry(front, key);
        assert((s[s.len() - 1].0@, s[s.len() - 1].1@) != key);
    }
}

} // verus!
