//! What holds of the list of agents that can run.

use vstd::prelude::*;
use crate::availability;
use crate::availability::{AvailabilityStatus, AvailabilityView, HarnessInfo, ProbeResult};
use crate::text;

verus! {

/// The missing keys are those that are not there, in their order.
pub proof fn law_missing_keys(v: Seq<(Seq<char>, bool)>)
    ensures
        availability::missing(v) == v.filter(|k: (Seq<char>, bool)| !k.1).map_values(
            |k: (Seq<char>, bool)| k.0,
        ),
    decreases v.len(),
{
    let wanted = |k: (Seq<char>, bool)| !k.1;
    let name = |k: (Seq<char>, bool)| k.0;
    reveal(Seq::filter);
    if v.len() == 0 {
        assert(v.filter(wanted).map_values(name) =~= Seq::empty());
    } else {
        law_missing_keys(v.drop_last());
        let front = v.drop_last().filter(wanted);
        assert(v.filter(wanted) == if wanted(v.last()) {
            front.push(v.last())
        } else {
            front
        });
        assert(front.push(v.last()).map_values(name) =~= front.map_values(name).push(v.last().0));
    }
}

/// An agent that is not installed is said to be so, whatever keys are there; one
/// that is needs credentials where one of its keys is not there.
pub proof fn law_status_of_an_agent(a: AvailabilityView, i: int)
    ensures
        !a.installed ==> availability::status_of(a) == AvailabilityStatus::NotInstalled,
        a.installed && 0 <= i < a.required_env.len() && !a.required_env[i].1
            ==> availability::status_of(a) == AvailabilityStatus::NeedsCredentials,
        a.installed && (forall|j: int|
            0 <= j < a.required_env.len() ==> (#[trigger] a.required_env[j]).1)
            ==> availability::status_of(a) == AvailabilityStatus::Ready,
{
}

/// An agent without a program to look for counts as installed; one with a program
/// where that was found, and its version is the one found then. Each key that it
/// requires is listed, with whether it is there.
pub proof fn law_what_is_told_of_an_agent(
    info: HarnessInfo,
    probe: Option<ProbeResult>,
    present: Seq<bool>,
    i: int,
)
    requires
        0 <= i < info.required_env_keys@.len(),
        present.len() == info.required_env_keys@.len(),
    ensures
        ({
            let a = availability::availability_of(info, probe, present);
            &&& a.agent == info.agent
            &&& a.provider_id == info.provider_id@
            &&& info.probe_program is None ==> a.installed && a.version is None
            &&& info.probe_program is Some && probe is None ==> !a.installed && a.version is None
            &&& (info.probe_program is Some && probe is Some ==> a.installed && a.version
                == text::opt_view((probe->0).version))
            &&& a.required_env.len() == info.required_env_keys@.len()
            &&& a.required_env[i] == (info.required_env_keys@[i]@, present[i])
            &&& info.install_hint@.len() > 0 ==> a.install_hint == Some(info.install_hint@)
            &&& info.install_hint@.len() == 0 ==> a.install_hint is None
        }),
{
}

/// A program is found where the search printed a path; its version is the first
/// line that it printed, without white space around it.
pub proof fn law_probing(path: Seq<char>, line: Seq<char>, rest: Seq<char>)
    requires
        !line.contains('\n'),
    ensures
        availability::probed(None, Some(line)) is None,
        text::trimmed(path).len() == 0 ==> availability::probed(Some(path), Some(line)) is None,
        text::trimmed(path).len() > 0 && text::trimmed(line).len() > 0 ==> {
            let found = Some((text::trimmed(path), Some(text::trimmed(line))));
            &&& availability::probed(Some(path), Some(line)) == found
            &&& availability::probed(Some(path), Some(line + seq!['\n'] + rest)) == found
        },
        text::trimmed(path).len() > 0 ==> availability::probed(Some(path), None) == Some(
            (text::trimmed(path), None::<Seq<char>>),
        ),
{
    let s = line + seq!['\n'] + rest;
    text::lemma_first_of(s, '\n');
    let n = text::first_of(s, '\n');
    assert(s[line.len() as int] == '\n');
    if n < line.len() {
        assert(line[n] == s[n]);
        assert(line.contains('\n'));
    }
    assert(n == line.len());
    assert(s.take(n) =~= line);
    text::lemma_first_of(line, '\n');
    let m = text::first_of(line, '\n');
    if m < line.len() {
        assert(line[m] == '\n');
    }
    assert(line.take(line.len() as int) =~= line);
}

/// Whether the agents stand in order of the names to show.
pub open spec fn in_order(v: Seq<AvailabilityView>) -> bool {
    forall|i: int, j: int|
        0 <= i < j < v.len() ==> !text::lex_lt(
            (#[trigger] v[j]).display_name,
            (#[trigger] v[i]).display_name,
        )
}

/// The agents are sorted by the names to show, and none comes or goes.
pub proof fn law_agents_stand_in_order(v: Seq<AvailabilityView>)
    ensures
        in_order(availability::by_name(v)),
        availability::by_name(v).to_multiset() == v.to_multiset(),
    decreases v.len(),
{
    if v.len() > 0 {
        law_agents_stand_in_order(v.drop_last());
        let front = availability::by_name(v.drop_last());
        let x = v.last();
        let n = availability::name_slot(front, x.display_name);
        lemma_slot(front, x.display_name);
        let out = front.insert(n, x);
        assert forall|i: int, j: int| 0 <= i < j < out.len() implies !text::lex_lt(
            (#[trigger] out[j]).display_name,
            (#[trigger] out[i]).display_name,
        ) by {
            let a = if i < n {
                front[i]
            } else if i == n {
                x
            } else {
                front[i - 1]
            };
            let b = if j < n {
                front[j]
            } else if j == n {
                x
            } else {
                front[j - 1]
            };
            assert(out[i] == a && out[j] == b);
            if i == n {
                assert(text::lex_lt(x.display_name, front[j - 1].display_name));
                if text::lex_lt(b.display_name, a.display_name) {
                    text::lemma_lex_transitive(a.display_name, b.display_name, a.display_name);
                    text::lemma_lex_irreflexive(a.display_name);
                }
            }
        }
        front.to_multiset_ensures();
        v.drop_last().to_multiset_ensures();
        vstd::seq_lib::to_multiset_insert(front, n, x);
        assert(v =~= v.drop_last().push(x));
    } else {
        assert(v =~= Seq::empty());
    }
}

proof fn lemma_slot(v: Seq<AvailabilityView>, name: Seq<char>)
    requires
        in_order(v),
    ensures
        0 <= availability::name_slot(v, name) <= v.len(),
        forall|i: int|
            0 <= i < availability::name_slot(v, name) ==> !text::lex_lt(
                name,
                (#[trigger] v[i]).display_name,
            ),
        forall|i: int|
            availability::name_slot(v, name) <= i < v.len() ==> text::lex_lt(
                name,
                (#[trigger] v[i]).display_name,
            ),
    decreases v.len(),
{
    if v.len() > 0 {
        let front = v.drop_last();
        let last = v.last().display_name;
        if text::lex_lt(name, last) {
            assert(in_order(front)) by {
                assert forall|i: int, j: int| 0 <= i < j < front.len() implies !text::lex_lt(
                    (#[trigger] front[j]).display_name,
                    (#[trigger] front[i]).display_name,
                ) by {
                    assert(front[i] == v[i] && front[j] == v[j]);
                }
            }
            lemma_slot(front, name);
            let n = availability::name_slot(front, name);
            assert forall|i: int| n <= i < v.len() implies text::lex_lt(
                name,
                (#[trigger] v[i]).display_name,
            ) by {
                if i < front.len() {
                    assert(v[i] == front[i]);
                }
            }
            assert forall|i: int| 0 <= i < n implies !text::lex_lt(
                name,
                (#[trigger] v[i]).display_name,
            ) by {
                assert(v[i] == front[i]);
            }
        } else {
            assert forall|i: int| 0 <= i < v.len() implies !text::lex_lt(
                name,
                (#[trigger] v[i]).display_name,
            ) by {
                if i < v.len() - 1 && text::lex_lt(name, v[i].display_name) {
                    assert(!text::lex_lt(v[v.len() - 1].display_name, v[i].display_name));
                    text::lemma_lex_total(last, v[i].display_name);
                    if text::lex_lt(v[i].display_name, last) {
                        text::lemma_lex_transitive(name, v[i].display_name, last);
                    }
                }
            }
        }
    }
}

} // verus!
