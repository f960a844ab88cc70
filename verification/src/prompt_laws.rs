//! What filling outputs into a prompt gives.

use vstd::prelude::*;
use crate::pipeline;
use crate::pipeline::StageId;
use crate::text;

verus! {

/// A piece of a template: plain text, or the place of a stage's output.
pub enum Piece {
    Plain(Seq<char>),
    Place(Seq<char>),
}

/// Whether `s` holds no brace.
pub open spec fn braceless(s: Seq<char>) -> bool {
    forall|i: int| 0 <= i < s.len() ==> #[trigger] s[i] != '{' && s[i] != '}'
}

/// The text inside a piece.
pub open spec fn inside(p: Piece) -> Seq<char> {
    match p {
        Piece::Plain(t) => t,
        Piece::Place(id) => id,
    }
}

/// How a piece is written: a place is the name of its stage in double braces.
pub open spec fn written(p: Piece) -> Seq<char> {
    match p {
        Piece::Plain(t) => t,
        Piece::Place(id) => seq!['{', '{'] + id + seq!['}', '}'],
    }
}

/// The pieces in a row, as they are written.
pub open spec fn spelled(pieces: Seq<Piece>) -> Seq<char> {
    Seq::new(pieces.len(), |i: int| written(pieces[i])).flatten()
}

/// The first of the `n` outputs that is of the stage `id`.
pub open spec fn is_output_of(
    outputs: Seq<(StageId, String)>,
    n: int,
    id: Seq<char>,
    k: int,
) -> bool {
    &&& 0 <= k < n
    &&& outputs[k].0@ == id
    &&& forall|j: int| 0 <= j < k ==> (#[trigger] outputs[j]).0@ != id
}

/// A piece with the first `n` outputs filled in: the output of the stage whose
/// place it is, where there is one; else the piece itself.
pub open spec fn filled(p: Piece, outputs: Seq<(StageId, String)>, n: int) -> Piece {
    match p {
        Piece::Plain(t) => p,
        Piece::Place(id) => if exists|k: int| is_output_of(outputs, n, id, k) {
            Piece::Plain(outputs[choose|k: int| is_output_of(outputs, n, id, k)].1@)
        } else {
            p
        },
    }
}

proof fn lemma_marks(id: Seq<char>)
    ensures
        pipeline::placeholder(id) == written(Piece::Place(id)),
{
    reveal_strlit("{{");
    reveal_strlit("}}");
    assert("{{"@ =~= seq!['{', '{']);
    assert("}}"@ =~= seq!['}', '}']);
}

proof fn lemma_spelled_cons(p: Piece, more: Seq<Piece>)
    ensures
        spelled(seq![p] + more) == written(p) + spelled(more),
        spelled(Seq::empty()) == Seq::<char>::empty(),
{
    let all = seq![p] + more;
    let texts = Seq::new(all.len(), |i: int| written(all[i]));
    let rest = Seq::new(more.len(), |i: int| written(more[i]));
    assert(texts.drop_first() =~= rest);
    assert(texts.first() == written(p));
    let none = Seq::<Piece>::empty();
    assert(Seq::new(none.len(), |i: int| written(none[i])).flatten() =~= Seq::empty());
}

/// What begins with no brace stays, up to the first brace.
proof fn lemma_plain_stays(t: Seq<char>, rest: Seq<char>, pat: Seq<char>, with: Seq<char>)
    requires
        pat.len() > 0,
        pat[0] == '{',
        forall|i: int| 0 <= i < t.len() ==> #[trigger] t[i] != '{',
    ensures
        text::replaced(t + rest, pat, with) == t + text::replaced(rest, pat, with),
    decreases t.len(),
{
    if t.len() == 0 {
        assert(t + rest =~= rest);
        assert(t + text::replaced(rest, pat, with) =~= text::replaced(rest, pat, with));
    } else {
        let s = t + rest;
        assert(s[0] == t[0]);
        if text::starts_with(s, pat) {
            assert(s.take(pat.len() as int)[0] == s[0]);
        }
        let fewer = t.skip(1);
        assert forall|i: int| 0 <= i < fewer.len() implies #[trigger] fewer[i] != '{' by {
            assert(fewer[i] == t[i + 1]);
        }
        lemma_plain_stays(fewer, rest, pat, with);
        assert(s.skip(1) =~= fewer + rest);
        assert(seq![t[0]] + (fewer + text::replaced(rest, pat, with)) =~= t + text::replaced(
            rest,
            pat,
            with,
        ));
    }
}

/// The place of another stage stays.
proof fn lemma_other_place_stays(
    other: Seq<char>,
    id: Seq<char>,
    rest: Seq<char>,
    with: Seq<char>,
)
    requires
        braceless(other),
        braceless(id),
        other != id,
    ensures
        text::replaced(written(Piece::Place(other)) + rest, written(Piece::Place(id)), with)
            == written(Piece::Place(other)) + text::replaced(
            rest,
            written(Piece::Place(id)),
            with,
        ),
{
    let pat = written(Piece::Place(id));
    let w = written(Piece::Place(other));
    let s = w + rest;
    assert(pat[0] == '{' && pat[1] == '{');
    if text::starts_with(s, pat) {
        let front = s.take(pat.len() as int);
        assert(front == pat);
        let n = id.len() as int;
        let m = other.len() as int;
        assert(pat[2 + n] == '}');
        assert(s[2 + m] == '}');
        if n < m {
            assert(front[2 + n] == s[2 + n]);
            assert(s[2 + n] == other[n]);
        } else if m < n {
            assert(front[2 + m] == s[2 + m]);
            assert(pat[2 + m] == id[m]);
        } else {
            assert forall|i: int| 0 <= i < n implies other[i] == id[i] by {
                assert(front[2 + i] == s[2 + i]);
                assert(s[2 + i] == other[i]);
                assert(pat[2 + i] == id[i]);
            }
            assert(other =~= id);
        }
    }
    let s1 = s.skip(1);
    let w1 = w.skip(1);
    assert(s1[0] == '{');
    assert(s1[1] != '{') by {
        assert(s1[1] == w[2]);
        if other.len() > 0 {
            assert(w[2] == other[0]);
        }
    }
    if text::starts_with(s1, pat) {
        assert(s1.take(pat.len() as int)[1] == s1[1]);
    }
    let tail = w.skip(2);
    assert(s1.skip(1) =~= tail + rest);
    assert forall|i: int| 0 <= i < tail.len() implies #[trigger] tail[i] != '{' by {
        assert(tail[i] == w[i + 2]);
        if i < other.len() {
            assert(w[i + 2] == other[i]);
        }
    }
    lemma_plain_stays(tail, rest, pat, with);
    let done = text::replaced(rest, pat, with);
    assert(text::replaced(s1, pat, with) == seq![s1[0]] + (tail + done));
    assert(text::replaced(s, pat, with) == seq![s[0]] + text::replaced(s1, pat, with));
    assert(seq![s[0]] + (seq![s1[0]] + (tail + done)) =~= w + done);
}

/// Whether the pieces hold no braces inside.
pub open spec fn all_braceless(pieces: Seq<Piece>) -> bool {
    forall|i: int| 0 <= i < pieces.len() ==> braceless(inside(#[trigger] pieces[i]))
}

/// A piece with the place of one stage filled in.
spec fn filled_once(p: Piece, id: Seq<char>, with: Seq<char>) -> Piece {
    if p == Piece::Place(id) {
        Piece::Plain(with)
    } else {
        p
    }
}

proof fn lemma_one_output(pieces: Seq<Piece>, id: Seq<char>, with: Seq<char>)
    requires
        all_braceless(pieces),
        braceless(id),
    ensures
        text::replaced(spelled(pieces), pipeline::placeholder(id), with) == spelled(
            pieces.map_values(|p: Piece| filled_once(p, id, with)),
        ),
    decreases pieces.len(),
{
    lemma_marks(id);
    let pat = written(Piece::Place(id));
    let after = pieces.map_values(|p: Piece| filled_once(p, id, with));
    if pieces.len() == 0 {
        lemma_spelled_cons(Piece::Plain(id), pieces);
        assert(pieces =~= Seq::empty());
        assert(after =~= Seq::empty());
    } else {
        let more = pieces.skip(1);
        let p = pieces[0];
        assert(pieces =~= seq![p] + more);
        assert forall|i: int| 0 <= i < more.len() implies braceless(
            inside(#[trigger] more[i]),
        ) by {
            assert(more[i] == pieces[i + 1]);
        }
        lemma_one_output(more, id, with);
        let after_more = more.map_values(|p: Piece| filled_once(p, id, with));
        assert(after =~= seq![filled_once(p, id, with)] + after_more);
        lemma_spelled_cons(p, more);
        lemma_spelled_cons(filled_once(p, id, with), after_more);
        let rest = spelled(more);
        assert(braceless(inside(pieces[0])));
        match p {
            Piece::Plain(t) => {
                lemma_plain_stays(t, rest, pat, with);
            },
            Piece::Place(other) => {
                if other == id {
                    let s = pat + rest;
                    assert(s.take(pat.len() as int) =~= pat);
                    assert(s.skip(pat.len() as int) =~= rest);
                } else {
                    lemma_other_place_stays(other, id, rest, with);
                }
            },
        }
    }
}

/// In a template of pieces without braces inside, every place of a stage that
/// has an output becomes that output, however often it stands there; all other
/// text stays, the places of other stages too. The names of the stages and the
/// outputs hold no braces.
pub proof fn law_every_place_is_filled(
    pieces: Seq<Piece>,
    outputs: Seq<(StageId, String)>,
    n: int,
)
    requires
        all_braceless(pieces),
        0 <= n <= outputs.len(),
        forall|k: int|
            0 <= k < n ==> braceless((#[trigger] outputs[k]).0@) && braceless(outputs[k].1@),
    ensures
        pipeline::interpolated(spelled(pieces), outputs, n) == spelled(
            pieces.map_values(|p: Piece| filled(p, outputs, n)),
        ),
        all_braceless(pieces.map_values(|p: Piece| filled(p, outputs, n))),
    decreases n,
{
    let after = pieces.map_values(|p: Piece| filled(p, outputs, n));
    if n == 0 {
        assert(after =~= pieces);
    } else {
        law_every_place_is_filled(pieces, outputs, n - 1);
        let before = pieces.map_values(|p: Piece| filled(p, outputs, n - 1));
        let id = outputs[n - 1].0@;
        let with = outputs[n - 1].1@;
        lemma_one_output(before, id, with);
        let next = before.map_values(|p: Piece| filled_once(p, id, with));
        assert forall|i: int| 0 <= i < pieces.len() implies #[trigger] after[i] == next[i]
            && braceless(inside(after[i])) by {
            let p = pieces[i];
            assert(before[i] == filled(p, outputs, n - 1));
            assert(braceless(inside(before[i])));
            assert(braceless(inside(pieces[i])));
            match p {
                Piece::Plain(t) => {},
                Piece::Place(other) => {
                    lemma_filled_step(other, outputs, n);
                },
            }
        }
        assert(after =~= next);
    }
}

proof fn lemma_filled_step(other: Seq<char>, outputs: Seq<(StageId, String)>, n: int)
    requires
        0 < n <= outputs.len(),
    ensures
        filled(Piece::Place(other), outputs, n) == filled_once(
            filled(Piece::Place(other), outputs, n - 1),
            outputs[n - 1].0@,
            outputs[n - 1].1@,
        ),
{
    let id = outputs[n - 1].0@;
    let fewer = n - 1;
    if exists|k: int| is_output_of(outputs, fewer, other, k) {
        let k = choose|k: int| is_output_of(outputs, fewer, other, k);
        assert(is_output_of(outputs, n, other, k));
        let m = choose|m: int| is_output_of(outputs, n, other, m);
        assert(m == k) by {
            if m < k {
                assert(outputs[m].0@ != other);
            } else if k < m {
                assert(outputs[k].0@ != other);
            }
        }
    } else if id == other {
        lemma_first_of_stage(other, outputs, n - 1);
        assert(is_output_of(outputs, n, other, n - 1));
        let m = choose|m: int| is_output_of(outputs, n, other, m);
        if m < n - 1 {
            assert(is_output_of(outputs, n - 1, other, m));
        }
    } else if exists|k: int| is_output_of(outputs, n, other, k) {
        let k = choose|k: int| is_output_of(outputs, n, other, k);
        assert(is_output_of(outputs, n - 1, other, k));
    }
}

proof fn lemma_first_of_stage(id: Seq<char>, outputs: Seq<(StageId, String)>, n: int)
    requires
        0 <= n <= outputs.len(),
        !exists|k: int| is_output_of(outputs, n, id, k),
    ensures
        forall|j: int| 0 <= j < n ==> (#[trigger] outputs[j]).0@ != id,
    decreases n,
{
    if n > 0 {
        let fewer = n - 1;
        if exists|k: int| is_output_of(outputs, fewer, id, k) {
            let k = choose|k: int| is_output_of(outputs, fewer, id, k);
            assert(is_output_of(outputs, n, id, k));
        }
        lemma_first_of_stage(id, outputs, n - 1);
        if outputs[n - 1].0@ == id {
            assert(is_output_of(outputs, n, id, n - 1));
        }
    }
}

} // verus!
