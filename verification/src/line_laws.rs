//! What the lines of a text are to a difference, and which paths are one.

use vstd::prelude::*;
use crate::overlay;

verus! {

/// Whether a text has neither line feeds nor carriage returns.
pub open spec fn on_one_line(s: Seq<char>) -> bool {
    forall|i: int| 0 <= i < s.len() ==> (#[trigger] s[i]) != '\n' && s[i] != '\r'
}

proof fn lemma_token_len(line: Seq<char>, tail: Seq<char>)
    requires
        on_one_line(line),
        tail.len() > 0,
    ensures
        overlay::first_token_len(line + tail) == line.len() + overlay::first_token_len(tail),
    decreases line.len(),
{
    let s = line + tail;
    if line.len() > 0 {
        let rest = line.skip(1);
        assert forall|i: int| 0 <= i < rest.len() implies (#[trigger] rest[i]) != '\n' && rest[i]
            != '\r' by {
            assert(rest[i] == line[i + 1]);
        }
        lemma_token_len(rest, tail);
        assert(s.skip(1) =~= rest + tail);
        assert(s[0] == line[0]);
    } else {
        assert(s =~= tail);
    }
}

proof fn lemma_bare_token_len(line: Seq<char>)
    requires
        on_one_line(line),
    ensures
        overlay::first_token_len(line) == line.len(),
    decreases line.len(),
{
    if line.len() > 1 {
        let rest = line.skip(1);
        assert forall|i: int| 0 <= i < rest.len() implies (#[trigger] rest[i]) != '\n' && rest[i]
            != '\r' by {
            assert(rest[i] == line[i + 1]);
        }
        lemma_bare_token_len(rest);
        assert(line[0] != '\n');
    }
}

/// The lines of a text end at a line feed, with the carriage return before it, or
/// at a carriage return alone; each line keeps its end, and a last one may have
/// none.
pub proof fn law_lines_with_their_ends(line: Seq<char>, rest: Seq<char>)
    requires
        on_one_line(line),
    ensures
        overlay::line_tokens(line + seq!['\n'] + rest) == seq![line + seq!['\n']]
            + overlay::line_tokens(rest),
        overlay::line_tokens(line + seq!['\r', '\n'] + rest) == seq![line + seq!['\r', '\n']]
            + overlay::line_tokens(rest),
        rest.len() == 0 || rest[0] != '\n' ==> overlay::line_tokens(line + seq!['\r'] + rest)
            == seq![line + seq!['\r']] + overlay::line_tokens(rest),
        line.len() > 0 ==> overlay::line_tokens(line) == seq![line],
        overlay::line_tokens(Seq::empty()) == Seq::<Seq<char>>::empty(),
{
    lemma_first_line(line, seq!['\n'], rest);
    lemma_first_line(line, seq!['\r', '\n'], rest);
    if rest.len() == 0 || rest[0] != '\n' {
        lemma_first_line(line, seq!['\r'], rest);
    }
    if line.len() > 0 {
        lemma_bare_token_len(line);
        let n = line.len() as int;
        assert(line.take(n) =~= line);
        assert(line.skip(n) =~= Seq::empty());
        assert(overlay::line_tokens(line.skip(n)) =~= Seq::empty());
        assert(overlay::line_tokens(line) =~= seq![line]);
    }
}

proof fn lemma_first_line(line: Seq<char>, end: Seq<char>, rest: Seq<char>)
    requires
        on_one_line(line),
        end == seq!['\n'] || end == seq!['\r', '\n'] || (end == seq!['\r'] && (rest.len() == 0
            || rest[0] != '\n')),
    ensures
        overlay::line_tokens(line + end + rest) == seq![line + end] + overlay::line_tokens(rest),
{
    let s = line + end + rest;
    let tail = end + rest;
    assert(s =~= line + tail);
    lemma_token_len(line, tail);
    assert(tail[0] == end[0]);
    if tail.len() > 1 {
        if end.len() == 2 {
            assert(tail[1] == end[1]);
        } else {
            assert(tail[1] == rest[0]);
        }
    }
    assert(overlay::first_token_len(tail) == end.len());
    let n = (line + end).len() as int;
    assert(s.take(n) =~= line + end);
    assert(s.skip(n) =~= rest);
}

/// A line is shown without its line feed, and without the carriage return before
/// one; a carriage return alone stays.
pub proof fn law_shown_line(line: Seq<char>)
    ensures
        overlay::without_newline(line + seq!['\r', '\n']) == line,
        line.len() == 0 || line.last() != '\r' ==> overlay::without_newline(line + seq!['\n'])
            == line,
        line.len() == 0 || line.last() != '\n' ==> overlay::without_newline(line) == line,
{
    assert((line + seq!['\r', '\n']).take(line.len() as int) =~= line);
    assert((line + seq!['\n']).drop_last() =~= line);
    let s = line + seq!['\n'];
    if line.len() > 0 {
        assert(s[s.len() - 2] == line.last());
    }
}

/// In one directory the rest of the paths decides.
pub proof fn law_same_directory(dir: Seq<char>, a: Seq<char>, b: Seq<char>)
    ensures
        overlay::path_lt(dir + seq!['/'] + a, dir + seq!['/'] + b) == overlay::path_lt(a, b),
{
    let (p, q) = (dir + seq!['/'] + a, dir + seq!['/'] + b);
    let n = dir.len() as int + 1;
    let front = overlay::path_key(p).take(n);
    assert forall|i: int| 0 <= i < n implies overlay::path_rank(p, i) == overlay::path_rank(
        q,
        i,
    ) by {
        assert(p[i] == q[i]);
        assert(p[n - 1] == '/' && q[n - 1] == '/');
        if i < n - 1 {
            assert(p[i + 1] == q[i + 1]);
            if i > 0 {
                assert(p[i - 1] == q[i - 1]);
                if i > 1 {
                    assert(p[i - 2] == q[i - 2]);
                }
            }
            if i < n - 2 {
                assert(p[i + 2] == q[i + 2]);
            }
        }
    }
    lemma_rank_behind(dir, a);
    lemma_rank_behind(dir, b);
    assert(overlay::path_key(p) =~= front + overlay::path_key(a));
    assert(overlay::path_key(q) =~= front + overlay::path_key(b));
    lemma_same_front(front, overlay::path_key(a), overlay::path_key(b));
}

proof fn lemma_rank_behind(dir: Seq<char>, a: Seq<char>)
    ensures
        forall|i: int|
            0 <= i < a.len() ==> overlay::path_rank(dir + seq!['/'] + a, dir.len() + 1 + i)
                == #[trigger] overlay::path_rank(a, i),
{
    let p = dir + seq!['/'] + a;
    let n = dir.len() as int + 1;
    assert forall|i: int| 0 <= i < a.len() implies overlay::path_rank(p, dir.len() + 1 + i)
        == #[trigger] overlay::path_rank(a, i) by {
        assert(p[n - 1] == '/');
        assert(p[n + i] == a[i]);
        if i > 0 {
            assert(p[n + i - 1] == a[i - 1]);
        }
        if i > 1 {
            assert(p[n + i - 2] == a[i - 2]);
        }
        if i + 1 < a.len() {
            assert(p[n + i + 1] == a[i + 1]);
        }
        if i + 2 < a.len() {
            assert(p[n + i + 2] == a[i + 2]);
        }
    }
}

proof fn lemma_same_front(k: Seq<int>, u: Seq<int>, v: Seq<int>)
    ensures
        overlay::key_lt(k + u, k + v) == overlay::key_lt(u, v),
    decreases k.len(),
{
    if k.len() > 0 {
        lemma_same_front(k.skip(1), u, v);
        assert((k + u).skip(1) =~= k.skip(1) + u);
        assert((k + v).skip(1) =~= k.skip(1) + v);
    } else {
        assert(k + u =~= u);
        assert(k + v =~= v);
    }
}

proof fn lemma_trimmed_alike(a: Seq<char>, u: Seq<char>, v: Seq<char>)
    requires
        u.len() > 0,
        v.len() > 0,
        u[0] == '/',
        v[0] == '/',
        overlay::trimmed_path(u) == overlay::trimmed_path(v),
    ensures
        overlay::trimmed_path(a + u) == overlay::trimmed_path(a + v),
    decreases a.len(),
{
    let (p, q) = (a + u, a + v);
    if a.len() == 0 {
        assert(p =~= u);
        assert(q =~= v);
    } else {
        lemma_trimmed_alike(a.skip(1), u, v);
        assert(p.skip(1) =~= a.skip(1) + u);
        assert(q.skip(1) =~= a.skip(1) + v);
        assert(p[0] == q[0] && p[1] == q[1]);
        if a.len() > 1 {
            lemma_trimmed_alike(a.skip(2), u, v);
            assert(p.skip(2) =~= a.skip(2) + u);
            assert(q.skip(2) =~= a.skip(2) + v);
            assert(p[2] == q[2]);
        }
    }
}

proof fn lemma_trimmed_end(a: Seq<char>, u: Seq<char>)
    requires
        u.len() > 0,
        u[0] == '/',
        overlay::trimmed_path(u).len() == 0,
    ensures
        overlay::trimmed_path(a + u) == overlay::trimmed_path(a),
    decreases a.len(),
{
    let p = a + u;
    if a.len() == 0 {
        assert(p =~= u);
        assert(overlay::trimmed_path(u) =~= overlay::trimmed_path(a));
    } else {
        lemma_trimmed_end(a.skip(1), u);
        assert(p.skip(1) =~= a.skip(1) + u);
        assert(p[0] == a[0]);
        if a.len() == 1 {
            assert(p[1] == '/');
            assert(a.skip(1) =~= Seq::empty());
        } else {
            lemma_trimmed_end(a.skip(2), u);
            assert(p.skip(2) =~= a.skip(2) + u);
            assert(p[1] == a[1]);
            if a.len() > 2 {
                assert(p[2] == a[2]);
            } else {
                assert(p[2] == '/');
                assert(a.skip(2) =~= Seq::empty());
            }
        }
    }
}

/// Separators side by side are one, a `.` behind a separator names nothing, and
/// neither does a separator at the end.
pub proof fn law_paths_that_are_one(a: Seq<char>, b: Seq<char>)
    ensures
        overlay::normal_path(a + seq!['/', '/'] + b) == overlay::normal_path(a + seq!['/'] + b),
        overlay::normal_path(a + seq!['/', '.', '/'] + b) == overlay::normal_path(
            a + seq!['/'] + b,
        ),
        a.len() > 0 ==> overlay::normal_path(a + seq!['/']) == overlay::normal_path(a),
        a.len() > 0 ==> overlay::normal_path(a + seq!['/', '.']) == overlay::normal_path(a),
{
    let one = seq!['/'] + b;
    let two = seq!['/', '/'] + b;
    let dot = seq!['/', '.', '/'] + b;
    assert(two.skip(1) =~= one);
    assert(two[1] == '/');
    assert(dot.skip(2) =~= one);
    assert(dot[1] == '.' && dot[2] == '/');
    lemma_trimmed_alike(a, two, one);
    lemma_trimmed_alike(a, dot, one);
    assert(a + seq!['/'] + b =~= a + one);
    assert(a + seq!['/', '/'] + b =~= a + two);
    assert(a + seq!['/', '.', '/'] + b =~= a + dot);
    let end = seq!['/'];
    let dot_end = seq!['/', '.'];
    assert(end.skip(1) =~= Seq::empty());
    assert(dot_end.skip(2) =~= Seq::empty());
    assert(overlay::trimmed_path(Seq::empty()).len() == 0);
    assert(overlay::trimmed_path(end) == overlay::trimmed_path(end.skip(1)));
    assert(overlay::trimmed_path(dot_end) == overlay::trimmed_path(dot_end.skip(2)));
    lemma_trimmed_end(a, end);
    lemma_trimmed_end(a, dot_end);
    if a.len() > 0 {
        assert((a + end)[0] == a[0]);
        assert((a + dot_end)[0] == a[0]);
        assert((a + one)[0] == a[0] && (a + two)[0] == a[0] && (a + dot)[0] == a[0]);
    } else {
        assert((a + one)[0] == '/' && (a + two)[0] == '/' && (a + dot)[0] == '/');
    }
}

} // verus!
