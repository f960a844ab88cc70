//! What holds of the functions on texts.

use vstd::prelude::*;
use crate::text;

verus! {

/// Whether `p` stands in `s` from position `at`.
pub open spec fn occurs_at(s: Seq<char>, at: int, p: Seq<char>) -> bool {
    0 <= at && at + p.len() <= s.len() && s.subrange(at, at + p.len()) == p
}

/// Whether `p` stands nowhere in `s`.
pub open spec fn absent(s: Seq<char>, p: Seq<char>) -> bool {
    forall|at: int| !#[trigger] occurs_at(s, at, p)
}

/// Whether `p`, put behind `s`, does not begin within `s`.
pub open spec fn apart(s: Seq<char>, p: Seq<char>) -> bool {
    forall|at: int| 0 <= at < s.len() ==> !#[trigger] occurs_at(s + p, at, p)
}

proof fn lemma_front_is_occurrence(s: Seq<char>, p: Seq<char>)
    ensures
        text::starts_with(s, p) == occurs_at(s, 0, p),
{
    if p.len() <= s.len() {
        assert(s.take(p.len() as int) =~= s.subrange(0, p.len() as int));
    }
}

/// A text in which the pattern does not stand stays as it is.
pub proof fn law_nothing_to_replace(s: Seq<char>, pat: Seq<char>, with: Seq<char>)
    requires
        absent(s, pat),
    ensures
        text::replaced(s, pat, with) == s,
    decreases s.len(),
{
    if s.len() > 0 && pat.len() > 0 {
        lemma_front_is_occurrence(s, pat);
        assert(!occurs_at(s, 0, pat));
        let rest = s.skip(1);
        assert forall|at: int| !#[trigger] occurs_at(rest, at, pat) by {
            if occurs_at(rest, at, pat) {
                assert(s.subrange(at + 1, at + 1 + pat.len()) =~= rest.subrange(
                    at,
                    at + pat.len(),
                ));
                assert(occurs_at(s, at + 1, pat));
            }
        }
        law_nothing_to_replace(rest, pat, with);
        assert(seq![s[0]] + rest =~= s);
    }
}

/// The first occurrence is replaced, what stands before it stays, and the rest
/// is replaced likewise.
pub proof fn law_first_occurrence_is_replaced(
    front: Seq<char>,
    pat: Seq<char>,
    rest: Seq<char>,
    with: Seq<char>,
)
    requires
        pat.len() > 0,
        apart(front, pat),
    ensures
        text::replaced(front + pat + rest, pat, with) == front + with + text::replaced(
            rest,
            pat,
            with,
        ),
    decreases front.len(),
{
    let s = front + pat + rest;
    lemma_front_is_occurrence(s, pat);
    if front.len() == 0 {
        assert(s.subrange(0, pat.len() as int) =~= pat);
        assert(s.skip(pat.len() as int) =~= rest);
        assert(front + with + text::replaced(rest, pat, with) =~= with + text::replaced(
            rest,
            pat,
            with,
        ));
    } else {
        let fewer = front.skip(1);
        assert(!occurs_at(front + pat, 0, pat));
        assert(s.subrange(0, pat.len() as int) =~= (front + pat).subrange(0, pat.len() as int));
        assert forall|at: int| 0 <= at < fewer.len() implies !#[trigger] occurs_at(
            fewer + pat,
            at,
            pat,
        ) by {
            if occurs_at(fewer + pat, at, pat) {
                assert((front + pat).subrange(at + 1, at + 1 + pat.len()) =~= (fewer
                    + pat).subrange(at, at + pat.len()));
                assert(occurs_at(front + pat, at + 1, pat));
            }
        }
        law_first_occurrence_is_replaced(fewer, pat, rest, with);
        assert(s.skip(1) =~= fewer + pat + rest);
        assert(s[0] == front[0]);
        assert(seq![front[0]] + (fewer + with + text::replaced(rest, pat, with)) =~= front + with
            + text::replaced(rest, pat, with));
    }
}

/// Every occurrence is replaced: texts with the pattern between them become the
/// same texts with the replacement between them.
pub proof fn law_every_occurrence_is_replaced(
    texts: Seq<Seq<char>>,
    pat: Seq<char>,
    with: Seq<char>,
)
    requires
        texts.len() > 0,
        pat.len() > 0,
        forall|i: int| 0 <= i < texts.len() - 1 ==> apart(#[trigger] texts[i], pat),
        absent(texts.last(), pat),
    ensures
        text::replaced(text::join(texts, pat), pat, with) == text::join(texts, with),
    decreases texts.len(),
{
    if texts.len() == 1 {
        law_nothing_to_replace(texts[0], pat, with);
    } else {
        let one = seq![texts[0]];
        let more = texts.skip(1);
        assert(texts =~= one + more);
        assert forall|i: int| 0 <= i < more.len() - 1 implies apart(#[trigger] more[i], pat) by {
            assert(more[i] == texts[i + 1]);
        }
        assert(more.last() == texts.last());
        law_every_occurrence_is_replaced(more, pat, with);
        law_joined_parts(one, more, pat);
        law_joined_parts(one, more, with);
        assert(apart(texts[0], pat));
        law_first_occurrence_is_replaced(texts[0], pat, text::join(more, pat), with);
    }
}

/// What joining gives: nothing of no part, a part of itself, and of two lists in
/// a row what each gives, with the separator between.
pub proof fn law_joined_parts(a: Seq<Seq<char>>, b: Seq<Seq<char>>, sep: Seq<char>)
    requires
        a.len() > 0,
        b.len() > 0,
    ensures
        text::join(Seq::empty(), sep) == Seq::<char>::empty(),
        text::join(seq![a[0]], sep) == a[0],
        text::join(a + b, sep) == text::join(a, sep) + sep + text::join(b, sep),
    decreases b.len(),
{
    let all = a + b;
    if b.len() == 1 {
        assert(all.drop_last() =~= a);
        assert(all.last() == b[0]);
    } else {
        law_joined_parts(a, b.drop_last(), sep);
        assert(all.drop_last() =~= a + b.drop_last());
        assert(all.last() == b.last());
        assert(text::join(all, sep) =~= text::join(a, sep) + sep + text::join(b, sep));
    }
}

/// The parts between separators hold none, and joined they are the text.
pub proof fn law_split_parts(s: Seq<char>, c: char)
    ensures
        text::split_char(s, c).len() > 0,
        forall|i: int|
            0 <= i < text::split_char(s, c).len() ==> !(#[trigger] text::split_char(
                s,
                c,
            )[i]).contains(c),
        text::join(text::split_char(s, c), seq![c]) == s,
    decreases s.len(),
{
    let sep = seq![c];
    if s.len() == 0 {
        let none = Seq::<char>::empty();
        assert(text::split_char(s, c)[0] == none);
        assert(!none.contains(c));
        assert(s =~= none);
    } else {
        law_split_parts(s.drop_last(), c);
        let front = text::split_char(s.drop_last(), c);
        let all = text::split_char(s, c);
        if s.last() == c {
            let none = Seq::<char>::empty();
            assert(!none.contains(c));
            assert(all =~= front + seq![none]);
            law_joined_parts(front, seq![none], sep);
            assert(s =~= s.drop_last() + sep);
            assert(s.drop_last() + sep + none =~= s);
        } else {
            let grown = front.last().push(s.last());
            assert(!front[front.len() - 1].contains(c));
            assert(!grown.contains(c)) by {
                if grown.contains(c) {
                    let i = grown.index_of(c);
                    if i < front.last().len() {
                        assert(front.last()[i] == c);
                    }
                }
            }
            assert forall|i: int| 0 <= i < all.len() implies !(#[trigger] all[i]).contains(c) by {
                if i < all.len() - 1 {
                    assert(all[i] == front[i]);
                }
            }
            if front.len() == 1 {
                assert(all =~= seq![grown]);
                assert(grown =~= s);
            } else {
                let most = front.drop_last();
                assert(front =~= most + seq![front.last()]);
                assert(all =~= most + seq![grown]);
                law_joined_parts(most, seq![front.last()], sep);
                law_joined_parts(most, seq![grown], sep);
                assert(text::join(all, sep) =~= text::join(front, sep).push(s.last()));
                assert(s =~= s.drop_last().push(s.last()));
            }
        }
    }
}

/// Whether `s` is made of white space.
pub open spec fn all_white(s: Seq<char>) -> bool {
    forall|i: int| 0 <= i < s.len() ==> text::is_white(#[trigger] s[i])
}

/// The characters that are white space among those below `\u{80}`.
pub proof fn law_white_space(c: char)
    requires
        c < '\u{80}',
    ensures
        text::is_white(c) <==> (c == ' ' || c == '\t' || c == '\n' || c == '\r' || c == '\u{b}'
            || c == '\u{c}'),
{
}

/// Trimming takes white space from both ends, all of it, and nothing else.
pub proof fn law_trimmed(s: Seq<char>) -> (ends: (Seq<char>, Seq<char>))
    ensures
        s == ends.0 + text::trimmed(s) + ends.1,
        all_white(ends.0),
        all_white(ends.1),
        text::trimmed(s).len() > 0 ==> !text::is_white(text::trimmed(s)[0]) && !text::is_white(
            text::trimmed(s).last(),
        ),
{
    let a = lemma_trim_start(s);
    let t = text::trim_start(s);
    let b = lemma_trim_end(t);
    let r = text::trim_end(t);
    assert(s =~= a + r + b);
    if r.len() > 0 {
        assert(r[0] == t[0]);
    }
    (a, b)
}

proof fn lemma_trim_start(s: Seq<char>) -> (front: Seq<char>)
    ensures
        s == front + text::trim_start(s),
        all_white(front),
        text::trim_start(s).len() > 0 ==> !text::is_white(text::trim_start(s)[0]),
    decreases s.len(),
{
    if s.len() > 0 && text::is_white(s[0]) {
        let f = lemma_trim_start(s.skip(1));
        let front = seq![s[0]] + f;
        assert(s =~= seq![s[0]] + s.skip(1));
        assert(s =~= front + text::trim_start(s.skip(1)));
        assert forall|i: int| 0 <= i < front.len() implies text::is_white(#[trigger] front[i]) by {
            if i > 0 {
                assert(front[i] == f[i - 1]);
            }
        }
        front
    } else {
        assert(s =~= Seq::<char>::empty() + s);
        Seq::empty()
    }
}

proof fn lemma_trim_end(s: Seq<char>) -> (back: Seq<char>)
    ensures
        s == text::trim_end(s) + back,
        all_white(back),
        text::trim_end(s).len() > 0 ==> !text::is_white(text::trim_end(s).last()),
    decreases s.len(),
{
    if s.len() > 0 && text::is_white(s.last()) {
        let b = lemma_trim_end(s.drop_last());
        let back = b.push(s.last());
        assert(s =~= s.drop_last().push(s.last()));
        assert(s =~= text::trim_end(s.drop_last()) + back);
        assert forall|i: int| 0 <= i < back.len() implies text::is_white(#[trigger] back[i]) by {
            if i < b.len() {
                assert(back[i] == b[i]);
            }
        }
        back
    } else {
        assert(s =~= s + Seq::<char>::empty());
        Seq::empty()
    }
}

/// Trimming a character from the end takes every one of them there, and nothing
/// else.
pub proof fn law_trimmed_end(s: Seq<char>, c: char) -> (count: nat)
    ensures
        s == text::trim_end_char(s, c) + Seq::new(count, |i: int| c),
        text::trim_end_char(s, c).len() > 0 ==> text::trim_end_char(s, c).last() != c,
    decreases s.len(),
{
    if s.len() > 0 && s.last() == c {
        let n = law_trimmed_end(s.drop_last(), c);
        assert(Seq::new(n + 1, |i: int| c) =~= Seq::new(n, |i: int| c).push(c));
        assert(s =~= s.drop_last().push(c));
        assert(s =~= text::trim_end_char(s.drop_last(), c) + Seq::new(n + 1, |i: int| c));
        n + 1
    } else {
        assert(s =~= s + Seq::new(0, |i: int| c));
        0
    }
}

/// The words of two texts with white space between them are those of the one and
/// those of the other; a text without white space is a word.
pub proof fn law_words(a: Seq<char>, c: char, b: Seq<char>)
    requires
        text::is_white(c),
    ensures
        text::words(a.push(c) + b) == text::words(a) + text::words(b),
        text::words(Seq::empty()) == Seq::<Seq<char>>::empty(),
        b.len() > 0 && (forall|i: int| 0 <= i < b.len() ==> !text::is_white(#[trigger] b[i]))
            ==> text::words(b) == seq![b],
{
    let s = a.push(c);
    assert(s.drop_last() =~= a);
    lemma_words_behind(s, b);
    let (done, rest) = text::words_and_rest(b);
    assert(text::words(s + b) =~= text::words(a) + text::words(b));
    if forall|i: int| 0 <= i < b.len() ==> !text::is_white(#[trigger] b[i]) {
        lemma_one_word(b);
        if b.len() > 0 {
            assert(text::words(b) =~= seq![b]);
        }
    }
}

proof fn lemma_one_word(b: Seq<char>)
    requires
        forall|i: int| 0 <= i < b.len() ==> !text::is_white(#[trigger] b[i]),
    ensures
        text::words_and_rest(b) == (Seq::<Seq<char>>::empty(), b),
    decreases b.len(),
{
    if b.len() > 0 {
        let f = b.drop_last();
        assert forall|i: int| 0 <= i < f.len() implies !text::is_white(#[trigger] f[i]) by {
            assert(f[i] == b[i]);
        }
        lemma_one_word(f);
        assert(!text::is_white(b[b.len() - 1]));
        assert(f.push(b.last()) =~= b);
    } else {
        assert(b =~= Seq::empty());
    }
}

proof fn lemma_words_behind(s: Seq<char>, b: Seq<char>)
    requires
        text::words_and_rest(s).1.len() == 0,
    ensures
        text::words_and_rest(s + b) == (
            text::words_and_rest(s).0 + text::words_and_rest(b).0,
            text::words_and_rest(b).1,
        ),
    decreases b.len(),
{
    if b.len() == 0 {
        assert(s + b =~= s);
        assert(text::words_and_rest(s).0 + text::words_and_rest(b).0 =~= text::words_and_rest(s).0);
        assert(text::words_and_rest(s).1 =~= Seq::empty());
    } else {
        lemma_words_behind(s, b.drop_last());
        assert((s + b).drop_last() =~= s + b.drop_last());
        assert((s + b).last() == b.last());
        let (done, rest) = text::words_and_rest(b.drop_last());
        assert((text::words_and_rest(s).0 + done).push(rest) =~= text::words_and_rest(s).0
            + done.push(rest));
    }
}

/// Lower case keeps a text but for its ASCII capitals, each of which becomes the
/// letter as far behind `a` as it is behind `A`.
pub proof fn law_lower_case(s: Seq<char>, i: int)
    requires
        0 <= i < s.len(),
    ensures
        text::ascii_lower(s).len() == s.len(),
        'A' <= s[i] <= 'Z' ==> text::ascii_lower(s)[i] as int - 'a' as int == s[i] as int
            - 'A' as int,
        !('A' <= s[i] <= 'Z') ==> text::ascii_lower(s)[i] == s[i],
{
    lemma_lower(s[i]);
}

proof fn lemma_lower(c: char)
    ensures
        'A' <= c <= 'Z' ==> text::lower_char(c) as int == c as int + 32,
{
}

/// The value of a decimal number: its digits count tens of what stands before
/// them.
pub proof fn law_decimal_value(s: Seq<char>, d: char)
    requires
        '0' <= d <= '9',
    ensures
        text::digits_value(s.push(d)) == 10 * text::digits_value(s) + (d as int - '0' as int),
        text::digits_value(Seq::empty()) == 0,
{
    assert(s.push(d).drop_last() =~= s);
}

/// A number in decimal has digits only, no leading zero but for zero itself, and
/// reads back.
pub proof fn law_decimal(n: nat)
    ensures
        text::decimal(n).len() > 0,
        text::all_digits(text::decimal(n)),
        text::digits_value(text::decimal(n)) == n,
        n > 0 ==> text::decimal(n)[0] != '0',
    decreases n,
{
    if n < 10 {
        lemma_digit(n);
        let s = text::decimal(n);
        assert(s.drop_last() =~= Seq::<char>::empty());
        assert(text::digits_value(Seq::<char>::empty()) == 0);
    } else {
        law_decimal(n / 10);
        lemma_digit(n % 10);
        assert(text::decimal(n).drop_last() =~= text::decimal(n / 10));
    }
}

proof fn lemma_digit(n: nat)
    requires
        n < 10,
    ensures
        '0' <= text::digit_char(n) <= '9',
        text::digit_char(n) as nat - 48 == n,
{
}

/// A text is a number where it has digits, only digits, but for one `+` before
/// them, and they do not spell more than 32 bits hold.
pub proof fn law_numbers(s: Seq<char>)
    requires
        s.len() > 0,
        text::all_digits(s),
    ensures
        text::digits_value(s) <= 0xffff_ffff ==> text::parsed_u32(s) == Some(
            text::digits_value(s) as u32,
        ),
        text::digits_value(s) > 0xffff_ffff ==> text::parsed_u32(s) is None,
        text::parsed_u32(seq!['+'] + s) == text::parsed_u32(s),
        text::parsed_u32(Seq::empty()) is None,
        text::parsed_u32(seq!['+']) is None,
{
    assert('0' <= s[0] <= '9');
    assert((seq!['+'] + s).skip(1) =~= s);
    assert(seq!['+'].skip(1).len() == 0);
}

/// A text with another character is no number.
pub proof fn law_no_numbers(s: Seq<char>, i: int)
    requires
        0 <= i < s.len(),
        !('0' <= s[i] <= '9'),
        i > 0 || s[i] != '+',
    ensures
        text::parsed_u32(s) is None,
{
    if s[0] == '+' {
        assert(s.skip(1)[i - 1] == s[i]);
    }
}

/// The order of texts: the first place at which they differ decides, and a text
/// is before what it begins.
pub proof fn law_order_of_texts(front: Seq<char>, a: Seq<char>, b: Seq<char>)
    ensures
        a.len() > 0 && b.len() > 0 && a[0] != b[0] ==> (text::lex_lt(front + a, front + b)
            <==> a[0] < b[0]),
        b.len() > 0 ==> text::lex_lt(front, front + b),
        !text::lex_lt(front + b, front),
    decreases front.len(),
{
    if front.len() == 0 {
        assert(front + a =~= a);
        assert(front + b =~= b);
    } else {
        let f = front.skip(1);
        law_order_of_texts(f, a, b);
        assert((front + a).skip(1) =~= f + a);
        assert((front + b).skip(1) =~= f + b);
    }
}

/// The path of a name in a directory ends in the name, behind a separator where
/// the directory has a name.
pub proof fn law_path_in(dir: Seq<char>, name: Seq<char>)
    ensures
        dir.len() == 0 ==> text::path_in(dir, name) == name,
        dir.len() > 0 && dir.last() != '/' ==> text::path_in(dir, name) == dir + seq!['/'] + name,
        dir.len() > 0 && dir.last() == '/' ==> text::path_in(dir, name) == dir + name,
{
    reveal_strlit("/");
    assert("/"@ =~= seq!['/']);
    if dir.len() == 0 {
        assert(dir + name =~= name);
    }
}

} // verus!
