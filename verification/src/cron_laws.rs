//! What holds of cron expressions as a whole.

use vstd::prelude::*;
use vstd::string::*;
use crate::calendar;
use crate::cron;
use crate::cron::{CronErrorView, CronView, FieldView, ScheduledJob};
use crate::text;
use crate::time::Timestamp;

verus! {

/// Whether `s` does not hold `c`.
spec fn without(s: Seq<char>, c: char) -> bool {
    forall|i: int| 0 <= i < s.len() ==> #[trigger] s[i] != c
}

/// Whether `s` holds no white space.
spec fn solid(s: Seq<char>) -> bool {
    forall|i: int| 0 <= i < s.len() ==> !text::is_white(#[trigger] s[i])
}

/// Whether `s` is a word of an expression: not empty and solid.
spec fn is_word(s: Seq<char>) -> bool {
    s.len() > 0 && solid(s)
}

proof fn lemma_digit(n: nat)
    requires
        n < 10,
    ensures
        '0' <= text::digit_char(n) <= '9',
        text::digit_char(n) as nat - 48 == n,
{
}

proof fn lemma_decimal(n: nat)
    ensures
        text::decimal(n).len() > 0,
        text::all_digits(text::decimal(n)),
        text::digits_value(text::decimal(n)) == n,
    decreases n,
{
    if n < 10 {
        lemma_digit(n);
        let s = text::decimal(n);
        assert(s.drop_last() =~= Seq::<char>::empty());
        assert(text::digits_value(Seq::<char>::empty()) == 0);
    } else {
        lemma_decimal(n / 10);
        lemma_digit(n % 10);
        let front = text::decimal(n / 10);
        let s = text::decimal(n);
        assert(s.drop_last() =~= front);
        assert(s.last() == text::digit_char(n % 10));
    }
}

/// A number that is written in decimal reads back.
proof fn lemma_number(n: u32)
    ensures
        text::parsed_u32(text::decimal(n as nat)) == Some(n),
        is_word(text::decimal(n as nat)),
        without(text::decimal(n as nat), '-'),
        without(text::decimal(n as nat), '/'),
        without(text::decimal(n as nat), ','),
        text::decimal(n as nat) != "*"@,
{
    lemma_decimal(n as nat);
    let s = text::decimal(n as nat);
    assert('0' <= s[0] <= '9');
    reveal_strlit("*");
    assert("*"@[0] == '*');
}

proof fn lemma_cut(a: Seq<char>, c: char, b: Seq<char>)
    requires
        without(a, c),
    ensures
        cron::cut(a + seq![c] + b, c) == (a, b),
        (a + seq![c] + b).contains(c),
{
    let s = a + seq![c] + b;
    text::lemma_first_of(s, c);
    let n = text::first_of(s, c);
    assert(s[a.len() as int] == c);
    if n < a.len() {
        assert(a[n] == s[n]);
    }
    assert(n == a.len());
    assert(s.take(n) =~= a);
    assert(s.skip(n + 1) =~= b);
}

proof fn lemma_marks()
    ensures
        "-"@ == seq!['-'],
        "/"@ == seq!['/'],
        ","@ == seq![','],
        " "@ == seq![' '],
        "*"@ == seq!['*'],
{
    reveal_strlit("-");
    reveal_strlit("/");
    reveal_strlit(",");
    reveal_strlit(" ");
    reveal_strlit("*");
    assert("-"@ =~= seq!['-']);
    assert("/"@ =~= seq!['/']);
    assert(","@ =~= seq![',']);
    assert(" "@ =~= seq![' ']);
    assert("*"@ =~= seq!['*']);
}

/// Whether `v` is `*`, a number or a range, within the field.
pub open spec fn simple_ok(v: FieldView, min: u32, max: u32) -> bool {
    match v {
        FieldView::Any => true,
        FieldView::Exact(n) => min <= n <= max,
        FieldView::Range(lo, hi) => min <= lo <= max && min <= hi <= max,
        _ => false,
    }
}

/// Whether `v` is simple, or simple with a step.
pub open spec fn entry_ok(v: FieldView, min: u32, max: u32) -> bool {
    match v {
        FieldView::Step(base, step) => step > 0 && simple_ok(*base, min, max),
        _ => simple_ok(v, min, max),
    }
}

/// Whether `v` is an entry, or a list of two or more.
pub open spec fn field_ok(v: FieldView, min: u32, max: u32) -> bool {
    match v {
        FieldView::List(items) => items.len() >= 2 && forall|i: int|
            0 <= i < items.len() ==> entry_ok(#[trigger] items[i], min, max),
        _ => entry_ok(v, min, max),
    }
}

proof fn lemma_simple_reads(v: FieldView, field: Seq<char>, min: u32, max: u32)
    requires
        simple_ok(v, min, max),
    ensures
        cron::simple_field(cron::shown(v), field, min, max) == Ok::<FieldView, CronErrorView>(v),
        is_word(cron::shown(v)),
        without(cron::shown(v), '/'),
        without(cron::shown(v), ','),
{
    lemma_marks();
    let s = cron::shown(v);
    match v {
        FieldView::Any => {
            assert(!s.contains('-'));
        },
        FieldView::Exact(n) => {
            lemma_number(n);
            assert(!s.contains('-'));
        },
        FieldView::Range(lo, hi) => {
            lemma_number(lo);
            lemma_number(hi);
            lemma_cut(text::decimal(lo as nat), '-', text::decimal(hi as nat));
        },
        _ => {},
    }
}

proof fn lemma_entry_reads(v: FieldView, field: Seq<char>, min: u32, max: u32)
    requires
        entry_ok(v, min, max),
    ensures
        cron::entry_field(cron::shown(v), field, min, max) == Ok::<FieldView, CronErrorView>(v),
        is_word(cron::shown(v)),
        without(cron::shown(v), ','),
{
    lemma_marks();
    let s = cron::shown(v);
    match v {
        FieldView::Step(base, step) => {
            lemma_simple_reads(*base, field, min, max);
            lemma_number(step);
            lemma_cut(cron::shown(*base), '/', text::decimal(step as nat));
        },
        _ => {
            lemma_simple_reads(v, field, min, max);
            assert(!s.contains('/'));
        },
    }
}

proof fn lemma_trim_word(s: Seq<char>)
    requires
        is_word(s),
    ensures
        text::trimmed(s) == s,
{
}

proof fn lemma_split_more(s: Seq<char>, p: Seq<char>, c: char)
    requires
        without(p, c),
    ensures
        text::split_char(s + p, c) == text::split_char(s, c).drop_last().push(
            text::split_char(s, c).last() + p,
        ),
    decreases p.len(),
{
    text::lemma_split_nonempty(s, c);
    let front = text::split_char(s, c);
    if p.len() == 0 {
        assert(s + p =~= s);
        assert(front.last() + p =~= front.last());
        assert(front.drop_last().push(front.last()) =~= front);
    } else {
        lemma_split_more(s, p.drop_last(), c);
        assert((s + p).drop_last() =~= s + p.drop_last());
        assert((s + p).last() == p.last());
        let inner = text::split_char(s + p.drop_last(), c);
        assert(inner.drop_last() =~= front.drop_last());
        assert(inner.last() == front.last() + p.drop_last());
        assert((front.last() + p.drop_last()).push(p.last()) =~= front.last() + p);
    }
}

proof fn lemma_split_join(parts: Seq<Seq<char>>, c: char)
    requires
        parts.len() > 0,
        forall|i: int| 0 <= i < parts.len() ==> without(#[trigger] parts[i], c),
    ensures
        text::split_char(text::join(parts, seq![c]), c) == parts,
        parts.len() >= 2 ==> text::join(parts, seq![c]).contains(c),
    decreases parts.len(),
{
    let last = parts.last();
    assert(without(parts[parts.len() - 1], c));
    if parts.len() == 1 {
        let none = Seq::<char>::empty();
        lemma_split_more(none, last, c);
        assert(none + last =~= last);
        assert(seq![none].drop_last().push(none + last) =~= parts);
    } else {
        let front = parts.drop_last();
        assert forall|i: int| 0 <= i < front.len() implies without(#[trigger] front[i], c) by {
            assert(front[i] == parts[i]);
        }
        lemma_split_join(front, c);
        let s = text::join(front, seq![c]);
        let t = s + seq![c];
        assert(t.drop_last() =~= s);
        assert(text::split_char(t, c) == front.push(Seq::<char>::empty()));
        lemma_split_more(t, last, c);
        assert(front.push(Seq::<char>::empty()).drop_last() =~= front);
        assert(Seq::<char>::empty() + last =~= last);
        assert(front.push(last) =~= parts);
        assert((t + last)[s.len() as int] == c);
    }
}

proof fn lemma_all_shown(items: Seq<FieldView>)
    ensures
        cron::all_shown(items).len() == items.len(),
        forall|i: int| 0 <= i < items.len() ==> #[trigger] cron::all_shown(items)[i] == cron::shown(items[i]),
    decreases items.len(),
{
    if items.len() > 0 {
        lemma_all_shown(items.drop_last());
        assert forall|i: int| 0 <= i < items.len() implies #[trigger] cron::all_shown(items)[i]
            == cron::shown(items[i]) by {
            if i < items.len() - 1 {
                assert(items.drop_last()[i] == items[i]);
                assert(cron::all_shown(items.drop_last())[i] == cron::shown(items.drop_last()[i]));
            }
        }
    }
}

proof fn lemma_entries_read(items: Seq<FieldView>, field: Seq<char>, min: u32, max: u32, n: int)
    requires
        0 <= n <= items.len(),
        forall|i: int| 0 <= i < items.len() ==> entry_ok(#[trigger] items[i], min, max),
    ensures
        cron::entries_field(cron::all_shown(items), field, min, max, n) == Ok::<
            Seq<FieldView>,
            CronErrorView,
        >(items.take(n)),
    decreases n,
{
    lemma_all_shown(items);
    if n == 0 {
        assert(items.take(0) =~= Seq::empty());
    } else {
        lemma_entries_read(items, field, min, max, n - 1);
        assert(entry_ok(items[n - 1], min, max));
        lemma_entry_reads(items[n - 1], field, min, max);
        assert(cron::all_shown(items)[n - 1] == cron::shown(items[n - 1]));
        lemma_trim_word(cron::shown(items[n - 1]));
        assert(items.take(n) =~= items.take(n - 1).push(items[n - 1]));
    }
}

proof fn lemma_join_word(parts: Seq<Seq<char>>)
    requires
        parts.len() > 0,
        forall|i: int| 0 <= i < parts.len() ==> is_word(#[trigger] parts[i]),
    ensures
        is_word(text::join(parts, seq![','])),
    decreases parts.len(),
{
    assert(is_word(parts[parts.len() - 1]));
    if parts.len() > 1 {
        let front = parts.drop_last();
        assert forall|i: int| 0 <= i < front.len() implies is_word(#[trigger] front[i]) by {
            assert(front[i] == parts[i]);
        }
        lemma_join_word(front);
    }
}

proof fn lemma_field_reads(v: FieldView, field: Seq<char>, min: u32, max: u32)
    requires
        field_ok(v, min, max),
    ensures
        cron::parsed_field(cron::shown(v), field, min, max) == Ok::<FieldView, CronErrorView>(v),
        is_word(cron::shown(v)),
{
    reveal(cron::parsed_field);
    lemma_marks();
    match v {
        FieldView::List(items) => {
            let parts = cron::all_shown(items);
            lemma_all_shown(items);
            assert forall|i: int| 0 <= i < parts.len() implies without(#[trigger] parts[i], ',')
                && is_word(parts[i]) by {
                assert(parts[i] == cron::shown(items[i]));
                assert(entry_ok(items[i], min, max));
                lemma_entry_reads(items[i], field, min, max);
            }
            lemma_split_join(parts, ',');
            lemma_join_word(parts);
            lemma_entries_read(items, field, min, max, items.len() as int);
            assert(items.take(items.len() as int) =~= items);
        },
        _ => {
            lemma_entry_reads(v, field, min, max);
            assert(!cron::shown(v).contains(','));
        },
    }
}

proof fn lemma_split_two(s: Seq<char>, c: char)
    requires
        s.contains(c),
    ensures
        text::split_char(s, c).len() >= 2,
    decreases s.len(),
{
    text::lemma_split_nonempty(s.drop_last(), c);
    if s.last() != c {
        let i = s.index_of(c);
        assert(s.drop_last()[i] == c);
        lemma_split_two(s.drop_last(), c);
    }
}

proof fn lemma_entries_ok(parts: Seq<Seq<char>>, field: Seq<char>, min: u32, max: u32, n: int)
    requires
        0 <= n <= parts.len(),
        cron::entries_field(parts, field, min, max, n) is Ok,
    ensures
        cron::entries_field(parts, field, min, max, n)->Ok_0.len() == n,
        forall|i: int|
            0 <= i < n ==> entry_ok(
                #[trigger] cron::entries_field(parts, field, min, max, n)->Ok_0[i],
                min,
                max,
            ),
    decreases n,
{
    if n > 0 {
        lemma_entries_ok(parts, field, min, max, n - 1);
    }
}

/// What a field parses to is within its bounds: every number, both ends of every
/// range; steps are not zero, and a list has two entries at least.
pub proof fn law_field_is_in_bounds(s: Seq<char>, field: Seq<char>, min: u32, max: u32)
    requires
        cron::parsed_field(s, field, min, max) is Ok,
    ensures
        field_ok(cron::parsed_field(s, field, min, max)->Ok_0, min, max),
{
    reveal(cron::parsed_field);
    if s.contains(',') {
        let parts = text::split_char(s, ',');
        lemma_split_two(s, ',');
        lemma_entries_ok(parts, field, min, max, parts.len() as int);
    }
}

proof fn lemma_words_more(s: Seq<char>, p: Seq<char>)
    requires
        solid(p),
    ensures
        text::words_and_rest(s + p) == (text::words_and_rest(s).0, text::words_and_rest(s).1 + p),
    decreases p.len(),
{
    if p.len() == 0 {
        assert(s + p =~= s);
        assert(text::words_and_rest(s).1 + p =~= text::words_and_rest(s).1);
    } else {
        lemma_words_more(s, p.drop_last());
        assert((s + p).drop_last() =~= s + p.drop_last());
        assert((s + p).last() == p.last());
        let rest = text::words_and_rest(s).1;
        assert((rest + p.drop_last()).push(p.last()) =~= rest + p);
    }
}

proof fn lemma_words_blank(s: Seq<char>)
    requires
        text::words_and_rest(s).1.len() > 0,
    ensures
        text::words_and_rest(s + " "@) == (
            text::words_and_rest(s).0.push(text::words_and_rest(s).1),
            Seq::<char>::empty(),
        ),
{
    lemma_marks();
    assert((s + " "@).drop_last() =~= s);
    assert((s + " "@).last() == ' ');
}

proof fn lemma_five_words(a: Seq<char>, b: Seq<char>, c: Seq<char>, d: Seq<char>, e: Seq<char>)
    requires
        is_word(a),
        is_word(b),
        is_word(c),
        is_word(d),
        is_word(e),
    ensures
        text::words(a + " "@ + b + " "@ + c + " "@ + d + " "@ + e) == seq![a, b, c, d, e],
{
    let none = Seq::<char>::empty();
    lemma_words_more(none, a);
    assert(none + a =~= a);
    lemma_words_blank(a);
    let s1 = a + " "@;
    lemma_words_more(s1, b);
    assert(none + b =~= b);
    lemma_words_blank(s1 + b);
    let s2 = s1 + b + " "@;
    lemma_words_more(s2, c);
    assert(none + c =~= c);
    lemma_words_blank(s2 + c);
    let s3 = s2 + c + " "@;
    lemma_words_more(s3, d);
    assert(none + d =~= d);
    lemma_words_blank(s3 + d);
    let s4 = s3 + d + " "@;
    lemma_words_more(s4, e);
    assert(none + e =~= e);
    assert(text::words(s4 + e) =~= seq![a, b, c, d, e]);
}

proof fn lemma_field_round(s: Seq<char>, field: Seq<char>, min: u32, max: u32)
    requires
        cron::parsed_field(s, field, min, max) is Ok,
    ensures
        cron::parsed_field(
            cron::shown(cron::parsed_field(s, field, min, max)->Ok_0),
            field,
            min,
            max,
        ) == cron::parsed_field(s, field, min, max),
        is_word(cron::shown(cron::parsed_field(s, field, min, max)->Ok_0)),
{
    law_field_is_in_bounds(s, field, min, max);
    lemma_field_reads(cron::parsed_field(s, field, min, max)->Ok_0, field, min, max);
}

proof fn lemma_assembled(
    a: Result<FieldView, CronErrorView>,
    b: Result<FieldView, CronErrorView>,
    c: Result<FieldView, CronErrorView>,
    d: Result<FieldView, CronErrorView>,
    f: Result<FieldView, CronErrorView>,
)
    requires
        cron::assembled(a, b, c, d, f) is Ok,
    ensures
        a is Ok && b is Ok && c is Ok && d is Ok && f is Ok,
        cron::assembled(a, b, c, d, f)->Ok_0 == (CronView {
            minute: a->Ok_0,
            hour: b->Ok_0,
            day_of_month: c->Ok_0,
            month: d->Ok_0,
            day_of_week: f->Ok_0,
        }),
{
}

/// The fields of a parsed expression are within the bounds of what they stand
/// for.
pub proof fn law_expression_is_in_bounds(s: Seq<char>)
    requires
        cron::parsed_cron(s) is Ok,
    ensures
        ({
            let e = cron::parsed_cron(s)->Ok_0;
            &&& field_ok(e.minute, 0, 59)
            &&& field_ok(e.hour, 0, 23)
            &&& field_ok(e.day_of_month, 1, 31)
            &&& field_ok(e.month, 1, 12)
            &&& field_ok(e.day_of_week, 0, 6)
        }),
{
    let w = text::words(s);
    lemma_assembled(
        cron::parsed_field(w[0], "minute"@, 0, 59),
        cron::parsed_field(w[1], "hour"@, 0, 23),
        cron::parsed_field(w[2], "day_of_month"@, 1, 31),
        cron::parsed_field(w[3], "month"@, 1, 12),
        cron::parsed_field(w[4], "day_of_week"@, 0, 6),
    );
    law_field_is_in_bounds(w[0], "minute"@, 0, 59);
    law_field_is_in_bounds(w[1], "hour"@, 0, 23);
    law_field_is_in_bounds(w[2], "day_of_month"@, 1, 31);
    law_field_is_in_bounds(w[3], "month"@, 1, 12);
    law_field_is_in_bounds(w[4], "day_of_week"@, 0, 6);
}

/// The text of a parsed expression parses to the same expression.
pub proof fn law_text_reads_back(s: Seq<char>)
    requires
        cron::parsed_cron(s) is Ok,
    ensures
        cron::parsed_cron(cron::shown_cron(cron::parsed_cron(s)->Ok_0)) == cron::parsed_cron(s),
{
    let w = text::words(s);
    let e = cron::parsed_cron(s)->Ok_0;
    lemma_assembled(
        cron::parsed_field(w[0], "minute"@, 0, 59),
        cron::parsed_field(w[1], "hour"@, 0, 23),
        cron::parsed_field(w[2], "day_of_month"@, 1, 31),
        cron::parsed_field(w[3], "month"@, 1, 12),
        cron::parsed_field(w[4], "day_of_week"@, 0, 6),
    );
    lemma_field_round(w[0], "minute"@, 0, 59);
    lemma_field_round(w[1], "hour"@, 0, 23);
    lemma_field_round(w[2], "day_of_month"@, 1, 31);
    lemma_field_round(w[3], "month"@, 1, 12);
    lemma_field_round(w[4], "day_of_week"@, 0, 6);
    let a = cron::shown(e.minute);
    let b = cron::shown(e.hour);
    let c = cron::shown(e.day_of_month);
    let d = cron::shown(e.month);
    let f = cron::shown(e.day_of_week);
    lemma_five_words(a, b, c, d, f);
    let t = text::words(cron::shown_cron(e));
    assert(t == seq![a, b, c, d, f]);
    assert(t.len() == 5 && t[0] == a && t[1] == b && t[2] == c && t[3] == d && t[4] == f);
}

/// A job that has just run is not due again before its next tick, and then it
/// is, if it is enabled: no tick is missed between.
pub proof fn law_job_waits_for_its_next_tick(
    before: ScheduledJob,
    after: ScheduledJob,
    now: Timestamp,
    at: Timestamp,
)
    requires
        cron::job_advanced(before, after, now, Ok(())),
    ensures
        !after.due(now),
        after.due(at) <==> after.enabled && (after.next_run_at->0).le(at),
        after.enabled ==> after.due(after.next_run_at->0),
        cron::parsed_cron(before.cron_expr@) is Ok,
        cron::minute_matches(
            cron::parsed_cron(before.cron_expr@)->Ok_0,
            (after.next_run_at->0).secs as int / 60,
        ),
        forall|k: int|
            now.secs as int / 60 < k < (after.next_run_at->0).secs as int / 60
                ==> !#[trigger] cron::minute_matches(
                cron::parsed_cron(before.cron_expr@)->Ok_0,
                k,
            ),
{
}

/// Whether `val` is reached from `from` in whole steps, none of them back.
pub open spec fn steps_to(from: int, step: int, val: int) -> bool {
    exists|k: int| #[trigger] nth_step(from, step, k) == val && k >= 0
}

/// The value `k` steps behind `from`.
pub open spec fn nth_step(from: int, step: int, k: int) -> int {
    from + k * step
}

proof fn lemma_steps(from: int, step: int, val: int)
    requires
        step > 0,
        from <= val,
    ensures
        (val - from) % step == 0 <==> steps_to(from, step, val),
{
    let d = val - from;
    vstd::arithmetic::div_mod::lemma_fundamental_div_mod(d, step);
    if d % step == 0 {
        let k = d / step;
        vstd::arithmetic::div_mod::lemma_div_pos_is_pos(d, step);
        assert(step * k == k * step) by (nonlinear_arith);
        assert(nth_step(from, step, k) == val);
    }
    if steps_to(from, step, val) {
        let k = choose|k: int| #[trigger] nth_step(from, step, k) == val && k >= 0;
        assert(d == k * step);
        vstd::arithmetic::div_mod::lemma_mod_multiples_basic(k, step);
    }
}

/// A range with a step allows its start, and what lies whole steps behind that,
/// up to its end; nothing else.
pub proof fn law_step_counts_from_the_start_of_its_range(
    lo: u32,
    hi: u32,
    step: u32,
    val: int,
    min: int,
)
    requires
        step > 0,
    ensures
        cron::allows(FieldView::Step(Box::new(FieldView::Range(lo, hi)), step), val, min) <==> (
        val <= hi && steps_to(lo as int, step as int, val)),
        lo <= hi ==> cron::allows(
            FieldView::Step(Box::new(FieldView::Range(lo, hi)), step),
            lo as int,
            min,
        ),
        lo <= val && val + step <= hi ==> (cron::allows(
            FieldView::Step(Box::new(FieldView::Range(lo, hi)), step),
            val,
            min,
        ) == cron::allows(
            FieldView::Step(Box::new(FieldView::Range(lo, hi)), step),
            val + step,
            min,
        )),
{
    reveal_with_fuel(cron::allows, 2);
    vstd::arithmetic::div_mod::lemma_small_mod(0, step as nat);
    if lo <= val {
        lemma_steps(lo as int, step as int, val);
    }
    if steps_to(lo as int, step as int, val) {
        let k = choose|k: int| #[trigger] nth_step(lo as int, step as int, k) == val && k >= 0;
        assert(k * step >= 0) by (nonlinear_arith)
            requires
                k >= 0,
                step > 0,
        ;
    }
    vstd::arithmetic::div_mod::lemma_mod_add_multiples_vanish(val - lo, step as int);
    assert((step as int + (val - lo)) == (val + step) - lo);
}

/// `*` with a step allows the least value of the field, and what lies whole
/// steps behind that; nothing else of the field.
pub proof fn law_step_counts_from_the_least_value(step: u32, val: int, min: int)
    requires
        step > 0,
        min <= val,
    ensures
        cron::allows(FieldView::Step(Box::new(FieldView::Any), step), val, min) <==> steps_to(
            min,
            step as int,
            val,
        ),
        cron::allows(FieldView::Step(Box::new(FieldView::Any), step), min, min),
{
    reveal_with_fuel(cron::allows, 2);
    vstd::arithmetic::div_mod::lemma_small_mod(0, step as nat);
    lemma_steps(min, step as int, val);
}

/// `*` allows every value, a number itself alone, a range what lies between its
/// ends, both of them included.
pub proof fn law_simple_values(n: u32, lo: u32, hi: u32, val: int, min: int)
    ensures
        cron::allows(FieldView::Any, val, min),
        cron::allows(FieldView::Exact(n), val, min) <==> val == n,
        cron::allows(FieldView::Range(lo, hi), val, min) <==> (lo <= val && val <= hi),
{
}

/// A list allows what one of its entries allows.
pub proof fn law_list_allows_what_an_entry_does(items: Seq<FieldView>, val: int, min: int)
    ensures
        cron::allows(FieldView::List(items), val, min) <==> exists|i: int|
            0 <= i < items.len() && cron::allows(#[trigger] items[i], val, min),
{
    lemma_any_allows(items, val, min);
}

proof fn lemma_any_allows(items: Seq<FieldView>, val: int, min: int)
    ensures
        cron::any_allows(items, val, min) <==> exists|i: int|
            0 <= i < items.len() && cron::allows(#[trigger] items[i], val, min),
    decreases items.len(),
{
    if items.len() > 0 {
        let front = items.drop_last();
        lemma_any_allows(front, val, min);
        if cron::any_allows(front, val, min) {
            let i = choose|i: int|
                0 <= i < front.len() && cron::allows(#[trigger] front[i], val, min);
            assert(cron::allows(items[i], val, min));
        }
        if cron::allows(items.last(), val, min) {
            assert(cron::allows(items[items.len() - 1], val, min));
        }
        if exists|i: int| 0 <= i < items.len() && cron::allows(#[trigger] items[i], val, min) {
            let i = choose|i: int|
                0 <= i < items.len() && cron::allows(#[trigger] items[i], val, min);
            if i < front.len() {
                assert(cron::allows(front[i], val, min));
            }
        }
    }
}

/// What the texts of a field mean: `*`, a number, a range `a-b`, and these with a
/// step behind `/`.
pub proof fn law_texts_of_a_field(
    lo: u32,
    hi: u32,
    step: u32,
    field: Seq<char>,
    min: u32,
    max: u32,
)
    requires
        min <= lo <= max,
        min <= hi <= max,
        step > 0,
    ensures
        cron::parsed_field(seq!['*'], field, min, max) == Ok::<FieldView, CronErrorView>(
            FieldView::Any,
        ),
        cron::parsed_field(text::decimal(lo as nat), field, min, max) == Ok::<
            FieldView,
            CronErrorView,
        >(FieldView::Exact(lo)),
        cron::parsed_field(
            text::decimal(lo as nat) + seq!['-'] + text::decimal(hi as nat),
            field,
            min,
            max,
        ) == Ok::<FieldView, CronErrorView>(FieldView::Range(lo, hi)),
        cron::parsed_field(seq!['*'] + seq!['/'] + text::decimal(step as nat), field, min, max)
            == Ok::<FieldView, CronErrorView>(FieldView::Step(Box::new(FieldView::Any), step)),
        cron::parsed_field(
            text::decimal(lo as nat) + seq!['-'] + text::decimal(hi as nat) + seq!['/']
                + text::decimal(step as nat),
            field,
            min,
            max,
        ) == Ok::<FieldView, CronErrorView>(
            FieldView::Step(Box::new(FieldView::Range(lo, hi)), step),
        ),
{
    lemma_marks();
    reveal_with_fuel(cron::shown, 2);
    lemma_field_reads(FieldView::Any, field, min, max);
    lemma_field_reads(FieldView::Exact(lo), field, min, max);
    lemma_field_reads(FieldView::Range(lo, hi), field, min, max);
    lemma_field_reads(FieldView::Step(Box::new(FieldView::Any), step), field, min, max);
    lemma_field_reads(FieldView::Step(Box::new(FieldView::Range(lo, hi)), step), field, min, max);
}

/// Texts of entries with commas between them mean the list of these entries.
pub proof fn law_text_of_a_list(items: Seq<FieldView>, field: Seq<char>, min: u32, max: u32)
    requires
        items.len() >= 2,
        forall|i: int| 0 <= i < items.len() ==> entry_ok(#[trigger] items[i], min, max),
    ensures
        cron::parsed_field(
            text::join(Seq::new(items.len(), |i: int| cron::shown(items[i])), seq![',']),
            field,
            min,
            max,
        ) == Ok::<FieldView, CronErrorView>(FieldView::List(items)),
{
    lemma_marks();
    lemma_all_shown(items);
    assert(cron::all_shown(items) =~= Seq::new(items.len(), |i: int| cron::shown(items[i])));
    lemma_field_reads(FieldView::List(items), field, min, max);
}

/// A number or an end of a range that is not within its field is refused, as is
/// a step of zero.
pub proof fn law_out_of_bounds_is_refused(
    lo: u32,
    hi: u32,
    field: Seq<char>,
    min: u32,
    max: u32,
)
    ensures
        !(min <= lo <= max) ==> cron::parsed_field(text::decimal(lo as nat), field, min, max)
            == Err::<FieldView, CronErrorView>(
            CronErrorView::ValueOutOfRange { field, value: lo, min, max },
        ),
        !(min <= lo <= max && min <= hi <= max) ==> cron::parsed_field(
            text::decimal(lo as nat) + seq!['-'] + text::decimal(hi as nat),
            field,
            min,
            max,
        ) == Err::<FieldView, CronErrorView>(
            CronErrorView::ValueOutOfRange {
                field,
                value: if min <= lo <= max {
                    hi
                } else {
                    lo
                },
                min,
                max,
            },
        ),
        cron::parsed_field(seq!['*'] + seq!['/'] + text::decimal(0), field, min, max) == Err::<
            FieldView,
            CronErrorView,
        >(
            CronErrorView::InvalidField { field, value: seq!['*'] + seq!['/'] + text::decimal(0) },
        ),
{
    reveal(cron::parsed_field);
    lemma_marks();
    lemma_number(lo);
    lemma_number(hi);
    lemma_number(0);
    let a = text::decimal(lo as nat);
    let b = text::decimal(hi as nat);
    lemma_cut(a, '-', b);
    let range = a + seq!['-'] + b;
    assert(!a.contains(',') && !a.contains('/') && !a.contains('-'));
    assert(!range.contains(',') && !range.contains('/'));
    let zero = seq!['*'] + seq!['/'] + text::decimal(0);
    assert(without(seq!['*'], '/'));
    lemma_cut(seq!['*'], '/', text::decimal(0));
    assert(!zero.contains(','));
}

/// An expression matches a minute where each field allows its part of it: the
/// minute of the hour, the hour of the day, the day of the month, the month and
/// the day of the week. 1970 began on a Thursday.
pub proof fn law_expression_matches_by_its_fields(
    e: CronView,
    day: int,
    hour: int,
    minute: int,
    weeks: int,
    weekday: int,
)
    requires
        0 <= hour < 24,
        0 <= minute < 60,
        0 <= weekday < 7,
        day + 4 == 7 * weeks + weekday,
    ensures
        cron::minute_matches(e, (day * 24 + hour) * 60 + minute) <==> {
            &&& cron::allows(e.minute, minute, 0)
            &&& cron::allows(e.hour, hour, 0)
            &&& cron::allows(e.day_of_month, calendar::date_of(day).2, 1)
            &&& cron::allows(e.month, calendar::date_of(day).1, 1)
            &&& cron::allows(e.day_of_week, weekday, 0)
        },
{
    let m = (day * 24 + hour) * 60 + minute;
    assert(m / 60 == day * 24 + hour);
    assert(m % 60 == minute);
    assert((m / 60) % 24 == hour);
    assert(m / 1440 == day);
    assert((day + 4) % 7 == weekday);
}

/// The next tick is a whole minute behind the time given, its minute matches, and
/// no minute between does; where there is none, no minute of the four years
/// behind the time given matches.
pub proof fn law_next_tick_is_the_first(
    e: CronView,
    after: Timestamp,
    r: Result<Timestamp, cron::CronError>,
)
    requires
        cron::is_next_tick(e, after, r),
    ensures
        r matches Ok(t) ==> {
            &&& t.secs > after.secs
            &&& t.secs <= after.secs + 4 * 366 * 86_400
            &&& t.nanos == 0
            &&& t.secs as int % 60 == 0
            &&& cron::minute_matches(e, t.secs as int / 60)
            &&& forall|k: int|
                after.secs < k * 60 && k * 60 < t.secs ==> !#[trigger] cron::minute_matches(e, k)
        },
        r is Err ==> {
            &&& r->Err_0 is NoNextTick
            &&& forall|k: int|
                after.secs < k * 60 && k * 60 <= after.secs + 4 * 366 * 86_400
                    ==> !#[trigger] cron::minute_matches(e, k)
        },
{
}

/// The due jobs are those that are enabled and whose next run is not later than
/// now, in their order.
pub proof fn law_due_jobs_are_the_due_ones(jobs: Seq<ScheduledJob>, now: Timestamp)
    ensures
        cron::due_jobs(jobs, now) == jobs.filter(
            |j: ScheduledJob|
                j.enabled && (j.next_run_at matches Some(t) && (t.secs < now.secs || (t.secs
                    == now.secs && t.nanos <= now.nanos))),
        ),
    decreases jobs.len(),
{
    reveal(Seq::filter);
    if jobs.len() > 0 {
        law_due_jobs_are_the_due_ones(jobs.drop_last(), now);
    }
}

/// A job that is made is enabled, has not run, runs first at the first tick behind
/// its making, and is else what was asked for.
pub proof fn law_new_job(
    job: ScheduledJob,
    now: Timestamp,
    e: CronView,
    r: Result<ScheduledJob, cron::CronError>,
)
    requires
        cron::job_made(job, now, r),
        cron::parsed_cron(job.cron_expr@) == Ok::<CronView, cron::CronErrorView>(e),
        cron::searchable(now),
    ensures
        match r {
            Ok(made) => {
                &&& made.enabled
                &&& made.last_run_at is None
                &&& made.created_at == now
                &&& made.next_run_at is Some
                &&& cron::is_next_tick(e, now, Ok(made.next_run_at->0))
                &&& made == (ScheduledJob {
                    enabled: true,
                    last_run_at: None,
                    next_run_at: made.next_run_at,
                    created_at: now,
                    ..job
                })
            },
            Err(x) => x is NoNextTick && forall|k: int|
                now.secs < k * 60 && k * 60 <= now.secs + 4 * 366 * 86_400
                    ==> !#[trigger] cron::minute_matches(e, k),
        },
{
    if r is Err {
        law_next_tick_is_the_first(e, now, Err(r->Err_0));
    }
}

/// A run is noted, whether or not there is another; the next one is the first tick
/// behind it, and where there is none the job keeps what it had. Nothing else of
/// the job changes.
pub proof fn law_job_that_ran(
    before: ScheduledJob,
    after: ScheduledJob,
    now: Timestamp,
    e: CronView,
    r: Result<(), cron::CronError>,
)
    requires
        cron::job_advanced(before, after, now, r),
        cron::parsed_cron(before.cron_expr@) == Ok::<CronView, cron::CronErrorView>(e),
        cron::searchable(now),
    ensures
        after.last_run_at == Some(now),
        after.id == before.id && after.cron_expr == before.cron_expr && after.enabled
            == before.enabled && after.created_at == before.created_at,
        r is Ok ==> after.next_run_at is Some && cron::is_next_tick(
            e,
            now,
            Ok(after.next_run_at->0),
        ),
        r is Err ==> after.next_run_at == before.next_run_at && r->Err_0 is NoNextTick,
{
    if r is Err {
        law_next_tick_is_the_first(e, now, Err(r->Err_0));
    }
}

/// A job whose expression is none is not made, and the fault is that of the
/// expression.
pub proof fn law_job_without_an_expression(
    job: ScheduledJob,
    now: Timestamp,
    fault: cron::CronErrorView,
    r: Result<ScheduledJob, cron::CronError>,
)
    requires
        cron::job_made(job, now, r),
        cron::parsed_cron(job.cron_expr@) == Err::<CronView, cron::CronErrorView>(fault),
    ensures
        r is Err && r->Err_0@ == fault,
{
}

} // verus!
