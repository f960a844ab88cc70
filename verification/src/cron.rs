//! Cron expressions and jobs scheduled by them.

use vstd::prelude::*;
use vstd::string::*;
use crate::agent::AgentType;
use crate::calendar;
use crate::calendar::{date_at, month_start, MAX_SECS, MIN_SECS};
use crate::text;
use crate::time::{utc_now, Timestamp};

verus! {

/// What is wrong with a cron expression.
#[derive(Clone, PartialEq, Eq, Debug)]
pub enum CronError {
    InvalidField { field: &'static str, value: String },
    TooFewFields(usize),
    TooManyFields(usize),
    ValueOutOfRange { field: &'static str, value: u32, min: u32, max: u32 },
    NoNextTick,
}

/// The model of [`CronError`].
#[verifier::ext_equal]
pub enum CronErrorView {
    InvalidField { field: Seq<char>, value: Seq<char> },
    TooFewFields(usize),
    TooManyFields(usize),
    ValueOutOfRange { field: Seq<char>, value: u32, min: u32, max: u32 },
    NoNextTick,
}

impl View for CronError {
    type V = CronErrorView;

    open spec fn view(&self) -> CronErrorView {
        match *self {
            CronError::InvalidField { field, value } => CronErrorView::InvalidField {
                field: field@,
                value: value@,
            },
            CronError::TooFewFields(n) => CronErrorView::TooFewFields(n),
            CronError::TooManyFields(n) => CronErrorView::TooManyFields(n),
            CronError::ValueOutOfRange { field, value, min, max } => CronErrorView::ValueOutOfRange {
                field: field@,
                value,
                min,
                max,
            },
            CronError::NoNextTick => CronErrorView::NoNextTick,
        }
    }
}

impl CronError {
    /// The message of the error.
    pub fn message(&self) -> (r: String)
        ensures
            r@ == (match self@ {
                CronErrorView::InvalidField { field, value } => "invalid cron "@ + field + ": "@
                    + text::debug_quoted(value),
                CronErrorView::TooFewFields(n) => "expected 5 cron fields, got "@ + text::decimal(
                    n as nat,
                ),
                CronErrorView::TooManyFields(n) => "expected 5 cron fields, got "@ + text::decimal(
                    n as nat,
                ),
                CronErrorView::ValueOutOfRange { field, value, min, max } => "cron "@ + field
                    + " value "@ + text::decimal(value as nat) + " out of range ["@ + text::decimal(
                    min as nat,
                ) + ", "@ + text::decimal(max as nat) + "]"@,
                CronErrorView::NoNextTick => "no matching time found within search window"@,
            }),
    {
        match self {
            CronError::InvalidField { field, value } => {
                let quoted = text::debug_str(value.as_str());
                text::concat4("invalid cron ", field, ": ", quoted.as_str())
            },
            CronError::TooFewFields(n) => {
                let d = text::u64_to_string(*n as u64);
                text::concat2("expected 5 cron fields, got ", d.as_str())
            },
            CronError::TooManyFields(n) => {
                let d = text::u64_to_string(*n as u64);
                text::concat2("expected 5 cron fields, got ", d.as_str())
            },
            CronError::ValueOutOfRange { field, value, min, max } => {
                let v = text::u64_to_string(*value as u64);
                let lo = text::u64_to_string(*min as u64);
                let hi = text::u64_to_string(*max as u64);
                let mut s = text::concat4("cron ", field, " value ", v.as_str());
                s.append(" out of range [");
                s.append(lo.as_str());
                s.append(", ");
                s.append(hi.as_str());
                s.append("]");
                s
            },
            CronError::NoNextTick => "no matching time found within search window".to_owned(),
        }
    }
}

/// The values that a field allows.
#[derive(PartialEq, Eq, Debug)]
pub enum CronFieldValue {
    Any,
    Exact(u32),
    Range(u32, u32),
    Step(Box<CronFieldValue>, u32),
    List(Vec<CronFieldValue>),
}

/// The model of [`CronFieldValue`].
#[verifier::ext_equal]
pub enum FieldView {
    Any,
    Exact(u32),
    Range(u32, u32),
    Step(Box<FieldView>, u32),
    List(Seq<FieldView>),
}

/// The model of a field's values.
pub open spec fn field_view(v: CronFieldValue) -> FieldView
    decreases v,
{
    match v {
        CronFieldValue::Any => FieldView::Any,
        CronFieldValue::Exact(n) => FieldView::Exact(n),
        CronFieldValue::Range(lo, hi) => FieldView::Range(lo, hi),
        CronFieldValue::Step(base, step) => FieldView::Step(Box::new(field_view(*base)), step),
        CronFieldValue::List(items) => FieldView::List(field_views(items@)),
    }
}

/// The models of a list of fields' values.
pub open spec fn field_views(s: Seq<CronFieldValue>) -> Seq<FieldView>
    decreases s,
{
    if s.len() == 0 {
        Seq::empty()
    } else {
        field_views(s.drop_last()).push(field_view(s.last()))
    }
}

impl View for CronFieldValue {
    type V = FieldView;

    open spec fn view(&self) -> FieldView {
        field_view(*self)
    }
}

impl Clone for CronFieldValue {
    fn clone(&self) -> (r: Self)
        ensures
            r@ == self@,
        decreases self,
    {
        match self {
            CronFieldValue::Any => CronFieldValue::Any,
            CronFieldValue::Exact(n) => CronFieldValue::Exact(*n),
            CronFieldValue::Range(lo, hi) => CronFieldValue::Range(*lo, *hi),
            CronFieldValue::Step(base, step) => CronFieldValue::Step(
                Box::new((&**base).clone()),
                *step,
            ),
            CronFieldValue::List(items) => {
                let mut out: Vec<CronFieldValue> = Vec::new();
                let mut i: usize = 0;
                while i < items.len()
                    invariant
                        i <= items@.len(),
                        *self == CronFieldValue::List(*items),
                        field_views(out@) == field_views(items@.take(i as int)),
                    decreases items@.len() - i,
                {
                    proof {
                        assert(decreases_to!(items@ => items@[i as int]));
                        assert(decreases_to!(*items => items@));
                        assert(decreases_to!(*self => self->List_0));
                    }
                    let item = items[i].clone();
                    proof {
                        assert(items@.take(i as int + 1).drop_last() =~= items@.take(i as int));
                        assert(out@.push(item).drop_last() =~= out@);
                    }
                    out.push(item);
                    i += 1;
                }
                proof {
                    assert(items@.take(items@.len() as int) =~= items@);
                }
                CronFieldValue::List(out)
            },
        }
    }
}

/// Whether a field allows the value `val`; `min` is the least value of the
/// field.
pub open spec fn allows(v: FieldView, val: int, min: int) -> bool
    decreases v,
{
    match v {
        FieldView::Any => true,
        FieldView::Exact(n) => val == n,
        FieldView::Range(lo, hi) => lo <= val <= hi,
        FieldView::Step(base, step) => step != 0 && match *base {
            FieldView::Any => (val - min) % (step as int) == 0,
            FieldView::Range(lo, hi) => lo <= val <= hi && (val - lo) % (step as int) == 0,
            _ => false,
        },
        FieldView::List(items) => any_allows(items, val, min),
    }
}

/// Whether one of the fields allows the value `val`.
pub open spec fn any_allows(items: Seq<FieldView>, val: int, min: int) -> bool
    decreases items,
{
    if items.len() == 0 {
        false
    } else {
        any_allows(items.drop_last(), val, min) || allows(items.last(), val, min)
    }
}

impl CronFieldValue {
    /// Whether the field allows `val`.
    pub fn matches(&self, val: u32, min: u32) -> (r: bool)
        requires
            min <= val,
        ensures
            r == allows(self@, val as int, min as int),
        decreases self,
    {
        proof {
            reveal_with_fuel(field_view, 2);
        }
        match self {
            CronFieldValue::Any => true,
            CronFieldValue::Exact(v) => val == *v,
            CronFieldValue::Range(lo, hi) => val >= *lo && val <= *hi,
            CronFieldValue::Step(base, step) => {
                if *step == 0 {
                    return false;
                }
                match &**base {
                    CronFieldValue::Any => (val - min) % *step == 0,
                    CronFieldValue::Range(lo, hi) => val >= *lo && val <= *hi && (val - *lo) % *step
                        == 0,
                    _ => false,
                }
            },
            CronFieldValue::List(items) => {
                let mut i: usize = 0;
                let mut found = false;
                while i < items.len()
                    invariant
                        i <= items@.len(),
                        min <= val,
                        *self == CronFieldValue::List(*items),
                        found == any_allows(
                            field_views(items@.take(i as int)),
                            val as int,
                            min as int,
                        ),
                    decreases items@.len() - i,
                {
                    proof {
                        assert(decreases_to!(items@ => items@[i as int]));
                        assert(decreases_to!(*items => items@));
                        assert(decreases_to!(*self => self->List_0));
                        let t = items@.take(i as int + 1);
                        assert(t.drop_last() =~= items@.take(i as int));
                        assert(t.last() == items@[i as int]);
                        assert(field_views(t).drop_last() =~= field_views(t.drop_last()));
                    }
                    if items[i].matches(val, min) {
                        found = true;
                    }
                    i += 1;
                }
                proof {
                    assert(items@.take(items@.len() as int) =~= items@);
                }
                found
            },
        }
    }
}

/// A field of an expression: the values it allows, and the least and the
/// greatest value it can have.
#[derive(Clone, PartialEq, Eq, Debug)]
pub struct CronField {
    pub value: CronFieldValue,
    pub min: u32,
    pub max: u32,
}

impl CronField {
    /// Whether the field allows `val`.
    pub fn matches(&self, val: u32) -> (r: bool)
        requires
            self.min <= val,
        ensures
            r == allows(self.value@, val as int, self.min as int),
    {
        self.value.matches(val, self.min)
    }
}

/// The text before the first `c` of `s`, and the text behind it.
pub open spec fn cut(s: Seq<char>, c: char) -> (Seq<char>, Seq<char>) {
    let n = text::first_of(s, c);
    (s.take(n), s.skip(n + 1))
}

/// The value, where it is within the field.
pub open spec fn in_range(
    val: u32,
    field: Seq<char>,
    min: u32,
    max: u32,
) -> Option<CronErrorView> {
    if val < min || val > max {
        Some(CronErrorView::ValueOutOfRange { field, value: val, min, max })
    } else {
        None
    }
}

/// What `*`, a number or a range `a-b` comes to.
pub open spec fn simple_field(s: Seq<char>, field: Seq<char>, min: u32, max: u32) -> Result<
    FieldView,
    CronErrorView,
> {
    let invalid = CronErrorView::InvalidField { field, value: s };
    if s.contains('-') {
        let (a, b) = cut(s, '-');
        match (text::parsed_u32(a), text::parsed_u32(b)) {
            (Some(lo), Some(hi)) => match in_range(lo, field, min, max) {
                Some(e) => Err(e),
                None => match in_range(hi, field, min, max) {
                    Some(e) => Err(e),
                    None => Ok(FieldView::Range(lo, hi)),
                },
            },
            _ => Err(invalid),
        }
    } else if s == "*"@ {
        Ok(FieldView::Any)
    } else {
        match text::parsed_u32(s) {
            None => Err(invalid),
            Some(n) => match in_range(n, field, min, max) {
                Some(e) => Err(e),
                None => Ok(FieldView::Exact(n)),
            },
        }
    }
}

/// What one entry of a list comes to: `*`, a number, a range, or one of these
/// with a step `/n`.
pub open spec fn entry_field(s: Seq<char>, field: Seq<char>, min: u32, max: u32) -> Result<
    FieldView,
    CronErrorView,
> {
    if s.contains('/') {
        let (base, step) = cut(s, '/');
        match text::parsed_u32(step) {
            None => Err(CronErrorView::InvalidField { field, value: s }),
            Some(n) => if n == 0 {
                Err(CronErrorView::InvalidField { field, value: s })
            } else {
                match simple_field(base, field, min, max) {
                    Ok(b) => Ok(FieldView::Step(Box::new(b), n)),
                    Err(e) => Err(e),
                }
            },
        }
    } else {
        simple_field(s, field, min, max)
    }
}

/// What the first `n` entries of a list come to: the first error among them,
/// if any.
pub open spec fn entries_field(
    parts: Seq<Seq<char>>,
    field: Seq<char>,
    min: u32,
    max: u32,
    n: int,
) -> Result<Seq<FieldView>, CronErrorView>
    decreases n,
{
    if n <= 0 {
        Ok(Seq::empty())
    } else {
        match entries_field(parts, field, min, max, n - 1) {
            Err(e) => Err(e),
            Ok(front) => match entry_field(text::trimmed(parts[n - 1]), field, min, max) {
                Err(e) => Err(e),
                Ok(v) => Ok(front.push(v)),
            },
        }
    }
}

/// What a field comes to: an entry, or a list of entries between commas.
#[verifier::opaque]
pub open spec fn parsed_field(s: Seq<char>, field: Seq<char>, min: u32, max: u32) -> Result<
    FieldView,
    CronErrorView,
> {
    if s.contains(',') {
        let parts = text::split_char(s, ',');
        match entries_field(parts, field, min, max, parts.len() as int) {
            Ok(items) => Ok(FieldView::List(items)),
            Err(e) => Err(e),
        }
    } else {
        entry_field(s, field, min, max)
    }
}

/// The view of a parsed field.
pub open spec fn parse_view(r: Result<CronFieldValue, CronError>) -> Result<
    FieldView,
    CronErrorView,
> {
    match r {
        Ok(v) => Ok(v@),
        Err(e) => Err(e@),
    }
}

/// Checks that a value is within its field.
fn validate_range(val: u32, field: &'static str, min: u32, max: u32) -> (r: Result<(), CronError>)
    ensures
        match r {
            Ok(_) => in_range(val, field@, min, max) is None,
            Err(e) => in_range(val, field@, min, max) == Some(e@),
        },
{
    if val < min || val > max {
        Err(CronError::ValueOutOfRange { field, value: val, min, max })
    } else {
        Ok(())
    }
}

/// Parses `*`, a number or a range.
fn parse_simple(input: &str, field: &'static str, min: u32, max: u32) -> (r: Result<
    CronFieldValue,
    CronError,
>)
    ensures
        parse_view(r) == simple_field(input@, field@, min, max),
{
    let v = text::to_chars(input);
    match text::find_char(&v, '-') {
        Some(i) => {
            let a = text::from_range(&v, 0, i);
            let b = text::from_range(&v, i + 1, v.len());
            proof {
                assert(a@ =~= input@.take(i as int));
                assert(b@ =~= input@.skip(i as int + 1));
            }
            match (text::parse_u32(a.as_str()), text::parse_u32(b.as_str())) {
                (Some(lo), Some(hi)) => {
                    match validate_range(lo, field, min, max) {
                        Err(e) => {
                            return Err(e);
                        },
                        Ok(_) => {},
                    }
                    match validate_range(hi, field, min, max) {
                        Err(e) => {
                            return Err(e);
                        },
                        Ok(_) => {},
                    }
                    Ok(CronFieldValue::Range(lo, hi))
                },
                _ => Err(CronError::InvalidField { field, value: input.to_owned() }),
            }
        },
        None => {
            if text::str_eq(input, "*") {
                return Ok(CronFieldValue::Any);
            }
            match text::parse_u32(input) {
                None => Err(CronError::InvalidField { field, value: input.to_owned() }),
                Some(n) => {
                    match validate_range(n, field, min, max) {
                        Err(e) => Err(e),
                        Ok(_) => Ok(CronFieldValue::Exact(n)),
                    }
                },
            }
        },
    }
}

/// Parses one entry of a list.
fn parse_entry(input: &str, field: &'static str, min: u32, max: u32) -> (r: Result<
    CronFieldValue,
    CronError,
>)
    ensures
        parse_view(r) == entry_field(input@, field@, min, max),
{
    let v = text::to_chars(input);
    match text::find_char(&v, '/') {
        Some(i) => {
            let base = text::from_range(&v, 0, i);
            let step = text::from_range(&v, i + 1, v.len());
            proof {
                assert(base@ =~= input@.take(i as int));
                assert(step@ =~= input@.skip(i as int + 1));
            }
            match text::parse_u32(step.as_str()) {
                None => Err(CronError::InvalidField { field, value: input.to_owned() }),
                Some(n) => {
                    if n == 0 {
                        return Err(CronError::InvalidField { field, value: input.to_owned() });
                    }
                    match parse_simple(base.as_str(), field, min, max) {
                        Ok(b) => Ok(CronFieldValue::Step(Box::new(b), n)),
                        Err(e) => Err(e),
                    }
                },
            }
        },
        None => parse_simple(input, field, min, max),
    }
}

/// Parses the values of a field.
fn parse_field_value(input: &str, field_name: &'static str, min: u32, max: u32) -> (r: Result<
    CronFieldValue,
    CronError,
>)
    ensures
        parse_view(r) == parsed_field(input@, field_name@, min, max),
{
    proof {
        reveal(parsed_field);
    }
    let v = text::to_chars(input);
    match text::find_char(&v, ',') {
        None => parse_entry(input, field_name, min, max),
        Some(i0) => {
            proof {
                assert(input@[i0 as int] == ',');
                assert(input@.contains(','));
            }
            let parts = text::split(input, ',');
            let ghost pv = text::split_char(input@, ',');
            let mut items: Vec<CronFieldValue> = Vec::new();
            let mut i: usize = 0;
            while i < parts.len()
                invariant
                    i <= parts@.len(),
                    pv == text::views(parts@),
                    pv == text::split_char(input@, ','),
                    input@.contains(','),
                    entries_field(pv, field_name@, min, max, i as int) == Ok::<
                        Seq<FieldView>,
                        CronErrorView,
                    >(field_views(items@)),
                decreases parts@.len() - i,
            {
                let part = text::trim(parts[i].as_str());
                proof {
                    assert(pv[i as int] == parts@[i as int]@);
                }
                match parse_entry(part.as_str(), field_name, min, max) {
                    Ok(item) => {
                        proof {
                            assert(items@.push(item).drop_last() =~= items@);
                        }
                        items.push(item);
                    },
                    Err(e) => {
                        proof {
                            reveal(parsed_field);
                            lemma_entries_error(
                                pv,
                                field_name@,
                                min,
                                max,
                                i as int + 1,
                                pv.len() as int,
                            );
                        }
                        return Err(e);
                    },
                }
                i += 1;
            }
            Ok(CronFieldValue::List(items))
        },
    }
}

proof fn lemma_entries_error(
    parts: Seq<Seq<char>>,
    field: Seq<char>,
    min: u32,
    max: u32,
    n: int,
    m: int,
)
    requires
        n <= m,
        entries_field(parts, field, min, max, n) is Err,
    ensures
        entries_field(parts, field, min, max, m) == entries_field(parts, field, min, max, n),
    decreases m - n,
{
    if n < m {
        lemma_entries_error(parts, field, min, max, n, m - 1);
    }
}

/// A standard cron expression of five fields: minute, hour, day of month,
/// month, day of week.
///
/// A field is `*`, a value, a range (`1-5`), one of these with a step
/// (`*/15`, `0-30/5`), or a list of those (`1,3,5`). Days of the week count
/// from Sunday as zero.
#[derive(Clone, PartialEq, Eq, Debug)]
pub struct CronExpr {
    pub minute: CronField,
    pub hour: CronField,
    pub day_of_month: CronField,
    pub month: CronField,
    pub day_of_week: CronField,
}

/// The model of an expression: the values of its five fields.
#[verifier::ext_equal]
pub struct CronView {
    pub minute: FieldView,
    pub hour: FieldView,
    pub day_of_month: FieldView,
    pub month: FieldView,
    pub day_of_week: FieldView,
}

impl View for CronExpr {
    type V = CronView;

    open spec fn view(&self) -> CronView {
        CronView {
            minute: self.minute.value@,
            hour: self.hour.value@,
            day_of_month: self.day_of_month.value@,
            month: self.month.value@,
            day_of_week: self.day_of_week.value@,
        }
    }
}

impl CronExpr {
    /// Each field has the bounds of what it stands for.
    pub open spec fn wf(&self) -> bool {
        &&& self.minute.min == 0 && self.minute.max == 59
        &&& self.hour.min == 0 && self.hour.max == 23
        &&& self.day_of_month.min == 1 && self.day_of_month.max == 31
        &&& self.month.min == 1 && self.month.max == 12
        &&& self.day_of_week.min == 0 && self.day_of_week.max == 6
    }
}

/// What five fields come to: an expression, or the first error.
pub open spec fn assembled(
    minute: Result<FieldView, CronErrorView>,
    hour: Result<FieldView, CronErrorView>,
    day_of_month: Result<FieldView, CronErrorView>,
    month: Result<FieldView, CronErrorView>,
    day_of_week: Result<FieldView, CronErrorView>,
) -> Result<CronView, CronErrorView> {
    match (minute, hour, day_of_month, month, day_of_week) {
        (Ok(minute), Ok(hour), Ok(day_of_month), Ok(month), Ok(day_of_week)) => Ok(
            CronView { minute, hour, day_of_month, month, day_of_week },
        ),
        (Err(e), _, _, _, _) => Err(e),
        (_, Err(e), _, _, _) => Err(e),
        (_, _, Err(e), _, _) => Err(e),
        (_, _, _, Err(e), _) => Err(e),
        (_, _, _, _, Err(e)) => Err(e),
    }
}

/// What an expression comes to: five fields, each valid; the first error
/// otherwise.
pub open spec fn parsed_cron(s: Seq<char>) -> Result<CronView, CronErrorView> {
    let w = text::words(s);
    if w.len() < 5 {
        Err(CronErrorView::TooFewFields(w.len() as usize))
    } else if w.len() > 5 {
        Err(CronErrorView::TooManyFields(w.len() as usize))
    } else {
        assembled(
            parsed_field(w[0], "minute"@, 0, 59),
            parsed_field(w[1], "hour"@, 0, 23),
            parsed_field(w[2], "day_of_month"@, 1, 31),
            parsed_field(w[3], "month"@, 1, 12),
            parsed_field(w[4], "day_of_week"@, 0, 6),
        )
    }
}

/// Whether the date of `day` fits the day fields.
pub open spec fn day_allowed(e: CronView, day: int) -> bool {
    &&& allows(e.day_of_month, calendar::date_of(day).2, 1)
    &&& allows(e.day_of_week, (day + 4) % 7, 0)
}

/// Whether the month of `day` fits the month field.
pub open spec fn month_allowed(e: CronView, day: int) -> bool {
    allows(e.month, calendar::date_of(day).1, 1)
}

/// Whether the expression matches the minute `m`, counted from the start of
/// 1970 in UTC.
pub open spec fn minute_matches(e: CronView, m: int) -> bool {
    &&& allows(e.minute, m % 60, 0)
    &&& allows(e.hour, (m / 60) % 24, 0)
    &&& day_allowed(e, m / 1440)
    &&& month_allowed(e, m / 1440)
}

/// The number of minutes that are searched for the next tick: four years.
pub open spec fn search_minutes() -> int {
    366int * 4 * 1440
}

/// Whether the calendar reaches far enough to search for a tick behind `t`.
pub open spec fn searchable(t: Timestamp) -> bool {
    MIN_SECS <= t.secs <= MAX_SECS - 366 * 4 * 86_400
}

/// Whether `r` is the first matching minute behind `after`, or says that there
/// is none within the search.
pub open spec fn is_next_tick(
    e: CronView,
    after: Timestamp,
    r: Result<Timestamp, CronError>,
) -> bool {
    let m0 = after.secs as int / 60;
    match r {
        Ok(t) => {
            let m = t.secs as int / 60;
            &&& t.nanos == 0
            &&& t.secs as int % 60 == 0
            &&& m0 < m <= m0 + search_minutes()
            &&& minute_matches(e, m)
            &&& forall|k: int| m0 < k < m ==> !minute_matches(e, k)
        },
        Err(x) => x is NoNextTick && forall|k: int|
            m0 < k <= m0 + search_minutes() ==> !minute_matches(e, k),
    }
}

impl CronExpr {
    /// Parses an expression.
    pub fn parse(expr: &str) -> (r: Result<Self, CronError>)
        ensures
            match r {
                Ok(e) => e.wf() && parsed_cron(expr@) == Ok::<CronView, CronErrorView>(e@),
                Err(x) => parsed_cron(expr@) == Err::<CronView, CronErrorView>(x@),
            },
    {
        let fields = text::split_whitespace(expr);
        proof {
            assert forall|i: int| 0 <= i < fields@.len() implies text::words(expr@)[i]
                == #[trigger] fields@[i]@ by {
                assert(text::views(fields@)[i] == fields@[i]@);
            }
        }
        if fields.len() < 5 {
            return Err(CronError::TooFewFields(fields.len()));
        }
        if fields.len() > 5 {
            return Err(CronError::TooManyFields(fields.len()));
        }
        let minute = match parse_field_value(fields[0].as_str(), "minute", 0, 59) {
            Ok(value) => CronField { value, min: 0, max: 59 },
            Err(e) => {
                return Err(e);
            },
        };
        let hour = match parse_field_value(fields[1].as_str(), "hour", 0, 23) {
            Ok(value) => CronField { value, min: 0, max: 23 },
            Err(e) => {
                return Err(e);
            },
        };
        let day_of_month = match parse_field_value(fields[2].as_str(), "day_of_month", 1, 31) {
            Ok(value) => CronField { value, min: 1, max: 31 },
            Err(e) => {
                return Err(e);
            },
        };
        let month = match parse_field_value(fields[3].as_str(), "month", 1, 12) {
            Ok(value) => CronField { value, min: 1, max: 12 },
            Err(e) => {
                return Err(e);
            },
        };
        let day_of_week = match parse_field_value(fields[4].as_str(), "day_of_week", 0, 6) {
            Ok(value) => CronField { value, min: 0, max: 6 },
            Err(e) => {
                return Err(e);
            },
        };
        Ok(CronExpr { minute, hour, day_of_month, month, day_of_week })
    }

    /// Whether the day of a date fits the day fields.
    fn day_matches(&self, day: i64, day_of_month: u32) -> (r: bool)
        requires
            self.wf(),
            day_of_month as int == calendar::date_of(day as int).2,
            day_of_month >= 1,
            -100_000_000 <= day <= 100_000_000,
        ensures
            r == day_allowed(self@, day as int),
    {
        let shifted: i64 = (day + 4 + 700_000_000) % 7;
        let weekday: u32 = shifted as u32;
        self.day_of_month.matches(day_of_month) && self.day_of_week.matches(weekday)
    }

    /// Whether the expression matches the minute in which `t` lies.
    pub fn matches(&self, t: &Timestamp) -> (r: bool)
        requires
            self.wf(),
            MIN_SECS <= t.secs <= MAX_SECS,
        ensures
            r == minute_matches(self@, t.secs as int / 60),
    {
        let (_year, month, day_of_month) = date_at(t.secs);
        let day: i64 = floor_div(t.secs, 86_400);
        let of_day: i64 = t.secs - day * 86_400;
        let hour: u32 = (of_day / 3600) as u32;
        let minute: u32 = ((of_day / 60) % 60) as u32;
        proof {
            calendar::lemma_date_of(day as int);
            lemma_clock(t.secs as int);
        }
        self.minute.matches(minute) && self.hour.matches(hour) && self.day_matches(
            day,
            day_of_month,
        ) && self.month.matches(month)
    }

    /// The first matching minute behind `after`, within four years.
    pub fn next_tick(&self, after: &Timestamp) -> (r: Result<Timestamp, CronError>)
        requires
            self.wf(),
            searchable(*after),
        ensures
            is_next_tick(self@, *after, r),
    {
        let ghost e = self@;
        let start: i64 = floor_div(after.secs, 60);
        let limit: i64 = start + 366 * 4 * 1440;
        let ghost m0 = after.secs as int / 60;
        let mut m: i64 = start + 1;
        while m <= limit
            invariant
                self.wf(),
                e == self@,
                searchable(*after),
                m0 == after.secs as int / 60,
                start == m0,
                limit == m0 + search_minutes(),
                m0 < m <= limit + 31 * 1440,
                forall|k: int| m0 < k < m ==> !minute_matches(e, k),
            decreases limit + 31 * 1440 - m,
        {
            let secs: i64 = m * 60;
            let day: i64 = floor_div(m, 1440);
            let (year, month, day_of_month) = date_at(secs);
            proof {
                lemma_minute_of_secs(m as int);
                calendar::lemma_date_of(day as int);
                calendar::lemma_year_range(day as int);
            }
            if !self.month.matches(month) {
                let next_year: i32 = if month == 12 {
                    year + 1
                } else {
                    year
                };
                let following: u32 = if month == 12 {
                    1
                } else {
                    month + 1
                };
                match month_start(next_year, following) {
                    Some(next) => {
                        let ghost b = next as int / 86_400;
                        proof {
                            calendar::lemma_next_month_later(day as int, b);
                            assert forall|k: int| m <= k < next as int / 60 implies !minute_matches(
                                e,
                                k,
                            ) by {
                                lemma_minute_in_days(k, m as int, day as int, b);
                                calendar::lemma_same_month(day as int, b, k / 1440);
                            }
                            lemma_whole_minutes(next as int);
                        }
                        m = next / 60;
                    },
                    None => {
                        proof {
                            lemma_last_month(day as int);
                            assert forall|k: int| m <= k <= limit implies !minute_matches(
                                e,
                                k,
                            ) by {
                                lemma_minute_in_days(k, m as int, day as int, LAST_DAY + 1);
                                calendar::lemma_same_month(day as int, LAST_DAY + 1, k / 1440);
                            }
                        }
                        return Err(CronError::NoNextTick);
                    },
                }
                continue;
            }
            if !self.day_matches(day, day_of_month) {
                let next: i64 = (day + 1) * 1440;
                proof {
                    assert forall|k: int| m <= k < next implies !minute_matches(e, k) by {
                        assert(k / 1440 == day);
                    }
                }
                m = next;
                continue;
            }
            let hours: i64 = floor_div(m, 60);
            let hour: u32 = (hours - day * 24) as u32;
            if !self.hour.matches(hour) {
                let next: i64 = (hours + 1) * 60;
                proof {
                    assert forall|k: int| m <= k < next implies !minute_matches(e, k) by {
                        assert(k / 60 == hours);
                    }
                }
                m = next;
                continue;
            }
            let minute: u32 = (m - hours * 60) as u32;
            if self.minute.matches(minute) {
                return Ok(Timestamp { secs, nanos: 0 });
            }
            m += 1;
        }
        Err(CronError::NoNextTick)
    }
}

/// `a` divided by `b`, rounded down.
fn floor_div(a: i64, b: i64) -> (r: i64)
    requires
        0 < b,
        MIN_SECS <= a <= MAX_SECS,
    ensures
        r as int == a as int / b as int,
{
    if a >= 0 {
        a / b
    } else {
        let up: i64 = (-(a + 1)) / b;
        let r: i64 = -up - 1;
        proof {
            lemma_floor(a as int, b as int, up as int);
        }
        r
    }
}

proof fn lemma_floor(a: int, b: int, up: int)
    requires
        0 < b,
        a < 0,
        up == (-(a + 1)) / b,
    ensures
        a / b == -up - 1,
{
    let x = -(a + 1);
    vstd::arithmetic::div_mod::lemma_fundamental_div_mod(x, b);
    let rem = x % b;
    assert(a == b * (-up - 1) + (b - 1 - rem)) by (nonlinear_arith)
        requires
            x == b * up + rem,
            x == -(a + 1),
    ;
    vstd::arithmetic::div_mod::lemma_fundamental_div_mod_converse(
        a,
        b,
        -up - 1,
        b - 1 - rem,
    );
}

proof fn lemma_clock(secs: int)
    ensures
        (secs / 60) / 1440 == secs / 86_400,
        (secs / 60) % 60 == ((secs - (secs / 86_400) * 86_400) / 60) % 60,
        ((secs / 60) / 60) % 24 == (secs - (secs / 86_400) * 86_400) / 3600,
{
    let day = secs / 86_400;
    let of_day = secs - day * 86_400;
    let minutes = of_day / 60;
    assert(secs / 60 == day * 1440 + minutes);
    lemma_hours(day, minutes);
    assert(of_day / 3600 == minutes / 60);
}

proof fn lemma_hours(day: int, minutes: int)
    requires
        0 <= minutes < 1440,
    ensures
        (day * 1440 + minutes) / 1440 == day,
        (day * 1440 + minutes) % 60 == minutes % 60,
        ((day * 1440 + minutes) / 60) % 24 == minutes / 60,
{
    assert((day * 1440 + minutes) / 60 == day * 24 + minutes / 60);
}

proof fn lemma_minute_of_secs(m: int)
    ensures
        (m * 60) / 86_400 == m / 1440,
        (m * 60) / 60 == m,
{
}

proof fn lemma_whole_minutes(secs: int)
    requires
        secs % 86_400 == 0,
    ensures
        secs % 60 == 0,
        (secs / 60) / 1440 == secs / 86_400,
        secs / 60 == (secs / 86_400) * 1440,
{
}

proof fn lemma_minute_in_days(k: int, m: int, a: int, b: int)
    requires
        m <= k < b * 1440,
        a == m / 1440,
    ensures
        a <= k / 1440 < b,
{
}

/// The last day of the calendar.
pub const LAST_DAY: i64 = 95_026_236;

/// Behind the last month of the calendar comes the day after its last.
proof fn lemma_last_month(day: int)
    requires
        MIN_SECS <= day * 86_400 <= MAX_SECS,
        calendar::date_of(day).0 == 262142,
        calendar::date_of(day).1 == 12,
    ensures
        calendar::date_of(LAST_DAY + 1) == (
            calendar::next_month(calendar::date_of(day)).0,
            calendar::next_month(calendar::date_of(day)).1,
            1int,
        ),
        (LAST_DAY + 1) * 86_400 > MAX_SECS,
{
    calendar::lemma_year_start(262143);
    assert(calendar::year_start(262143) == 95026237);
}

/// The text of a field's values.
pub open spec fn shown(v: FieldView) -> Seq<char>
    decreases v,
{
    match v {
        FieldView::Any => "*"@,
        FieldView::Exact(n) => text::decimal(n as nat),
        FieldView::Range(lo, hi) => text::decimal(lo as nat) + "-"@ + text::decimal(hi as nat),
        FieldView::Step(base, step) => shown(*base) + "/"@ + text::decimal(step as nat),
        FieldView::List(items) => text::join(all_shown(items), ","@),
    }
}

/// The texts of a list of fields' values.
pub open spec fn all_shown(items: Seq<FieldView>) -> Seq<Seq<char>>
    decreases items,
{
    if items.len() == 0 {
        Seq::empty()
    } else {
        all_shown(items.drop_last()).push(shown(items.last()))
    }
}

/// The text of an expression: its fields, a blank between each two.
pub open spec fn shown_cron(e: CronView) -> Seq<char> {
    shown(e.minute) + " "@ + shown(e.hour) + " "@ + shown(e.day_of_month) + " "@ + shown(e.month)
        + " "@ + shown(e.day_of_week)
}

/// The text of a field's values.
fn value_str(v: &CronFieldValue) -> (r: String)
    ensures
        r@ == shown(v@),
    decreases v,
{
    match v {
        CronFieldValue::Any => "*".to_owned(),
        CronFieldValue::Exact(n) => text::u64_to_string(*n as u64),
        CronFieldValue::Range(lo, hi) => {
            let a = text::u64_to_string(*lo as u64);
            let b = text::u64_to_string(*hi as u64);
            text::concat3(a.as_str(), "-", b.as_str())
        },
        CronFieldValue::Step(base, step) => {
            let a = value_str(&**base);
            let b = text::u64_to_string(*step as u64);
            text::concat3(a.as_str(), "/", b.as_str())
        },
        CronFieldValue::List(items) => {
            let mut parts: Vec<String> = Vec::new();
            let mut i: usize = 0;
            proof {
                assert(text::views(parts@) =~= Seq::empty());
            }
            while i < items.len()
                invariant
                    i <= items@.len(),
                    *v == CronFieldValue::List(*items),
                    text::views(parts@) == all_shown(field_views(items@.take(i as int))),
                decreases items@.len() - i,
            {
                proof {
                    assert(decreases_to!(items@ => items@[i as int]));
                    assert(decreases_to!(*items => items@));
                    assert(decreases_to!(*v => v->List_0));
                    let t = items@.take(i as int + 1);
                    assert(t.drop_last() =~= items@.take(i as int));
                    assert(t.last() == items@[i as int]);
                    assert(field_views(t).drop_last() =~= field_views(t.drop_last()));
                }
                let part = value_str(&items[i]);
                proof {
                    text::lemma_views_push(parts@, part);
                }
                parts.push(part);
                i += 1;
            }
            proof {
                assert(items@.take(items@.len() as int) =~= items@);
            }
            text::join_strings(&parts, ",")
        },
    }
}

impl CronExpr {
    /// The text of the expression.
    pub fn to_string(&self) -> (r: String)
        ensures
            r@ == shown_cron(self@),
    {
        let mut s = value_str(&self.minute.value);
        s.append(" ");
        let hour = value_str(&self.hour.value);
        s.append(hour.as_str());
        s.append(" ");
        let day_of_month = value_str(&self.day_of_month.value);
        s.append(day_of_month.as_str());
        s.append(" ");
        let month = value_str(&self.month.value);
        s.append(month.as_str());
        s.append(" ");
        let day_of_week = value_str(&self.day_of_week.value);
        s.append(day_of_week.as_str());
        s
    }
}

/// A prompt that an agent is given whenever its expression matches.
#[derive(Clone, PartialEq, Eq, Debug)]
pub struct ScheduledJob {
    pub id: String,
    pub name: String,
    pub cron_expr: String,
    pub agent_type: AgentType,
    pub prompt: String,
    pub workspace_id: String,
    pub enabled: bool,
    pub last_run_at: Option<Timestamp>,
    pub next_run_at: Option<Timestamp>,
    pub created_at: Timestamp,
}

/// The first tick of an expression behind `now`, or why there is none.
pub open spec fn is_scheduled(
    cron_expr: Seq<char>,
    now: Timestamp,
    r: Result<Timestamp, CronError>,
) -> bool {
    match parsed_cron(cron_expr) {
        Err(e) => r matches Err(x) && x@ == e,
        Ok(e) => if searchable(now) {
            is_next_tick(e, now, r)
        } else {
            r matches Err(x) && x is NoNextTick
        },
    }
}

/// Whether `r` is what `job`, without its times, comes to when it is made at
/// `now`.
pub open spec fn job_made(
    job: ScheduledJob,
    now: Timestamp,
    r: Result<ScheduledJob, CronError>,
) -> bool {
    match r {
        Ok(made) => made.next_run_at is Some && is_scheduled(
            job.cron_expr@,
            now,
            Ok(made.next_run_at->0),
        ) && made == (ScheduledJob {
            enabled: true,
            last_run_at: None,
            next_run_at: made.next_run_at,
            created_at: now,
            ..job
        }),
        Err(x) => is_scheduled(job.cron_expr@, now, Err(x)),
    }
}

/// Whether a run at `now` turns `before` into `after`: the run is noted in any
/// case, the next one where the expression gives it.
pub open spec fn job_advanced(
    before: ScheduledJob,
    after: ScheduledJob,
    now: Timestamp,
    r: Result<(), CronError>,
) -> bool {
    match r {
        Ok(_) => after.next_run_at is Some && is_scheduled(
            before.cron_expr@,
            now,
            Ok(after.next_run_at->0),
        ) && after == (ScheduledJob {
            last_run_at: Some(now),
            next_run_at: after.next_run_at,
            ..before
        }),
        Err(x) => is_scheduled(before.cron_expr@, now, Err(x)) && after == (ScheduledJob {
            last_run_at: Some(now),
            ..before
        }),
    }
}

/// The first tick of an expression behind `now`. Where the calendar ends
/// before the search does, there is none.
fn schedule(cron_expr: &str, now: Timestamp) -> (r: Result<Timestamp, CronError>)
    ensures
        is_scheduled(cron_expr@, now, r),
{
    let parsed = match CronExpr::parse(cron_expr) {
        Ok(e) => e,
        Err(e) => {
            return Err(e);
        },
    };
    if now.secs < MIN_SECS || now.secs > MAX_SECS - 366 * 4 * 86_400 {
        return Err(CronError::NoNextTick);
    }
    parsed.next_tick(&now)
}

impl ScheduledJob {
    /// A job that is made now. The clock decides when it first runs.
    pub fn new(
        id: String,
        name: String,
        cron_expr: String,
        agent_type: AgentType,
        prompt: String,
        workspace_id: String,
    ) -> (r: Result<Self, CronError>)
        ensures
            exists|now: Timestamp|
                #[trigger] job_made(
                    (ScheduledJob {
                        id,
                        name,
                        cron_expr,
                        agent_type,
                        prompt,
                        workspace_id,
                        enabled: true,
                        last_run_at: None,
                        next_run_at: None,
                        created_at: now,
                    }),
                    now,
                    r,
                ),
    {
        Self::new_at(id, name, cron_expr, agent_type, prompt, workspace_id, utc_now())
    }

    /// A job that is made at `now`.
    pub fn new_at(
        id: String,
        name: String,
        cron_expr: String,
        agent_type: AgentType,
        prompt: String,
        workspace_id: String,
        now: Timestamp,
    ) -> (r: Result<Self, CronError>)
        ensures
            job_made(
                (ScheduledJob {
                    id,
                    name,
                    cron_expr,
                    agent_type,
                    prompt,
                    workspace_id,
                    enabled: true,
                    last_run_at: None,
                    next_run_at: None,
                    created_at: now,
                }),
                now,
                r,
            ),
    {
        let next = match schedule(cron_expr.as_str(), now) {
            Ok(t) => t,
            Err(e) => {
                return Err(e);
            },
        };
        Ok(
            ScheduledJob {
                id,
                name,
                cron_expr,
                agent_type,
                prompt,
                workspace_id,
                enabled: true,
                last_run_at: None,
                next_run_at: Some(next),
                created_at: now,
            },
        )
    }

    /// Notes a run now, and schedules the next one.
    pub fn advance_schedule(&mut self) -> (r: Result<(), CronError>)
        ensures
            exists|now: Timestamp| #[trigger] job_advanced(*old(self), *final(self), now, r),
    {
        self.advance_schedule_at(utc_now())
    }

    /// Notes a run at `now`, and schedules the next one.
    pub fn advance_schedule_at(&mut self, now: Timestamp) -> (r: Result<(), CronError>)
        ensures
            job_advanced(*old(self), *final(self), now, r),
    {
        self.last_run_at = Some(now);
        match schedule(self.cron_expr.as_str(), now) {
            Ok(t) => {
                self.next_run_at = Some(t);
                Ok(())
            },
            Err(e) => Err(e),
        }
    }

    /// Whether the job is to run at `now`.
    pub open spec fn due(self, now: Timestamp) -> bool {
        self.enabled && self.next_run_at is Some && (self.next_run_at->0).le(now)
    }

    /// Whether the job is to run at `now`.
    pub fn is_due(&self, now: &Timestamp) -> (r: bool)
        ensures
            r == self.due(*now),
    {
        match &self.next_run_at {
            Some(next) => self.enabled && next.not_after(now),
            None => false,
        }
    }
}

/// The jobs that are due at `now`, in order.
pub open spec fn due_jobs(jobs: Seq<ScheduledJob>, now: Timestamp) -> Seq<ScheduledJob>
    decreases jobs.len(),
{
    if jobs.len() == 0 {
        Seq::empty()
    } else if jobs.last().due(now) {
        due_jobs(jobs.drop_last(), now).push(jobs.last())
    } else {
        due_jobs(jobs.drop_last(), now)
    }
}

/// The jobs that a list of references refers to.
pub open spec fn referred(v: Seq<&ScheduledJob>) -> Seq<ScheduledJob> {
    Seq::new(v.len(), |i: int| *v[i])
}

/// The jobs that are due at `now`, in order.
pub fn collect_due_jobs<'a>(jobs: &'a [ScheduledJob], now: &Timestamp) -> (r: Vec<
    &'a ScheduledJob,
>)
    ensures
        referred(r@) == due_jobs(jobs@, *now),
{
    let mut out: Vec<&'a ScheduledJob> = Vec::new();
    let mut i: usize = 0;
    proof {
        assert(jobs@.take(0) =~= Seq::empty());
        assert(referred(out@) =~= Seq::empty());
    }
    while i < jobs.len()
        invariant
            i <= jobs@.len(),
            referred(out@) == due_jobs(jobs@.take(i as int), *now),
        decreases jobs@.len() - i,
    {
        proof {
            assert(jobs@.take(i as int + 1).drop_last() =~= jobs@.take(i as int));
            assert(jobs@.take(i as int + 1).last() == jobs@[i as int]);
        }
        if jobs[i].is_due(now) {
            proof {
                assert(referred(out@.push(&jobs@[i as int])) =~= referred(out@).push(
                    jobs@[i as int],
                ));
            }
            out.push(&jobs[i]);
        }
        i += 1;
    }
    proof {
        assert(jobs@.take(jobs@.len() as int) =~= jobs@);
    }
    out
}

} // verus!
