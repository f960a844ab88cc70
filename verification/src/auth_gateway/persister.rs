//! Records of the gateway as rows of the audit log.

use vstd::prelude::*;
use vstd::string::*;
use crate::auth_gateway::audit::{AuditEvent, AuditView};
use crate::calendar;
use crate::calendar::{MAX_SECS, MIN_SECS};
use crate::db::audit::{AuditEventInput, AuditEventRow, AuditValues};
use crate::text;
use crate::time::Timestamp;

verus! {

/// The time in RFC 3339, in UTC, to the millisecond.
pub uninterp spec fn rfc3339_millis(secs: int, nanos: int) -> Seq<char>;

/// A number below a hundred in two digits.
pub open spec fn two_digits(n: int) -> Seq<char> {
    seq![text::digit_char((n / 10) as nat), text::digit_char((n % 10) as nat)]
}

/// The time in RFC 3339 for the years 0 to 9999.
pub open spec fn common_rfc3339(secs: int, nanos: int) -> Seq<char> {
    let (year, month, day) = calendar::date_of(secs / 86_400);
    let of_day = secs % 86_400;
    let millis = nanos / 1_000_000;
    two_digits(year / 100) + two_digits(year % 100) + "-"@ + two_digits(month) + "-"@ + two_digits(
        day,
    ) + "T"@ + two_digits(of_day / 3600) + ":"@ + two_digits((of_day / 60) % 60) + ":"@
        + two_digits(of_day % 60) + "."@ + seq![text::digit_char((millis / 100) as nat)]
        + two_digits(millis % 100) + "Z"@
}

/// `DateTime::to_rfc3339_opts` of `chrono`, to the millisecond and with `Z` for
/// UTC. For a year of four digits it is the date, a `T`, the time of day and the
/// milliseconds.
#[verifier::external_body]
fn format_utc(secs: i64, nanos: u32) -> (r: String)
    requires
        MIN_SECS <= secs <= MAX_SECS,
        nanos < 1_000_000_000,
    ensures
        r@ == rfc3339_millis(secs as int, nanos as int),
        0 <= calendar::date_of(secs as int / 86_400).0 <= 9999 ==> r@ == common_rfc3339(
            secs as int,
            nanos as int,
        ),
{
    chrono::DateTime::from_timestamp(secs, nanos).unwrap_or_default().to_rfc3339_opts(
        chrono::SecondsFormat::Millis, true)
}

/// Whether the calendar holds a time.
pub open spec fn is_time(t: Timestamp) -> bool {
    MIN_SECS <= t.secs <= MAX_SECS && t.nanos < 1_000_000_000
}

/// The time in RFC 3339, in UTC, to the millisecond.
pub fn format_system_time(ts: Timestamp) -> (r: String)
    requires
        is_time(ts),
    ensures
        r@ == rfc3339_millis(ts.secs as int, ts.nanos as int),
        0 <= calendar::date_of(ts.secs as int / 86_400).0 <= 9999 ==> r@ == common_rfc3339(
            ts.secs as int,
            ts.nanos as int,
        ),
{
    format_utc(ts.secs, ts.nanos)
}

/// The milliseconds of a time since 1970.
pub open spec fn millis_of(t: Timestamp) -> int {
    t.secs * 1000 + t.nanos / 1_000_000
}

/// Whether a time is in the years 0 to 9999.
pub open spec fn in_common_years(t: Timestamp) -> bool {
    is_time(t) && 0 <= calendar::date_of(t.secs as int / 86_400).0 <= 9999
}

proof fn lemma_one_char_order(c: char, d: char, s: Seq<char>, t: Seq<char>)
    ensures
        text::lex_lt(seq![c] + s, seq![d] + t) == (c < d || (c == d && text::lex_lt(s, t))),
{
    assert((seq![c] + s).skip(1) =~= s);
    assert((seq![d] + t).skip(1) =~= t);
}

proof fn lemma_digit_order(m: int, n: int)
    requires
        0 <= m < 10,
        0 <= n < 10,
    ensures
        (text::digit_char(m as nat) < text::digit_char(n as nat)) == (m < n),
        (text::digit_char(m as nat) == text::digit_char(n as nat)) == (m == n),
{
}

proof fn lemma_two_digits_order(m: int, n: int, s: Seq<char>, t: Seq<char>)
    requires
        0 <= m < 100,
        0 <= n < 100,
    ensures
        text::lex_lt(two_digits(m) + s, two_digits(n) + t) == (m < n || (m == n && text::lex_lt(
            s,
            t,
        ))),
{
    let m1 = text::digit_char((m / 10) as nat);
    let m2 = text::digit_char((m % 10) as nat);
    let n1 = text::digit_char((n / 10) as nat);
    let n2 = text::digit_char((n % 10) as nat);
    assert(two_digits(m) + s =~= seq![m1] + (seq![m2] + s));
    assert(two_digits(n) + t =~= seq![n1] + (seq![n2] + t));
    lemma_one_char_order(m1, n1, seq![m2] + s, seq![n2] + t);
    lemma_one_char_order(m2, n2, s, t);
    lemma_digit_order(m / 10, n / 10);
    lemma_digit_order(m % 10, n % 10);
}

/// What stands behind the date of a time.
spec fn clock_text(of_day: int, millis: int) -> Seq<char> {
    two_digits(of_day / 3600) + (seq![':'] + (two_digits((of_day / 60) % 60) + (seq![':'] + (
    two_digits(of_day % 60) + (seq!['.'] + (seq![text::digit_char((millis / 100) as nat)] + (
    two_digits(millis % 100) + seq!['Z'])))))))
}

proof fn lemma_clock_order(d: int, m: int, e: int, n: int)
    requires
        0 <= d < 86_400,
        0 <= e < 86_400,
        0 <= m < 1000,
        0 <= n < 1000,
    ensures
        text::lex_lt(clock_text(d, m), clock_text(e, n)) == (d < e || (d == e && m < n)),
        clock_text(d, m).len() == 13,
{
    let z = seq!['Z'];
    let m2 = two_digits(m % 100) + z;
    let n2 = two_digits(n % 100) + z;
    let m1 = seq![text::digit_char((m / 100) as nat)] + m2;
    let n1 = seq![text::digit_char((n / 100) as nat)] + n2;
    let ds = two_digits(d % 60) + (seq!['.'] + m1);
    let es = two_digits(e % 60) + (seq!['.'] + n1);
    let dm = two_digits((d / 60) % 60) + (seq![':'] + ds);
    let em = two_digits((e / 60) % 60) + (seq![':'] + es);
    text::lemma_lex_irreflexive(z);
    lemma_two_digits_order(m % 100, n % 100, z, z);
    lemma_digit_order(m / 100, n / 100);
    lemma_one_char_order(
        text::digit_char((m / 100) as nat),
        text::digit_char((n / 100) as nat),
        m2,
        n2,
    );
    lemma_one_char_order('.', '.', m1, n1);
    lemma_two_digits_order(d % 60, e % 60, seq!['.'] + m1, seq!['.'] + n1);
    lemma_one_char_order(':', ':', ds, es);
    lemma_two_digits_order((d / 60) % 60, (e / 60) % 60, seq![':'] + ds, seq![':'] + es);
    lemma_one_char_order(':', ':', dm, em);
    lemma_two_digits_order(d / 3600, e / 3600, seq![':'] + dm, seq![':'] + em);
    assert(d / 3600 == (d / 60) / 60 && e / 3600 == (e / 60) / 60);
}

proof fn lemma_common_text(secs: int, nanos: int)
    ensures
        common_rfc3339(secs, nanos) == ({
            let (year, month, day) = calendar::date_of(secs / 86_400);
            two_digits(year / 100) + (two_digits(year % 100) + (seq!['-'] + (two_digits(month) + (
            seq!['-'] + (two_digits(day) + (seq!['T'] + clock_text(
                secs % 86_400,
                nanos / 1_000_000,
            )))))))
        }),
{
    reveal_strlit("-");
    reveal_strlit("T");
    reveal_strlit(":");
    reveal_strlit(".");
    reveal_strlit("Z");
}

/// In the years 0 to 9999 every time is written in the same width, and the
/// texts stand in the order of the times, to the millisecond.
pub proof fn law_texts_stand_in_order_of_time(a: Timestamp, b: Timestamp)
    requires
        in_common_years(a),
        in_common_years(b),
    ensures
        common_rfc3339(a.secs as int, a.nanos as int).len() == 24,
        text::lex_lt(
            common_rfc3339(a.secs as int, a.nanos as int),
            common_rfc3339(b.secs as int, b.nanos as int),
        ) == (millis_of(a) < millis_of(b)),
{
    let (da, db) = (a.secs as int / 86_400, b.secs as int / 86_400);
    let (ca, cb) = (a.secs as int % 86_400, b.secs as int % 86_400);
    let (ma, mb) = (a.nanos as int / 1_000_000, b.nanos as int / 1_000_000);
    let (ya, na, ta) = calendar::date_of(da);
    let (yb, nb, tb) = calendar::date_of(db);
    calendar::lemma_date_of(da);
    calendar::lemma_date_of(db);
    lemma_common_text(a.secs as int, a.nanos as int);
    lemma_common_text(b.secs as int, b.nanos as int);
    lemma_clock_order(ca, ma, cb, mb);
    let (a6, b6) = (seq!['T'] + clock_text(ca, ma), seq!['T'] + clock_text(cb, mb));
    lemma_one_char_order('T', 'T', clock_text(ca, ma), clock_text(cb, mb));
    let (a5, b5) = (two_digits(ta) + a6, two_digits(tb) + b6);
    lemma_two_digits_order(ta, tb, a6, b6);
    let (a4, b4) = (seq!['-'] + a5, seq!['-'] + b5);
    lemma_one_char_order('-', '-', a5, b5);
    let (a3, b3) = (two_digits(na) + a4, two_digits(nb) + b4);
    lemma_two_digits_order(na, nb, a4, b4);
    let (a2, b2) = (seq!['-'] + a3, seq!['-'] + b3);
    lemma_one_char_order('-', '-', a3, b3);
    let (a1, b1) = (two_digits(ya % 100) + a2, two_digits(yb % 100) + b2);
    lemma_two_digits_order(ya % 100, yb % 100, a2, b2);
    lemma_two_digits_order(ya / 100, yb / 100, a1, b1);
    if da < db {
        calendar::lemma_date_order(da, db);
    } else if db < da {
        calendar::lemma_date_order(db, da);
    }
}

/// The values of a record as a row, given the texts of its time and of the
/// agent's address.
pub open spec fn row_values(
    event: AuditView,
    timestamp: Seq<char>,
    client_ip: Option<Seq<char>>,
) -> AuditValues {
    let bare = AuditValues {
        kind: event.kind(),
        timestamp,
        hostname: Seq::empty(),
        provider_id: None,
        env_key: None,
        method: None,
        path: None,
        status: None,
        client_ip: None,
        reason: None,
        error: None,
    };
    match event {
        AuditView::Injected { hostname, provider_id, env_key, method, path, status, .. } => AuditValues {
            hostname,
            provider_id: Some(provider_id),
            env_key: Some(env_key),
            method: Some(method),
            path: Some(path),
            status: Some(status),
            client_ip,
            ..bare
        },
        AuditView::Blocked { hostname, method, path, reason, .. } => AuditValues {
            hostname,
            method: Some(method),
            path: Some(path),
            client_ip,
            reason: Some(reason),
            ..bare
        },
        AuditView::CredentialMissing { hostname, provider_id, env_key, .. } => AuditValues {
            hostname,
            provider_id: Some(provider_id),
            env_key: Some(env_key),
            ..bare
        },
        AuditView::UpstreamError { hostname, provider_id, error, .. } => AuditValues {
            hostname,
            provider_id: Some(provider_id),
            error: Some(error),
            ..bare
        },
    }
}

/// The values of a record as a row, given the texts of its time and of the
/// agent's address.
pub fn build_input<'a>(
    event: &'a AuditEvent,
    timestamp: &'a str,
    client_ip: Option<&'a str>,
) -> (r: AuditEventInput<'a>)
    ensures
        r.values() == row_values(event@, timestamp@, text::opt_str_view(client_ip)),
{
    let kind = event.kind();
    match event {
        AuditEvent::Injected { hostname, provider_id, env_key, method, path, status, .. } => AuditEventInput {
            kind,
            timestamp,
            hostname: hostname.as_str(),
            provider_id: Some(provider_id.as_str()),
            env_key: Some(env_key.as_str()),
            method: Some(method.as_str()),
            path: Some(path.as_str()),
            status: Some(*status),
            client_ip,
            reason: None,
            error: None,
        },
        AuditEvent::Blocked { hostname, method, path, reason, .. } => AuditEventInput {
            kind,
            timestamp,
            hostname: hostname.as_str(),
            provider_id: None,
            env_key: None,
            method: Some(method.as_str()),
            path: Some(path.as_str()),
            status: None,
            client_ip,
            reason: Some(reason.as_str()),
            error: None,
        },
        AuditEvent::CredentialMissing { hostname, provider_id, env_key, .. } => AuditEventInput {
            kind,
            timestamp,
            hostname: hostname.as_str(),
            provider_id: Some(provider_id.as_str()),
            env_key: Some(env_key.as_str()),
            method: None,
            path: None,
            status: None,
            client_ip: None,
            reason: None,
            error: None,
        },
        AuditEvent::UpstreamError { hostname, provider_id, error, .. } => AuditEventInput {
            kind,
            timestamp,
            hostname: hostname.as_str(),
            provider_id: Some(provider_id.as_str()),
            env_key: None,
            method: None,
            path: None,
            status: None,
            client_ip: None,
            reason: None,
            error: Some(error.as_str()),
        },
    }
}

/// When a record was made.
pub fn event_timestamp(event: &AuditEvent) -> (r: Timestamp)
    ensures
        r == event@.timestamp(),
{
    match event {
        AuditEvent::Injected { timestamp, .. } => *timestamp,
        AuditEvent::Blocked { timestamp, .. } => *timestamp,
        AuditEvent::CredentialMissing { timestamp, .. } => *timestamp,
        AuditEvent::UpstreamError { timestamp, .. } => *timestamp,
    }
}

/// The text of the agent's address, where a record holds it.
pub open spec fn ip_text(event: AuditEvent) -> Option<Seq<char>> {
    match event {
        AuditEvent::Injected { client_ip: Some(ip), .. } => Some(ip.shown()),
        AuditEvent::Blocked { client_ip: Some(ip), .. } => Some(ip.shown()),
        _ => None,
    }
}

/// The text of the agent's address, where a record holds it.
pub fn event_client_ip(event: &AuditEvent) -> (r: Option<String>)
    ensures
        text::opt_view(r) == ip_text(*event),
{
    match event {
        AuditEvent::Injected { client_ip, .. } => match client_ip {
            Some(ip) => Some(ip.to_string()),
            None => None,
        },
        AuditEvent::Blocked { client_ip, .. } => match client_ip {
            Some(ip) => Some(ip.to_string()),
            None => None,
        },
        _ => None,
    }
}

/// The row under which a record is kept.
pub fn persisted_row(event: &AuditEvent, id: String, created_at: String) -> (r: AuditEventRow)
    requires
        is_time(event@.timestamp()),
    ensures
        r.id == id,
        r.created_at == created_at,
        r.values() == row_values(
            event@,
            rfc3339_millis(event@.timestamp().secs as int, event@.timestamp().nanos as int),
            ip_text(*event),
        ),
{
    let timestamp = format_system_time(event_timestamp(event));
    let client_ip = event_client_ip(event);
    let ip = match &client_ip {
        Some(s) => Some(s.as_str()),
        None => None,
    };
    let input = build_input(event, timestamp.as_str(), ip);
    AuditEventRow::stored(&input, id, created_at)
}

} // verus!
