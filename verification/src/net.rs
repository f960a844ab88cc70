//! Internet addresses and their text.

use vstd::prelude::*;
use vstd::string::*;
use crate::text;

verus! {

/// An IPv4 address.
#[derive(Clone, Copy, PartialEq, Eq, Structural, Debug)]
pub struct Ipv4Addr {
    pub a: u8,
    pub b: u8,
    pub c: u8,
    pub d: u8,
}

/// An IPv6 address, by its eight segments.
#[derive(Clone, Copy, PartialEq, Eq, Debug)]
pub struct Ipv6Addr {
    pub segments: [u16; 8],
}

/// An address of either kind.
#[derive(Clone, Copy, PartialEq, Eq, Debug)]
pub enum IpAddr {
    V4(Ipv4Addr),
    V6(Ipv6Addr),
}

/// An address with a port; an IPv6 address may be of a zone.
#[derive(Clone, Copy, PartialEq, Eq, Debug)]
pub struct SocketAddr {
    pub ip: IpAddr,
    pub port: u16,
    pub zone: u32,
}

impl SocketAddr {
    /// An address with a port, of no zone.
    pub fn new(ip: IpAddr, port: u16) -> (r: Self)
        ensures
            r == (SocketAddr { ip, port, zone: 0 }),
    {
        SocketAddr { ip, port, zone: 0 }
    }
}

impl Ipv4Addr {
    /// The address `a.b.c.d`.
    pub fn new(a: u8, b: u8, c: u8, d: u8) -> (r: Self)
        ensures
            r == (Ipv4Addr { a, b, c, d }),
    {
        Ipv4Addr { a, b, c, d }
    }

    /// The text of the address.
    pub open spec fn shown(self) -> Seq<char> {
        text::decimal(self.a as nat) + "."@ + text::decimal(self.b as nat) + "."@ + text::decimal(
            self.c as nat,
        ) + "."@ + text::decimal(self.d as nat)
    }

    /// The text of the address.
    pub fn to_string(&self) -> (r: String)
        ensures
            r@ == self.shown(),
    {
        let mut s = text::u64_to_string(self.a as u64);
        s.append(".");
        let b = text::u64_to_string(self.b as u64);
        s.append(b.as_str());
        s.append(".");
        let c = text::u64_to_string(self.c as u64);
        s.append(c.as_str());
        s.append(".");
        let d = text::u64_to_string(self.d as u64);
        s.append(d.as_str());
        s
    }
}

/// The lower-case hexadecimal digit of `n`, for `n` below sixteen.
pub open spec fn hex_char(n: nat) -> char {
    if n < 10 {
        ((n + 48) as u8) as char
    } else {
        ((n + 87) as u8) as char
    }
}

/// `n` in hexadecimal.
pub open spec fn hexadecimal(n: nat) -> Seq<char>
    decreases n,
{
    if n < 16 {
        seq![hex_char(n)]
    } else {
        hexadecimal(n / 16).push(hex_char(n % 16))
    }
}

/// `n` in hexadecimal.
fn u16_to_hex(n: u16) -> (r: String)
    ensures
        r@ == hexadecimal(n as nat),
    decreases n,
{
    let low: u8 = (n % 16) as u8;
    let digit: char = if low < 10 {
        (low + 48) as char
    } else {
        (low + 87) as char
    };
    if n < 16 {
        let mut s = String::new();
        s.push(digit);
        proof {
            assert(s@ =~= seq![hex_char(n as nat)]);
        }
        s
    } else {
        let mut s = u16_to_hex(n / 16);
        s.push(digit);
        s
    }
}

/// The number of zero segments from position `i` on.
pub open spec fn zero_run(segs: Seq<u16>, i: int) -> int
    decreases segs.len() - i,
{
    if 0 <= i < segs.len() && segs[i] == 0 {
        1 + zero_run(segs, i + 1)
    } else {
        0
    }
}

/// The first of the longest runs of zero segments that start before `n`: where
/// it starts, and how long it is.
pub open spec fn longest_run(segs: Seq<u16>, n: int) -> (int, int)
    decreases n,
{
    if n <= 0 {
        (0, 0)
    } else {
        let best = longest_run(segs, n - 1);
        if zero_run(segs, n - 1) > best.1 {
            (n - 1, zero_run(segs, n - 1))
        } else {
            best
        }
    }
}

/// The texts of the segments.
pub open spec fn segment_texts(segs: Seq<u16>) -> Seq<Seq<char>> {
    Seq::new(segs.len(), |i: int| hexadecimal(segs[i] as nat))
}

/// Whether the address stands for an IPv4 address.
pub open spec fn is_mapped(segs: Seq<u16>) -> bool {
    segs[0] == 0 && segs[1] == 0 && segs[2] == 0 && segs[3] == 0 && segs[4] == 0 && segs[5]
        == 0xffff
}

/// The IPv4 address in the last two segments.
pub open spec fn embedded_v4(segs: Seq<u16>) -> Ipv4Addr {
    Ipv4Addr {
        a: (segs[6] / 256) as u8,
        b: (segs[6] % 256) as u8,
        c: (segs[7] / 256) as u8,
        d: (segs[7] % 256) as u8,
    }
}

/// The text of an IPv6 address: the first of its longest runs of two or more
/// zero segments is left out, and an embedded IPv4 address is written as such.
pub open spec fn shown_v6(segs: Seq<u16>) -> Seq<char> {
    let (start, len) = longest_run(segs, 8);
    if is_mapped(segs) {
        "::ffff:"@ + embedded_v4(segs).shown()
    } else if len > 1 {
        text::join(segment_texts(segs.take(start)), ":"@) + "::"@ + text::join(
            segment_texts(segs.skip(start + len)),
            ":"@,
        )
    } else {
        text::join(segment_texts(segs), ":"@)
    }
}

proof fn lemma_zero_run(segs: Seq<u16>, i: int)
    requires
        0 <= i <= segs.len(),
    ensures
        0 <= zero_run(segs, i) <= segs.len() - i,
    decreases segs.len() - i,
{
    if i < segs.len() && segs[i] == 0 {
        lemma_zero_run(segs, i + 1);
    }
}

/// The number of zero segments from position `i` on.
fn count_zeros(segs: &[u16; 8], i: usize) -> (r: usize)
    requires
        i <= 8,
    ensures
        r == zero_run(segs@, i as int),
        r <= 8 - i,
    decreases 8 - i,
{
    if i < 8 && segs[i] == 0 {
        1 + count_zeros(segs, i + 1)
    } else {
        0
    }
}

/// The texts of the segments from `from` to before `to`, a colon between each
/// two.
fn join_segments(segs: &[u16; 8], from: usize, to: usize) -> (r: String)
    requires
        from <= to <= 8,
    ensures
        r@ == text::join(segment_texts(segs@.subrange(from as int, to as int)), ":"@),
{
    let mut parts: Vec<String> = Vec::new();
    let mut i: usize = from;
    proof {
        assert(text::views(parts@) =~= segment_texts(segs@.subrange(from as int, from as int)));
    }
    while i < to
        invariant
            from <= i <= to <= 8,
            text::views(parts@) == segment_texts(segs@.subrange(from as int, i as int)),
        decreases to - i,
    {
        let part = u16_to_hex(segs[i]);
        proof {
            text::lemma_views_push(parts@, part);
            assert(segment_texts(segs@.subrange(from as int, i as int + 1)) =~= segment_texts(
                segs@.subrange(from as int, i as int),
            ).push(hexadecimal(segs@[i as int] as nat)));
        }
        parts.push(part);
        i += 1;
    }
    text::join_strings(&parts, ":")
}

impl Ipv6Addr {
    /// The text of the address.
    pub fn to_string(&self) -> (r: String)
        ensures
            r@ == shown_v6(self.segments@),
    {
        let s = &self.segments;
        if s[0] == 0 && s[1] == 0 && s[2] == 0 && s[3] == 0 && s[4] == 0 && s[5] == 0xffff {
            let v4 = Ipv4Addr {
                a: (s[6] / 256) as u8,
                b: (s[6] % 256) as u8,
                c: (s[7] / 256) as u8,
                d: (s[7] % 256) as u8,
            };
            let t = v4.to_string();
            return text::concat2("::ffff:", t.as_str());
        }
        let mut start: usize = 0;
        let mut len: usize = 0;
        let mut i: usize = 0;
        while i < 8
            invariant
                i <= 8,
                start <= 8,
                start + len <= 8,
                (start as int, len as int) == longest_run(s@, i as int),
            decreases 8 - i,
        {
            let n = count_zeros(s, i);
            if n > len {
                start = i;
                len = n;
            }
            i += 1;
        }
        if len > 1 {
            let head = join_segments(s, 0, start);
            let tail = join_segments(s, start + len, 8);
            proof {
                assert(s@.subrange(0, start as int) =~= s@.take(start as int));
                assert(s@.subrange(start as int + len as int, 8) =~= s@.skip(
                    start as int + len as int,
                ));
            }
            text::concat3(head.as_str(), "::", tail.as_str())
        } else {
            proof {
                assert(s@.subrange(0, 8) =~= s@);
            }
            join_segments(s, 0, 8)
        }
    }
}

impl IpAddr {
    /// The text of the address.
    pub open spec fn shown(self) -> Seq<char> {
        match self {
            IpAddr::V4(v4) => v4.shown(),
            IpAddr::V6(v6) => shown_v6(v6.segments@),
        }
    }

    /// The text of the address.
    pub fn to_string(&self) -> (r: String)
        ensures
            r@ == self.shown(),
    {
        match self {
            IpAddr::V4(v4) => v4.to_string(),
            IpAddr::V6(v6) => v6.to_string(),
        }
    }
}

/// The number that the digits `s` spell, where it is written without leading
/// zeros in at most three digits and fits in a byte.
pub open spec fn parsed_octet(s: Seq<char>) -> Option<u8> {
    if 1 <= s.len() <= 3 && text::all_digits(s) && (s.len() > 1 ==> s[0] != '0')
        && text::digits_value(s) <= 255 {
        Some(text::digits_value(s) as u8)
    } else {
        None
    }
}

/// The IPv4 address that `s` spells.
pub open spec fn parsed_v4(s: Seq<char>) -> Option<Ipv4Addr> {
    let p = text::split_char(s, '.');
    if p.len() != 4 {
        None
    } else {
        match (parsed_octet(p[0]), parsed_octet(p[1]), parsed_octet(p[2]), parsed_octet(p[3])) {
            (Some(a), Some(b), Some(c), Some(d)) => Some(Ipv4Addr { a, b, c, d }),
            _ => None,
        }
    }
}

/// Whether `c` is a hexadecimal digit.
pub open spec fn is_hex(c: char) -> bool {
    '0' <= c <= '9' || 'a' <= c <= 'f' || 'A' <= c <= 'F'
}

/// The value of a hexadecimal digit.
pub open spec fn hex_digit(c: char) -> nat {
    if '0' <= c <= '9' {
        (c as nat - 48) as nat
    } else if 'a' <= c <= 'f' {
        (c as nat - 87) as nat
    } else {
        (c as nat - 55) as nat
    }
}

/// The number that the hexadecimal digits `s` spell.
pub open spec fn hex_value(s: Seq<char>) -> nat
    decreases s.len(),
{
    if s.len() == 0 {
        0
    } else {
        hex_value(s.drop_last()) * 16 + hex_digit(s.last())
    }
}

/// The segment that `s` spells: one to four hexadecimal digits.
pub open spec fn parsed_segment(s: Seq<char>) -> Option<u16> {
    if 1 <= s.len() <= 4 && forall|i: int| 0 <= i < s.len() ==> is_hex(#[trigger] s[i]) {
        Some(hex_value(s) as u16)
    } else {
        None
    }
}

/// The segments that the first `n` parts spell. Where `v4` says so, the last
/// one may be an IPv4 address and stands for two.
pub open spec fn listed_segments(parts: Seq<Seq<char>>, n: int, v4: bool) -> Option<Seq<u16>>
    decreases n,
{
    if n <= 0 {
        Some(Seq::empty())
    } else {
        match listed_segments(parts, n - 1, false) {
            None => None,
            Some(front) => match parsed_segment(parts[n - 1]) {
                Some(g) => Some(front.push(g)),
                None => match parsed_v4(parts[n - 1]) {
                    Some(x) if v4 => Some(
                        front.push((x.a * 256 + x.b) as u16).push((x.c * 256 + x.d) as u16),
                    ),
                    _ => None,
                },
            },
        }
    }
}

/// The segments that `s` spells, colons between them; none for an empty text.
pub open spec fn parsed_segments(s: Seq<char>, v4: bool) -> Option<Seq<u16>> {
    if s.len() == 0 {
        Some(Seq::empty())
    } else {
        let parts = text::split_char(s, ':');
        listed_segments(parts, parts.len() as int, v4)
    }
}

/// The position of the first `::` from `i` on.
pub open spec fn double_colon(s: Seq<char>, i: int) -> Option<int>
    decreases s.len() - i,
{
    if i < 0 || i + 1 >= s.len() {
        None
    } else if s[i] == ':' && s[i + 1] == ':' {
        Some(i)
    } else {
        double_colon(s, i + 1)
    }
}

/// The segments of the IPv6 address that `s` spells: eight, or fewer with a
/// `::` in place of one or more zero segments.
pub open spec fn parsed_v6(s: Seq<char>) -> Option<Seq<u16>> {
    match double_colon(s, 0) {
        Some(i) => match (parsed_segments(s.take(i), false), parsed_segments(s.skip(i + 2), true)) {
            (Some(head), Some(tail)) => if head.len() + tail.len() <= 7 {
                Some(head + Seq::new((8 - head.len() - tail.len()) as nat, |k: int| 0u16) + tail)
            } else {
                None
            },
            _ => None,
        },
        None => match parsed_segments(s, true) {
            Some(all) => if all.len() == 8 {
                Some(all)
            } else {
                None
            },
            None => None,
        },
    }
}

/// The model of an address: an IPv4 address, or eight segments.
#[verifier::ext_equal]
pub enum IpView {
    V4(Ipv4Addr),
    V6(Seq<u16>),
}

impl View for IpAddr {
    type V = IpView;

    open spec fn view(&self) -> IpView {
        match *self {
            IpAddr::V4(v4) => IpView::V4(v4),
            IpAddr::V6(v6) => IpView::V6(v6.segments@),
        }
    }
}

/// The model of an optional address.
pub open spec fn opt_ip_view(o: Option<IpAddr>) -> Option<IpView> {
    match o {
        Some(ip) => Some(ip@),
        None => None,
    }
}

/// The address that `s` spells.
pub open spec fn parsed_ip(s: Seq<char>) -> Option<IpView> {
    match parsed_v4(s) {
        Some(v4) => Some(IpView::V4(v4)),
        None => match parsed_v6(s) {
            Some(segs) => Some(IpView::V6(segs)),
            None => None,
        },
    }
}

/// The number that the digits `s` spell, where it is at most `max`.
pub open spec fn parsed_number(s: Seq<char>, max: nat) -> Option<nat> {
    if s.len() > 0 && text::all_digits(s) && text::digits_value(s) <= max {
        Some(text::digits_value(s))
    } else {
        None
    }
}

fn parse_number(v: &Vec<char>, from: usize, max: u32) -> (r: Option<u32>)
    requires
        from <= v@.len(),
    ensures
        match r {
            Some(n) => parsed_number(v@.skip(from as int), max as nat) == Some(n as nat),
            None => parsed_number(v@.skip(from as int), max as nat) is None,
        },
{
    let ghost d = v@.skip(from as int);
    if from == v.len() {
        return None;
    }
    let mut acc: u64 = 0;
    let mut i: usize = from;
    proof {
        assert(d.take(0) =~= Seq::empty());
    }
    while i < v.len()
        invariant
            from <= i <= v@.len(),
            d == v@.skip(from as int),
            acc == text::digits_value(d.take(i - from)),
            acc <= max,
            forall|j: int| 0 <= j < i - from ==> '0' <= #[trigger] d[j] <= '9',
        decreases v@.len() - i,
    {
        let c = v[i];
        proof {
            assert(d[i - from] == c);
        }
        if !('0' <= c && c <= '9') {
            return None;
        }
        proof {
            assert(d.take(i - from + 1).drop_last() =~= d.take(i - from));
            assert(d.take(i - from + 1).last() == c);
        }
        acc = acc * 10 + (c as u64 - 48);
        if acc > max as u64 {
            proof {
                text::lemma_digits_value_prefix(d, i - from + 1);
            }
            return None;
        }
        i += 1;
    }
    proof {
        assert(d.take(d.len() as int) =~= d);
    }
    Some(acc as u32)
}

fn parse_octet(s: &str) -> (r: Option<u8>)
    ensures
        r == parsed_octet(s@),
{
    let v = text::to_chars(s);
    if v.len() < 1 || v.len() > 3 {
        return None;
    }
    if v.len() > 1 && v[0] == '0' {
        return None;
    }
    proof {
        assert(v@.skip(0) =~= v@);
    }
    match parse_number(&v, 0, 255) {
        Some(n) => Some(n as u8),
        None => None,
    }
}

/// Reads an IPv4 address.
pub fn parse_v4(s: &str) -> (r: Option<Ipv4Addr>)
    ensures
        r == parsed_v4(s@),
{
    let p = text::split(s, '.');
    proof {
        assert(text::views(p@).len() == p@.len());
        assert forall|i: int| 0 <= i < p@.len() implies text::split_char(s@, '.')[i]
            == #[trigger] p@[i]@ by {
            assert(text::views(p@)[i] == p@[i]@);
        }
    }
    if p.len() != 4 {
        return None;
    }
    match (
        parse_octet(p[0].as_str()),
        parse_octet(p[1].as_str()),
        parse_octet(p[2].as_str()),
        parse_octet(p[3].as_str()),
    ) {
        (Some(a), Some(b), Some(c), Some(d)) => Some(Ipv4Addr { a, b, c, d }),
        _ => None,
    }
}

proof fn lemma_hex_bound(s: Seq<char>)
    requires
        forall|i: int| 0 <= i < s.len() ==> is_hex(#[trigger] s[i]),
    ensures
        s.len() <= 4 ==> hex_value(s) <= 0xffff,
        s.len() <= 3 ==> hex_value(s) <= 0xfff,
        s.len() <= 2 ==> hex_value(s) <= 0xff,
        s.len() <= 1 ==> hex_value(s) <= 0xf,
        s.len() == 0 ==> hex_value(s) == 0,
    decreases s.len(),
{
    if s.len() > 0 {
        assert forall|i: int| 0 <= i < s.drop_last().len() implies is_hex(
            #[trigger] s.drop_last()[i],
        ) by {
            assert(s.drop_last()[i] == s[i]);
        }
        assert(is_hex(s[s.len() - 1]));
        lemma_hex_bound(s.drop_last());
    }
}

fn parse_segment(s: &str) -> (r: Option<u16>)
    ensures
        r == parsed_segment(s@),
{
    let v = text::to_chars(s);
    if v.len() < 1 || v.len() > 4 {
        return None;
    }
    let mut acc: u32 = 0;
    let mut i: usize = 0;
    proof {
        assert(v@.take(0) =~= Seq::empty());
    }
    while i < v.len()
        invariant
            i <= v@.len() <= 4,
            v@ == s@,
            acc == hex_value(v@.take(i as int)),
            forall|j: int| 0 <= j < i ==> is_hex(#[trigger] v@[j]),
        decreases v@.len() - i,
    {
        let c = v[i];
        let digit: u32 = if '0' <= c && c <= '9' {
            c as u32 - 48
        } else if 'a' <= c && c <= 'f' {
            c as u32 - 87
        } else if 'A' <= c && c <= 'F' {
            c as u32 - 55
        } else {
            assert(!is_hex(v@[i as int]));
            return None;
        };
        proof {
            let t = v@.take(i as int);
            assert forall|j: int| 0 <= j < t.len() implies is_hex(#[trigger] t[j]) by {
                assert(t[j] == v@[j]);
            }
            lemma_hex_bound(t);
            assert(v@.take(i as int + 1).drop_last() =~= t);
        }
        acc = acc * 16 + digit;
        i += 1;
    }
    proof {
        assert(v@.take(v@.len() as int) =~= v@);
        lemma_hex_bound(v@);
    }
    Some(acc as u16)
}

proof fn lemma_segments_fail(parts: Seq<Seq<char>>, n: int, m: int, v4: bool)
    requires
        n <= m,
        listed_segments(parts, n, v4 && n == m) is None,
    ensures
        listed_segments(parts, m, v4) is None,
    decreases m - n,
{
    if n < m {
        lemma_segments_fail(parts, n, m - 1, false);
    }
}

fn parse_segments(s: &str, v4: bool) -> (r: Option<Vec<u16>>)
    ensures
        match r {
            Some(v) => parsed_segments(s@, v4) == Some(v@),
            None => parsed_segments(s@, v4) is None,
        },
{
    if s.unicode_len() == 0 {
        let out: Vec<u16> = Vec::new();
        proof {
            assert(out@ =~= Seq::<u16>::empty());
        }
        return Some(out);
    }
    let parts = text::split(s, ':');
    let ghost pv = text::split_char(s@, ':');
    let mut out: Vec<u16> = Vec::new();
    let mut i: usize = 0;
    proof {
        text::lemma_split_nonempty(s@, ':');
    }
    while i < parts.len()
        invariant
            i <= parts@.len(),
            pv == text::split_char(s@, ':'),
            pv == text::views(parts@),
            pv.len() >= 1,
            s@.len() > 0,
            listed_segments(pv, i as int, v4 && i == pv.len()) == Some(out@),
        decreases parts@.len() - i,
    {
        proof {
            assert(pv[i as int] == parts@[i as int]@);
            assert(listed_segments(pv, i as int, false) == Some(out@)) by {
                assert(i != pv.len());
            }
        }
        let last = i + 1 == parts.len();
        match parse_segment(parts[i].as_str()) {
            Some(g) => {
                out.push(g);
            },
            None => {
                match parse_v4(parts[i].as_str()) {
                    Some(x) if v4 && last => {
                        out.push(x.a as u16 * 256 + x.b as u16);
                        out.push(x.c as u16 * 256 + x.d as u16);
                    },
                    _ => {
                        proof {
                            lemma_segments_fail(pv, i as int + 1, pv.len() as int, v4);
                        }
                        return None;
                    },
                }
            },
        }
        i += 1;
    }
    Some(out)
}

fn eight(v: &Vec<u16>) -> (r: [u16; 8])
    requires
        v@.len() == 8,
    ensures
        r@ == v@,
{
    let r = [v[0], v[1], v[2], v[3], v[4], v[5], v[6], v[7]];
    proof {
        assert(r@ =~= v@);
    }
    r
}

/// Reads an IPv6 address.
pub fn parse_v6(s: &str) -> (r: Option<Ipv6Addr>)
    ensures
        match r {
            Some(a) => parsed_v6(s@) == Some(a.segments@),
            None => parsed_v6(s@) is None,
        },
{
    let v = text::to_chars(s);
    let mut i: usize = 0;
    while v.len() - i > 1
        invariant
            i <= v@.len(),
            v@ == s@,
            v@.len() <= usize::MAX,
            double_colon(s@, 0) == double_colon(s@, i as int),
        decreases v@.len() - i,
    {
        if v[i] == ':' && v[i + 1] == ':' {
            let h = text::from_range(&v, 0, i);
            let t = text::from_range(&v, i + 2, v.len());
            proof {
                assert(h@ =~= s@.take(i as int));
                assert(t@ =~= s@.skip(i as int + 2));
            }
            let head = match parse_segments(h.as_str(), false) {
                Some(x) => x,
                None => {
                    return None;
                },
            };
            let tail = match parse_segments(t.as_str(), true) {
                Some(x) => x,
                None => {
                    return None;
                },
            };
            if head.len() > 7 || tail.len() > 7 || head.len() + tail.len() > 7 {
                return None;
            }
            let ghost hv = head@;
            let ghost zeros = 8 - head@.len() - tail@.len();
            let mut all = head;
            while all.len() + tail.len() < 8
                invariant
                    hv.len() <= all@.len() <= hv.len() + zeros,
                    all@ == hv + Seq::new((all@.len() - hv.len()) as nat, |k: int| 0u16),
                    hv.len() + tail@.len() <= 7,
                    zeros == 8 - hv.len() - tail@.len(),
                decreases 8 - all@.len(),
            {
                let ghost was = all@;
                all.push(0);
                proof {
                    assert(all@ =~= hv + Seq::new((all@.len() - hv.len()) as nat, |k: int| 0u16));
                }
            }
            let ghost padded = all@;
            let mut j: usize = 0;
            while j < tail.len()
                invariant
                    j <= tail@.len(),
                    all@ == padded + tail@.take(j as int),
                decreases tail@.len() - j,
            {
                all.push(tail[j]);
                j += 1;
                proof {
                    assert(all@ =~= padded + tail@.take(j as int));
                }
            }
            proof {
                assert(tail@.take(tail@.len() as int) =~= tail@);
            }
            return Some(Ipv6Addr { segments: eight(&all) });
        }
        i += 1;
    }
    match parse_segments(s, true) {
        Some(all) => {
            if all.len() == 8 {
                Some(Ipv6Addr { segments: eight(&all) })
            } else {
                None
            }
        },
        None => None,
    }
}

/// Reads an address of either kind.
pub fn parse_ip(s: &str) -> (r: Option<IpAddr>)
    ensures
        opt_ip_view(r) == parsed_ip(s@),
{
    match parse_v4(s) {
        Some(v4) => Some(IpAddr::V4(v4)),
        None => match parse_v6(s) {
            Some(v6) => Some(IpAddr::V6(v6)),
            None => None,
        },
    }
}

/// The number of the zone that stands behind an IPv6 address, from `%` on: zero
/// where there is none.
pub open spec fn parsed_zone(s: Seq<char>) -> Option<nat> {
    if s.len() == 0 {
        Some(0)
    } else {
        parsed_number(s.skip(1), u32::MAX as nat)
    }
}

/// The address, port and zone that `s` spells: `a.b.c.d:port`, or `[v6]:port`,
/// where a zone `%n` may stand behind the IPv6 address.
pub open spec fn parsed_socket(s: Seq<char>) -> Option<(IpView, nat, nat)> {
    if s.len() > 0 && s[0] == '[' {
        let end = text::first_of(s, ']');
        let inner = s.subrange(1, end);
        let at = text::first_of(inner, '%');
        if end + 1 < s.len() && s[end + 1] == ':' {
            match (
                parsed_v6(inner.take(at)),
                parsed_zone(inner.skip(at)),
                parsed_number(s.skip(end + 2), 65535),
            ) {
                (Some(segs), Some(zone), Some(port)) => Some((IpView::V6(segs), port, zone)),
                _ => None,
            }
        } else {
            None
        }
    } else {
        let colon = text::first_of(s, ':');
        if colon < s.len() {
            match (parsed_v4(s.take(colon)), parsed_number(s.skip(colon + 1), 65535)) {
                (Some(v4), Some(port)) => Some((IpView::V4(v4), port, 0)),
                _ => None,
            }
        } else {
            None
        }
    }
}

/// The model of an optional address with a port.
pub open spec fn opt_socket_view(o: Option<SocketAddr>) -> Option<(IpView, nat, nat)> {
    match o {
        Some(a) => Some((a.ip@, a.port as nat, a.zone as nat)),
        None => None,
    }
}

/// Reads an address with a port.
pub fn parse_socket(s: &str) -> (r: Option<SocketAddr>)
    ensures
        opt_socket_view(r) == parsed_socket(s@),
{
    let v = text::to_chars(s);
    proof {
        text::lemma_first_of(s@, ']');
        text::lemma_first_of(s@, ':');
    }
    if v.len() > 0 && v[0] == '[' {
        let end = match text::find_char(&v, ']') {
            Some(i) => i,
            None => {
                return None;
            },
        };
        let inner = text::from_range(&v, 1, end);
        let iv = text::to_chars(inner.as_str());
        proof {
            assert(iv@ =~= s@.subrange(1, end as int));
            text::lemma_first_of(iv@, '%');
        }
        if !(end + 1 < v.len() && v[end + 1] == ':') {
            return None;
        }
        let at: usize = match text::find_char(&iv, '%') {
            Some(z) => z,
            None => iv.len(),
        };
        let addr = text::from_range(&iv, 0, at);
        proof {
            assert(addr@ =~= iv@.take(at as int));
            if at < iv@.len() {
                assert(iv@.skip(at as int).skip(1) =~= iv@.skip(at + 1));
            }
        }
        let zone: Option<u32> = if at == iv.len() {
            Some(0)
        } else {
            parse_number(&iv, at + 1, u32::MAX)
        };
        match (parse_v6(addr.as_str()), zone, parse_number(&v, end + 2, 65535)) {
            (Some(v6), Some(zone), Some(port)) => Some(
                SocketAddr { ip: IpAddr::V6(v6), port: port as u16, zone },
            ),
            _ => None,
        }
    } else {
        let colon = match text::find_char(&v, ':') {
            Some(i) => i,
            None => {
                return None;
            },
        };
        let addr = text::from_range(&v, 0, colon);
        proof {
            assert(addr@ =~= s@.take(colon as int));
        }
        match (parse_v4(addr.as_str()), parse_number(&v, colon + 1, 65535)) {
            (Some(v4), Some(port)) => Some(SocketAddr::new(IpAddr::V4(v4), port as u16)),
            _ => None,
        }
    }
}

} // verus!
