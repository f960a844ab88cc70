//! What the texts of IPv6 addresses are, and how they read back.

use vstd::prelude::*;
use crate::auth_gateway::firewall;
use crate::net;
use crate::net::Ipv4Addr;
use crate::network_laws;
use crate::remote::laws as remote_laws;
use crate::text;
use crate::text_laws;

verus! {

/// A hexadecimal text spells its number, in lower case and without zeros in
/// front.
pub proof fn law_hexadecimal(n: nat)
    ensures
        net::hexadecimal(n).len() > 0,
        net::hex_value(net::hexadecimal(n)) == n,
        forall|i: int|
            0 <= i < net::hexadecimal(n).len() ==> {
                let c = #[trigger] net::hexadecimal(n)[i];
                ('0' <= c <= '9') || ('a' <= c <= 'f')
            },
        n > 0 ==> net::hexadecimal(n)[0] != '0',
    decreases n,
{
    let s = net::hexadecimal(n);
    if n < 16 {
        assert(s.drop_last() =~= Seq::empty());
        assert(net::hex_value(s.drop_last()) == 0);
        assert(s.last() == net::hex_char(n));
    } else {
        law_hexadecimal(n / 16);
        assert(s.drop_last() =~= net::hexadecimal(n / 16));
        assert(s.last() == net::hex_char(n % 16));
    }
}

proof fn lemma_segment(n: u16)
    ensures
        net::parsed_segment(net::hexadecimal(n as nat)) == Some(n),
        net::hexadecimal(n as nat).len() > 0,
        !net::hexadecimal(n as nat).contains(':'),
{
    let s = net::hexadecimal(n as nat);
    law_hexadecimal(n as nat);
    reveal_with_fuel(net::hexadecimal, 5);
    assert(s.len() <= 4);
    assert forall|i: int| 0 <= i < s.len() implies net::is_hex(#[trigger] s[i]) by {
        assert(('0' <= s[i] <= '9') || ('a' <= s[i] <= 'f'));
    }
    if s.contains(':') {
        let i = choose|i: int| 0 <= i < s.len() && s[i] == ':';
        assert(net::is_hex(s[i]));
    }
}

/// A run of zeros is all zeros, and ends where it must.
proof fn lemma_zero_run(segs: Seq<u16>, i: int)
    requires
        0 <= i <= segs.len(),
    ensures
        ({
            let n = net::zero_run(segs, i);
            &&& 0 <= n <= segs.len() - i
            &&& forall|k: int| i <= k < i + n ==> #[trigger] segs[k] == 0
            &&& i + n < segs.len() ==> segs[i + n] != 0
        }),
    decreases segs.len() - i,
{
    if i < segs.len() && segs[i] == 0 {
        lemma_zero_run(segs, i + 1);
    }
}

proof fn lemma_longest_run(segs: Seq<u16>, n: int)
    requires
        0 <= n <= segs.len(),
    ensures
        ({
            let (start, len) = net::longest_run(segs, n);
            &&& len >= 0
            &&& len > 0 ==> 0 <= start < n && len == net::zero_run(segs, start)
            &&& len == 0 ==> start == 0
            &&& forall|j: int| 0 <= j < n ==> #[trigger] net::zero_run(segs, j) <= len
            &&& forall|j: int| 0 <= j < start ==> #[trigger] net::zero_run(segs, j) < len
        }),
    decreases n,
{
    if n > 0 {
        lemma_longest_run(segs, n - 1);
    }
}

/// The zeros that a text leaves out are zeros; none of the address are more, and
/// of those that are as many they are the first.
pub proof fn law_longest_zeros(segs: Seq<u16>, j: int, m: int)
    ensures
        ({
            let (start, len) = net::longest_run(segs, segs.len() as int);
            &&& 0 <= start
            &&& 0 <= len
            &&& start + len <= segs.len()
            &&& forall|k: int| start <= k < start + len ==> #[trigger] segs[k] == 0
            &&& 0 <= j && 1 <= m && j + m <= segs.len() && (forall|k: int|
                j <= k < j + m ==> #[trigger] segs[k] == 0) ==> m <= len && (m == len ==> start
                <= j)
        }),
{
    let n = segs.len() as int;
    let (start, len) = net::longest_run(segs, n);
    lemma_longest_run(segs, n);
    if len > 0 {
        lemma_zero_run(segs, start);
    }
    if 0 <= j && 1 <= m && j + m <= segs.len() && (forall|k: int|
        j <= k < j + m ==> #[trigger] segs[k] == 0) {
        lemma_zero_run(segs, j);
        let r = net::zero_run(segs, j);
        if r < m {
            assert(segs[j + r] == 0);
        }
        assert(net::zero_run(segs, j) <= len);
    }
}

/// Whether a text has no two colons side by side, and none at its ends.
spec fn calm(s: Seq<char>) -> bool {
    &&& s.len() > 0
    &&& s[0] != ':'
    &&& s.last() != ':'
    &&& forall|i: int| 0 <= i < s.len() - 1 && #[trigger] s[i] == ':' ==> s[i + 1] != ':'
}

spec fn all_bare(parts: Seq<Seq<char>>) -> bool {
    forall|i: int|
        0 <= i < parts.len() ==> (#[trigger] parts[i]).len() > 0 && !parts[i].contains(':')
}

proof fn lemma_calm_join(parts: Seq<Seq<char>>)
    requires
        all_bare(parts),
        parts.len() > 0,
    ensures
        calm(text::join(parts, seq![':'])),
    decreases parts.len(),
{
    let last = parts.last();
    assert(last == parts[parts.len() - 1]);
    assert forall|i: int| 0 <= i < last.len() implies last[i] != ':' by {
        if last[i] == ':' {
            assert(last.contains(':'));
        }
    }
    if parts.len() > 1 {
        let front = parts.drop_last();
        lemma_calm_join(front);
        let f = text::join(front, seq![':']);
        let s = text::join(parts, seq![':']);
        assert(s =~= f + seq![':'] + last);
        assert forall|i: int| 0 <= i < s.len() - 1 && #[trigger] s[i] == ':' implies s[i + 1]
            != ':' by {
            if i < f.len() - 1 {
                assert(f[i] == ':');
                assert(f[i + 1] == s[i + 1]);
            } else if i == f.len() - 1 {
                assert(f.last() == ':');
            } else if i == f.len() {
                assert(s[i + 1] == last[0]);
            } else {
                assert(s[i] == last[i - f.len() - 1]);
            }
        }
        assert(s[0] == f[0]);
        assert(s.last() == last.last());
    }
}

proof fn lemma_join_splits(parts: Seq<Seq<char>>)
    requires
        all_bare(parts),
        parts.len() > 0,
    ensures
        text::split_char(text::join(parts, seq![':']), ':') == parts,
    decreases parts.len(),
{
    let one = seq![parts[0]];
    if parts.len() == 1 {
        network_laws::lemma_split_bare(parts[0], ':');
        assert(parts =~= one);
    } else {
        let rest = parts.skip(1);
        assert forall|i: int| 0 <= i < rest.len() implies (#[trigger] rest[i]).len() > 0
            && !rest[i].contains(':') by {
            assert(rest[i] == parts[i + 1]);
        }
        lemma_join_splits(rest);
        text_laws::law_joined_parts(one, rest, seq![':']);
        assert(one + rest =~= parts);
        assert(one[0] == parts[0]);
        network_laws::lemma_split_front(parts[0], ':', text::join(rest, seq![':']));
    }
}

proof fn lemma_texts_bare(segs: Seq<u16>)
    ensures
        all_bare(net::segment_texts(segs)),
{
    assert forall|i: int| 0 <= i < segs.len() implies (#[trigger] net::segment_texts(
        segs,
    )[i]).len() > 0 && !net::segment_texts(segs)[i].contains(':') by {
        lemma_segment(segs[i]);
    }
}

proof fn lemma_listed(segs: Seq<u16>, n: int, v4: bool)
    requires
        0 <= n <= segs.len(),
    ensures
        net::listed_segments(net::segment_texts(segs), n, v4) == Some(segs.take(n)),
    decreases n,
{
    if n > 0 {
        lemma_listed(segs, n - 1, false);
        lemma_segment(segs[n - 1]);
        assert(segs.take(n) =~= segs.take(n - 1).push(segs[n - 1]));
    } else {
        assert(segs.take(n) =~= Seq::empty());
    }
}

/// The text of segments, colons between them.
pub open spec fn in_a_row(segs: Seq<u16>) -> Seq<char> {
    text::join(net::segment_texts(segs), ":"@)
}

proof fn lemma_row_reads_back(segs: Seq<u16>, v4: bool)
    ensures
        net::parsed_segments(in_a_row(segs), v4) == Some(segs),
        segs.len() > 0 ==> calm(in_a_row(segs)),
        segs.len() == 0 ==> in_a_row(segs).len() == 0,
{
    reveal_strlit(":");
    assert(":"@ =~= seq![':']);
    if segs.len() > 0 {
        lemma_texts_bare(segs);
        lemma_calm_join(net::segment_texts(segs));
        lemma_join_splits(net::segment_texts(segs));
        lemma_listed(segs, segs.len() as int, v4);
        assert(segs.take(segs.len() as int) =~= segs);
    } else {
        assert(segs =~= Seq::empty());
    }
}

proof fn lemma_no_double(s: Seq<char>, i: int)
    requires
        calm(s),
        0 <= i,
    ensures
        net::double_colon(s, i) is None,
    decreases s.len() - i,
{
    if i + 1 < s.len() {
        lemma_no_double(s, i + 1);
    }
}

proof fn lemma_double(s: Seq<char>, i: int, k: int)
    requires
        0 <= i <= k,
        k + 1 < s.len(),
        s[k] == ':',
        s[k + 1] == ':',
        forall|j: int| i <= j < k && #[trigger] s[j] == ':' ==> s[j + 1] != ':',
    ensures
        net::double_colon(s, i) == Some(k),
    decreases k - i,
{
    if i < k {
        lemma_double(s, i + 1, k);
    }
}

/// Segments in a row are an address exactly where they are eight.
pub proof fn law_v6_in_full(segs: Seq<u16>)
    requires
        segs.len() > 0,
    ensures
        net::parsed_v6(in_a_row(segs)) == (if segs.len() == 8 {
            Some(segs)
        } else {
            None
        }),
{
    lemma_row_reads_back(segs, true);
    lemma_no_double(in_a_row(segs), 0);
}

/// A `::` stands for as many zeros as are wanting to eight segments, one at
/// least; where none is wanting it is not allowed.
pub proof fn law_v6_with_zeros_left_out(head: Seq<u16>, tail: Seq<u16>)
    ensures
        net::parsed_v6(in_a_row(head) + "::"@ + in_a_row(tail)) == (if head.len() + tail.len()
            <= 7 {
            Some(head + Seq::new((8 - head.len() - tail.len()) as nat, |k: int| 0u16) + tail)
        } else {
            None
        }),
{
    reveal_strlit("::");
    assert("::"@ =~= seq![':', ':']);
    let (h, t) = (in_a_row(head), in_a_row(tail));
    let s = h + "::"@ + t;
    let k = h.len() as int;
    lemma_row_reads_back(head, false);
    lemma_row_reads_back(tail, true);
    assert(s[k] == ':' && s[k + 1] == ':');
    assert forall|j: int| 0 <= j < k && #[trigger] s[j] == ':' implies s[j + 1] != ':' by {
        assert(head.len() > 0);
        assert(h[j] == ':');
        if j + 1 < k {
            assert(h[j + 1] == s[j + 1]);
        } else {
            assert(h.last() == ':');
        }
    }
    lemma_double(s, 0, k);
    assert(s.take(k) =~= h);
    assert(s.skip(k + 2) =~= t);
}

proof fn lemma_mapped_reads_back(segs: Seq<u16>)
    requires
        segs.len() == 8,
        net::is_mapped(segs),
    ensures
        net::parsed_v6(net::shown_v6(segs)) == Some(segs),
{
    reveal_strlit("::ffff:");
    reveal_strlit(".");
    let ip = net::embedded_v4(segs);
    let last = ip.shown();
    let s = net::shown_v6(segs);
    let ffff = seq!['f', 'f', 'f', 'f'];
    assert("::ffff:"@ =~= seq![':', ':'] + ffff + seq![':']);
    lemma_double(s, 0, 0);
    let t = s.skip(2);
    assert(t =~= ffff + seq![':'] + last);
    assert(s.take(0) =~= Seq::empty());
    network_laws::law_v4_reads_back(ip);
    lemma_v4_text(ip);
    assert(!ffff.contains(':'));
    network_laws::lemma_split_front(ffff, ':', last);
    network_laws::lemma_split_bare(last, ':');
    let parts = text::split_char(t, ':');
    assert(parts =~= seq![ffff, last]);
    reveal_with_fuel(net::hex_value, 5);
    reveal_with_fuel(net::listed_segments, 3);
    assert(ffff.drop_last() =~= seq!['f', 'f', 'f']);
    assert(ffff.drop_last().drop_last() =~= seq!['f', 'f']);
    assert(ffff.drop_last().drop_last().drop_last() =~= seq!['f']);
    assert(ffff.drop_last().drop_last().drop_last().drop_last() =~= Seq::empty());
    assert(net::hex_value(ffff) == 0xffff);
    assert(net::parsed_segment(ffff) == Some(0xffffu16));
    assert(net::parsed_segment(last) is None);
    let (x, y) = (segs[6], segs[7]);
    assert(ip.a * 256 + ip.b == x && ip.c * 256 + ip.d == y);
    let tail = seq![0xffffu16, x, y];
    assert(net::listed_segments(parts, 1, false) == Some(seq![0xffffu16]));
    assert(net::listed_segments(parts, 2, true) == Some(seq![0xffffu16].push(x).push(y)));
    assert(seq![0xffffu16].push(x).push(y) =~= tail);
    assert(Seq::<u16>::empty() + Seq::new(5, |k: int| 0u16) + tail =~= segs);
}

/// The text of an IPv4 address is longer than a segment, and has no colons.
proof fn lemma_v4_text(ip: Ipv4Addr)
    ensures
        ip.shown().len() > 4,
        !ip.shown().contains(':'),
{
    reveal_strlit(".");
    text_laws::law_decimal(ip.a as nat);
    text_laws::law_decimal(ip.b as nat);
    text_laws::law_decimal(ip.c as nat);
    text_laws::law_decimal(ip.d as nat);
    let (a, b, c, d) = (
        text::decimal(ip.a as nat),
        text::decimal(ip.b as nat),
        text::decimal(ip.c as nat),
        text::decimal(ip.d as nat),
    );
    let s = ip.shown();
    assert(s =~= a + "."@ + b + "."@ + c + "."@ + d);
    assert forall|i: int| 0 <= i < s.len() implies #[trigger] s[i] != ':' by {
        let (l, m, n) = (a.len(), a.len() + 1 + b.len(), a.len() + 1 + b.len() + 1 + c.len());
        if i < l {
            assert(s[i] == a[i]);
        } else if i == l || i == m || i == n {
            assert(s[i] == '.');
        } else if i < m {
            assert(s[i] == b[i - l - 1]);
        } else if i < n {
            assert(s[i] == c[i - m - 1]);
        } else {
            assert(s[i] == d[i - n - 1]);
        }
    }
}

/// The text of an IPv6 address reads back.
pub proof fn law_v6_reads_back(segs: Seq<u16>)
    requires
        segs.len() == 8,
    ensures
        net::parsed_v6(net::shown_v6(segs)) == Some(segs),
{
    if net::is_mapped(segs) {
        lemma_mapped_reads_back(segs);
    } else {
        let (start, len) = net::longest_run(segs, 8);
        law_longest_zeros(segs, 0, 1);
        if len > 1 {
            let (head, tail) = (segs.take(start), segs.skip(start + len));
            law_v6_with_zeros_left_out(head, tail);
            assert(head + Seq::new((8 - head.len() - tail.len()) as nat, |k: int| 0u16) + tail
                =~= segs) by {
                assert forall|i: int| start <= i < start + len implies #[trigger] segs[i] == 0 by {}
            }
        } else {
            law_v6_in_full(segs);
        }
    }
}

/// Whether a text is made of hexadecimal digits, colons and points.
spec fn of_address(s: Seq<char>) -> bool {
    forall|i: int|
        0 <= i < s.len() ==> net::is_hex(#[trigger] s[i]) || s[i] == ':' || s[i] == '.'
}

proof fn lemma_row_of_address(segs: Seq<u16>)
    ensures
        of_address(in_a_row(segs)),
    decreases segs.len(),
{
    reveal_strlit(":");
    let texts = net::segment_texts(segs);
    let s = in_a_row(segs);
    if segs.len() > 0 {
        let front = segs.drop_last();
        lemma_row_of_address(front);
        law_hexadecimal(segs.last() as nat);
        let last = net::hexadecimal(segs.last() as nat);
        assert(texts.last() == last);
        assert(texts.drop_last() =~= net::segment_texts(front));
        if segs.len() == 1 {
            assert(s == texts[0]);
            assert forall|i: int| 0 <= i < s.len() implies net::is_hex(#[trigger] s[i]) by {
                assert(s[i] == last[i]);
            }
        } else {
            let f = in_a_row(front);
            assert(s == f + ":"@ + last);
            assert forall|i: int| 0 <= i < s.len() implies net::is_hex(#[trigger] s[i]) || s[i]
                == ':' || s[i] == '.' by {
                if i < f.len() {
                    assert(s[i] == f[i]);
                } else if i > f.len() {
                    assert(s[i] == last[i - f.len() - 1]);
                } else {
                    assert(s[i] == ':');
                }
            }
        }
    }
}

proof fn lemma_v6_of_address(segs: Seq<u16>)
    requires
        segs.len() == 8,
    ensures
        of_address(net::shown_v6(segs)),
{
    reveal_strlit("::");
    reveal_strlit("::ffff:");
    let s = net::shown_v6(segs);
    let (start, len) = net::longest_run(segs, 8);
    law_longest_zeros(segs, 0, 1);
    if net::is_mapped(segs) {
        let last = net::embedded_v4(segs).shown();
        lemma_v4_of_address(net::embedded_v4(segs));
        assert("::ffff:"@ =~= seq![':', ':', 'f', 'f', 'f', 'f', ':']);
        assert forall|i: int| 0 <= i < s.len() implies net::is_hex(#[trigger] s[i]) || s[i] == ':'
            || s[i] == '.' by {
            if i >= 7 {
                assert(s[i] == last[i - 7]);
            } else {
                assert(s[i] == "::ffff:"@[i]);
            }
        }
    } else if len > 1 {
        let (head, tail) = (in_a_row(segs.take(start)), in_a_row(segs.skip(start + len)));
        lemma_row_of_address(segs.take(start));
        lemma_row_of_address(segs.skip(start + len));
        assert(s == head + "::"@ + tail);
        assert forall|i: int| 0 <= i < s.len() implies net::is_hex(#[trigger] s[i]) || s[i] == ':'
            || s[i] == '.' by {
            if i < head.len() {
                assert(s[i] == head[i]);
            } else if i >= head.len() + 2 {
                assert(s[i] == tail[i - head.len() - 2]);
            } else {
                assert(s[i] == ':');
            }
        }
    } else {
        lemma_row_of_address(segs);
    }
}

proof fn lemma_v4_of_address(ip: Ipv4Addr)
    ensures
        of_address(ip.shown()),
{
    reveal_strlit(".");
    text_laws::law_decimal(ip.a as nat);
    text_laws::law_decimal(ip.b as nat);
    text_laws::law_decimal(ip.c as nat);
    text_laws::law_decimal(ip.d as nat);
    let (a, b, c, d) = (
        text::decimal(ip.a as nat),
        text::decimal(ip.b as nat),
        text::decimal(ip.c as nat),
        text::decimal(ip.d as nat),
    );
    let s = ip.shown();
    assert(s =~= a + "."@ + b + "."@ + c + "."@ + d);
    assert forall|i: int| 0 <= i < s.len() implies net::is_hex(#[trigger] s[i]) || s[i] == ':'
        || s[i] == '.' by {
        let (l, m, n) = (a.len(), a.len() + 1 + b.len(), a.len() + 1 + b.len() + 1 + c.len());
        if i < l {
            assert(s[i] == a[i]);
        } else if i == l || i == m || i == n {
            assert(s[i] == '.');
        } else if i < m {
            assert(s[i] == b[i - l - 1]);
        } else if i < n {
            assert(s[i] == c[i - m - 1]);
        } else {
            assert(s[i] == d[i - n - 1]);
        }
    }
}

proof fn lemma_not_within(s: Seq<char>, c: char)
    requires
        of_address(s),
        c == ']' || c == '%' || c == '[',
    ensures
        !s.contains(c),
        text::first_of(s, c) == s.len(),
{
    if s.contains(c) {
        let i = choose|i: int| 0 <= i < s.len() && s[i] == c;
        assert(net::is_hex(s[i]) || s[i] == ':' || s[i] == '.');
    }
    text::lemma_first_of(s, c);
    if text::first_of(s, c) < s.len() {
        assert(s.contains(c));
    }
}

/// An address with a port reads back as both: an IPv4 address with a colon
/// between, an IPv6 address in brackets. A number that is no port is refused.
pub proof fn law_socket_addresses(ip: Ipv4Addr, segs: Seq<u16>, port: nat)
    requires
        segs.len() == 8,
    ensures
        ({
            let v4 = ip.shown() + seq![':'] + text::decimal(port);
            let v6 = seq!['['] + net::shown_v6(segs) + seq![']', ':'] + text::decimal(port);
            if port <= 65535 {
                &&& net::parsed_socket(v4) == Some((net::IpView::V4(ip), port, 0nat))
                &&& net::parsed_socket(v6) == Some((net::IpView::V6(segs), port, 0nat))
            } else {
                net::parsed_socket(v4) is None && net::parsed_socket(v6) is None
            }
        }),
{
    let digits = text::decimal(port);
    text_laws::law_decimal(port);
    let a = ip.shown();
    let v4 = a + seq![':'] + digits;
    lemma_v4_text(ip);
    lemma_v4_of_address(ip);
    network_laws::law_v4_reads_back(ip);
    remote_laws::lemma_first(a, ':', digits);
    assert(v4.take(a.len() as int) =~= a);
    assert(v4.skip(a.len() as int + 1) =~= digits);
    assert(v4[0] == a[0]);
    lemma_not_within(a, '[');
    let b = net::shown_v6(segs);
    let v6 = seq!['['] + b + seq![']', ':'] + digits;
    lemma_v6_of_address(segs);
    law_v6_reads_back(segs);
    lemma_not_within(b, ']');
    lemma_not_within(b, '%');
    let open = seq!['['] + b;
    assert(!open.contains(']')) by {
        if open.contains(']') {
            let i = choose|i: int| 0 <= i < open.len() && open[i] == ']';
            assert(b[i - 1] == ']');
            assert(b.contains(']'));
        }
    }
    remote_laws::lemma_first(open, ']', seq![':'] + digits);
    assert(v6 =~= open + seq![']'] + (seq![':'] + digits));
    let end = open.len() as int;
    assert(v6.subrange(1, end) =~= b);
    assert(v6[end + 1] == ':');
    assert(v6.skip(end + 2) =~= digits);
    assert(b.take(b.len() as int) =~= b);
    assert(b.skip(b.len() as int).len() == 0);
}

proof fn lemma_no_double_without_colon(s: Seq<char>, i: int)
    requires
        !s.contains(':'),
        0 <= i,
    ensures
        net::double_colon(s, i) is None,
    decreases s.len() - i,
{
    if i + 1 < s.len() {
        if s[i] == ':' {
            assert(s.contains(':'));
        }
        lemma_no_double_without_colon(s, i + 1);
    }
}

proof fn lemma_v6_has_a_colon(s: Seq<char>)
    requires
        !s.contains(':'),
    ensures
        net::parsed_v6(s) is None,
{
    lemma_no_double_without_colon(s, 0);
    network_laws::lemma_split_bare(s, ':');
    reveal_with_fuel(net::listed_segments, 2);
}

proof fn lemma_v4_has_no_colon(s: Seq<char>)
    requires
        net::parsed_v4(s) is Some,
    ensures
        !s.contains(':'),
{
    let p = text::split_char(s, '.');
    text_laws::law_split_parts(s, '.');
    reveal_with_fuel(text::join, 5);
    assert(p.drop_last() =~= seq![p[0], p[1], p[2]]);
    assert(p.drop_last().drop_last() =~= seq![p[0], p[1]]);
    assert(p.drop_last().drop_last().drop_last() =~= seq![p[0]]);
    let dot = seq!['.'];
    let (a, b, c, d) = (p[0], p[1], p[2], p[3]);
    assert(s =~= a + dot + b + dot + c + dot + d);
    assert forall|i: int| 0 <= i < s.len() implies #[trigger] s[i] != ':' by {
        let (l, m, n) = (a.len(), a.len() + 1 + b.len(), a.len() + 1 + b.len() + 1 + c.len());
        if i < l {
            assert(s[i] == a[i]);
        } else if i == l || i == m || i == n {
            assert(s[i] == '.');
        } else if i < m {
            assert(s[i] == b[i - l - 1]);
        } else if i < n {
            assert(s[i] == c[i - m - 1]);
        } else {
            assert(s[i] == d[i - n - 1]);
        }
    }
}

/// A text is at most one kind of address, and the texts of both kinds read back.
pub proof fn law_addresses_read_back(s: Seq<char>, ip: Ipv4Addr, segs: Seq<u16>)
    requires
        segs.len() == 8,
    ensures
        !(net::parsed_v4(s) is Some && net::parsed_v6(s) is Some),
        net::parsed_ip(ip.shown()) == Some(net::IpView::V4(ip)),
        net::parsed_ip(net::shown_v6(segs)) == Some(net::IpView::V6(segs)),
{
    if net::parsed_v4(s) is Some {
        lemma_v4_has_no_colon(s);
        lemma_v6_has_a_colon(s);
    }
    network_laws::law_v4_reads_back(ip);
    law_v6_reads_back(segs);
    let t = net::shown_v6(segs);
    if net::parsed_v4(t) is Some {
        lemma_v4_has_no_colon(t);
        lemma_v6_has_a_colon(t);
    }
}

/// The upstream that is an address is known as such in every way to write it:
/// with a port or without, and of an IPv6 address in brackets.
pub proof fn law_upstream_addresses(ip: Ipv4Addr, segs: Seq<u16>, port: nat)
    requires
        segs.len() == 8,
        port <= 65535,
    ensures
        firewall::ip_authority(ip.shown()) == Some((net::IpView::V4(ip), 0nat, 0nat)),
        firewall::ip_authority(ip.shown() + seq![':'] + text::decimal(port)) == Some(
            (net::IpView::V4(ip), port, 0nat),
        ),
        firewall::ip_authority(seq!['['] + net::shown_v6(segs) + seq![']']) == Some(
            (net::IpView::V6(segs), 0nat, 0nat),
        ),
        firewall::ip_authority(
            seq!['['] + net::shown_v6(segs) + seq![']', ':'] + text::decimal(port),
        ) == Some((net::IpView::V6(segs), port, 0nat)),
{
    law_socket_addresses(ip, segs, port);
    law_addresses_read_back(Seq::empty(), ip, segs);
    let a = ip.shown();
    lemma_v4_text(ip);
    lemma_v4_of_address(ip);
    lemma_not_within(a, '[');
    text::lemma_first_of(a, ':');
    if text::first_of(a, ':') < a.len() {
        assert(a.contains(':'));
    }
    assert(a[0] != '[') by {
        if a[0] == '[' {
            assert(a.contains('['));
        }
    }
    let b = net::shown_v6(segs);
    let s = seq!['['] + b + seq![']'];
    lemma_v6_of_address(segs);
    lemma_not_within(b, ']');
    let open = seq!['['] + b;
    assert(!open.contains(']')) by {
        if open.contains(']') {
            let i = choose|i: int| 0 <= i < open.len() && open[i] == ']';
            assert(b[i - 1] == ']');
            assert(b.contains(']'));
        }
    }
    remote_laws::lemma_first(open, ']', Seq::empty());
    assert(s =~= open + seq![']'] + Seq::<char>::empty());
    assert(s.subrange(1, s.len() - 1) =~= b);
    assert(s.last() == ']');
}

} // verus!
