//! Addresses in text form: dotted quads, colon-separated groups, and the two
//! socket forms that add a port.

use crate::address::v4_bits;
use crate::address::IpAddress;
use crate::address::SocketAddress;
use crate::text::all_digits;
use crate::text::bounded_decimal;
use crate::text::cuts_within;
use crate::text::lemma_fields_nonempty;
use crate::text::digit_of;
use crate::text::fields;
use crate::text::number;
use crate::text::pieces;
use crate::text::read_number;
use crate::text::split;
use crate::text::CLOSE_BRACKET;
use crate::text::COLON;
use crate::text::DOT;
use crate::text::OPEN_BRACKET;
use crate::text::PERCENT;
use vstd::prelude::*;

verus! {

/// One octet of a dotted quad: one to three decimal digits that write a number
/// of at most 255, with no leading zero before another digit.
pub open spec fn octet_of(s: Seq<u8>) -> Option<u8> {
    if 1 <= s.len() <= 3 && all_digits(s, 10) && (s.len() == 1 || s[0] != 0x30) && number(s, 10)
        <= 255 {
        Some(number(s, 10) as u8)
    } else {
        None
    }
}

/// A version 4 address in text: four octets with a dot between each two.
pub open spec fn ipv4_of(s: Seq<u8>) -> Option<u32> {
    let f = fields(s, DOT);
    if f.len() == 4 && octet_of(f[0]) is Some && octet_of(f[1]) is Some && octet_of(f[2]) is Some
        && octet_of(f[3]) is Some {
        Some(
            v4_bits(
                octet_of(f[0])->0 as int,
                octet_of(f[1])->0 as int,
                octet_of(f[2])->0 as int,
                octet_of(f[3])->0 as int,
            ) as u32,
        )
    } else {
        None
    }
}

/// Reads `bytes[from..to]` as one octet of a dotted quad.
pub fn read_octet(bytes: &[u8], from: usize, to: usize) -> (r: Option<u8>)
    requires
        from <= to <= bytes@.len(),
    ensures
        r == octet_of(bytes@.subrange(from as int, to as int)),
{
    if to - from > 3 {
        return None;
    }
    if to - from > 1 && bytes[from] == 0x30 {
        return None;
    }
    match read_number(bytes, from, to, 10, 255) {
        Some(v) => Some(v as u8),
        None => None,
    }
}

/// Reads `bytes[from..to]` as a version 4 address.
pub fn read_ipv4(bytes: &[u8], from: usize, to: usize) -> (r: Option<u32>)
    requires
        from <= to <= bytes@.len(),
    ensures
        r == ipv4_of(bytes@.subrange(from as int, to as int)),
{
    let cuts = split(bytes, from, to, DOT);
    if cuts.len() != 4 {
        return None;
    }
    let ghost f = fields(bytes@.subrange(from as int, to as int), DOT);
    proof {
        assert(f[0] == pieces(bytes@, cuts@)[0]);
        assert(f[1] == pieces(bytes@, cuts@)[1]);
        assert(f[2] == pieces(bytes@, cuts@)[2]);
        assert(f[3] == pieces(bytes@, cuts@)[3]);
    }
    let a: u8 = match read_octet(bytes, cuts[0].0, cuts[0].1) {
        Some(v) => v,
        None => { return None; },
    };
    let b: u8 = match read_octet(bytes, cuts[1].0, cuts[1].1) {
        Some(v) => v,
        None => { return None; },
    };
    let c: u8 = match read_octet(bytes, cuts[2].0, cuts[2].1) {
        Some(v) => v,
        None => { return None; },
    };
    let d: u8 = match read_octet(bytes, cuts[3].0, cuts[3].1) {
        Some(v) => v,
        None => { return None; },
    };
    let hi: u32 = (a as u32) * 256 + (b as u32);
    let mid: u32 = hi * 256 + (c as u32);
    Some(mid * 256 + (d as u32))
}

/// One group of a version 6 address: one to four hexadecimal digits.
pub open spec fn group_of(s: Seq<u8>) -> Option<u16> {
    if 1 <= s.len() <= 4 && all_digits(s, 16) {
        Some(number(s, 16) as u16)
    } else {
        None
    }
}

/// The groups that `parts` write, if each of them is one group.
pub open spec fn plain_groups(parts: Seq<Seq<u8>>) -> Option<Seq<u16>> {
    if forall|i: int| 0 <= i < parts.len() ==> group_of(#[trigger] parts[i]) is Some {
        Some(Seq::new(parts.len(), |i: int| group_of(parts[i])->0))
    } else {
        None
    }
}

/// The groups that `parts` write, where the last part may be a dotted quad
/// instead of a group: it then stands for two groups, its upper and its lower
/// half.
pub open spec fn mixed_groups(parts: Seq<Seq<u8>>) -> Option<Seq<u16>> {
    if parts.len() == 0 {
        Some(Seq::<u16>::empty())
    } else {
        match ipv4_of(parts.last()) {
            Some(quad) => match plain_groups(parts.drop_last()) {
                Some(g) => Some(g.push((quad / 65536) as u16).push((quad % 65536) as u16)),
                None => None,
            },
            None => plain_groups(parts),
        }
    }
}

/// The groups written on one side of a `::`: none for an empty side, else
/// what stands between the colons. Only the right side may end in a dotted
/// quad.
pub open spec fn side_groups(s: Seq<u8>, quad_allowed: bool) -> Option<Seq<u16>> {
    if s.len() == 0 {
        Some(Seq::<u16>::empty())
    } else if quad_allowed {
        mixed_groups(fields(s, COLON))
    } else {
        plain_groups(fields(s, COLON))
    }
}

/// Whether a `::` begins at index `i` of `s`.
pub open spec fn is_gap(s: Seq<u8>, i: int) -> bool {
    0 <= i && i + 1 < s.len() && s[i] == COLON && s[i + 1] == COLON
}

/// Where the first `::` of `s` begins, if there is one.
pub open spec fn first_gap(s: Seq<u8>) -> Option<int> {
    if exists|i: int| is_gap(s, i) {
        Some(choose|i: int| is_gap(s, i) && forall|j: int| 0 <= j < i ==> !is_gap(s, j))
    } else {
        None
    }
}

/// The eight groups of a version 6 address in text.
///
/// Without `::` the text is eight groups with a colon between each two, or six
/// groups and a dotted quad. With `::` it is the groups before the first `::`
/// and those after it, at most seven together, and the `::` stands for the
/// zero groups that are missing between them, at least one.
pub open spec fn ipv6_groups(s: Seq<u8>) -> Option<Seq<u16>> {
    match first_gap(s) {
        None => full_groups(s),
        Some(p) => gapped_groups(s, p),
    }
}

/// The number that eight groups stand for.
pub open spec fn v6_bits(g: Seq<u16>) -> int {
    ((((((g[0] * 65536 + g[1]) * 65536 + g[2]) * 65536 + g[3]) * 65536 + g[4]) * 65536 + g[5])
        * 65536 + g[6]) * 65536 + g[7]
}

/// A version 6 address in text.
pub open spec fn ipv6_of(s: Seq<u8>) -> Option<u128> {
    match ipv6_groups(s) {
        Some(g) => Some(v6_bits(g) as u128),
        None => None,
    }
}

/// Four hexadecimal digits or fewer write a number below 65536.
pub proof fn lemma_group_fits(s: Seq<u8>)
    requires
        s.len() <= 4,
        all_digits(s, 16),
    ensures
        number(s, 16) < 65536,
{
    reveal_with_fuel(number, 5);
    if s.len() >= 1 {
        let s1 = s.drop_last();
        assert(digit_of(s[s.len() - 1]) < 16);
        if s1.len() >= 1 {
            let s2 = s1.drop_last();
            assert(s1.last() == s[s.len() - 2]);
            if s2.len() >= 1 {
                let s3 = s2.drop_last();
                assert(s2.last() == s[s.len() - 3]);
                if s3.len() >= 1 {
                    assert(s3.last() == s[s.len() - 4]);
                }
            }
        }
    }
}

/// Reads `bytes[from..to]` as one group of a version 6 address.
pub fn read_group(bytes: &[u8], from: usize, to: usize) -> (r: Option<u16>)
    requires
        from <= to <= bytes@.len(),
    ensures
        r == group_of(bytes@.subrange(from as int, to as int)),
{
    if to - from > 4 {
        return None;
    }
    proof {
        if all_digits(bytes@.subrange(from as int, to as int), 16) {
            lemma_group_fits(bytes@.subrange(from as int, to as int));
        }
    }
    match read_number(bytes, from, to, 16, 0xffff) {
        Some(v) => Some(v as u16),
        None => None,
    }
}

/// Reads the pieces that `cuts` mark out in `bytes` as groups, from the first
/// up to but not including the one at index `upto`.
fn read_plain_groups(bytes: &[u8], cuts: &Vec<(usize, usize)>, upto: usize) -> (r: Option<
    Vec<u16>,
>)
    requires
        upto <= cuts@.len(),
        cuts_within(cuts@, 0, bytes@.len() as int),
    ensures
        r is Some <==> plain_groups(pieces(bytes@, cuts@).take(upto as int)) is Some,
        r is Some ==> r->0@ == plain_groups(pieces(bytes@, cuts@).take(upto as int))->0,
{
    let ghost parts = pieces(bytes@, cuts@).take(upto as int);
    let mut groups: Vec<u16> = Vec::new();
    let mut i: usize = 0;
    while i < upto
        invariant
            i <= upto <= cuts@.len(),
            cuts_within(cuts@, 0, bytes@.len() as int),
            parts == pieces(bytes@, cuts@).take(upto as int),
            groups@.len() == i,
            forall|k: int| 0 <= k < i ==> group_of(#[trigger] parts[k]) == Some(groups@[k]),
        decreases upto - i,
    {
        proof {
            assert(parts[i as int] == bytes@.subrange(cuts@[i as int].0 as int, cuts@[i as int].1 as int));
        }
        match read_group(bytes, cuts[i].0, cuts[i].1) {
            Some(g) => {
                groups.push(g);
            },
            None => {
                return None;
            },
        }
        i = i + 1;
    }
    proof {
        assert(groups@ =~= plain_groups(parts)->0);
    }
    Some(groups)
}

/// Reads the groups on one side of a `::`, or of a text without one.
///
/// An empty range holds no group. With `quad_allowed` the last piece may be a
/// dotted quad, which gives two groups.
pub fn read_side(bytes: &[u8], from: usize, to: usize, quad_allowed: bool) -> (r: Option<Vec<u16>>)
    requires
        from <= to <= bytes@.len(),
    ensures
        r is Some <==> side_groups(bytes@.subrange(from as int, to as int), quad_allowed) is Some,
        r is Some ==> r->0@ == side_groups(
            bytes@.subrange(from as int, to as int),
            quad_allowed,
        )->0,
{
    if from == to {
        return Some(Vec::new());
    }
    let ghost s = bytes@.subrange(from as int, to as int);
    let cuts = split(bytes, from, to, COLON);
    let ghost parts = pieces(bytes@, cuts@);
    proof {
        lemma_fields_nonempty(s, COLON);
        assert(parts.take(parts.len() as int) =~= parts);
        assert(parts.take(parts.len() - 1) =~= parts.drop_last());
    }
    let last: usize = cuts.len() - 1;
    if quad_allowed {
        proof {
            assert(parts.last() == bytes@.subrange(cuts@[last as int].0 as int, cuts@[last as int].1 as int));
        }
        match read_ipv4(bytes, cuts[last].0, cuts[last].1) {
            Some(quad) => {
                return match read_plain_groups(bytes, &cuts, last) {
                    Some(mut groups) => {
                        groups.push((quad / 65536) as u16);
                        groups.push((quad % 65536) as u16);
                        Some(groups)
                    },
                    None => None,
                };
            },
            None => {},
        }
    }
    read_plain_groups(bytes, &cuts, cuts.len())
}

/// The first `::` is the one that no other comes before.
pub proof fn lemma_first_gap(s: Seq<u8>, p: int)
    requires
        is_gap(s, p),
        forall|j: int| 0 <= j < p ==> !is_gap(s, j),
    ensures
        first_gap(s) == Some(p),
{
    let c = choose|c: int| is_gap(s, c) && forall|j: int| 0 <= j < c ==> !is_gap(s, j);
    assert(is_gap(s, c) && forall|j: int| 0 <= j < c ==> !is_gap(s, j));
    if c < p {
        assert(!is_gap(s, c));
    }
    if p < c {
        assert(!is_gap(s, p));
    }
}

/// Finds the first `::` in `bytes[from..to]`.
pub fn find_gap(bytes: &[u8], from: usize, to: usize) -> (r: Option<usize>)
    requires
        from <= to <= bytes@.len(),
    ensures
        r is Some <==> first_gap(bytes@.subrange(from as int, to as int)) is Some,
        r is Some ==> from <= r->0 && r->0 + 2 <= to && first_gap(
            bytes@.subrange(from as int, to as int),
        ) == Some(r->0 - from),
{
    let ghost s = bytes@.subrange(from as int, to as int);
    let mut i: usize = from;
    while to - i >= 2
        invariant
            from <= i <= to <= bytes@.len(),
            s == bytes@.subrange(from as int, to as int),
            forall|j: int| 0 <= j < i - from ==> !is_gap(s, j),
        decreases to - i,
    {
        proof {
            assert(s[i - from] == bytes@[i as int]);
            assert(s[i - from + 1] == bytes@[i + 1]);
        }
        if bytes[i] == COLON && bytes[i + 1] == COLON {
            proof {
                lemma_first_gap(s, i - from);
            }
            return Some(i);
        }
        i = i + 1;
    }
    proof {
        assert forall|j: int| !is_gap(s, j) by {
            if 0 <= j && j + 1 < s.len() {
                assert(j < i - from);
            }
        }
    }
    None
}

/// Puts eight groups together into one number.
fn join_groups(g: &Vec<u16>) -> (bits: u128)
    requires
        g@.len() == 8,
    ensures
        bits == v6_bits(g@),
{
    let mut bits: u128 = g[0] as u128;
    bits = bits * 65536 + (g[1] as u128);
    bits = bits * 65536 + (g[2] as u128);
    bits = bits * 65536 + (g[3] as u128);
    bits = bits * 65536 + (g[4] as u128);
    bits = bits * 65536 + (g[5] as u128);
    bits = bits * 65536 + (g[6] as u128);
    bits = bits * 65536 + (g[7] as u128);
    bits
}

/// Puts `head`, then zero groups, then `tail` together to eight groups.
fn expand(head: Vec<u16>, tail: &Vec<u16>) -> (groups: Vec<u16>)
    requires
        head@.len() + tail@.len() <= 7,
    ensures
        groups@ == head@ + zero_groups((8 - head@.len() - tail@.len()) as nat)
            + tail@,
{
    let ghost zeros = zero_groups((8 - head@.len() - tail@.len()) as nat);
    let ghost first = head@;
    let mut groups: Vec<u16> = head;
    let mut n: usize = groups.len() + tail.len();
    while n < 8
        invariant
            first.len() + tail@.len() <= n <= 8,
            groups@.len() == n - tail@.len(),
            groups@ =~= first + zero_groups((n - first.len() - tail@.len()) as nat),
        decreases 8 - n,
    {
        groups.push(0);
        n = n + 1;
    }
    let mut k: usize = 0;
    while k < tail.len()
        invariant
            k <= tail@.len(),
            first.len() + tail@.len() <= 7,
            zeros == zero_groups((8 - first.len() - tail@.len()) as nat),
            groups@ =~= first + zeros + tail@.take(k as int),
        decreases tail@.len() - k,
    {
        groups.push(tail[k]);
        k = k + 1;
    }
    proof {
        assert(tail@.take(tail@.len() as int) =~= tail@);
    }
    groups
}

/// The empty text is no address.
pub proof fn lemma_empty_is_no_address()
    ensures
        ipv4_of(Seq::<u8>::empty()) is None,
        ipv6_of(Seq::<u8>::empty()) is None,
{
    let e = Seq::<u8>::empty();
    assert(fields(e, DOT).len() == 1);
    assert(fields(e, COLON) =~= seq![e]);
    assert(forall|j: int| !is_gap(e, j));
    assert(group_of(fields(e, COLON)[0]) is None);
    assert(fields(e, COLON).drop_last().len() == 0);
}

/// What `ipv6_groups` gives for a text without `::`.
pub open spec fn full_groups(s: Seq<u8>) -> Option<Seq<u16>> {
    match mixed_groups(fields(s, COLON)) {
        Some(g) => if g.len() == 8 {
            Some(g)
        } else {
            None
        },
        None => None,
    }
}

/// `n` groups of zero.
pub open spec fn zero_groups(n: nat) -> Seq<u16> {
    Seq::new(n, |i: int| 0u16)
}

/// What `ipv6_groups` gives for a text whose first `::` begins at `p`.
pub open spec fn gapped_groups(s: Seq<u8>, p: int) -> Option<Seq<u16>> {
    match (side_groups(s.take(p), false), side_groups(s.skip(p + 2), true)) {
        (Some(head), Some(tail)) => if head.len() + tail.len() <= 7 {
            Some(head + zero_groups((8 - head.len() - tail.len()) as nat) + tail)
        } else {
            None
        },
        _ => None,
    }
}

/// Reads a text without `::` as eight groups.
fn read_full(bytes: &[u8], from: usize, to: usize) -> (r: Option<u128>)
    requires
        from < to <= bytes@.len(),
    ensures
        r is Some <==> full_groups(bytes@.subrange(from as int, to as int)) is Some,
        r is Some ==> r->0 == v6_bits(full_groups(bytes@.subrange(from as int, to as int))->0),
{
    match read_side(bytes, from, to, true) {
        Some(groups) => {
            if groups.len() == 8 {
                Some(join_groups(&groups))
            } else {
                None
            }
        },
        None => None,
    }
}

/// Reads a text with a `::` at `gap` as eight groups.
fn read_gapped(bytes: &[u8], from: usize, gap: usize, to: usize) -> (r: Option<u128>)
    requires
        from <= gap,
        gap + 2 <= to,
        to <= bytes@.len(),
    ensures
        r is Some <==> gapped_groups(bytes@.subrange(from as int, to as int), gap - from) is Some,
        r is Some ==> r->0 == v6_bits(
            gapped_groups(bytes@.subrange(from as int, to as int), gap - from)->0,
        ),
{
    let ghost s = bytes@.subrange(from as int, to as int);
    proof {
        assert(s.take(gap - from) =~= bytes@.subrange(from as int, gap as int));
        assert(s.skip(gap - from + 2) =~= bytes@.subrange(gap + 2, to as int));
    }
    let head = match read_side(bytes, from, gap, false) {
        Some(groups) => groups,
        None => {
            return None;
        },
    };
    let tail = match read_side(bytes, gap + 2, to, true) {
        Some(groups) => groups,
        None => {
            return None;
        },
    };
    if head.len() > 7 || tail.len() > 7 - head.len() {
        return None;
    }
    let groups = expand(head, &tail);
    Some(join_groups(&groups))
}

/// Reads `bytes[from..to]` as a version 6 address.
pub fn read_ipv6(bytes: &[u8], from: usize, to: usize) -> (r: Option<u128>)
    requires
        from <= to <= bytes@.len(),
    ensures
        r == ipv6_of(bytes@.subrange(from as int, to as int)),
{
    if from == to {
        proof {
            assert(bytes@.subrange(from as int, to as int) =~= Seq::<u8>::empty());
            lemma_empty_is_no_address();
        }
        return None;
    }
    match find_gap(bytes, from, to) {
        None => read_full(bytes, from, to),
        Some(gap) => read_gapped(bytes, from, gap, to),
    }
}

/// A version 4 address and a port in text: the address, a colon, and the
/// port in decimal digits.
pub open spec fn socket_v4_of(s: Seq<u8>) -> Option<SocketAddress> {
    let f = fields(s, COLON);
    if f.len() == 2 && ipv4_of(f[0]) is Some && bounded_decimal(f[1], 65535) is Some {
        Some(
            SocketAddress {
                ip: IpAddress::V4(ipv4_of(f[0])->0),
                port: bounded_decimal(f[1], 65535)->0 as u16,
            },
        )
    } else {
        None
    }
}

/// A version 6 address and a port in text: the address in square brackets, a
/// colon, and the port in decimal digits. Inside the brackets a `%` and a zone
/// number of at most 32 bits may follow the address; it is read and dropped.
pub open spec fn socket_v6_of(s: Seq<u8>) -> Option<SocketAddress> {
    if s.len() >= 1 && s[0] == OPEN_BRACKET {
        let f = fields(s.skip(1), CLOSE_BRACKET);
        if f.len() == 2 && f[1].len() >= 1 && f[1][0] == COLON {
            let inner = fields(f[0], PERCENT);
            let port = bounded_decimal(f[1].skip(1), 65535);
            if port is Some && ipv6_of(inner[0]) is Some && (inner.len() == 1 || (inner.len() == 2
                && bounded_decimal(inner[1], 0xffff_ffff) is Some)) {
                Some(SocketAddress { ip: IpAddress::V6(ipv6_of(inner[0])->0), port: port->0 as u16 })
            } else {
                None
            }
        } else {
            None
        }
    } else {
        None
    }
}

/// An address in text, of either version.
pub open spec fn ip_of(s: Seq<u8>) -> Option<IpAddress> {
    match ipv4_of(s) {
        Some(bits) => Some(IpAddress::V4(bits)),
        None => match ipv6_of(s) {
            Some(bits) => Some(IpAddress::V6(bits)),
            None => None,
        },
    }
}

/// An address and a port in text, of either version.
pub open spec fn socket_of(s: Seq<u8>) -> Option<SocketAddress> {
    match socket_v4_of(s) {
        Some(a) => Some(a),
        None => socket_v6_of(s),
    }
}

/// The address that a forwarding header names: that of the socket form if the
/// value has one, else the bare address.
pub open spec fn forwarded_of(s: Seq<u8>) -> Option<IpAddress> {
    match socket_of(s) {
        Some(a) => Some(a.ip),
        None => ip_of(s),
    }
}

/// Reads `bytes[from..to]` as a version 4 address and a port.
pub fn read_socket_v4(bytes: &[u8], from: usize, to: usize) -> (r: Option<SocketAddress>)
    requires
        from <= to <= bytes@.len(),
    ensures
        r == socket_v4_of(bytes@.subrange(from as int, to as int)),
{
    let cuts = split(bytes, from, to, COLON);
    if cuts.len() != 2 {
        return None;
    }
    proof {
        let f = fields(bytes@.subrange(from as int, to as int), COLON);
        assert(f[0] == pieces(bytes@, cuts@)[0]);
        assert(f[1] == pieces(bytes@, cuts@)[1]);
    }
    let bits: u32 = match read_ipv4(bytes, cuts[0].0, cuts[0].1) {
        Some(v) => v,
        None => {
            return None;
        },
    };
    match read_number(bytes, cuts[1].0, cuts[1].1, 10, 65535) {
        Some(port) => Some(SocketAddress { ip: IpAddress::V4(bits), port: port as u16 }),
        None => None,
    }
}

/// Reads `bytes[from..to]` as a version 6 address in brackets and a port.
pub fn read_socket_v6(bytes: &[u8], from: usize, to: usize) -> (r: Option<SocketAddress>)
    requires
        from <= to <= bytes@.len(),
    ensures
        r == socket_v6_of(bytes@.subrange(from as int, to as int)),
{
    let ghost s = bytes@.subrange(from as int, to as int);
    if from == to || bytes[from] != OPEN_BRACKET {
        return None;
    }
    proof {
        assert(s.skip(1) =~= bytes@.subrange(from + 1, to as int));
    }
    let cuts = split(bytes, from + 1, to, CLOSE_BRACKET);
    if cuts.len() != 2 {
        return None;
    }
    let ghost f = fields(s.skip(1), CLOSE_BRACKET);
    proof {
        assert(f[0] == pieces(bytes@, cuts@)[0]);
        assert(f[1] == pieces(bytes@, cuts@)[1]);
    }
    let (inner_from, inner_to) = cuts[0];
    let (rest_from, rest_to) = cuts[1];
    if rest_from == rest_to || bytes[rest_from] != COLON {
        return None;
    }
    proof {
        assert(f[1].skip(1) =~= bytes@.subrange(rest_from + 1, rest_to as int));
    }
    let port: u32 = match read_number(bytes, rest_from + 1, rest_to, 10, 65535) {
        Some(v) => v,
        None => {
            return None;
        },
    };
    let inner = split(bytes, inner_from, inner_to, PERCENT);
    let ghost g = fields(f[0], PERCENT);
    proof {
        lemma_fields_nonempty(f[0], PERCENT);
        assert(g[0] == pieces(bytes@, inner@)[0]);
        if g.len() >= 2 {
            assert(g[1] == pieces(bytes@, inner@)[1]);
        }
    }
    if inner.len() > 2 {
        return None;
    }
    if inner.len() == 2 {
        match read_number(bytes, inner[1].0, inner[1].1, 10, 0xffff_ffff) {
            Some(_) => {},
            None => {
                return None;
            },
        }
    }
    match read_ipv6(bytes, inner[0].0, inner[0].1) {
        Some(bits) => Some(SocketAddress { ip: IpAddress::V6(bits), port: port as u16 }),
        None => None,
    }
}

/// Reads all of `bytes` as an address of either version.
pub fn read_ip(bytes: &[u8]) -> (r: Option<IpAddress>)
    ensures
        r == ip_of(bytes@),
{
    proof {
        assert(bytes@.subrange(0, bytes@.len() as int) =~= bytes@);
    }
    match read_ipv4(bytes, 0, bytes.len()) {
        Some(bits) => Some(IpAddress::V4(bits)),
        None => match read_ipv6(bytes, 0, bytes.len()) {
            Some(bits) => Some(IpAddress::V6(bits)),
            None => None,
        },
    }
}

/// Reads all of `bytes` as an address and a port.
pub fn read_socket(bytes: &[u8]) -> (r: Option<SocketAddress>)
    ensures
        r == socket_of(bytes@),
{
    proof {
        assert(bytes@.subrange(0, bytes@.len() as int) =~= bytes@);
    }
    match read_socket_v4(bytes, 0, bytes.len()) {
        Some(a) => Some(a),
        None => read_socket_v6(bytes, 0, bytes.len()),
    }
}

/// Reads all of `bytes` as the value of a forwarding header: first as an
/// address with a port, and if it is none, as a bare address.
pub fn read_forwarded(bytes: &[u8]) -> (r: Option<IpAddress>)
    ensures
        r == forwarded_of(bytes@),
{
    match read_socket(bytes) {
        Some(a) => Some(a.ip),
        None => read_ip(bytes),
    }
}

/// The bytes of a text that is all ASCII.
pub open spec fn ascii_bytes(text: Seq<char>) -> Seq<u8> {
    Seq::new(text.len(), |i: int| text[i] as u8)
}

/// The address that `text` writes: no text with a character outside ASCII
/// writes one.
pub open spec fn ip_of_text(text: Seq<char>) -> Option<IpAddress> {
    if vstd::utf8::is_ascii_chars(text) {
        ip_of(ascii_bytes(text))
    } else {
        None
    }
}

/// The address and port that `text` writes.
pub open spec fn socket_of_text(text: Seq<char>) -> Option<SocketAddress> {
    if vstd::utf8::is_ascii_chars(text) {
        socket_of(ascii_bytes(text))
    } else {
        None
    }
}

/// The address that `text` names as the value of a forwarding header.
pub open spec fn forwarded_of_text(text: Seq<char>) -> Option<IpAddress> {
    if vstd::utf8::is_ascii_chars(text) {
        forwarded_of(ascii_bytes(text))
    } else {
        None
    }
}

/// Parses a bare address of either version, such as `203.0.113.5` or `::1`.
pub fn parse_ip(text: &str) -> (r: Option<IpAddress>)
    ensures
        r == ip_of_text(text@),
{
    if !text.is_ascii() {
        return None;
    }
    let bytes = text.as_bytes();
    proof {
        vstd::string::is_ascii_spec_bytes(text);
        assert(bytes@ =~= ascii_bytes(text@));
    }
    read_ip(bytes)
}

/// Parses an address with a port, such as `203.0.113.5:4711` or `[::1]:80`.
pub fn parse_socket(text: &str) -> (r: Option<SocketAddress>)
    ensures
        r == socket_of_text(text@),
{
    if !text.is_ascii() {
        return None;
    }
    let bytes = text.as_bytes();
    proof {
        vstd::string::is_ascii_spec_bytes(text);
        assert(bytes@ =~= ascii_bytes(text@));
    }
    read_socket(bytes)
}

/// Parses the value of a forwarding header: an address with a port, or else a
/// bare address. The port is dropped.
pub fn parse_forwarded(text: &str) -> (r: Option<IpAddress>)
    ensures
        r == forwarded_of_text(text@),
{
    if !text.is_ascii() {
        return None;
    }
    let bytes = text.as_bytes();
    proof {
        vstd::string::is_ascii_spec_bytes(text);
        assert(bytes@ =~= ascii_bytes(text@));
    }
    read_forwarded(bytes)
}

} // verus!
