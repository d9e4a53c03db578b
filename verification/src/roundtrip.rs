//! Writing and reading agree: the text of an address is read back as that
//! address.

use crate::address::v4_bits;
use crate::address::IpAddress;
use crate::parse::ascii_bytes;
use crate::parse::first_gap;
use crate::parse::full_groups;
use crate::parse::gapped_groups;
use crate::parse::ip_of;
use crate::parse::ip_of_text;
use crate::parse::ipv4_of;
use crate::parse::ipv6_of;
use crate::parse::ipv6_groups;
use crate::parse::lemma_first_gap;
use crate::parse::group_of;
use crate::parse::is_gap;
use crate::parse::mixed_groups;
use crate::parse::octet_of;
use crate::parse::plain_groups;
use crate::parse::side_groups;
use crate::parse::v6_bits;
use crate::parse::zero_groups;
use crate::render::chars_of;
use crate::render::decimal;
use crate::render::digit_byte;
use crate::render::hexadecimal;
use crate::render::ip_text;
use crate::render::is_mapped;
use crate::render::joined;
use crate::render::longest_zeros;
use crate::render::low_groups;
use crate::render::v4_text;
use crate::render::v6_text;
use crate::render::zeros_from;
use crate::text::all_digits;
use crate::text::digit_of;
use crate::text::fields;
use crate::text::free_of;
use crate::text::lemma_fields_next;
use crate::text::lemma_fields_whole;
use crate::text::number;
use crate::text::COLON;
use crate::text::DOT;
use vstd::prelude::*;

verus! {

/// Digits neither separate nor leave ASCII.
pub proof fn lemma_digits_are_plain(s: Seq<u8>)
    requires
        all_digits(s, 16),
    ensures
        free_of(s, DOT),
        free_of(s, COLON),
        forall|i: int| 0 <= i < s.len() ==> #[trigger] s[i] < 128,
{
    assert forall|i: int| 0 <= i < s.len() implies #[trigger] s[i] != DOT && s[i]
        != COLON && s[i] < 128 by {
        assert(digit_of(s[i]) < 16);
    }
}

/// A number in decimal is read back as that number; it has no leading zero,
/// and no more digits than its size asks for.
pub proof fn lemma_decimal(n: nat)
    ensures
        decimal(n).len() >= 1,
        all_digits(decimal(n), 10),
        all_digits(decimal(n), 16),
        number(decimal(n), 10) == n,
        n >= 1 ==> decimal(n)[0] != 0x30,
        n < 10 ==> decimal(n).len() == 1,
        n < 100 ==> decimal(n).len() <= 2,
        n < 1000 ==> decimal(n).len() <= 3,
    decreases n,
{
    let s = decimal(n);
    if n < 10 {
        assert(s =~= seq![digit_byte(n)]);
        assert(s.drop_last() =~= Seq::<u8>::empty());
        assert(number(s.drop_last(), 10) == 0);
        assert(digit_of(s[0]) == n);
    } else {
        lemma_decimal(n / 10);
        let front = decimal(n / 10);
        assert(s == front.push(digit_byte(n % 10)));
        assert(s.drop_last() =~= front);
        assert(s.last() == digit_byte(n % 10));
        assert(digit_of(s.last()) == n % 10);
        assert forall|i: int| 0 <= i < s.len() implies digit_of(#[trigger] s[i]) < 10 by {
            if i < front.len() {
                assert(s[i] == front[i]);
            }
        }
        assert(s[0] == front[0]);
    }
}

/// A number in hexadecimal is read back as that number, and has no more
/// digits than its size asks for.
pub proof fn lemma_hexadecimal(n: nat)
    ensures
        hexadecimal(n).len() >= 1,
        all_digits(hexadecimal(n), 16),
        number(hexadecimal(n), 16) == n,
        n < 16 ==> hexadecimal(n).len() == 1,
        n < 256 ==> hexadecimal(n).len() <= 2,
        n < 4096 ==> hexadecimal(n).len() <= 3,
        n < 65536 ==> hexadecimal(n).len() <= 4,
    decreases n,
{
    let s = hexadecimal(n);
    if n < 16 {
        assert(s =~= seq![digit_byte(n)]);
        assert(s.drop_last() =~= Seq::<u8>::empty());
        assert(number(s.drop_last(), 16) == 0);
        assert(digit_of(s[0]) == n);
    } else {
        lemma_hexadecimal(n / 16);
        let front = hexadecimal(n / 16);
        assert(s == front.push(digit_byte(n % 16)));
        assert(s.drop_last() =~= front);
        assert(s.last() == digit_byte(n % 16));
        assert(digit_of(s.last()) == n % 16);
        assert forall|i: int| 0 <= i < s.len() implies digit_of(#[trigger] s[i]) < 16 by {
            if i < front.len() {
                assert(s[i] == front[i]);
            }
        }
    }
}

/// An octet in decimal is read back as that octet.
pub proof fn lemma_octet_is_read_back(n: u8)
    ensures
        octet_of(decimal(n as nat)) == Some(n),
        free_of(decimal(n as nat), DOT),
        free_of(decimal(n as nat), COLON),
{
    lemma_decimal(n as nat);
    lemma_digits_are_plain(decimal(n as nat));
}

/// Four texts with dots between.
pub open spec fn dotted(a: Seq<u8>, b: Seq<u8>, c: Seq<u8>, d: Seq<u8>) -> Seq<u8> {
    a + seq![DOT] + b + seq![DOT] + c + seq![DOT] + d
}

/// Four texts without dots, put together with dots between, are the four
/// pieces between the dots.
pub proof fn lemma_dotted_fields(a: Seq<u8>, b: Seq<u8>, c: Seq<u8>, d: Seq<u8>)
    requires
        free_of(a, DOT),
        free_of(b, DOT),
        free_of(c, DOT),
        free_of(d, DOT),
    ensures
        fields(dotted(a, b, c, d), DOT) == seq![a, b, c, d],
{
    lemma_fields_whole(a, DOT);
    lemma_fields_next(a, b, DOT);
    lemma_fields_next(a + seq![DOT] + b, c, DOT);
    lemma_fields_next(a + seq![DOT] + b + seq![DOT] + c, d, DOT);
    assert(seq![a].push(b).push(c).push(d) =~= seq![a, b, c, d]);
}

/// Four texts of digits with dots between hold no colon and are all ASCII.
pub proof fn lemma_dotted_is_plain(a: Seq<u8>, b: Seq<u8>, c: Seq<u8>, d: Seq<u8>)
    requires
        all_digits(a, 16),
        all_digits(b, 16),
        all_digits(c, 16),
        all_digits(d, 16),
    ensures
        free_of(dotted(a, b, c, d), COLON),
        all_ascii(dotted(a, b, c, d)),
{
    let text = dotted(a, b, c, d);
    lemma_digits_are_plain(a);
    lemma_digits_are_plain(b);
    lemma_digits_are_plain(c);
    lemma_digits_are_plain(d);
    assert forall|i: int| 0 <= i < text.len() implies #[trigger] text[i] != COLON && text[i]
        < 128 by {
        if i < a.len() {
            assert(text[i] == a[i]);
        } else if i == a.len() {
        } else if i < a.len() + 1 + b.len() {
            assert(text[i] == b[i - a.len() - 1]);
        } else if i == a.len() + 1 + b.len() {
        } else if i < a.len() + 1 + b.len() + 1 + c.len() {
            assert(text[i] == c[i - a.len() - 1 - b.len() - 1]);
        } else if i == a.len() + 1 + b.len() + 1 + c.len() {
        } else {
            assert(text[i] == d[i - a.len() - 1 - b.len() - 1 - c.len() - 1]);
        }
    }
}

/// Whether every byte of `s` is ASCII.
pub open spec fn all_ascii(s: Seq<u8>) -> bool {
    forall|i: int| 0 <= i < s.len() ==> #[trigger] s[i] < 128
}

/// The four octets of a version 4 address stand for that address.
pub proof fn lemma_octets_make_bits(bits: u32)
    ensures
        v4_bits(
            (bits / 0x100_0000) as int,
            (bits / 0x1_0000 % 256) as int,
            (bits / 0x100 % 256) as int,
            (bits % 256) as int,
        ) == bits,
        bits / 0x100_0000 < 256,
{
}

/// The dotted quad of a version 4 address is read back as that address.
#[verifier::rlimit(40)]
pub proof fn law_v4_text_is_read_back(bits: u32)
    ensures
        ipv4_of(v4_text(bits)) == Some(bits),
        free_of(v4_text(bits), COLON),
        all_ascii(v4_text(bits)),
{
    lemma_octets_make_bits(bits);
    let a = (bits / 0x100_0000) as u8;
    let b = (bits / 0x1_0000 % 256) as u8;
    let c = (bits / 0x100 % 256) as u8;
    let d = (bits % 256) as u8;
    let ta = decimal(a as nat);
    let tb = decimal(b as nat);
    let tc = decimal(c as nat);
    let td = decimal(d as nat);
    assert(v4_text(bits) == dotted(ta, tb, tc, td));
    assert(octet_of(ta) == Some(a) && free_of(ta, DOT) && all_digits(ta, 16)) by {
        lemma_octet_is_read_back(a);
        lemma_decimal(a as nat);
    }
    assert(octet_of(tb) == Some(b) && free_of(tb, DOT) && all_digits(tb, 16)) by {
        lemma_octet_is_read_back(b);
        lemma_decimal(b as nat);
    }
    assert(octet_of(tc) == Some(c) && free_of(tc, DOT) && all_digits(tc, 16)) by {
        lemma_octet_is_read_back(c);
        lemma_decimal(c as nat);
    }
    assert(octet_of(td) == Some(d) && free_of(td, DOT) && all_digits(td, 16)) by {
        lemma_octet_is_read_back(d);
        lemma_decimal(d as nat);
    }
    lemma_dotted_fields(ta, tb, tc, td);
    lemma_dotted_is_plain(ta, tb, tc, td);
}

/// The lowest `n` groups are `n` groups.
pub proof fn lemma_low_groups_len(bits: u128, n: nat)
    ensures
        low_groups(bits, n).len() == n,
    decreases n,
{
    if n > 0 {
        lemma_low_groups_len(bits / 65536, (n - 1) as nat);
    }
}

/// The eight groups of an address stand for that address.
pub proof fn lemma_groups_make_bits(bits: u128)
    ensures
        low_groups(bits, 8).len() == 8,
        v6_bits(low_groups(bits, 8)) == bits,
{
    lemma_low_groups_len(bits, 8);
    let b7 = bits;
    let b6 = b7 / 65536;
    let b5 = b6 / 65536;
    let b4 = b5 / 65536;
    let b3 = b4 / 65536;
    let b2 = b3 / 65536;
    let b1 = b2 / 65536;
    let b0 = b1 / 65536;
    lemma_low_groups_len(b6, 7);
    lemma_low_groups_len(b5, 6);
    lemma_low_groups_len(b4, 5);
    lemma_low_groups_len(b3, 4);
    lemma_low_groups_len(b2, 3);
    lemma_low_groups_len(b1, 2);
    lemma_low_groups_len(b0, 1);
    let g = low_groups(bits, 8);
    assert(low_groups(b0 / 65536, 0) =~= Seq::<u16>::empty());
    assert(low_groups(b0, 1) =~= seq![(b0 % 65536) as u16]);
    assert(low_groups(b1, 2) == low_groups(b0, 1).push((b1 % 65536) as u16));
    assert(low_groups(b2, 3) == low_groups(b1, 2).push((b2 % 65536) as u16));
    assert(low_groups(b3, 4) == low_groups(b2, 3).push((b3 % 65536) as u16));
    assert(low_groups(b4, 5) == low_groups(b3, 4).push((b4 % 65536) as u16));
    assert(low_groups(b5, 6) == low_groups(b4, 5).push((b5 % 65536) as u16));
    assert(low_groups(b6, 7) == low_groups(b5, 6).push((b6 % 65536) as u16));
    assert(g == low_groups(b6, 7).push((b7 % 65536) as u16));
    assert(g[7] == b7 % 65536);
    assert(g[6] == b6 % 65536);
    assert(g[5] == b5 % 65536);
    assert(g[4] == b4 % 65536);
    assert(g[3] == b3 % 65536);
    assert(g[2] == b2 % 65536);
    assert(g[1] == b1 % 65536);
    assert(g[0] == b0 % 65536);
    assert(b0 < 65536);
}

/// Each of the groups `g` in hexadecimal.
pub open spec fn hex_texts(g: Seq<u16>) -> Seq<Seq<u8>> {
    Seq::new(g.len(), |i: int| hexadecimal(g[i] as nat))
}

/// Whether `s` is text such as groups joined by colons are: not empty, with
/// no colon at either end and no two colons in a row, without a dot, and all
/// ASCII.
pub open spec fn is_clean(s: Seq<u8>) -> bool {
    &&& s.len() >= 1
    &&& s[0] != COLON
    &&& s.last() != COLON
    &&& forall|i: int| !#[trigger] is_gap(s, i)
    &&& free_of(s, DOT)
    &&& forall|i: int| 0 <= i < s.len() ==> #[trigger] s[i] < 128
}

/// A group in hexadecimal is read back as that group, and is clean text.
pub proof fn lemma_group_is_read_back(x: u16)
    ensures
        group_of(hexadecimal(x as nat)) == Some(x),
        free_of(hexadecimal(x as nat), COLON),
        ipv4_of(hexadecimal(x as nat)) is None,
        is_clean(hexadecimal(x as nat)),
{
    let h = hexadecimal(x as nat);
    lemma_hexadecimal(x as nat);
    lemma_digits_are_plain(h);
    lemma_fields_whole(h, DOT);
    assert(h.last() == h[h.len() - 1]);
    assert forall|i: int| !is_gap(h, i) by {
        if 0 <= i && i + 1 < h.len() {
            assert(h[i] != COLON);
        }
    }
}

/// Groups joined by colons are clean text, and the pieces between the colons
/// are the groups in hexadecimal.
pub proof fn lemma_joined(g: Seq<u16>)
    requires
        g.len() >= 1,
    ensures
        is_clean(joined(g)),
        fields(joined(g), COLON) == hex_texts(g),
    decreases g.len(),
{
    let text = joined(g);
    let h = hexadecimal(g.last() as nat);
    lemma_group_is_read_back(g.last());
    if g.len() == 1 {
        assert(g[0] == g.last());
        lemma_fields_whole(h, COLON);
        assert(seq![h] =~= hex_texts(g));
    } else {
        let front = joined(g.drop_last());
        lemma_joined(g.drop_last());
        assert(text == front + seq![COLON] + h);
        lemma_fields_next(front, h, COLON);
        assert(fields(front, COLON).push(h) =~= hex_texts(g)) by {
            assert forall|i: int| 0 <= i < g.len() implies fields(front, COLON).push(h)[i]
                == hex_texts(g)[i] by {
                if i < g.len() - 1 {
                    assert(hex_texts(g.drop_last())[i] == hexadecimal(g.drop_last()[i] as nat));
                }
            }
        }
        assert(text[0] == front[0]);
        assert(text.last() == h.last());
        assert(front.last() == front[front.len() - 1]);
        assert forall|i: int| !is_gap(text, i) by {
            if 0 <= i && i + 1 < text.len() {
                if i + 1 < front.len() {
                    assert(!is_gap(front, i));
                    assert(text[i] == front[i] && text[i + 1] == front[i + 1]);
                } else if i + 1 == front.len() {
                    assert(text[i] == front.last());
                } else if i == front.len() {
                    assert(text[i + 1] == h[0]);
                } else {
                    assert(text[i] == h[i - front.len() - 1]);
                }
            }
        }
        assert forall|i: int| 0 <= i < text.len() implies #[trigger] text[i] != DOT && text[i]
            < 128 by {
            if i < front.len() {
                assert(text[i] == front[i]);
            } else if i > front.len() {
                assert(text[i] == h[i - front.len() - 1]);
            }
        }
    }
}

/// Groups joined by colons are read back as those groups, on either side of
/// a `::`; no groups are no text.
pub proof fn lemma_joined_is_read_back(g: Seq<u16>, quad_allowed: bool)
    ensures
        side_groups(joined(g), quad_allowed) == Some(g),
        g.len() >= 1 ==> mixed_groups(fields(joined(g), COLON)) == Some(g),
        g.len() == 0 <==> joined(g).len() == 0,
{
    if g.len() == 0 {
        assert(g =~= Seq::<u16>::empty());
    } else {
        lemma_joined(g);
        let parts = fields(joined(g), COLON);
        assert forall|i: int| 0 <= i < parts.len() implies group_of(#[trigger] parts[i]) == Some(
            g[i],
        ) by {
            lemma_group_is_read_back(g[i]);
        }
        assert(plain_groups(parts)->0 =~= g);
        lemma_group_is_read_back(g.last());
        assert(parts.last() == hexadecimal(g.last() as nat));
    }
}

/// A run of zeros lies within the groups and is all zeros.
pub proof fn lemma_zeros_from(g: Seq<u16>, i: int)
    requires
        0 <= i <= g.len(),
    ensures
        i + zeros_from(g, i) <= g.len(),
        forall|k: int| i <= k < i + zeros_from(g, i) ==> g[k] == 0,
    decreases g.len() - i,
{
    if i < g.len() && g[i] == 0 {
        lemma_zeros_from(g, i + 1);
    }
}

/// The longest run of zeros is a run of zeros within the groups.
pub proof fn lemma_longest_zeros(g: Seq<u16>, i: int)
    requires
        0 <= i <= g.len(),
    ensures
        i <= longest_zeros(g, i).0 <= g.len(),
        longest_zeros(g, i).0 + longest_zeros(g, i).1 <= g.len(),
        forall|k: int|
            longest_zeros(g, i).0 <= k < longest_zeros(g, i).0 + longest_zeros(g, i).1 ==> g[k]
                == 0,
    decreases g.len() - i,
{
    if i < g.len() {
        lemma_longest_zeros(g, i + 1);
        lemma_zeros_from(g, i);
    }
}

/// Text without a dot is no dotted quad.
pub proof fn lemma_no_dot_no_quad(s: Seq<u8>)
    requires
        free_of(s, DOT),
    ensures
        ipv4_of(s) is None,
{
    lemma_fields_whole(s, DOT);
}

/// Whether `s` is nothing or clean text.
pub open spec fn is_side(s: Seq<u8>) -> bool {
    s.len() == 0 || is_clean(s)
}

/// Between two sides joined by `::`, that `::` is the first.
#[verifier::rlimit(40)]
pub proof fn lemma_gap_between(head: Seq<u8>, tail: Seq<u8>)
    requires
        is_side(head),
    ensures
        first_gap(head + seq![COLON, COLON] + tail) == Some(head.len() as int),
        (head + seq![COLON, COLON] + tail).take(head.len() as int) == head,
        (head + seq![COLON, COLON] + tail).skip(head.len() as int + 2) == tail,
{
    let text = head + seq![COLON, COLON] + tail;
    let p = head.len() as int;
    assert(text[p] == COLON && text[p + 1] == COLON);
    assert(is_gap(text, p));
    assert forall|j: int| 0 <= j < p implies !is_gap(text, j) by {
        if j + 1 < p {
            assert(!is_gap(head, j));
            assert(text[j] == head[j] && text[j + 1] == head[j + 1]);
        } else {
            assert(head.last() == head[p - 1]);
            assert(text[j] == head[p - 1]);
        }
    }
    lemma_first_gap(text, p);
    assert(text.take(p) =~= head);
    assert(text.skip(p + 2) =~= tail);
}

/// Two sides joined by `::` hold no dot and are all ASCII if the sides are.
pub proof fn lemma_gapped_is_plain(head: Seq<u8>, tail: Seq<u8>)
    requires
        free_of(head, DOT),
        free_of(tail, DOT),
        all_ascii(head),
        all_ascii(tail),
    ensures
        free_of(head + seq![COLON, COLON] + tail, DOT),
        all_ascii(head + seq![COLON, COLON] + tail),
{
    let text = head + seq![COLON, COLON] + tail;
    let p = head.len() as int;
    assert forall|i: int| 0 <= i < text.len() implies #[trigger] text[i] != DOT && text[i]
        < 128 by {
        if i < p {
            assert(text[i] == head[i]);
        } else if i >= p + 2 {
            assert(text[i] == tail[i - p - 2]);
        }
    }
}

/// The text of two sides of groups with `::` between.
pub open spec fn gapped_text(left: Seq<u16>, right: Seq<u16>) -> Seq<u8> {
    joined(left) + seq![COLON, COLON] + joined(right)
}

/// In the text of two sides of groups, the `::` between them is the first;
/// the text holds no dot and is all ASCII.
#[verifier::rlimit(40)]
pub proof fn lemma_gapped_text(left: Seq<u16>, right: Seq<u16>)
    ensures
        first_gap(gapped_text(left, right)) == Some(joined(left).len() as int),
        gapped_text(left, right).take(joined(left).len() as int) == joined(left),
        gapped_text(left, right).skip(joined(left).len() as int + 2) == joined(right),
        free_of(gapped_text(left, right), DOT),
        all_ascii(gapped_text(left, right)),
{
    let head = joined(left);
    let tail = joined(right);
    assert(is_side(head) && free_of(head, DOT) && all_ascii(head)) by {
        if left.len() >= 1 {
            lemma_joined(left);
        }
    }
    assert(free_of(tail, DOT) && all_ascii(tail)) by {
        if right.len() >= 1 {
            lemma_joined(right);
        }
    }
    assert(first_gap(head + seq![COLON, COLON] + tail) == Some(head.len() as int) && (head
        + seq![COLON, COLON] + tail).take(head.len() as int) == head && (head + seq![COLON, COLON]
        + tail).skip(head.len() as int + 2) == tail) by {
        lemma_gap_between(head, tail);
    }
    assert(free_of(head + seq![COLON, COLON] + tail, DOT) && all_ascii(
        head + seq![COLON, COLON] + tail,
    )) by {
        lemma_gapped_is_plain(head, tail);
    }
}

/// Two sides joined by `::` are read back as the groups of the left side,
/// zeros up to eight groups, and the groups of the right side.
#[verifier::rlimit(40)]
pub proof fn lemma_gapped_is_read_back(left: Seq<u16>, right: Seq<u16>)
    requires
        left.len() + right.len() <= 7,
    ensures
        ipv6_groups(gapped_text(left, right)) == Some(
            left + zero_groups((8 - left.len() - right.len()) as nat) + right,
        ),
        ipv4_of(gapped_text(left, right)) is None,
        all_ascii(gapped_text(left, right)),
{
    let text = gapped_text(left, right);
    let p = joined(left).len() as int;
    lemma_gapped_text(left, right);
    lemma_no_dot_no_quad(text);
    assert(side_groups(text.take(p), false) == Some(left)) by {
        lemma_joined_is_read_back(left, false);
    }
    assert(side_groups(text.skip(p + 2), true) == Some(right)) by {
        lemma_joined_is_read_back(right, true);
    }
    assert(ipv6_groups(text) == gapped_groups(text, p));
}

/// The text `ffff`.
pub open spec fn all_ones() -> Seq<u8> {
    seq![0x66u8, 0x66u8, 0x66u8, 0x66u8]
}

/// Text that begins with a colon and then holds no dot, put before a dotted
/// quad, makes no dotted quad.
pub proof fn lemma_lead_spoils_quad(lead: Seq<u8>, bits: u32)
    requires
        lead.len() >= 1,
        lead[0] == COLON,
        free_of(lead, DOT),
    ensures
        ipv4_of(lead + v4_text(bits)) is None,
{
    let ta = decimal((bits / 0x100_0000) as nat);
    let tb = decimal((bits / 0x1_0000 % 256) as nat);
    let tc = decimal((bits / 0x100 % 256) as nat);
    let td = decimal((bits % 256) as nat);
    lemma_decimal((bits / 0x100_0000) as nat);
    lemma_decimal((bits / 0x1_0000 % 256) as nat);
    lemma_decimal((bits / 0x100 % 256) as nat);
    lemma_decimal((bits % 256) as nat);
    lemma_digits_are_plain(ta);
    lemma_digits_are_plain(tb);
    lemma_digits_are_plain(tc);
    lemma_digits_are_plain(td);
    let first = lead + ta;
    assert(free_of(first, DOT)) by {
        assert forall|i: int| 0 <= i < first.len() implies #[trigger] first[i] != DOT by {
            if i < lead.len() {
                assert(first[i] == lead[i]);
            } else {
                assert(first[i] == ta[i - lead.len()]);
            }
        }
    }
    let text = lead + v4_text(bits);
    assert(text =~= first + seq![DOT] + tb + seq![DOT] + tc + seq![DOT] + td);
    lemma_fields_whole(first, DOT);
    lemma_fields_next(first, tb, DOT);
    lemma_fields_next(first + seq![DOT] + tb, tc, DOT);
    lemma_fields_next(first + seq![DOT] + tb + seq![DOT] + tc, td, DOT);
    assert(fields(text, DOT)[0] == first);
    assert(first[0] == COLON);
    assert(digit_of(first[0]) == 16);
    assert(!all_digits(first, 10));
}

/// The text of a mapped version 4 address after its `::`, for the dotted
/// quad `q`.
pub open spec fn mapped_tail(q: Seq<u8>) -> Seq<u8> {
    all_ones() + seq![COLON] + q
}

/// `ffff` is the group of all ones.
pub proof fn lemma_all_ones()
    ensures
        all_ones() == hexadecimal(0xffff),
        free_of(all_ones(), COLON),
        free_of(all_ones(), DOT),
        group_of(all_ones()) == Some(0xffffu16),
{
    assert(all_ones() =~= hexadecimal(0xffff)) by {
        reveal_with_fuel(hexadecimal, 5);
    }
    lemma_group_is_read_back(0xffffu16);
    lemma_hexadecimal(0xffff);
    lemma_digits_are_plain(all_ones());
}

/// After the `::` of a mapped version 4 address stand three groups: `ffff`
/// and the two halves of the quad.
#[verifier::rlimit(40)]
pub proof fn lemma_mapped_tail(q: Seq<u8>, quad: u32)
    requires
        ipv4_of(q) == Some(quad),
        free_of(q, COLON),
    ensures
        side_groups(mapped_tail(q), true) == Some(
            seq![0xffffu16, (quad / 65536) as u16, (quad % 65536) as u16],
        ),
{
    let tail = mapped_tail(q);
    lemma_all_ones();
    assert(fields(tail, COLON) == seq![all_ones(), q]) by {
        lemma_fields_whole(all_ones(), COLON);
        lemma_fields_next(all_ones(), q, COLON);
        assert(seq![all_ones()].push(q) =~= seq![all_ones(), q]);
    }
    let parts = fields(tail, COLON);
    assert(parts.last() == q);
    assert(parts.drop_last() =~= seq![all_ones()]);
    assert(plain_groups(parts.drop_last()) == Some(seq![0xffffu16])) by {
        assert(plain_groups(parts.drop_last())->0 =~= seq![0xffffu16]);
    }
    assert(seq![0xffffu16].push((quad / 65536) as u16).push((quad % 65536) as u16)
        =~= seq![0xffffu16, (quad / 65536) as u16, (quad % 65536) as u16]);
}

/// The text of a mapped version 4 address is ASCII and no dotted quad.
pub proof fn lemma_mapped_is_plain(quad: u32)
    ensures
        ipv4_of(seq![COLON, COLON] + mapped_tail(v4_text(quad))) is None,
        all_ascii(seq![COLON, COLON] + mapped_tail(v4_text(quad))),
{
    let q = v4_text(quad);
    let text = seq![COLON, COLON] + mapped_tail(q);
    let lead = seq![COLON, COLON] + all_ones() + seq![COLON];
    law_v4_text_is_read_back(quad);
    assert(text =~= lead + q);
    assert(free_of(lead, DOT)) by {
        assert forall|i: int| 0 <= i < lead.len() implies #[trigger] lead[i] != DOT by {}
    }
    lemma_lead_spoils_quad(lead, quad);
    assert(all_ascii(text)) by {
        assert forall|i: int| 0 <= i < text.len() implies #[trigger] text[i] < 128 by {
            if i >= 7 {
                assert(text[i] == q[i - 7]);
            }
        }
    }
}

/// What is read from a text whose first `::` and whose two sides are known.
pub proof fn lemma_gapped_groups(text: Seq<u8>, p: int, left: Seq<u16>, right: Seq<u16>)
    requires
        first_gap(text) == Some(p),
        side_groups(text.take(p), false) == Some(left),
        side_groups(text.skip(p + 2), true) == Some(right),
        left.len() + right.len() <= 7,
    ensures
        ipv6_groups(text) == Some(
            left + zero_groups((8 - left.len() - right.len()) as nat) + right,
        ),
{
    assert(ipv6_groups(text) == gapped_groups(text, p));
}

/// The groups of a mapped version 4 address.
pub open spec fn mapped_groups(quad: u32) -> Seq<u16> {
    seq![
        0u16,
        0u16,
        0u16,
        0u16,
        0u16,
        0xffffu16,
        (quad / 65536) as u16,
        (quad % 65536) as u16,
    ]
}

/// A text that begins with `::` is read as zeros and then the groups after
/// the `::`.
#[verifier::rlimit(40)]
pub proof fn lemma_leading_gap(tail: Seq<u8>, right: Seq<u16>)
    requires
        side_groups(tail, true) == Some(right),
        right.len() <= 7,
    ensures
        ipv6_groups(seq![COLON, COLON] + tail) == Some(
            zero_groups((8 - right.len()) as nat) + right,
        ),
{
    let text = seq![COLON, COLON] + tail;
    let e = Seq::<u8>::empty();
    let none = Seq::<u16>::empty();
    assert(first_gap(text) == Some(0int) && text.take(0) == e && text.skip(2) == tail) by {
        lemma_gap_between(e, tail);
        assert(e + seq![COLON, COLON] + tail =~= text);
    }
    assert(side_groups(e, false) == Some(none));
    lemma_gapped_groups(text, 0, none, right);
    assert(none + zero_groups((8 - right.len()) as nat) + right =~= zero_groups((8 - right.len()) as nat) + right);
}

/// Five zeros and three groups are the groups of a mapped address.
pub proof fn lemma_mapped_groups(quad: u32)
    ensures
        zero_groups(5) + seq![
            0xffffu16,
            (quad / 65536) as u16,
            (quad % 65536) as u16,
        ] == mapped_groups(quad),
{
    let three = seq![0xffffu16, (quad / 65536) as u16, (quad % 65536) as u16];
    let zeros = zero_groups(5);
    assert(zeros + three =~= mapped_groups(quad));
}

/// A mapped version 4 address in text, `::ffff:` and a dotted quad, is read
/// back as five zero groups, `ffff`, and the two halves of the quad.
#[verifier::rlimit(40)]
pub proof fn lemma_mapped_is_read_back(q: Seq<u8>, quad: u32)
    requires
        ipv4_of(q) == Some(quad),
        free_of(q, COLON),
    ensures
        ipv6_groups(seq![COLON, COLON] + mapped_tail(q)) == Some(mapped_groups(quad)),
{
    let three = seq![0xffffu16, (quad / 65536) as u16, (quad % 65536) as u16];
    assert(side_groups(mapped_tail(q), true) == Some(three)) by {
        lemma_mapped_tail(q, quad);
    }
    assert(ipv6_groups(seq![COLON, COLON] + mapped_tail(q)) == Some(
        zero_groups(5) + three,
    )) by {
        lemma_leading_gap(mapped_tail(q), three);
        assert(zero_groups((8 - three.len()) as nat) =~= zero_groups(5));
    }
    lemma_mapped_groups(quad);
}

/// Eight groups joined by colons are read back as those groups.
pub proof fn lemma_full_is_read_back(g: Seq<u16>)
    requires
        g.len() == 8,
    ensures
        ipv6_groups(joined(g)) == Some(g),
        ipv4_of(joined(g)) is None,
        all_ascii(joined(g)),
{
    let text = joined(g);
    assert(first_gap(text) is None && free_of(text, DOT) && all_ascii(text)) by {
        lemma_joined(g);
    }
    assert(mixed_groups(fields(text, COLON)) == Some(g)) by {
        lemma_joined_is_read_back(g, true);
    }
    lemma_no_dot_no_quad(text);
    assert(ipv6_groups(text) == full_groups(text));
}

/// Groups with a run of zeros are what stands before the run, as many zeros,
/// and what stands after it.
pub proof fn lemma_run_fills(g: Seq<u16>, start: int, len: int)
    requires
        0 <= start,
        0 <= len,
        start + len <= g.len(),
        forall|k: int| start <= k < start + len ==> g[k] == 0,
    ensures
        g.take(start) + zero_groups(len as nat) + g.skip(start + len) == g,
        g.take(start).len() == start,
        g.skip(start + len).len() == g.len() - start - len,
{
    let whole = g.take(start) + zero_groups(len as nat) + g.skip(start + len);
    assert(whole.len() == g.len());
    assert forall|i: int| 0 <= i < g.len() implies whole[i] == g[i] by {
        if i < start {
            assert(whole[i] == g.take(start)[i]);
        } else if i < start + len {
            assert(whole[i] == zero_groups(len as nat)[i - start]);
        } else {
            assert(whole[i] == g.skip(start + len)[i - start - len]);
        }
    }
    assert(whole =~= g);
}

/// Eight groups written with a run of zeros left out are read back as those
/// groups.
#[verifier::rlimit(40)]
pub proof fn lemma_compressed_is_read_back(g: Seq<u16>, start: int, len: int)
    requires
        g.len() == 8,
        0 <= start,
        1 <= len,
        start + len <= 8,
        forall|k: int| start <= k < start + len ==> g[k] == 0,
    ensures
        ipv6_groups(gapped_text(g.take(start), g.skip(start + len))) == Some(g),
        ipv4_of(gapped_text(g.take(start), g.skip(start + len))) is None,
        all_ascii(gapped_text(g.take(start), g.skip(start + len))),
{
    let left = g.take(start);
    let right = g.skip(start + len);
    let text = gapped_text(left, right);
    assert(left + zero_groups(len as nat) + right == g && left.len() == start && right.len() == 8
        - start - len) by {
        lemma_run_fills(g, start, len);
    }
    assert(ipv6_groups(text) == Some(left + zero_groups(len as nat) + right) && ipv4_of(text)
        is None && all_ascii(text)) by {
        lemma_gapped_is_read_back(left, right);
        assert((8 - left.len() - right.len()) as nat == len as nat);
    }
}

/// The groups of a mapped address stand for `ffff` above its lowest 32 bits.
pub proof fn lemma_mapped_bits(bits: u128)
    requires
        is_mapped(low_groups(bits, 8)),
    ensures
        v6_bits(mapped_groups((bits % 0x1_0000_0000) as u32)) == bits,
{
    lemma_groups_make_bits(bits);
    let g = low_groups(bits, 8);
    let low = (bits % 0x1_0000_0000) as u32;
    assert(bits == (0xffff * 65536 + g[6]) * 65536 + g[7]);
    assert(low == g[6] * 65536 + g[7]);
    let m = mapped_groups(low);
    assert(m[5] == 0xffff && m[6] == low / 65536 && m[7] == low % 65536);
    assert(m[0] == 0 && m[1] == 0 && m[2] == 0 && m[3] == 0 && m[4] == 0);
}

/// What is read back from the text of a version 6 address, if the groups
/// that its text writes are known.
pub proof fn lemma_groups_decide(bits: u128, text: Seq<u8>, g: Seq<u16>)
    requires
        ipv6_groups(text) == Some(g),
        v6_bits(g) == bits,
    ensures
        ipv6_of(text) == Some(bits),
{
}

/// The text of a mapped address is `::ffff:` and the dotted quad of its
/// lowest 32 bits.
pub proof fn lemma_v6_text_mapped(bits: u128)
    requires
        is_mapped(low_groups(bits, 8)),
    ensures
        v6_text(bits) == seq![COLON, COLON] + mapped_tail(
            v4_text((bits % 0x1_0000_0000) as u32),
        ),
{
    reveal(v6_text);
    let q = v4_text((bits % 0x1_0000_0000) as u32);
    assert(seq![COLON, COLON, 0x66u8, 0x66u8, 0x66u8, 0x66u8, COLON] + q =~= seq![COLON, COLON]
        + mapped_tail(q));
}

/// The text of an address that is not mapped and has a run of two zero
/// groups or more leaves the longest run out.
pub proof fn lemma_v6_text_compressed(bits: u128)
    requires
        !is_mapped(low_groups(bits, 8)),
        longest_zeros(low_groups(bits, 8), 0).1 >= 2,
    ensures
        v6_text(bits) == gapped_text(
            low_groups(bits, 8).take(longest_zeros(low_groups(bits, 8), 0).0),
            low_groups(bits, 8).skip(
                longest_zeros(low_groups(bits, 8), 0).0 + longest_zeros(low_groups(bits, 8), 0).1,
            ),
        ),
{
    reveal(v6_text);
}

/// The text of an address that is not mapped and has no two zero groups in a
/// row writes all its groups.
pub proof fn lemma_v6_text_full(bits: u128)
    requires
        !is_mapped(low_groups(bits, 8)),
        longest_zeros(low_groups(bits, 8), 0).1 < 2,
    ensures
        v6_text(bits) == joined(low_groups(bits, 8)),
{
    reveal(v6_text);
}

/// Whether `text` is read back as the version 6 address `bits`, and not as
/// an address of version 4, and is all ASCII.
#[verifier::opaque]
pub open spec fn is_read_back(text: Seq<u8>, bits: u128) -> bool {
    ipv6_of(text) == Some(bits) && ipv4_of(text) is None && all_ascii(text)
}

/// `::ffff:` and the dotted quad of the lowest 32 bits of a mapped address
/// are read back as that address.
#[verifier::rlimit(40)]
pub proof fn lemma_mapped_text_is_read_back(bits: u128, low: u32)
    requires
        is_mapped(low_groups(bits, 8)),
        low == bits % 0x1_0000_0000,
    ensures
        is_read_back(seq![COLON, COLON] + mapped_tail(v4_text(low)), bits),
{
    reveal(is_read_back);
    let q = v4_text(low);
    let text = seq![COLON, COLON] + mapped_tail(q);
    assert(ipv6_groups(text) == Some(mapped_groups(low))) by {
        law_v4_text_is_read_back(low);
        lemma_mapped_is_read_back(q, low);
    }
    assert(ipv4_of(text) is None && all_ascii(text)) by {
        lemma_mapped_is_plain(low);
    }
    assert(v6_bits(mapped_groups(low)) == bits) by {
        lemma_mapped_bits(bits);
    }
    lemma_groups_decide(bits, text, mapped_groups(low));
}

/// The groups of an address, written with a run of zeros left out, are read
/// back as that address.
pub proof fn lemma_compressed_text_is_read_back(bits: u128, start: int, len: int)
    requires
        0 <= start,
        1 <= len,
        start + len <= 8,
        forall|k: int| start <= k < start + len ==> low_groups(bits, 8)[k] == 0,
    ensures
        is_read_back(
            gapped_text(low_groups(bits, 8).take(start), low_groups(bits, 8).skip(start + len)),
            bits,
        ),
{
    reveal(is_read_back);
    let g = low_groups(bits, 8);
    let text = gapped_text(g.take(start), g.skip(start + len));
    assert(g.len() == 8 && v6_bits(g) == bits) by {
        lemma_groups_make_bits(bits);
    }
    assert(ipv6_groups(text) == Some(g) && ipv4_of(text) is None && all_ascii(text)) by {
        lemma_compressed_is_read_back(g, start, len);
    }
    lemma_groups_decide(bits, text, g);
}

/// The groups of an address, all written, are read back as that address.
pub proof fn lemma_full_text_is_read_back(bits: u128)
    ensures
        is_read_back(joined(low_groups(bits, 8)), bits),
{
    reveal(is_read_back);
    let g = low_groups(bits, 8);
    let text = joined(g);
    assert(g.len() == 8 && v6_bits(g) == bits) by {
        lemma_groups_make_bits(bits);
    }
    assert(ipv6_groups(text) == Some(g) && ipv4_of(text) is None && all_ascii(text)) by {
        lemma_full_is_read_back(g);
    }
    lemma_groups_decide(bits, text, g);
}

/// The text of a version 6 address, whatever its form, is read back.
#[verifier::rlimit(40)]
pub proof fn lemma_v6_text_is_read_back(bits: u128)
    ensures
        is_read_back(v6_text(bits), bits),
{
    let g = low_groups(bits, 8);
    let run = longest_zeros(g, 0);
    if is_mapped(g) {
        lemma_v6_text_mapped(bits);
        lemma_mapped_text_is_read_back(bits, (bits % 0x1_0000_0000) as u32);
    } else if run.1 >= 2 {
        lemma_v6_text_compressed(bits);
        assert(g.len() == 8) by {
            lemma_low_groups_len(bits, 8);
        }
        lemma_longest_zeros(g, 0);
        lemma_compressed_text_is_read_back(bits, run.0, run.1 as int);
    } else {
        lemma_v6_text_full(bits);
        lemma_full_text_is_read_back(bits);
    }
}

/// The text of a version 6 address is read back as that address, and not as
/// one of version 4.
pub proof fn law_v6_text_is_read_back(bits: u128)
    ensures
        ipv6_of(v6_text(bits)) == Some(bits),
        ipv4_of(v6_text(bits)) is None,
        all_ascii(v6_text(bits)),
{
    lemma_v6_text_is_read_back(bits);
    reveal(is_read_back);
}

/// The text of an address is read back as that address.
pub proof fn law_text_is_read_back(ip: IpAddress)
    ensures
        ip_of(ip_text(ip)) == Some(ip),
        ip_of_text(ip.spec_text()) == Some(ip),
{
    let bytes = ip_text(ip);
    match ip {
        IpAddress::V4(bits) => {
            law_v4_text_is_read_back(bits);
        },
        IpAddress::V6(bits) => {
            law_v6_text_is_read_back(bits);
        },
    }
    assert(all_ascii(bytes));
    let chars = chars_of(bytes);
    assert(vstd::utf8::is_ascii_chars(chars)) by {
        assert forall|i: int| 0 <= i < chars.len() implies '\0' <= #[trigger] chars[i]
            <= '\u{7f}' by {
            assert(bytes[i] < 128);
        }
    }
    assert(ascii_bytes(chars) =~= bytes) by {
        assert forall|i: int| 0 <= i < bytes.len() implies ascii_bytes(chars)[i] == bytes[i] by {
            assert(bytes[i] < 128);
        }
    }
}

} // verus!
