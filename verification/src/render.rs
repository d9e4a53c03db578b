//! Addresses written out as text, in the form that parsing reads back.

use crate::address::IpAddress;
use crate::text::COLON;
use crate::text::DOT;
use vstd::prelude::*;
use vstd::string::StringExecFns;

verus! {

/// The character that writes the digit `d`, lower case above nine.
pub open spec fn digit_byte(d: nat) -> u8 {
    if d < 10 {
        (0x30 + d) as u8
    } else {
        (0x61 + d - 10) as u8
    }
}

/// The number `n` written in decimal without leading zeros; zero is `0`.
pub open spec fn decimal(n: nat) -> Seq<u8>
    decreases n,
{
    if n < 10 {
        seq![digit_byte(n)]
    } else {
        decimal(n / 10).push(digit_byte(n % 10))
    }
}

/// The number `n` written in hexadecimal, in lower case and without leading
/// zeros; zero is `0`.
pub open spec fn hexadecimal(n: nat) -> Seq<u8>
    decreases n,
{
    if n < 16 {
        seq![digit_byte(n)]
    } else {
        hexadecimal(n / 16).push(digit_byte(n % 16))
    }
}

/// The dotted quad of a version 4 address: its four octets in decimal, the
/// highest first.
pub open spec fn v4_text(bits: u32) -> Seq<u8> {
    decimal((bits / 0x100_0000) as nat) + seq![DOT] + decimal((bits / 0x1_0000 % 256) as nat)
        + seq![DOT] + decimal((bits / 0x100 % 256) as nat) + seq![DOT] + decimal(
        (bits % 256) as nat,
    )
}

/// The lowest `n` groups of `bits`, the highest of them first.
pub open spec fn low_groups(bits: u128, n: nat) -> Seq<u16>
    decreases n,
{
    if n == 0 {
        Seq::<u16>::empty()
    } else {
        low_groups(bits / 65536, (n - 1) as nat).push((bits % 65536) as u16)
    }
}

/// How many zero groups follow each other in `g` from index `i` on.
pub open spec fn zeros_from(g: Seq<u16>, i: int) -> nat
    decreases g.len() - i,
{
    if 0 <= i < g.len() && g[i] == 0 {
        1 + zeros_from(g, i + 1)
    } else {
        0
    }
}

/// The longest run of zero groups that begins in `g` at index `i` or later,
/// as its first index and its length; of two runs of one length the earlier.
/// Where there is no zero group the length is 0.
pub open spec fn longest_zeros(g: Seq<u16>, i: int) -> (int, nat)
    decreases g.len() - i,
{
    if 0 <= i < g.len() {
        let later = longest_zeros(g, i + 1);
        if zeros_from(g, i) > 0 && zeros_from(g, i) >= later.1 {
            (i, zeros_from(g, i))
        } else {
            later
        }
    } else {
        (i, 0)
    }
}

/// The groups `g` in hexadecimal with a colon between each two.
pub open spec fn joined(g: Seq<u16>) -> Seq<u8>
    decreases g.len(),
{
    if g.len() == 0 {
        Seq::<u8>::empty()
    } else if g.len() == 1 {
        hexadecimal(g[0] as nat)
    } else {
        joined(g.drop_last()) + seq![COLON] + hexadecimal(g.last() as nat)
    }
}

/// Whether `g` are the groups of a version 4 address mapped into version 6:
/// five zero groups, `ffff`, and the address.
pub open spec fn is_mapped(g: Seq<u16>) -> bool {
    g.len() == 8 && g[0] == 0 && g[1] == 0 && g[2] == 0 && g[3] == 0 && g[4] == 0 && g[5]
        == 0xffff
}

/// The text of a version 6 address.
///
/// A mapped version 4 address is written as `::ffff:` and its dotted quad.
/// Any other address is written as its groups in hexadecimal with colons
/// between; if it has two zero groups or more in a row, the longest such run,
/// the first of the longest, is left out and marked by `::`.
#[verifier::opaque]
pub open spec fn v6_text(bits: u128) -> Seq<u8> {
    let g = low_groups(bits, 8);
    let run = longest_zeros(g, 0);
    if is_mapped(g) {
        seq![COLON, COLON, 0x66u8, 0x66u8, 0x66u8, 0x66u8, COLON] + v4_text(
            (bits % 0x1_0000_0000) as u32,
        )
    } else if run.1 >= 2 {
        joined(g.take(run.0)) + seq![COLON, COLON] + joined(g.skip(run.0 + run.1))
    } else {
        joined(g)
    }
}

/// The text of an address, as bytes.
pub open spec fn ip_text(ip: IpAddress) -> Seq<u8> {
    match ip {
        IpAddress::V4(bits) => v4_text(bits),
        IpAddress::V6(bits) => v6_text(bits),
    }
}

/// The characters of a text given as ASCII bytes.
pub open spec fn chars_of(bytes: Seq<u8>) -> Seq<char> {
    Seq::new(bytes.len(), |i: int| bytes[i] as char)
}

/// The text of one digit.
fn digit_text(d: u32) -> (text: &'static str)
    requires
        d < 16,
    ensures
        text@ == chars_of(seq![digit_byte(d as nat)]),
{
    proof {
        reveal_strlit("0");
        reveal_strlit("1");
        reveal_strlit("2");
        reveal_strlit("3");
        reveal_strlit("4");
        reveal_strlit("5");
        reveal_strlit("6");
        reveal_strlit("7");
        reveal_strlit("8");
        reveal_strlit("9");
        reveal_strlit("a");
        reveal_strlit("b");
        reveal_strlit("c");
        reveal_strlit("d");
        reveal_strlit("e");
        reveal_strlit("f");
    }
    let text = if d == 0 {
        "0"
    } else if d == 1 {
        "1"
    } else if d == 2 {
        "2"
    } else if d == 3 {
        "3"
    } else if d == 4 {
        "4"
    } else if d == 5 {
        "5"
    } else if d == 6 {
        "6"
    } else if d == 7 {
        "7"
    } else if d == 8 {
        "8"
    } else if d == 9 {
        "9"
    } else if d == 10 {
        "a"
    } else if d == 11 {
        "b"
    } else if d == 12 {
        "c"
    } else if d == 13 {
        "d"
    } else if d == 14 {
        "e"
    } else {
        "f"
    };
    proof {
        assert(text@ =~= chars_of(seq![digit_byte(d as nat)]));
    }
    text
}

/// Writes `n` in decimal at the end of `out`.
fn write_decimal(out: &mut String, n: u32)
    ensures
        final(out)@ == old(out)@ + chars_of(decimal(n as nat)),
    decreases n,
{
    if n >= 10 {
        write_decimal(out, n / 10);
    }
    out.append(digit_text(n % 10));
    proof {
        if n >= 10 {
            assert(chars_of(decimal(n as nat)) =~= chars_of(decimal((n / 10) as nat)) + chars_of(
                seq![digit_byte((n % 10) as nat)],
            ));
        }
        assert(out@ =~= old(out)@ + chars_of(decimal(n as nat)));
    }
}

/// Writes `n` in hexadecimal at the end of `out`.
fn write_hexadecimal(out: &mut String, n: u32)
    ensures
        final(out)@ == old(out)@ + chars_of(hexadecimal(n as nat)),
    decreases n,
{
    if n >= 16 {
        write_hexadecimal(out, n / 16);
    }
    out.append(digit_text(n % 16));
    proof {
        if n >= 16 {
            assert(chars_of(hexadecimal(n as nat)) =~= chars_of(hexadecimal((n / 16) as nat))
                + chars_of(seq![digit_byte((n % 16) as nat)]));
        }
        assert(out@ =~= old(out)@ + chars_of(hexadecimal(n as nat)));
    }
}

/// Writes the dotted quad of `bits` at the end of `out`.
fn write_v4(out: &mut String, bits: u32)
    ensures
        final(out)@ == old(out)@ + chars_of(v4_text(bits)),
{
    proof {
        reveal_strlit(".");
    }
    write_decimal(out, bits / 0x100_0000);
    out.append(".");
    write_decimal(out, bits / 0x1_0000 % 256);
    out.append(".");
    write_decimal(out, bits / 0x100 % 256);
    out.append(".");
    write_decimal(out, bits % 256);
    proof {
        let a = decimal((bits / 0x100_0000) as nat);
        let b = decimal((bits / 0x1_0000 % 256) as nat);
        let c = decimal((bits / 0x100 % 256) as nat);
        let d = decimal((bits % 256) as nat);
        assert("."@ =~= chars_of(seq![DOT]));
        assert(chars_of(v4_text(bits)) =~= chars_of(a) + chars_of(seq![DOT]) + chars_of(b)
            + chars_of(seq![DOT]) + chars_of(c) + chars_of(seq![DOT]) + chars_of(d));
        assert(out@ =~= old(out)@ + chars_of(v4_text(bits)));
    }
}

/// Splits off the lowest `n` groups of `bits`.
fn groups(bits: u128, n: usize) -> (g: Vec<u16>)
    ensures
        g@ == low_groups(bits, n as nat),
        g@.len() == n,
    decreases n,
{
    if n == 0 {
        Vec::new()
    } else {
        let mut g = groups(bits / 65536, n - 1);
        g.push((bits % 65536) as u16);
        g
    }
}

/// Finds the first of the longest runs of zero groups in `g`.
fn longest_run(g: &Vec<u16>) -> (run: (usize, usize))
    ensures
        run.0 == longest_zeros(g@, 0).0,
        run.1 == longest_zeros(g@, 0).1,
        run.0 + run.1 <= g@.len(),
{
    let n: usize = g.len();
    let mut i: usize = n;
    let mut current: usize = 0;
    let mut best: (usize, usize) = (i, 0);
    while i > 0
        invariant
            n == g@.len(),
            i <= n,
            current == zeros_from(g@, i as int),
            best.0 == longest_zeros(g@, i as int).0,
            best.1 == longest_zeros(g@, i as int).1,
            i + current <= n,
            best.0 + best.1 <= n,
        decreases i,
    {
        i = i - 1;
        if g[i] == 0 {
            current = current + 1;
            if current >= best.1 {
                best = (i, current);
            }
        } else {
            current = 0;
        }
    }
    best
}

/// Writes the groups `g[from..to]` with colons between at the end of `out`.
fn write_joined(out: &mut String, g: &Vec<u16>, from: usize, to: usize)
    requires
        from <= to <= g@.len(),
    ensures
        final(out)@ == old(out)@ + chars_of(joined(g@.subrange(from as int, to as int))),
{
    proof {
        reveal_strlit(":");
        assert(g@.subrange(from as int, from as int) =~= Seq::<u16>::empty());
        assert(out@ =~= old(out)@ + chars_of(joined(g@.subrange(from as int, from as int))));
    }
    let mut k: usize = from;
    while k < to
        invariant
            from <= k <= to <= g@.len(),
            out@ == old(out)@ + chars_of(joined(g@.subrange(from as int, k as int))),
        decreases to - k,
    {
        let ghost before = out@;
        let ghost shorter = g@.subrange(from as int, k as int);
        let ghost longer = g@.subrange(from as int, k + 1);
        proof {
            reveal_strlit(":");
            assert(longer.drop_last() =~= shorter);
            assert(longer.last() == g@[k as int]);
            assert(":"@ =~= chars_of(seq![COLON]));
        }
        if k > from {
            out.append(":");
        }
        write_hexadecimal(out, g[k] as u32);
        proof {
            let digits = hexadecimal(g@[k as int] as nat);
            if k > from {
                assert(chars_of(joined(longer)) =~= chars_of(joined(shorter)) + chars_of(
                    seq![COLON],
                ) + chars_of(digits));
            } else {
                assert(shorter.len() == 0);
                assert(joined(longer) == digits);
            }
            assert(out@ =~= old(out)@ + chars_of(joined(longer)));
        }
        k = k + 1;
    }
}

/// Writes the text of the version 6 address `bits` at the end of `out`.
fn write_v6(out: &mut String, bits: u128)
    ensures
        final(out)@ == old(out)@ + chars_of(v6_text(bits)),
{
    let g = groups(bits, 8);
    proof {
        reveal(v6_text);
        reveal_strlit("::ffff:");
        reveal_strlit("::");
    }
    if g[0] == 0 && g[1] == 0 && g[2] == 0 && g[3] == 0 && g[4] == 0 && g[5] == 0xffff {
        out.append("::ffff:");
        write_v4(out, (bits % 0x1_0000_0000) as u32);
        proof {
            let quad = v4_text((bits % 0x1_0000_0000) as u32);
            let lead = seq![COLON, COLON, 0x66u8, 0x66u8, 0x66u8, 0x66u8, COLON];
            assert("::ffff:"@ =~= chars_of(lead));
            assert(chars_of(lead + quad) =~= chars_of(lead) + chars_of(quad));
            assert(out@ =~= old(out)@ + chars_of(v6_text(bits)));
        }
        return ;
    }
    let run = longest_run(&g);
    if run.1 >= 2 {
        write_joined(out, &g, 0, run.0);
        out.append("::");
        write_joined(out, &g, run.0 + run.1, 8);
        proof {
            let head = joined(g@.take(run.0 as int));
            let tail = joined(g@.skip(run.0 + run.1));
            assert(g@.subrange(0, run.0 as int) =~= g@.take(run.0 as int));
            assert(g@.subrange(run.0 + run.1, 8) =~= g@.skip(run.0 + run.1));
            assert("::"@ =~= chars_of(seq![COLON, COLON]));
            assert(chars_of(head + seq![COLON, COLON] + tail) =~= chars_of(head) + chars_of(
                seq![COLON, COLON],
            ) + chars_of(tail));
            assert(out@ =~= old(out)@ + chars_of(v6_text(bits)));
        }
    } else {
        write_joined(out, &g, 0, 8);
        proof {
            assert(g@.subrange(0, 8) =~= g@);
        }
    }
}

impl IpAddress {
    /// The text of the address, as characters.
    pub open spec fn spec_text(self) -> Seq<char> {
        chars_of(ip_text(self))
    }

    /// Writes the address out as text: a dotted quad for version 4, groups
    /// with colons for version 6.
    pub fn to_text(&self) -> (text: String)
        ensures
            text@ == self.spec_text(),
    {
        let mut text = String::new();
        match self {
            IpAddress::V4(bits) => write_v4(&mut text, *bits),
            IpAddress::V6(bits) => write_v6(&mut text, *bits),
        }
        proof {
            assert(Seq::<char>::empty() + self.spec_text() =~= self.spec_text());
        }
        text
    }
}

} // verus!
