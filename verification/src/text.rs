//! ASCII text as bytes: digits, numbers, and pieces between separators.

use vstd::prelude::*;

verus! {

/// `.`
pub const DOT: u8 = 0x2e;

/// `:`
pub const COLON: u8 = 0x3a;

/// `%`
pub const PERCENT: u8 = 0x25;

/// `[`
pub const OPEN_BRACKET: u8 = 0x5b;

/// `]`
pub const CLOSE_BRACKET: u8 = 0x5d;

/// `$`
pub const DOLLAR: u8 = 0x24;

/// `,`
pub const COMMA: u8 = 0x2c;

/// `=`
pub const EQUALS: u8 = 0x3d;

/// What the digit `b` counts for: `0`-`9`, then `a`-`f` or `A`-`F` for ten to
/// fifteen. Any other byte gives 16, which is a digit in no radix used here.
pub open spec fn digit_of(b: u8) -> nat {
    if 0x30 <= b <= 0x39 {
        (b - 0x30) as nat
    } else if 0x61 <= b <= 0x66 {
        (b - 0x61 + 10) as nat
    } else if 0x41 <= b <= 0x46 {
        (b - 0x41 + 10) as nat
    } else {
        16
    }
}

/// Whether every byte of `s` is a digit in `radix`.
pub open spec fn all_digits(s: Seq<u8>, radix: nat) -> bool {
    forall|i: int| 0 <= i < s.len() ==> digit_of(#[trigger] s[i]) < radix
}

/// The number that the digits `s` write in `radix`, most significant first.
pub open spec fn number(s: Seq<u8>, radix: nat) -> nat
    decreases s.len(),
{
    if s.len() == 0 {
        0
    } else {
        number(s.drop_last(), radix) * radix + digit_of(s.last())
    }
}

/// A decimal number of one digit or more, leading zeros allowed, that is at
/// most `max`.
pub open spec fn bounded_decimal(s: Seq<u8>, max: nat) -> Option<nat> {
    if s.len() >= 1 && all_digits(s, 10) && number(s, 10) <= max {
        Some(number(s, 10))
    } else {
        None
    }
}

/// The pieces of `s` between the occurrences of `sep`, in order. There is one
/// piece more than there are separators, so the result is never empty, and a
/// piece is empty where two separators touch or one stands at an end.
pub open spec fn fields(s: Seq<u8>, sep: u8) -> Seq<Seq<u8>>
    decreases s.len(),
{
    if s.len() == 0 {
        seq![Seq::<u8>::empty()]
    } else {
        let before = fields(s.drop_last(), sep);
        if s.last() == sep {
            before.push(Seq::<u8>::empty())
        } else {
            before.drop_last().push(before.last().push(s.last()))
        }
    }
}

/// The pieces of `s` that the index pairs `cuts` mark out.
pub open spec fn pieces(s: Seq<u8>, cuts: Seq<(usize, usize)>) -> Seq<Seq<u8>> {
    Seq::new(cuts.len(), |i: int| s.subrange(cuts[i].0 as int, cuts[i].1 as int))
}

/// Whether every pair of `cuts` is a range inside `from..to`.
pub open spec fn cuts_within(cuts: Seq<(usize, usize)>, from: int, to: int) -> bool {
    forall|i: int|
        0 <= i < cuts.len() ==> from <= (#[trigger] cuts[i]).0 <= cuts[i].1 <= to
}

/// `fields` is never empty.
pub proof fn lemma_fields_nonempty(s: Seq<u8>, sep: u8)
    ensures
        fields(s, sep).len() >= 1,
    decreases s.len(),
{
    if s.len() > 0 {
        lemma_fields_nonempty(s.drop_last(), sep);
    }
}

/// A longer numeral is no smaller than its beginning.
pub proof fn lemma_number_grows(s: Seq<u8>, radix: nat, k: int)
    requires
        0 <= k <= s.len(),
        radix >= 1,
    ensures
        number(s.take(k), radix) <= number(s, radix),
    decreases s.len() - k,
{
    if k < s.len() {
        lemma_number_grows(s, radix, k + 1);
        let longer = s.take(k + 1);
        assert(longer.drop_last() =~= s.take(k));
        assert(number(longer, radix) == number(s.take(k), radix) * radix + digit_of(
            longer.last(),
        ));
        assert(number(s.take(k), radix) * radix >= number(s.take(k), radix))
            by (nonlinear_arith)
            requires
                radix >= 1,
        ;
    } else {
        assert(s.take(k) =~= s);
    }
}

/// Reads the value of one digit, which is 16 for a byte that is none.
pub fn digit(b: u8) -> (d: u32)
    ensures
        d == digit_of(b),
{
    if 0x30 <= b && b <= 0x39 {
        (b - 0x30) as u32
    } else if 0x61 <= b && b <= 0x66 {
        (b - 0x61 + 10) as u32
    } else if 0x41 <= b && b <= 0x46 {
        (b - 0x41 + 10) as u32
    } else {
        16
    }
}

/// Reads `bytes[from..to]` as a number in `radix` of at most `max`.
///
/// Gives `None` if the range is empty, holds a byte that is no digit in
/// `radix`, or writes a number above `max`.
pub fn read_number(bytes: &[u8], from: usize, to: usize, radix: u32, max: u32) -> (r: Option<u32>)
    requires
        from <= to <= bytes@.len(),
        2 <= radix <= 16,
    ensures
        r is Some <==> {
            &&& from < to
            &&& all_digits(bytes@.subrange(from as int, to as int), radix as nat)
            &&& number(bytes@.subrange(from as int, to as int), radix as nat) <= max
        },
        r is Some ==> r->0 == number(bytes@.subrange(from as int, to as int), radix as nat),
{
    if from == to {
        return None;
    }
    let ghost s = bytes@.subrange(from as int, to as int);
    let mut acc: u64 = 0;
    let mut i: usize = from;
    while i < to
        invariant
            from <= i <= to <= bytes@.len(),
            2 <= radix <= 16,
            s == bytes@.subrange(from as int, to as int),
            all_digits(s.take(i - from), radix as nat),
            acc == number(s.take(i - from), radix as nat),
            acc <= max,
        decreases to - i,
    {
        let d: u32 = digit(bytes[i]);
        let ghost longer = s.take(i - from + 1);
        proof {
            assert(longer.drop_last() =~= s.take(i - from));
            assert(longer.last() == bytes@[i as int]);
        }
        if d >= radix {
            proof {
                assert(s[i - from] == bytes@[i as int]);
            }
            return None;
        }
        assert(acc * radix <= 0xffff_ffff * 16) by (nonlinear_arith)
            requires
                acc <= 0xffff_ffff,
                radix <= 16,
        ;
        let next: u64 = acc * (radix as u64) + (d as u64);
        if next > max as u64 {
            proof {
                lemma_number_grows(s, radix as nat, i - from + 1);
            }
            return None;
        }
        proof {
            assert forall|k: int| 0 <= k < longer.len() implies digit_of(#[trigger] longer[k])
                < radix by {
                if k < i - from {
                    assert(longer[k] == s.take(i - from)[k]);
                }
            }
        }
        acc = next;
        i = i + 1;
    }
    proof {
        assert(s.take(to - from) =~= s);
    }
    Some(acc as u32)
}

/// Cuts `bytes[from..to]` at every `sep`.
///
/// The result holds, in order, the index range of each piece: what `fields`
/// gives for that part of `bytes`.
pub fn split(bytes: &[u8], from: usize, to: usize, sep: u8) -> (cuts: Vec<(usize, usize)>)
    requires
        from <= to <= bytes@.len(),
    ensures
        cuts_within(cuts@, from as int, to as int),
        pieces(bytes@, cuts@) == fields(bytes@.subrange(from as int, to as int), sep),
{
    let ghost s = bytes@.subrange(from as int, to as int);
    let mut cuts: Vec<(usize, usize)> = Vec::new();
    let mut begin: usize = from;
    let mut i: usize = from;
    proof {
        assert(s.take(0) =~= Seq::<u8>::empty());
        assert(bytes@.subrange(from as int, from as int) =~= Seq::<u8>::empty());
        assert(pieces(bytes@, cuts@.push((begin, i))) =~= seq![Seq::<u8>::empty()]);
    }
    while i < to
        invariant
            from <= begin <= i <= to <= bytes@.len(),
            s == bytes@.subrange(from as int, to as int),
            cuts_within(cuts@, from as int, to as int),
            pieces(bytes@, cuts@.push((begin, i))) == fields(s.take(i - from), sep),
        decreases to - i,
    {
        let ghost before = fields(s.take(i - from), sep);
        let ghost longer = s.take(i - from + 1);
        proof {
            assert(longer.drop_last() =~= s.take(i - from));
            assert(longer.last() == bytes@[i as int]);
            assert(before.last() == bytes@.subrange(begin as int, i as int));
            assert(before.drop_last() =~= pieces(bytes@, cuts@));
        }
        if bytes[i] == sep {
            cuts.push((begin, i));
            begin = i + 1;
            proof {
                assert(bytes@.subrange(begin as int, begin as int) =~= Seq::<u8>::empty());
                assert(pieces(bytes@, cuts@.push((begin, begin))) =~= before.push(
                    Seq::<u8>::empty(),
                ));
            }
        } else {
            proof {
                assert(bytes@.subrange(begin as int, i + 1) =~= before.last().push(
                    bytes@[i as int],
                ));
                assert(pieces(bytes@, cuts@.push((begin, (i + 1) as usize)))
                    =~= before.drop_last().push(before.last().push(bytes@[i as int])));
            }
        }
        i = i + 1;
    }
    cuts.push((begin, to));
    proof {
        assert(s.take(to - from) =~= s);
    }
    cuts
}

/// Whether `sep` does not occur in `s`.
pub open spec fn free_of(s: Seq<u8>, sep: u8) -> bool {
    forall|i: int| 0 <= i < s.len() ==> #[trigger] s[i] != sep
}

/// Text that follows without a separator in it lengthens the last piece.
pub proof fn lemma_fields_append(x: Seq<u8>, y: Seq<u8>, sep: u8)
    requires
        free_of(y, sep),
    ensures
        fields(x + y, sep) == fields(x, sep).drop_last().push(fields(x, sep).last() + y),
    decreases y.len(),
{
    lemma_fields_nonempty(x, sep);
    if y.len() == 0 {
        assert(x + y =~= x);
        assert(fields(x, sep).last() + y =~= fields(x, sep).last());
        assert(fields(x, sep).drop_last().push(fields(x, sep).last()) =~= fields(x, sep));
    } else {
        let shorter = y.drop_last();
        assert(free_of(shorter, sep)) by {
            assert forall|i: int| 0 <= i < shorter.len() implies #[trigger] shorter[i] != sep by {
                assert(shorter[i] == y[i]);
            }
        }
        lemma_fields_append(x, shorter, sep);
        assert((x + y).drop_last() =~= x + shorter);
        assert((x + y).last() == y.last());
        assert(y.last() == y[y.len() - 1]);
        let before = fields(x + shorter, sep);
        assert(before.last() == fields(x, sep).last() + shorter);
        assert(before.last().push(y.last()) =~= fields(x, sep).last() + y);
        assert(before.drop_last() =~= fields(x, sep).drop_last());
    }
}

/// Text without a separator in it is one piece.
pub proof fn lemma_fields_whole(s: Seq<u8>, sep: u8)
    requires
        free_of(s, sep),
    ensures
        fields(s, sep) == seq![s],
{
    let e = Seq::<u8>::empty();
    lemma_fields_append(e, s, sep);
    assert(e + s =~= s);
    assert(fields(e, sep) =~= seq![e]);
    assert(fields(e, sep).drop_last().push(fields(e, sep).last() + s) =~= seq![s]);
}

/// A separator and text without one in it add one piece: that text.
pub proof fn lemma_fields_next(x: Seq<u8>, y: Seq<u8>, sep: u8)
    requires
        free_of(y, sep),
    ensures
        fields(x + seq![sep] + y, sep) == fields(x, sep).push(y),
{
    let closed = x + seq![sep];
    assert(closed.drop_last() =~= x);
    assert(closed.last() == sep);
    assert(fields(closed, sep) == fields(x, sep).push(Seq::<u8>::empty()));
    lemma_fields_append(closed, y, sep);
    assert(Seq::<u8>::empty() + y =~= y);
    assert(fields(closed, sep).drop_last() =~= fields(x, sep));
}

} // verus!
