//! The index file: UTF-8 text with one decimal byte offset per line, in
//! corpus order; line `n` (from 0) is the offset of game `n`.

use vstd::prelude::*;
use vstd::utf8::encode_utf8;

verus! {

pub open spec fn is_digit(b: u8) -> bool {
    0x30 <= b <= 0x39
}

/// Decimal digits of `v`, most significant first, with no leading zeros.
pub open spec fn decimal(v: nat) -> Seq<u8>
    decreases v,
{
    if v < 10 {
        seq![(0x30 + v) as u8]
    } else {
        decimal(v / 10).push((0x30 + v % 10) as u8)
    }
}

/// Value of a sequence of decimal digits.
pub open spec fn digits_value(d: Seq<u8>) -> nat
    decreases d.len(),
{
    if d.len() == 0 {
        0
    } else {
        digits_value(d.drop_last()) * 10 + (d.last() - 0x30) as nat
    }
}

pub open spec fn all_digits(d: Seq<u8>) -> bool {
    forall|i: int| 0 <= i < d.len() ==> #[trigger] is_digit(d[i])
}

/// An unsigned 64-bit decimal as `u64::from_str` reads it: an optional `+`,
/// then one or more digits whose value fits.
pub open spec fn parse_decimal(t: Seq<u8>) -> Option<u64> {
    let d = if t.len() > 0 && t[0] == 0x2B {
        t.drop_first()
    } else {
        t
    };
    if d.len() > 0 && all_digits(d) && digits_value(d) <= u64::MAX {
        Some(digits_value(d) as u64)
    } else {
        None
    }
}

/// Text of an index file: each offset in decimal, each followed by a newline.
pub open spec fn index_text(offsets: Seq<u64>) -> Seq<u8>
    decreases offsets.len(),
{
    if offsets.len() == 0 {
        Seq::empty()
    } else {
        index_text(offsets.drop_last()) + decimal(offsets.last() as nat) + seq![0x0Au8]
    }
}

proof fn lemma_decimal_digits(v: nat)
    ensures
        decimal(v).len() > 0,
        all_digits(decimal(v)),
        digits_value(decimal(v)) == v,
    decreases v,
{
    let d = decimal(v);
    if v >= 10 {
        lemma_decimal_digits(v / 10);
        assert(d.drop_last() == decimal(v / 10));
        assert forall|i: int| 0 <= i < d.len() implies #[trigger] is_digit(d[i]) by {
            if i < d.len() - 1 {
                assert(d[i] == decimal(v / 10)[i]);
            }
        }
        assert((v / 10) * 10 + v % 10 == v);
        assert(d.last() == (0x30 + v % 10) as u8);
        assert((d.last() - 0x30) as nat == v % 10);
        assert(digits_value(d) == digits_value(d.drop_last()) * 10 + (d.last() - 0x30) as nat);
    } else {
        assert(d.drop_last() =~= Seq::<u8>::empty());
        assert(digits_value(d) == digits_value(d.drop_last()) * 10 + (d.last() - 0x30) as nat);
    }
}

/// Reading back a written offset gives the offset.
pub proof fn lemma_decimal_round_trip(v: u64)
    ensures
        parse_decimal(decimal(v as nat)) == Some(v),
{
    lemma_decimal_digits(v as nat);
    assert(is_digit(decimal(v as nat)[0]));
}

/// The decimal form of an offset.
pub fn render_offset(v: u64) -> (r: Vec<u8>)
    ensures
        r@ == decimal(v as nat),
    decreases v,
{
    if v < 10 {
        let mut r: Vec<u8> = Vec::new();
        r.push(0x30 + v as u8);
        proof {
            assert(r@ =~= decimal(v as nat));
        }
        r
    } else {
        let mut r = render_offset(v / 10);
        r.push(0x30 + (v % 10) as u8);
        r
    }
}

/// The text of the index file for the given offsets.
pub fn render_index(offsets: &Vec<u64>) -> (r: Vec<u8>)
    ensures
        r@ == index_text(offsets@),
{
    let mut r: Vec<u8> = Vec::new();
    let mut i: usize = 0;
    proof {
        assert(offsets@.take(0) =~= Seq::<u64>::empty());
    }
    while i < offsets.len()
        invariant
            i <= offsets.len(),
            r@ == index_text(offsets@.take(i as int)),
        decreases offsets.len() - i,
    {
        let digits = render_offset(offsets[i]);
        let mut j: usize = 0;
        let ghost start = r@;
        while j < digits.len()
            invariant
                j <= digits.len(),
                r@ == start + digits@.take(j as int),
            decreases digits.len() - j,
        {
            proof {
                assert(digits@.take(j + 1) =~= digits@.take(j as int).push(digits@[j as int]));
            }
            r.push(digits[j]);
            j = j + 1;
        }
        r.push(0x0A);
        proof {
            assert(offsets@.take(i + 1).drop_last() =~= offsets@.take(i as int));
            assert(digits@.take(j as int) =~= digits@);
            assert(r@ =~= start + digits@ + seq![0x0Au8]);
        }
        i = i + 1;
    }
    proof {
        assert(offsets@.take(offsets.len() as int) =~= offsets@);
    }
    r
}

/// Reads one line of the index file (without its terminator) as an offset.
pub fn parse_offset(text: &[u8]) -> (r: Option<u64>)
    ensures
        r == parse_decimal(text@),
{
    let mut i: usize = 0;
    if text.len() > 0 && text[0] == 0x2B {
        i = 1;
    }
    let ghost d = text@.skip(i as int);
    proof {
        if i == 1 {
            assert(d =~= text@.drop_first());
        } else {
            assert(d =~= text@);
        }
    }
    if i == text.len() {
        return None;
    }
    let start = i;
    let mut v: u64 = 0;
    while i < text.len()
        invariant
            start <= i <= text.len(),
            start == (if text@.len() > 0 && text@[0] == 0x2B {
                1int
            } else {
                0int
            }),
            d == (if text@.len() > 0 && text@[0] == 0x2B {
                text@.drop_first()
            } else {
                text@
            }),
            d == text@.skip(start as int),
            all_digits(text@.subrange(start as int, i as int)),
            v == digits_value(text@.subrange(start as int, i as int)),
        decreases text.len() - i,
    {
        let b = text[i];
        let ghost pre = text@.subrange(start as int, i as int);
        let ghost next = text@.subrange(start as int, i + 1);
        proof {
            assert(next.drop_last() =~= pre);
            assert(next.last() == b);
        }
        if b < 0x30 || b > 0x39 {
            proof {
                assert(d[i - start] == b);
                assert(!is_digit(d[i - start]));
                assert(!all_digits(d));
                assert(parse_decimal(text@) is None);
            }
            return None;
        }
        let digit = (b - 0x30) as u64;
        if v > (u64::MAX - digit) / 10 {
            proof {
                assert(digits_value(next) > u64::MAX) by (nonlinear_arith)
                    requires
                        v > (u64::MAX - digit) / 10,
                        digits_value(next) == v * 10 + digit,
                        digit <= 9,
                ;
                lemma_digits_value_grows(d, (i + 1 - start) as int);
                assert(d.take(i + 1 - start) =~= next);
                assert forall|k: int| 0 <= k < i + 1 - start implies #[trigger] is_digit(d[k]) by {
                    assert(d[k] == next[k]);
                    if k < i - start {
                        assert(pre[k] == next[k]);
                    }
                }
                assert(!(all_digits(d) && digits_value(d) <= u64::MAX));
                assert(parse_decimal(text@) is None);
            }
            return None;
        }
        proof {
            assert(v * 10 + digit <= u64::MAX) by (nonlinear_arith)
                requires
                    v <= (u64::MAX - digit) / 10,
                    digit <= 9,
            ;
            assert forall|k: int| 0 <= k < next.len() implies #[trigger] is_digit(next[k]) by {
                if k < pre.len() {
                    assert(pre[k] == next[k]);
                }
            }
        }
        v = v * 10 + digit;
        i = i + 1;
    }
    proof {
        assert(text@.subrange(start as int, i as int) =~= d);
    }
    Some(v)
}

/// Among sequences whose first `k` bytes are digits, the value of the whole
/// exceeds `u64::MAX` when the value of that prefix does.
proof fn lemma_digits_value_grows(d: Seq<u8>, k: int)
    requires
        0 <= k <= d.len(),
        forall|i: int| 0 <= i < k ==> #[trigger] is_digit(d[i]),
    ensures
        all_digits(d) ==> digits_value(d) >= digits_value(d.take(k)),
    decreases d.len(),
{
    if all_digits(d) && k < d.len() {
        let p = d.drop_last();
        assert forall|i: int| 0 <= i < p.len() implies #[trigger] is_digit(p[i]) by {
            assert(p[i] == d[i]);
        }
        lemma_digits_value_grows(p, k);
        assert(p.take(k) =~= d.take(k));
    } else if k == d.len() {
        assert(d.take(k) =~= d);
    }
}

/// Error from reading an index file.
#[derive(Clone, Copy, Debug, PartialEq, Eq, Structural)]
pub enum IndexFileError {
    /// The line (from 0) does not hold a decimal offset.
    BadEntry(usize),
}

/// Reads the lines of an index file (without terminators) as offsets; fails
/// at the first line that does not hold one.
pub fn parse_index(lines: &Vec<String>) -> (r: Result<Vec<u64>, IndexFileError>)
    ensures
        match r {
            Ok(v) => v.len() == lines.len() && forall|i: int|
                0 <= i < lines.len() ==> parse_decimal(encode_utf8(lines@[i]@)) == Some(
                    #[trigger] v@[i],
                ),
            Err(IndexFileError::BadEntry(n)) => n < lines.len() && parse_decimal(
                encode_utf8(lines@[n as int]@),
            ) is None && forall|i: int|
                0 <= i < n ==> #[trigger] parse_decimal(encode_utf8(lines@[i]@)) is Some,
        },
{
    let mut v: Vec<u64> = Vec::new();
    let mut i: usize = 0;
    while i < lines.len()
        invariant
            i <= lines.len(),
            v.len() == i,
            forall|j: int|
                0 <= j < i ==> parse_decimal(encode_utf8(lines@[j]@)) == Some(
                    #[trigger] v@[j],
                ),
        decreases lines.len() - i,
    {
        match parse_offset(lines[i].as_str().as_bytes()) {
            Some(o) => v.push(o),
            None => {
                assert forall|j: int| 0 <= j < i implies #[trigger] parse_decimal(
                    encode_utf8(lines@[j]@),
                ) is Some by {
                    assert(parse_decimal(encode_utf8(lines@[j]@)) == Some(v@[j]));
                }
                return Err(IndexFileError::BadEntry(i));
            },
        }
        i = i + 1;
    }
    Ok(v)
}

} // verus!
