//! Decimal numbers in text: writing a `u64` in digits and reading it back
//! the way `str::parse::<u64>` does.

use crate::text::is_ascii_bytes;
use vstd::prelude::*;

verus! {

/// `b` is the ASCII code of a decimal digit.
pub open spec fn is_digit(b: u8) -> bool {
    48 <= b <= 57
}

/// Decimal digits are ASCII.
pub proof fn lemma_digits_ascii(d: Seq<u8>)
    requires
        all_digits(d),
    ensures
        is_ascii_bytes(d),
{
    assert forall|i: int| 0 <= i < d.len() implies #[trigger] d[i] < 128 by {
        assert(is_digit(d[i]));
    }
}

/// Every byte of `d` is a decimal digit.
pub open spec fn all_digits(d: Seq<u8>) -> bool {
    forall|i: int| 0 <= i < d.len() ==> is_digit(#[trigger] d[i])
}

/// The number written by the digits `d`, most significant first.
pub open spec fn digits_value(d: Seq<u8>) -> nat
    decreases d.len(),
{
    if d.len() == 0 {
        0
    } else {
        digits_value(d.drop_last()) * 10 + (d.last() - 48) as nat
    }
}

/// The shortest decimal digits of `n` (a single `0` for zero).
pub open spec fn decimal_digits(n: nat) -> Seq<u8>
    decreases n,
{
    if n < 10 {
        seq![(48 + n) as u8]
    } else {
        decimal_digits(n / 10).push((48 + n % 10) as u8)
    }
}

/// `k` zero digits.
pub open spec fn zeros(k: nat) -> Seq<u8> {
    Seq::new(k, |i: int| 48u8)
}

/// The digits `d`, with zeros in front up to `width` digits.
pub open spec fn zero_padded(d: Seq<u8>, width: nat) -> Seq<u8> {
    if d.len() < width {
        zeros((width - d.len()) as nat) + d
    } else {
        d
    }
}

/// What `str::parse::<u64>` gives for text whose UTF-8 bytes are `b`: an
/// optional `+`, then one or more decimal digits whose value fits in 64 bits.
pub open spec fn parse_u64_spec(b: Seq<u8>) -> Option<u64> {
    let d = if b.len() > 0 && b[0] == 43 {
        b.drop_first()
    } else {
        b
    };
    if d.len() > 0 && all_digits(d) && digits_value(d) <= u64::MAX {
        Some(digits_value(d) as u64)
    } else {
        None
    }
}

/// The digits of `n` are digits, and they read back as `n`.
pub proof fn lemma_decimal_digits(n: nat)
    ensures
        all_digits(decimal_digits(n)),
        digits_value(decimal_digits(n)) == n,
        decimal_digits(n).len() >= 1,
    decreases n,
{
    if n >= 10 {
        lemma_decimal_digits(n / 10);
        let d = decimal_digits(n);
        assert(d.drop_last() =~= decimal_digits(n / 10));
        assert(d.last() == (48 + n % 10) as u8);
        assert(digits_value(d) == digits_value(decimal_digits(n / 10)) * 10 + n % 10);
        assert((n / 10) * 10 + n % 10 == n) by (nonlinear_arith);
    } else {
        let d = decimal_digits(n);
        assert(d.drop_last() =~= Seq::<u8>::empty());
        assert(digits_value(Seq::<u8>::empty()) == 0);
        assert(d.last() == (48 + n) as u8);
        assert(((48 + n) as u8) - 48 == n);
    }
}

/// Leading zeros do not change the value of digits.
pub proof fn lemma_zeros_value(k: nat, d: Seq<u8>)
    ensures
        digits_value(zeros(k) + d) == digits_value(d),
        all_digits(d) ==> all_digits(zeros(k) + d),
    decreases d.len(), k,
{
    if d.len() == 0 {
        assert(zeros(k) + d =~= zeros(k));
        if k > 0 {
            assert(zeros(k).drop_last() =~= zeros((k - 1) as nat));
            lemma_zeros_value((k - 1) as nat, d);
            assert(zeros((k - 1) as nat) + d =~= zeros((k - 1) as nat));
        }
    } else {
        assert((zeros(k) + d).drop_last() =~= zeros(k) + d.drop_last());
        lemma_zeros_value(k, d.drop_last());
    }
}

/// A prefix of digits never reads as more than the whole.
pub proof fn lemma_prefix_value(d: Seq<u8>, i: int)
    requires
        0 <= i <= d.len(),
        all_digits(d),
    ensures
        digits_value(d.take(i)) <= digits_value(d),
    decreases d.len() - i,
{
    if i < d.len() {
        lemma_prefix_value(d, i + 1);
        assert(d.take(i + 1).drop_last() =~= d.take(i));
        assert(d.take(i + 1).last() == d[i]);
        assert(is_digit(d[i]));
        assert(digits_value(d.take(i + 1)) == digits_value(d.take(i)) * 10 + (d[i] - 48) as nat);
    } else {
        assert(d.take(i) =~= d);
    }
}

/// Appends the decimal digits of `n` to `out`.
pub fn push_decimal(out: &mut Vec<u8>, n: u64)
    ensures
        final(out)@ == old(out)@ + decimal_digits(n as nat),
    decreases n,
{
    if n >= 10 {
        push_decimal(out, n / 10);
    }
    out.push((48 + n % 10) as u8);
    assert(final(out)@ =~= old(out)@ + decimal_digits(n as nat));
}

/// The decimal digits of `n`, with leading zeros up to `width` digits.
pub fn format_decimal(n: u64, width: usize) -> (r: Vec<u8>)
    ensures
        r@ == zero_padded(decimal_digits(n as nat), width as nat),
        all_digits(r@),
{
    let mut digits: Vec<u8> = Vec::new();
    push_decimal(&mut digits, n);
    assert(digits@ =~= decimal_digits(n as nat));
    proof {
        lemma_decimal_digits(n as nat);
    }
    if digits.len() >= width {
        return digits;
    }
    let pad = width - digits.len();
    let mut r: Vec<u8> = Vec::new();
    let mut i: usize = 0;
    while i < pad
        invariant
            i <= pad,
            r@ == zeros(i as nat),
        decreases pad - i,
    {
        r.push(48);
        i = i + 1;
        assert(r@ =~= zeros(i as nat));
    }
    let mut j: usize = 0;
    while j < digits.len()
        invariant
            j <= digits@.len(),
            r@ == zeros(pad as nat) + digits@.take(j as int),
        decreases digits@.len() - j,
    {
        r.push(digits[j]);
        j = j + 1;
        assert(r@ =~= zeros(pad as nat) + digits@.take(j as int));
    }
    assert(digits@.take(j as int) =~= digits@);
    proof {
        lemma_zeros_value(pad as nat, digits@);
    }
    r
}

/// Reads `b[from..to]` as `str::parse::<u64>` reads text with these bytes.
pub fn parse_decimal(b: &[u8], from: usize, to: usize) -> (r: Option<u64>)
    requires
        from <= to <= b@.len(),
    ensures
        r == parse_u64_spec(b@.subrange(from as int, to as int)),
{
    let ghost s = b@.subrange(from as int, to as int);
    let start = if from < to && b[from] == 43 {
        from + 1
    } else {
        from
    };
    let ghost d = b@.subrange(start as int, to as int);
    assert(d =~= (if s.len() > 0 && s[0] == 43 {
        s.drop_first()
    } else {
        s
    }));
    if start >= to {
        return None;
    }
    let mut i: usize = start;
    while i < to
        invariant
            start <= i <= to <= b@.len(),
            d == b@.subrange(start as int, to as int),
            s == b@.subrange(from as int, to as int),
            d == (if s.len() > 0 && s[0] == 43 {
                s.drop_first()
            } else {
                s
            }),
            d.len() > 0,
            forall|j: int| 0 <= j < i - start ==> is_digit(#[trigger] d[j]),
        decreases to - i,
    {
        if !(48 <= b[i] && b[i] <= 57) {
            assert(d[i - start] == b@[i as int]);
            assert(!is_digit(d[i - start]));
            assert(!all_digits(d));
            return None;
        }
        i = i + 1;
    }
    assert(all_digits(d));
    let mut acc: u64 = 0;
    let mut k: usize = start;
    while k < to
        invariant
            start <= k <= to <= b@.len(),
            d == b@.subrange(start as int, to as int),
            s == b@.subrange(from as int, to as int),
            d == (if s.len() > 0 && s[0] == 43 {
                s.drop_first()
            } else {
                s
            }),
            d.len() > 0,
            all_digits(d),
            acc == digits_value(d.take(k - start)),
        decreases to - k,
    {
        proof {
            assert(d.take(k - start + 1).drop_last() =~= d.take(k - start));
            assert(d[k - start] == b@[k as int]);
        }
        let digit = (b[k] - 48) as u64;
        let next = match acc.checked_mul(10) {
            Some(m) => m.checked_add(digit),
            None => None,
        };
        match next {
            Some(v) => {
                assert(d.take(k - start + 1).last() == d[k - start]);
                assert(v == digits_value(d.take(k - start + 1)));
                acc = v;
            },
            None => {
                proof {
                    lemma_prefix_value(d, k - start + 1);
                    assert(d.take(k - start + 1).last() == d[k - start]);
                    assert(digits_value(d.take(k - start + 1)) == acc * 10 + digit);
                    assert(digits_value(d) > u64::MAX);
                }
                return None;
            },
        }
        k = k + 1;
    }
    assert(d.take(k - start) =~= d);
    Some(acc)
}

/// Digits written with leading zeros read back as the number written.
pub proof fn lemma_format_parse(n: u64, width: nat)
    ensures
        parse_u64_spec(zero_padded(decimal_digits(n as nat), width)) == Some(n),
        all_digits(zero_padded(decimal_digits(n as nat), width)),
{
    let d = decimal_digits(n as nat);
    lemma_decimal_digits(n as nat);
    let p = zero_padded(d, width);
    if d.len() < width {
        lemma_zeros_value((width - d.len()) as nat, d);
    }
    assert(p.len() > 0);
    assert(is_digit(p[0]));
    assert(p[0] != 43);
}

} // verus!
