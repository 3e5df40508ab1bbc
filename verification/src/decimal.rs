//! Decimal notation: whole numbers, and quotients rounded to a given number
//! of digits after the point.

use crate::text::{flat, is_plain, lemma_flat_join};
use vstd::prelude::*;

verus! {

/// The most digits after the point that a quotient is written with. The
/// bound is that of the machine: a quotient is rounded in 128 bits, which
/// hold a numerator of 71 bits times ten to the power of 17, and no more.
pub const MAX_PRECISION: usize = 17;

/// The largest numerator that a quotient is written for: 71 bits, which
/// hold a hundred times any number of 64 bits. Times ten to the power of
/// `MAX_PRECISION` it still fits 128 bits.
pub const MAX_NUMERATOR: u128 = 0x7f_ffff_ffff_ffff_ffff;

/// Ten to the power of `p`.
pub open spec fn pow10(p: nat) -> nat
    decreases p,
{
    if p == 0 {
        1
    } else {
        10 * pow10((p - 1) as nat)
    }
}

/// The decimal digits of `n`, without leading zeros.
pub open spec fn digits(n: nat) -> Seq<u8>
    decreases n,
{
    if n < 10 {
        seq![(48 + n) as u8]
    } else {
        digits(n / 10).push((48 + n % 10) as u8)
    }
}

/// The last `p` decimal digits of `n`, leading zeros included.
pub open spec fn low_digits(n: nat, p: nat) -> Seq<u8>
    decreases p,
{
    if p == 0 {
        Seq::empty()
    } else {
        low_digits(n / 10, (p - 1) as nat).push((48 + n % 10) as u8)
    }
}

/// The whole number nearest to `a / d`, and of two equally near the even one.
pub open spec fn round_div(a: nat, d: nat) -> nat {
    let q = a / d;
    let r = a % d;
    if 2 * r > d || (2 * r == d && q % 2 == 1) {
        q + 1
    } else {
        q
    }
}

/// What rounding means: the whole number that `round_div` gives is no
/// further from `a / d` than a half.
pub proof fn lemma_round_div(a: nat, d: nat)
    requires
        d > 0,
    ensures
        2 * (round_div(a, d) * d - a) <= d,
        2 * (a - round_div(a, d) * d) <= d,
{
    let q = a / d;
    let r = a % d;
    assert(a == q * d + r && 0 <= r < d) by (nonlinear_arith)
        requires
            q == a / d,
            r == a % d,
            d > 0,
    ;
    assert((q + 1) * d == q * d + d) by (nonlinear_arith);
}

/// `num / den` rounded to `p` digits after the point, counted in units of the
/// last digit.
pub open spec fn scaled(num: nat, den: nat, p: nat) -> nat {
    round_div(num * pow10(p), den)
}

/// A count of units of the `p`-th digit after the point, written out.
pub open spec fn point(units: nat, p: nat) -> Seq<u8> {
    if p == 0 {
        digits(units)
    } else {
        digits(units / pow10(p)) + seq![0x2eu8] + low_digits(units, p)
    }
}

/// `num / den` in decimal notation with `p` digits after the point.
pub open spec fn fixed(num: nat, den: nat, p: nat) -> Seq<u8> {
    point(scaled(num, den, p), p)
}

/// The powers of ten are at least one, and grow with the exponent.
pub proof fn lemma_pow10_grows(p: nat, q: nat)
    requires
        p <= q,
    ensures
        1 <= pow10(p) <= pow10(q),
    decreases q,
{
    if p < q {
        lemma_pow10_grows(p, (q - 1) as nat);
    } else if p > 0 {
        lemma_pow10_grows((p - 1) as nat, (p - 1) as nat);
    }
}

/// Ten to the power of the largest precision, written out.
pub proof fn lemma_pow10_max()
    ensures
        pow10(MAX_PRECISION as nat) == 100_000_000_000_000_000,
{
    reveal_with_fuel(pow10, 18);
}

/// The digits of a number are one-byte characters, one at least, and no
/// more than `k` for a number under ten to the power of `k`.
pub proof fn lemma_digits(n: nat, k: nat)
    ensures
        is_plain(digits(n)),
        digits(n).len() >= 1,
        k >= 1 && n < pow10(k) ==> digits(n).len() <= k,
    decreases n,
{
    if n >= 10 {
        lemma_digits(n / 10, (k - 1) as nat);
        let d = digits(n / 10);
        assert forall|i: int| 0 <= i < digits(n).len() implies (#[trigger] digits(n)[i]) < 0x80 by {
            if i < d.len() {
                assert(digits(n)[i] == d[i]);
            }
        }
        if k >= 1 && n < pow10(k) {
            reveal_with_fuel(pow10, 2);
            assert(k >= 2);
            assert(n / 10 < pow10((k - 1) as nat));
        }
    }
}

/// The last `p` digits of a number are `p` one-byte characters.
pub proof fn lemma_low_digits(n: nat, p: nat)
    ensures
        is_plain(low_digits(n, p)),
        low_digits(n, p).len() == p,
    decreases p,
{
    if p > 0 {
        lemma_low_digits(n / 10, (p - 1) as nat);
        let d = low_digits(n / 10, (p - 1) as nat);
        assert forall|i: int| 0 <= i < low_digits(n, p).len() implies (#[trigger] low_digits(n, p)[i])
            < 0x80 by {
            if i < d.len() {
                assert(low_digits(n, p)[i] == d[i]);
            }
        }
    }
}

/// A number with `p` digits after the point is written in one-byte
/// characters: the digits before the point, and where `p` is not 0 the
/// point and `p` digits more.
pub proof fn lemma_point(units: nat, p: nat)
    ensures
        is_plain(point(units, p)),
        point(units, p).len() == digits(units / pow10(p)).len() + if p == 0 {
            0nat
        } else {
            (p + 1) as nat
        },
{
    lemma_pow10_grows(0, p);
    lemma_digits(units / pow10(p), 0);
    lemma_low_digits(units, p);
    if p == 0 {
        assert(pow10(0) == 1);
        assert(units / 1 == units);
    } else {
        let a = digits(units / pow10(p));
        let b = low_digits(units, p);
        let t = point(units, p);
        assert forall|i: int| 0 <= i < t.len() implies (#[trigger] t[i]) < 0x80 by {
            if i < a.len() {
                assert(t[i] == a[i]);
            } else if i > a.len() {
                assert(t[i] == b[i - a.len() - 1]);
            }
        }
    }
}

/// Digits hold no line feed.
pub proof fn lemma_flat_digits(n: nat)
    ensures
        flat(digits(n)),
    decreases n,
{
    if n >= 10 {
        lemma_flat_digits(n / 10);
        lemma_flat_join(digits(n / 10), seq![(48 + n % 10) as u8]);
        assert(digits(n) =~= digits(n / 10) + seq![(48 + n % 10) as u8]);
    }
}

/// Digits hold no line feed.
pub proof fn lemma_flat_low_digits(n: nat, p: nat)
    ensures
        flat(low_digits(n, p)),
    decreases p,
{
    if p > 0 {
        lemma_flat_low_digits(n / 10, (p - 1) as nat);
        lemma_flat_join(low_digits(n / 10, (p - 1) as nat), seq![(48 + n % 10) as u8]);
        assert(low_digits(n, p) =~= low_digits(n / 10, (p - 1) as nat) + seq![
            (48 + n % 10) as u8,
        ]);
    }
}

/// A number in decimal notation holds no line feed.
pub proof fn lemma_flat_fixed(num: nat, den: nat, p: nat)
    ensures
        flat(fixed(num, den, p)),
{
    let units = scaled(num, den, p);
    lemma_flat_digits(units);
    lemma_flat_digits(units / pow10(p));
    lemma_flat_low_digits(units, p);
    if p > 0 {
        lemma_flat_join(digits(units / pow10(p)), seq![0x2eu8]);
        lemma_flat_join(digits(units / pow10(p)) + seq![0x2eu8], low_digits(units, p));
    }
}

/// Ten to the power of `p`.
pub fn pow10_of(p: usize) -> (r: u128)
    requires
        p <= MAX_PRECISION,
    ensures
        r == pow10(p as nat),
        1 <= r <= 100_000_000_000_000_000,
{
    let mut r: u128 = 1;
    let mut i: usize = 0;
    while i < p
        invariant
            i <= p <= MAX_PRECISION,
            r == pow10(i as nat),
            r <= 100_000_000_000_000_000,
        decreases p - i,
    {
        proof {
            lemma_pow10_grows((i + 1) as nat, MAX_PRECISION as nat);
            lemma_pow10_max();
        }
        r = r * 10;
        i += 1;
    }
    proof {
        lemma_pow10_grows(p as nat, p as nat);
    }
    r
}

/// Appends the decimal digits of `n`.
pub fn push_digits(out: &mut Vec<u8>, n: u128)
    ensures
        final(out)@ == old(out)@ + digits(n as nat),
    decreases n,
{
    if n < 10 {
        out.push((48 + n) as u8);
        assert(out@ =~= old(out)@ + digits(n as nat));
    } else {
        push_digits(out, n / 10);
        out.push((48 + n % 10) as u8);
        assert(out@ =~= old(out)@ + digits(n as nat));
    }
}

/// Appends the last `p` decimal digits of `n`.
pub fn push_low_digits(out: &mut Vec<u8>, n: u128, p: usize)
    ensures
        final(out)@ == old(out)@ + low_digits(n as nat, p as nat),
    decreases p,
{
    if p == 0 {
        assert(out@ =~= old(out)@ + low_digits(n as nat, p as nat));
    } else {
        push_low_digits(out, n / 10, p - 1);
        out.push((48 + n % 10) as u8);
        assert(out@ =~= old(out)@ + low_digits(n as nat, p as nat));
    }
}

/// `a / d` rounded to the nearest whole number, ties to the even one.
pub fn rounded_quotient(a: u128, d: u128) -> (q: u128)
    requires
        d > 0,
    ensures
        q == round_div(a as nat, d as nat),
{
    let q = a / d;
    let r = a % d;
    let rest = d - r;
    if r > rest || (r == rest && q % 2 == 1) {
        assert(q < a || d == 1) by (nonlinear_arith)
            requires
                q == a / d,
                d > 0,
                a % d > 0,
        ;
        q + 1
    } else {
        q
    }
}

/// `num / den` rounded to `p` digits after the point, in units of the last
/// digit. The numerator and the number of digits are bounded so that the
/// numerator times ten to the power of `p` fits 128 bits.
pub fn scaled_quotient(num: u128, den: u128, p: usize) -> (r: u128)
    requires
        den > 0,
        num <= MAX_NUMERATOR,
        p <= MAX_PRECISION,
    ensures
        r == scaled(num as nat, den as nat, p as nat),
{
    let scale = pow10_of(p);
    assert(num * scale <= u128::MAX) by (nonlinear_arith)
        requires
            num <= 0x7f_ffff_ffff_ffff_ffff,
            scale <= 100_000_000_000_000_000,
    ;
    rounded_quotient(num * scale, den)
}

/// Appends `units`, a count of units of the `p`-th digit after the point.
pub fn push_point(out: &mut Vec<u8>, units: u128, p: usize)
    requires
        p <= MAX_PRECISION,
    ensures
        final(out)@ == old(out)@ + point(units as nat, p as nat),
{
    if p == 0 {
        push_digits(out, units);
    } else {
        let scale = pow10_of(p);
        push_digits(out, units / scale);
        out.push(0x2eu8);
        push_low_digits(out, units, p);
        assert(out@ =~= old(out)@ + point(units as nat, p as nat));
    }
}

/// Appends `num / den` in decimal notation with `p` digits after the point.
pub fn push_fixed(out: &mut Vec<u8>, num: u128, den: u128, p: usize)
    requires
        den > 0,
        num <= MAX_NUMERATOR,
        p <= MAX_PRECISION,
    ensures
        final(out)@ == old(out)@ + fixed(num as nat, den as nat, p as nat),
{
    let units = scaled_quotient(num, den, p);
    push_point(out, units, p);
}

} // verus!
