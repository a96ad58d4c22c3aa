//! Whole numbers of any size, written in a small base with the lowest digit
//! first. They carry the exact powers behind the damage curve.

use vstd::arithmetic::div_mod::{lemma_fundamental_div_mod, lemma_fundamental_div_mod_converse};
use vstd::arithmetic::power::{lemma_pow0, lemma_pow_positive, pow};
use vstd::prelude::*;

verus! {

/// The number that `digits` write in base `base`, lowest digit first.
pub open spec fn value(digits: Seq<u32>, base: int) -> int
    decreases digits.len(),
{
    if digits.len() == 0 {
        0
    } else {
        digits[0] as int + base * value(digits.drop_first(), base)
    }
}

/// Whether every digit is below `base`.
pub open spec fn well_formed(digits: Seq<u32>, base: int) -> bool {
    forall|i: int| 0 <= i < digits.len() ==> (#[trigger] digits[i]) < base
}

/// The smaller of two numbers.
pub open spec fn at_most(cap: int, x: int) -> int {
    if x < cap {
        x
    } else {
        cap
    }
}

/// A power is its base times the power before it.
pub proof fn lemma_pow_step(b: int, e: nat)
    ensures
        pow(b, e + 1) == b * pow(b, e),
{
    reveal(pow);
}

/// A digit more on top adds that digit times the power of its place.
pub proof fn lemma_value_push(digits: Seq<u32>, top: u32, base: int)
    ensures
        value(digits.push(top), base) == value(digits, base) + top * pow(base, digits.len()),
    decreases digits.len(),
{
    let longer = digits.push(top);
    if digits.len() == 0 {
        assert(longer.drop_first() =~= Seq::<u32>::empty());
        assert(value(longer.drop_first(), base) == 0);
        lemma_pow0(base);
    } else {
        let rest = digits.drop_first();
        assert(longer.drop_first() =~= rest.push(top));
        lemma_value_push(rest, top, base);
        lemma_pow_step(base, rest.len());
        let p = pow(base, rest.len());
        let v = value(rest, base);
        assert(base * (v + top * p) == base * v + top * (base * p)) by (nonlinear_arith);
    }
}

/// Digits below the base write a number below the power of their count.
pub proof fn lemma_value_bound(digits: Seq<u32>, base: int)
    requires
        1 <= base,
        well_formed(digits, base),
    ensures
        0 <= value(digits, base) < pow(base, digits.len()),
    decreases digits.len(),
{
    if digits.len() == 0 {
        lemma_pow0(base);
    } else {
        let rest = digits.drop_first();
        assert(well_formed(rest, base)) by {
            assert forall|i: int| 0 <= i < rest.len() implies (#[trigger] rest[i]) < base by {
                assert(rest[i] == digits[i + 1]);
            }
        }
        lemma_value_bound(rest, base);
        lemma_pow_step(base, rest.len());
        let p = pow(base, rest.len());
        let v = value(rest, base);
        assert(0 <= base * v && base * v + base <= base * p) by (nonlinear_arith)
            requires
                1 <= base,
                0 <= v < p,
        ;
    }
}

/// A number is its lowest `k` digits plus the rest times the `k`th power.
pub proof fn lemma_value_split(digits: Seq<u32>, k: int, base: int)
    requires
        0 <= k <= digits.len(),
    ensures
        value(digits, base) == value(digits.take(k), base) + pow(base, k as nat) * value(
            digits.skip(k),
            base,
        ),
    decreases k,
{
    if k == 0 {
        assert(digits.take(0) =~= Seq::<u32>::empty());
        assert(digits.skip(0) =~= digits);
        lemma_pow0(base);
    } else {
        let rest = digits.drop_first();
        lemma_value_split(rest, k - 1, base);
        assert(digits.take(k).drop_first() =~= rest.take(k - 1));
        assert(digits.take(k)[0] == digits[0]);
        assert(digits.skip(k) =~= rest.skip(k - 1));
        lemma_pow_step(base, (k - 1) as nat);
        let p = pow(base, (k - 1) as nat);
        let low = value(rest.take(k - 1), base);
        let high = value(rest.skip(k - 1), base);
        assert(base * (low + p * high) == base * low + (base * p) * high) by (nonlinear_arith);
    }
}

/// Cutting the lowest `k` digits off divides by the `k`th power, rounding
/// down.
pub proof fn lemma_value_shift(digits: Seq<u32>, k: int, base: int)
    requires
        2 <= base,
        well_formed(digits, base),
        0 <= k <= digits.len(),
    ensures
        value(digits.skip(k), base) == value(digits, base) / pow(base, k as nat),
{
    lemma_value_split(digits, k, base);
    assert(well_formed(digits.take(k), base));
    lemma_value_bound(digits.take(k), base);
    lemma_pow_positive(base, k as nat);
    let p = pow(base, k as nat);
    let high = value(digits.skip(k), base);
    assert(p * high == high * p) by (nonlinear_arith);
    lemma_fundamental_div_mod_converse(
        value(digits, base),
        p,
        high,
        value(digits.take(k), base),
    );
}

/// `digits` times `factor`.
pub fn times(digits: &Vec<u32>, base: u32, factor: u32) -> (out: Vec<u32>)
    requires
        2 <= base,
        well_formed(digits@, base as int),
    ensures
        well_formed(out@, base as int),
        value(out@, base as int) == factor * value(digits@, base as int),
{
    let mut out: Vec<u32> = Vec::new();
    let mut carry: u64 = 0;
    let mut i: usize = 0;
    while i < digits.len()
        invariant
            2 <= base,
            i <= digits@.len(),
            out@.len() == i,
            carry <= factor,
            well_formed(digits@, base as int),
            well_formed(out@, base as int),
            value(out@, base as int) + carry * pow(base as int, i as nat) == factor * value(
                digits@.take(i as int),
                base as int,
            ),
        decreases digits@.len() - i,
    {
        let digit = digits[i];
        assert(digit * factor + carry <= base * factor) by (nonlinear_arith)
            requires
                digit < base,
                carry <= factor,
        ;
        assert(base * factor <= 0xffff_ffff * 0xffff_ffff) by (nonlinear_arith)
            requires
                base <= 0xffff_ffff,
                factor <= 0xffff_ffff,
        ;
        let total: u64 = (digit as u64) * (factor as u64) + carry;
        let low: u32 = (total % (base as u64)) as u32;
        let next: u64 = total / (base as u64);
        proof {
            let b = base as int;
            let p = pow(b, i as nat);
            let v = value(digits@.take(i as int), b);
            let o = value(out@, b);
            lemma_fundamental_div_mod(total as int, b);
            assert(next <= factor) by (nonlinear_arith)
                requires
                    total <= b * factor,
                    total == b * next + low,
                    0 <= low,
                    2 <= b,
            ;
            assert(digits@.take(i + 1) =~= digits@.take(i as int).push(digit));
            lemma_value_push(digits@.take(i as int), digit, b);
            lemma_value_push(out@, low, b);
            lemma_pow_step(b, i as nat);
            assert(o + low * p + next * (b * p) == factor * (v + digit * p)) by (nonlinear_arith)
                requires
                    o + carry * p == factor * v,
                    digit * factor + carry == b * next + low,
            ;
        }
        out.push(low);
        carry = next;
        i += 1;
    }
    proof {
        assert(digits@.take(digits@.len() as int) =~= digits@);
    }
    while carry > 0
        invariant
            2 <= base,
            well_formed(out@, base as int),
            value(out@, base as int) + carry * pow(base as int, out@.len()) == factor * value(
                digits@,
                base as int,
            ),
        decreases carry,
    {
        let low: u32 = (carry % (base as u64)) as u32;
        let next: u64 = carry / (base as u64);
        proof {
            let b = base as int;
            let p = pow(b, out@.len());
            let o = value(out@, b);
            lemma_fundamental_div_mod(carry as int, b);
            lemma_value_push(out@, low, b);
            lemma_pow_step(b, out@.len());
            assert(o + low * p + next * (b * p) == o + carry * p) by (nonlinear_arith)
                requires
                    carry == b * next + low,
            ;
            assert(next < carry) by (nonlinear_arith)
                requires
                    carry == b * next + low,
                    0 <= low,
                    0 <= next,
                    0 < carry,
                    2 <= b,
            ;
        }
        out.push(low);
        carry = next;
    }
    proof {
        assert(0 * pow(base as int, out@.len()) == 0);
    }
    out
}

/// What is left of `digits` when the lowest `k` digits are cut off, or
/// `cap` where that is greater.
pub fn high_part(digits: &Vec<u32>, base: u32, k: usize, cap: u64) -> (high: u64)
    requires
        2 <= base <= 0x1_0000,
        cap <= 0x100_0000_0000,
        well_formed(digits@, base as int),
    ensures
        high == at_most(cap as int, value(digits@, base as int) / pow(base as int, k as nat)),
{
    if k >= digits.len() {
        proof {
            let b = base as int;
            lemma_value_bound(digits@, b);
            lemma_pow_positive(b, k as nat);
            lemma_pow_grows(b, digits@.len(), k as nat);
            lemma_fundamental_div_mod_converse(
                value(digits@, b),
                pow(b, k as nat),
                0,
                value(digits@, b),
            );
        }
        return 0;
    }
    let mut high: u64 = 0;
    let mut i: usize = digits.len();
    while i > k
        invariant
            2 <= base <= 0x1_0000,
            cap <= 0x100_0000_0000,
            k <= i <= digits@.len(),
            well_formed(digits@, base as int),
            high == at_most(cap as int, value(digits@.skip(i as int), base as int)),
        decreases i,
    {
        i -= 1;
        let digit = digits[i];
        proof {
            let b = base as int;
            let tail = digits@.skip(i as int);
            assert(tail.drop_first() =~= digits@.skip(i + 1));
            assert(tail[0] == digit);
            assert(well_formed(digits@.skip(i + 1), b));
            lemma_value_bound(digits@.skip(i + 1), b);
            let v = value(digits@.skip(i + 1), b);
            assert(value(tail, b) == digit + b * v);
            assert(v <= b * v && b * v == v * b) by (nonlinear_arith)
                requires
                    0 <= v,
                    2 <= b,
            ;
        }
        if high >= cap {
            high = cap;
        } else {
            assert(high * base <= 0x100_0000_0000 * 0x1_0000) by (nonlinear_arith)
                requires
                    high < 0x100_0000_0000,
                    base <= 0x1_0000,
            ;
            let total: u64 = high * (base as u64) + (digit as u64);
            high = if total >= cap {
                cap
            } else {
                total
            };
        }
    }
    proof {
        lemma_value_shift(digits@, k as int, base as int);
    }
    high
}

/// A smaller exponent gives a power that is not greater.
pub proof fn lemma_pow_grows(b: int, low: nat, high: nat)
    requires
        1 <= b,
        low <= high,
    ensures
        0 < pow(b, low) <= pow(b, high),
    decreases high - low,
{
    lemma_pow_positive(b, low);
    if low < high {
        lemma_pow_grows(b, low + 1, high);
        lemma_pow_step(b, low);
        let p = pow(b, low);
        assert(p <= b * p) by (nonlinear_arith)
            requires
                0 < p,
                1 <= b,
        ;
    }
}

} // verus!
