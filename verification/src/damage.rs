//! The arithmetic of combat: percentages of an amount, rounded as the rules
//! ask, and held in the 32 bits an event has for them.

use crate::digits::{at_most, high_part, lemma_pow_step, times, value, well_formed};
use vstd::arithmetic::div_mod::{
    lemma_div_is_ordered, lemma_div_multiples_vanish_quotient, lemma_fundamental_div_mod,
    lemma_fundamental_div_mod_converse,
};
use vstd::arithmetic::power::{lemma_pow0, lemma_pow_adds, lemma_pow_positive, pow};
use vstd::prelude::*;

verus! {

/// `x` where a 32-bit event field can hold it, else the nearest value that
/// such a field can hold.
pub open spec fn saturate(x: int) -> int {
    if x < i32::MIN {
        i32::MIN as int
    } else if x > i32::MAX {
        i32::MAX as int
    } else {
        x
    }
}

/// `percent` hundredths of `amount`, rounded down.
pub open spec fn floor_percent(amount: int, percent: int) -> int {
    (amount * percent) / 100
}

/// `percent` hundredths of `amount`, rounded up.
pub open spec fn ceil_percent(amount: int, percent: int) -> int {
    (amount * percent + 99) / 100
}

/// `floor_percent` and `ceil_percent` are the two integers around the exact
/// quotient: a hundred times the one does not exceed the product, a hundred
/// times the other is not below it, and each misses it by less than a
/// hundred.
pub proof fn lemma_percent_rounding(amount: int, percent: int)
    ensures
        100 * floor_percent(amount, percent) <= amount * percent < 100 * floor_percent(
            amount,
            percent,
        ) + 100,
        100 * ceil_percent(amount, percent) - 100 < amount * percent <= 100 * ceil_percent(
            amount,
            percent,
        ),
{
    let p = amount * percent;
    assert(100 * (p / 100) <= p < 100 * (p / 100) + 100) by {
        vstd::arithmetic::div_mod::lemma_fundamental_div_mod(p, 100);
    }
    assert(100 * ((p + 99) / 100) <= p + 99 < 100 * ((p + 99) / 100) + 100) by {
        vstd::arithmetic::div_mod::lemma_fundamental_div_mod(p + 99, 100);
    }
}

fn clamp(x: i64) -> (r: i32)
    ensures
        r == saturate(x as int),
{
    if x < i32::MIN as i64 {
        i32::MIN
    } else if x > i32::MAX as i64 {
        i32::MAX
    } else {
        x as i32
    }
}

fn floor_hundredth(x: i64) -> (r: i64)
    ensures
        r == x / 100,
{
    if x >= 0 {
        x / 100
    } else {
        let m: i64 = -(x + 1);
        -(m / 100) - 1
    }
}

fn product(a: i32, b: i32) -> (p: i64)
    ensures
        p == a * b,
        -0x4000_0000_0000_0000 <= p <= 0x4000_0000_0000_0000,
{
    assert(-0x4000_0000_0000_0000 <= a * b <= 0x4000_0000_0000_0000) by (nonlinear_arith)
        requires
            -0x8000_0000 <= a <= 0x8000_0000,
            -0x8000_0000 <= b <= 0x8000_0000,
    ;
    (a as i64) * (b as i64)
}

/// The health a hit of `damage` gives back to an attacker with `lifesteal`
/// percent: that share of the damage, rounded down.
pub fn lifesteal_heal(damage: i32, lifesteal: i32) -> (heal: i32)
    ensures
        heal == saturate(floor_percent(damage as int, lifesteal as int)),
{
    clamp(floor_hundredth(product(damage, lifesteal)))
}

/// The damage that `thorns` percent deal back to an attacker of strength
/// `attack`: that share of the attack, rounded up.
pub fn thorns_damage(attack: i32, thorns: i32) -> (damage: i32)
    ensures
        damage == saturate(ceil_percent(attack as int, thorns as int)),
{
    clamp(floor_hundredth(product(attack, thorns) + 99))
}

/// A share of at most a hundred percent of a 32-bit amount fits in 32 bits:
/// nothing is cut off.
pub proof fn lemma_percent_fits(amount: int, percent: int)
    requires
        i32::MIN <= amount <= i32::MAX,
        0 <= percent <= 100,
    ensures
        saturate(floor_percent(amount, percent)) == floor_percent(amount, percent),
        saturate(ceil_percent(amount, percent)) == ceil_percent(amount, percent),
{
    lemma_percent_rounding(amount, percent);
    assert(i32::MIN * 100 <= amount * percent <= i32::MAX * 100) by (nonlinear_arith)
        requires
            i32::MIN <= amount <= i32::MAX,
            0 <= percent <= 100,
    ;
}

/// `n / d` rounded to the nearest whole number, a half away from zero.
pub open spec fn round_ratio(n: int, d: int) -> int {
    if n >= 0 {
        (2 * n + d) / (2 * d)
    } else {
        -((2 * (-n) + d) / (2 * d))
    }
}

/// A touch of strength `attack` on a body with `defence`: each point of
/// defence takes a hundredth off what is left, `attack * 0.99^defence`,
/// rounded to the nearest whole number.
pub open spec fn damage_curve(attack: int, defence: int) -> int {
    if defence >= 0 {
        round_ratio(attack * pow(99, defence as nat), pow(100, defence as nat))
    } else {
        round_ratio(attack * pow(100, (-defence) as nat), pow(99, (-defence) as nat))
    }
}

/// Rounding to the nearest is rounding the doubled quotient down, adding
/// one and halving.
pub proof fn lemma_round_by_halving(n: int, d: int)
    requires
        0 <= n,
        0 < d,
    ensures
        (2 * n + d) / (2 * d) == ((2 * n) / d + 1) / 2,
{
    let q = (2 * n) / d;
    let r = (2 * n) % d;
    lemma_fundamental_div_mod(2 * n, d);
    let s = (q + 1) / 2;
    let t = (q + 1) % 2;
    lemma_fundamental_div_mod(q + 1, 2);
    assert(2 * n + d == s * (2 * d) + (d * t + r) && 0 <= d * t + r < 2 * d)
        by (nonlinear_arith)
        requires
            2 * n == d * q + r,
            0 <= r < d,
            q + 1 == 2 * s + t,
            0 <= t < 2,
    ;
    lemma_fundamental_div_mod_converse(2 * n + d, 2 * d, s, d * t + r);
}

/// A greater base gives a power that is not smaller.
pub proof fn lemma_pow_base_ordered(p: int, q: int, e: nat)
    requires
        1 <= p <= q,
    ensures
        0 < pow(p, e) <= pow(q, e),
    decreases e,
{
    lemma_pow_positive(p, e);
    if e == 0 {
        lemma_pow0(p);
        lemma_pow0(q);
    } else {
        lemma_pow_base_ordered(p, q, (e - 1) as nat);
        lemma_pow_step(p, (e - 1) as nat);
        lemma_pow_step(q, (e - 1) as nat);
        let x = pow(p, (e - 1) as nat);
        let y = pow(q, (e - 1) as nat);
        assert(p * x <= q * y) by (nonlinear_arith)
            requires
                1 <= p <= q,
                0 < x <= y,
        ;
    }
}

proof fn lemma_decay_stays_zero(v: int, p: int, q: int, j: nat, k: nat)
    requires
        1 <= p <= q,
        j <= k,
        0 <= v,
        (v * pow(p, j)) / pow(q, j) == 0,
    ensures
        (v * pow(p, k)) / pow(q, k) == 0,
{
    let e = (k - j) as nat;
    lemma_pow_adds(p, j, e);
    lemma_pow_adds(q, j, e);
    lemma_pow_base_ordered(p, q, e);
    lemma_pow_positive(q, j);
    lemma_pow_positive(q, k);
    lemma_pow_positive(p, j);
    let x = v * pow(p, j);
    lemma_fundamental_div_mod(x, pow(q, j));
    assert(0 <= x < pow(q, j)) by (nonlinear_arith)
        requires
            x == pow(q, j) * 0 + x % pow(q, j),
            0 <= x % pow(q, j) < pow(q, j),
    ;
    let y = v * pow(p, k);
    assert(0 <= y < pow(q, k)) by (nonlinear_arith)
        requires
            y == v * (pow(p, j) * pow(p, e)),
            x == v * pow(p, j),
            0 <= x < pow(q, j),
            0 < pow(p, e) <= pow(q, e),
            pow(q, k) == pow(q, j) * pow(q, e),
    ;
    lemma_fundamental_div_mod_converse(y, pow(q, k), 0, y);
}

proof fn lemma_growth_stays_high(v: int, p: int, q: int, j: nat, k: nat, floor: int)
    requires
        1 <= q <= p,
        j <= k,
        0 <= v,
        0 <= floor <= (v * pow(p, j)) / pow(q, j),
    ensures
        floor <= (v * pow(p, k)) / pow(q, k),
{
    let e = (k - j) as nat;
    lemma_pow_adds(p, j, e);
    lemma_pow_adds(q, j, e);
    lemma_pow_base_ordered(q, p, e);
    lemma_pow_positive(q, j);
    lemma_pow_positive(q, k);
    let x = v * pow(p, j);
    lemma_fundamental_div_mod(x, pow(q, j));
    assert(floor * pow(q, j) <= x) by (nonlinear_arith)
        requires
            x == pow(q, j) * (x / pow(q, j)) + x % pow(q, j),
            0 <= x % pow(q, j),
            0 <= floor <= x / pow(q, j),
            0 < pow(q, j),
    ;
    let y = v * pow(p, k);
    assert(pow(q, k) * floor <= y) by (nonlinear_arith)
        requires
            y == v * (pow(p, j) * pow(p, e)),
            x == v * pow(p, j),
            0 <= floor * pow(q, j) <= x,
            0 < pow(q, e) <= pow(p, e),
            pow(q, k) == pow(q, j) * pow(q, e),
    ;
    lemma_div_is_ordered(pow(q, k) * floor, y, pow(q, k));
    assert((pow(q, k) * floor) / pow(q, k) == floor) by {
        lemma_fundamental_div_mod_converse(pow(q, k) * floor, pow(q, k), floor, 0);
    }
}

/// The highest doubled quotient that is told apart: beyond it every damage
/// is cut to what 32 bits hold.
const CAP: u64 = 0x1_0000_0000;

/// `2 * a * p^k / q^k` rounded down, or `CAP` where that is greater.
fn doubled_floor(a: u32, p: u32, q: u32, k: u32) -> (h: u64)
    requires
        2 <= p <= 100,
        2 <= q <= 100,
        p != q,
    ensures
        h == at_most(CAP as int, ((2 * a) * pow(p as int, k as nat)) / pow(q as int, k as nat)),
{
    if a == 0 {
        proof {
            lemma_pow_positive(q as int, k as nat);
            assert((2 * a) * pow(p as int, k as nat) == 0) by (nonlinear_arith)
                requires
                    a == 0,
            ;
            lemma_fundamental_div_mod_converse(0, pow(q as int, k as nat), 0, 0);
        }
        return 0;
    }
    let mut digits: Vec<u32> = Vec::new();
    digits.push(1);
    proof {
        reveal_with_fuel(value, 2);
        assert(digits@.drop_first() =~= Seq::<u32>::empty());
        assert(value(digits@, q as int) == 1);
        lemma_pow0(p as int);
    }
    digits = times(&digits, q, a);
    digits = times(&digits, q, 2);
    let mut j: u32 = 0;
    while j < k
        invariant
            2 <= p <= 100,
            2 <= q <= 100,
            p != q,
            j <= k,
            well_formed(digits@, q as int),
            value(digits@, q as int) == (2 * a) * pow(p as int, j as nat),
        decreases k - j,
    {
        let h = high_part(&digits, q, j as usize, CAP);
        if p < q && h == 0 {
            proof {
                lemma_decay_stays_zero(2 * a, p as int, q as int, j as nat, k as nat);
            }
            return 0;
        }
        if p > q && h >= CAP {
            proof {
                lemma_growth_stays_high(
                    2 * a,
                    p as int,
                    q as int,
                    j as nat,
                    k as nat,
                    CAP as int,
                );
            }
            return CAP;
        }
        digits = times(&digits, q, p);
        proof {
            lemma_pow_step(p as int, j as nat);
            let x = pow(p as int, j as nat);
            assert(p * ((2 * a) * x) == (2 * a) * (p * x)) by (nonlinear_arith);
        }
        j += 1;
    }
    high_part(&digits, q, k as usize, CAP)
}

fn magnitude(x: i32) -> (m: u32)
    ensures
        m == if x >= 0 {
            x as int
        } else {
            -x
        },
{
    if x >= 0 {
        x as u32
    } else {
        (-(x as i64)) as u32
    }
}

/// The damage of a touch of strength `attack` on a body with `defence`.
pub fn contact_damage(attack: i32, defence: i32) -> (damage: i32)
    ensures
        damage == saturate(damage_curve(attack as int, defence as int)),
{
    let a = magnitude(attack);
    let k = magnitude(defence);
    let h = if defence >= 0 {
        doubled_floor(a, 99, 100, k)
    } else {
        doubled_floor(a, 100, 99, k)
    };
    let m: u64 = (h + 1) / 2;
    proof {
        let p: int = if defence >= 0 {
            99
        } else {
            100
        };
        let q: int = if defence >= 0 {
            100
        } else {
            99
        };
        let x = pow(p, k as nat);
        let y = pow(q, k as nat);
        lemma_pow_positive(p, k as nat);
        lemma_pow_positive(q, k as nat);
        let n = a * x;
        assert((2 * a) * x == 2 * n) by (nonlinear_arith)
            requires
                n == a * x,
        ;
        assert(0 <= n) by (nonlinear_arith)
            requires
                n == a * x,
                0 <= a,
                0 < x,
        ;
        lemma_round_by_halving(n, y);
        if attack >= 0 {
            assert(attack * x == n);
        } else {
            assert(attack * x == -n && attack * x < 0) by (nonlinear_arith)
                requires
                    n == a * x,
                    a == -attack,
                    attack < 0,
                    0 < x,
            ;
        }
    }
    if attack >= 0 {
        clamp(m as i64)
    } else {
        clamp(-(m as i64))
    }
}

/// More defence never means more damage from a touch that does damage.
pub proof fn lemma_defence_lowers_damage(attack: int, defence: int)
    requires
        0 <= attack,
    ensures
        saturate(damage_curve(attack, defence + 1)) <= saturate(damage_curve(attack, defence)),
{
    if defence >= 0 {
        let k = defence as nat;
        let n = attack * pow(99, k);
        let d = pow(100, k);
        lemma_pow_positive(99, k);
        lemma_pow_positive(100, k);
        lemma_pow_step(99, k);
        lemma_pow_step(100, k);
        assert(0 <= n) by (nonlinear_arith)
            requires
                n == attack * pow(99, k),
                0 <= attack,
                0 < pow(99, k),
        ;
        assert(attack * (99 * pow(99, k)) == 99 * n) by (nonlinear_arith)
            requires
                n == attack * pow(99, k),
        ;
        lemma_div_multiples_vanish_quotient(100, 2 * n + d, 2 * d);
        lemma_div_is_ordered(2 * (99 * n) + 100 * d, 100 * (2 * n + d), 2 * (100 * d));
        assert(100 * (2 * d) == 2 * (100 * d));
    } else {
        let k = (-defence) as nat;
        let j = (k - 1) as nat;
        let n = attack * pow(100, j);
        let d = pow(99, j);
        lemma_pow_positive(99, j);
        lemma_pow_positive(100, j);
        lemma_pow_step(99, j);
        lemma_pow_step(100, j);
        if j == 0 {
            lemma_pow0(99);
            lemma_pow0(100);
        }
        assert(0 <= n) by (nonlinear_arith)
            requires
                n == attack * pow(100, j),
                0 <= attack,
                0 < pow(100, j),
        ;
        assert(attack * (100 * pow(100, j)) == 100 * n) by (nonlinear_arith)
            requires
                n == attack * pow(100, j),
        ;
        assert(damage_curve(attack, defence + 1) == round_ratio(n, d));
        assert(damage_curve(attack, defence) == round_ratio(100 * n, 99 * d));
        lemma_div_multiples_vanish_quotient(99, 2 * n + d, 2 * d);
        lemma_div_is_ordered(99 * (2 * n + d), 2 * (100 * n) + 99 * d, 2 * (99 * d));
        assert(99 * (2 * d) == 2 * (99 * d));
    }
}

} // verus!
