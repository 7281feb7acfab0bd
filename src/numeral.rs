//! Little-endian positional numerals over an arbitrary base, and powers.
use vstd::arithmetic::div_mod::{
    lemma_div_is_strictly_smaller, lemma_div_multiples_vanish_fancy, lemma_fundamental_div_mod,
    lemma_mod_multiples_vanish,
};
use vstd::arithmetic::power::{lemma_pow_positive, pow};
use vstd::prelude::*;

verus! {

/// The base-`b` digits of `v`, least significant first, continued with zero
/// digits until there are at least `min` of them. Zero with `min == 0` has no
/// digits at all.
pub open spec fn digits(v: nat, b: nat, min: nat) -> Seq<nat>
    decreases v, min,
    via digits_decreases
{
    if b < 2 || (v == 0 && min == 0) {
        Seq::empty()
    } else {
        seq![v % b].add(digits(v / b, b, if min > 0 { (min - 1) as nat } else { 0 }))
    }
}

#[via_fn]
proof fn digits_decreases(v: nat, b: nat, min: nat) {
    if b >= 2 && v > 0 {
        lemma_div_is_strictly_smaller(v as int, b as int);
    }
}

/// The value of the first `k` digits of `ds`, least significant first.
pub open spec fn prefix_value(ds: Seq<nat>, b: nat, k: nat) -> int
    decreases k,
{
    if k == 0 {
        0
    } else {
        prefix_value(ds, b, (k - 1) as nat) + ds[k - 1] * pow(b as int, (k - 1) as nat)
    }
}

/// `b` to the power `e + 1` is `b` times `b` to the power `e`.
pub proof fn lemma_pow_succ(b: int, e: nat)
    ensures
        pow(b, e + 1) == b * pow(b, e),
{
    reveal(pow);
}

/// Adding a positive power of `b` leaves the lowest digit alone and shifts
/// down with the rest.
pub proof fn lemma_add_power_shift(n: nat, b: nat, e: nat)
    requires
        b >= 2,
        e >= 1,
    ensures
        (n + pow(b as int, e)) % (b as int) == (n as int) % (b as int),
        (n + pow(b as int, e)) / (b as int) == (n as int) / (b as int) + pow(b as int, (e - 1) as nat),
{
    let bi = b as int;
    let ni = n as int;
    let q = pow(bi, (e - 1) as nat);
    let p = pow(bi, e);
    lemma_pow_succ(bi, (e - 1) as nat);
    lemma_mod_multiples_vanish(q, ni, bi);
    lemma_fundamental_div_mod(ni, bi);
    let d = ni / bi;
    let m = ni % bi;
    assert(ni + p == bi * (q + d) + m) by (nonlinear_arith)
        requires
            ni == bi * d + m,
            p == bi * q,
    ;
    lemma_div_multiples_vanish_fancy(q + d, m, bi);
}

/// Putting a digit in front multiplies the value of the rest by the base.
pub proof fn lemma_prefix_value_cons(d: nat, rest: Seq<nat>, b: nat, k: nat)
    requires
        k <= rest.len(),
    ensures
        prefix_value(seq![d] + rest, b, k + 1) == d + b * prefix_value(rest, b, k),
    decreases k,
{
    let ds = seq![d] + rest;
    if k == 0 {
        reveal(pow);
        assert(ds[0] == d);
        assert(prefix_value(ds, b, 1) == prefix_value(ds, b, 0) + ds[0] * pow(b as int, 0));
        assert(pow(b as int, 0) == 1);
        assert(b * prefix_value(rest, b, 0) == 0);
    } else {
        lemma_prefix_value_cons(d, rest, b, (k - 1) as nat);
        assert(prefix_value(ds, b, k + 1) == prefix_value(ds, b, k) + ds[k as int] * pow(
            b as int,
            k,
        ));
        assert(prefix_value(rest, b, k) == prefix_value(rest, b, (k - 1) as nat) + rest[k - 1]
            * pow(b as int, (k - 1) as nat));
        lemma_pow_succ(b as int, (k - 1) as nat);
        assert(ds[k as int] == rest[k - 1]);
        let pr = prefix_value(rest, b, (k - 1) as nat);
        let pk = pow(b as int, (k - 1) as nat);
        let x = rest[k - 1];
        assert(d + b * pr + x * (b * pk) == d + b * (pr + x * pk)) by (nonlinear_arith);
    }
}

/// Digits below the base give a value below the base to the power of
/// their count.
pub proof fn lemma_prefix_value_bound(ds: Seq<nat>, b: nat, k: nat)
    requires
        b >= 2,
        k <= ds.len(),
        forall|j: int| 0 <= j < k ==> #[trigger] ds[j] < b,
    ensures
        0 <= prefix_value(ds, b, k) < pow(b as int, k),
    decreases k,
{
    if k == 0 {
        reveal(pow);
    } else {
        let km = (k - 1) as nat;
        lemma_prefix_value_bound(ds, b, km);
        lemma_pow_succ(b as int, km);
        lemma_pow_positive(b as int, km);
        let pr = prefix_value(ds, b, km);
        let pk = pow(b as int, km);
        let x = ds[km as int];
        assert(0 <= pr + x * pk < b * pk) by (nonlinear_arith)
            requires
                0 <= pr < pk,
                0 <= x < b,
        ;
    }
}

/// The numeral of `v` has digits below the base, at least `min` of them,
/// and its value is `v`.
pub proof fn lemma_digits(v: nat, b: nat, min: nat)
    requires
        b >= 2,
    ensures
        digits(v, b, min).len() >= min,
        forall|j: int| 0 <= j < digits(v, b, min).len() ==> #[trigger] digits(v, b, min)[j] < b,
        prefix_value(digits(v, b, min), b, digits(v, b, min).len()) == v,
    decreases v, min,
{
    if !(v == 0 && min == 0) {
        let m = if min > 0 { (min - 1) as nat } else { 0 };
        if v > 0 {
            lemma_div_is_strictly_smaller(v as int, b as int);
        } else {
            assert(v / b == 0);
        }
        lemma_digits(v / b, b, m);
        let rest = digits(v / b, b, m);
        let ds = digits(v, b, min);
        assert(ds == seq![v % b] + rest);
        lemma_prefix_value_cons(v % b, rest, b, rest.len());
        lemma_fundamental_div_mod(v as int, b as int);
        assert forall|j: int| 0 <= j < ds.len() implies #[trigger] ds[j] < b by {
            if j > 0 {
                assert(ds[j] == rest[j - 1]);
            }
        }
    }
}

/// A value of at least `b` to the power `min - 1` already has `min` digits,
/// so asking for them changes nothing.
pub proof fn lemma_digits_min(v: nat, b: nat, min: nat)
    requires
        b >= 2,
        min >= 1,
        v >= pow(b as int, (min - 1) as nat),
    ensures
        digits(v, b, min) == digits(v, b, 0),
    decreases min,
{
    lemma_pow_positive(b as int, (min - 1) as nat);
    if min > 1 {
        let m = (min - 2) as nat;
        lemma_pow_succ(b as int, m);
        lemma_pow_positive(b as int, m);
        let q = pow(b as int, m);
        let vi = v as int;
        let bi = b as int;
        lemma_fundamental_div_mod(vi, bi);
        assert(vi / bi >= q) by (nonlinear_arith)
            requires
                vi >= bi * q,
                vi == bi * (vi / bi) + vi % bi,
                0 <= vi % bi < bi,
        ;
        lemma_digits_min(v / b, b, (min - 1) as nat);
    }
}

/// Relies on num::pow: it raises `base` to the power `exp` by repeated
/// squaring, and no intermediate product exceeds the result.
#[verifier::external_body]
pub(crate) fn power(base: u128, exp: usize) -> (r: u128)
    requires
        pow(base as int, exp as nat) <= u128::MAX,
    ensures
        r == pow(base as int, exp as nat),
{
    num::pow(base, exp)
}

} // verus!
