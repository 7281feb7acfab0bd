//! Laws that relate encoding and decoding.
use crate::codec::{
    decode_run, decode_step, digit_values, encoded_digits, known_len, lemma_digit_of,
    lemma_digit_of_bound, lemma_known_len, offset, spell, AlphaId,
};
use crate::config::AlphaIdError;
use crate::integer::UnsignedInteger;
use crate::numeral::{
    lemma_digits, lemma_digits_min, lemma_pow_succ, lemma_prefix_value_bound, prefix_value,
};
use vstd::arithmetic::power::{lemma_pow0, lemma_pow_increases, lemma_pow_positive, pow};
use vstd::prelude::*;

verus! {

/// The value that decoding has gathered after `k` digits, against the value
/// of those digits as a numeral: equal before the pad's last position;
/// after it, less the offset once the shifted digit is found.
proof fn lemma_decode_run_value(xs: Seq<nat>, b: nat, p: nat, k: nat)
    requires
        b >= 2,
        p >= 1,
        k <= xs.len(),
        forall|j: int| 0 <= j < k ==> #[trigger] xs[j] < b,
    ensures
        decode_run(xs, b, p, k).prev == (if k >= 1 { xs[k - 1] } else { 0 }),
        p == 1 ==> !decode_run(xs, b, p, k).unpad && decode_run(xs, b, p, k).acc == prefix_value(
            xs,
            b,
            k,
        ),
        p > 1 && k < p ==> decode_run(xs, b, p, k).unpad && decode_run(xs, b, p, k).acc
            == prefix_value(xs, b, k),
        p > 1 && k >= p && decode_run(xs, b, p, k).unpad ==> {
            &&& decode_run(xs, b, p, k).acc == prefix_value(xs, b, k) + pow(
                b as int,
                (k - 1) as nat,
            ) - pow(b as int, (p - 1) as nat)
            &&& prefix_value(xs, b, k) == prefix_value(xs, b, (p - 1) as nat)
        },
        p > 1 && k >= p && !decode_run(xs, b, p, k).unpad ==> decode_run(xs, b, p, k).acc
            == prefix_value(xs, b, k) - pow(b as int, (p - 1) as nat),
    decreases k,
{
    if k > 0 {
        let i = (k - 1) as nat;
        lemma_decode_run_value(xs, b, p, i);
        let s = decode_run(xs, b, p, i);
        let x = xs[i as int];
        let pv = prefix_value(xs, b, i);
        let pi = pow(b as int, i);
        assert(decode_run(xs, b, p, k) == decode_step(s, i, x, b, p));
        assert(prefix_value(xs, b, k) == pv + x * pi);
        if s.unpad && i + 1 >= p {
            let y: int = if x != 0 { x - 1 } else { 0 };
            assert(x * pi == pi * y + (if x != 0 { pi } else { 0 })) by (nonlinear_arith)
                requires
                    y == (if x != 0 { x - 1 } else { 0 }),
            ;
            if x == 0 {
                assert(y * pi == 0);
            }
            if i + 1 == p {
                lemma_pow0(b as int);
                assert(s.acc == pv);
            } else {
                lemma_pow_succ(b as int, (i - 1) as nat);
                let q = pow(b as int, (i - 1) as nat);
                assert(q * (b - 1 - 0) + q == b * q) by (nonlinear_arith);
                assert(s.prev == 0);
                assert(s.acc == pv + q - pow(b as int, (p - 1) as nat));
            }
        }
    }
}

/// A string of symbols decodes to the value of its digits as a numeral,
/// least significant first, less the offset that encoding adds: nothing
/// without padding, else the base to the power `pad - 1`. This holds where
/// the numeral's value is at least that offset, as it is for every string
/// that encoding produces; the result is an overflow where the difference
/// exceeds `T`.
pub proof fn lemma_decode_value<T: UnsignedInteger>(a: AlphaId<T>, bytes: Seq<u8>)
    requires
        a.wf(),
        forall|j: int| 0 <= j < bytes.len() ==> a.symbols().contains(#[trigger] bytes[j]),
        prefix_value(digit_values(a.symbols(), bytes), a.symbols().len(), bytes.len()) >= offset(
            a.symbols().len(),
            a.pad_len(),
        ),
    ensures
        ({
            let v = prefix_value(digit_values(a.symbols(), bytes), a.symbols().len(), bytes.len())
                - offset(a.symbols().len(), a.pad_len());
            a.decoding(bytes) == if v <= T::max_nat() {
                Ok::<nat, AlphaIdError>(v as nat)
            } else {
                Err::<nat, AlphaIdError>(AlphaIdError::Overflow)
            }
        }),
{
    a.lemma_wf();
    let syms = a.symbols();
    let b = syms.len();
    let p = a.pad_len();
    let xs = digit_values(syms, bytes);
    let len = bytes.len();
    lemma_known_len(syms, bytes);
    if known_len(syms, bytes) < len {
        assert(syms.contains(bytes[known_len(syms, bytes) as int]));
    }
    assert forall|j: int| 0 <= j < len implies #[trigger] xs[j] < b by {
        lemma_digit_of_bound(syms, bytes[j]);
    }
    assert(known_len(syms, bytes) == len);
    lemma_pow_positive(b as int, (p - 1) as nat);
    lemma_decode_run_value(xs, b, p, len);
    let s = decode_run(xs, b, p, len);
    if p > 1 && s.unpad {
        if len < p {
            lemma_prefix_value_bound(xs, b, len);
            lemma_pow_increases(b, len, (p - 1) as nat);
        } else {
            lemma_prefix_value_bound(xs, b, (p - 1) as nat);
        }
        assert(false);
    }
}

/// Every string that encoding produces decodes back to the integer.
pub proof fn lemma_round_trip<T: UnsignedInteger>(a: AlphaId<T>, n: nat)
    requires
        a.wf(),
        n <= T::max_nat(),
    ensures
        a.decoding(a.encoding(n)) == Ok::<nat, AlphaIdError>(n),
{
    a.lemma_wf();
    let syms = a.symbols();
    let b = syms.len();
    let p = a.pad_len();
    let v = n + offset(b, p);
    let ds = encoded_digits(n, b, p);
    let bytes = a.encoding(n);
    lemma_digits(v, b, p);
    assert(bytes == spell(syms, ds));
    let xs = digit_values(syms, bytes);
    assert forall|j: int| 0 <= j < bytes.len() implies syms.contains(#[trigger] bytes[j])
        && xs[j] == ds[j] by {
        lemma_digit_of(syms, ds[j] as int);
    }
    assert(xs =~= ds);
    lemma_decode_value(a, bytes);
}

/// Encoding with a pad `p > 1` writes the same symbols as encoding, over the
/// same alphabet with a pad of 1, the integer plus the base to the power
/// `p - 1`.
pub proof fn lemma_pad_shift<T: UnsignedInteger, U: UnsignedInteger>(
    a: AlphaId<T>,
    c: AlphaId<U>,
    n: nat,
)
    requires
        a.wf(),
        c.wf(),
        a.symbols() == c.symbols(),
        a.pad_len() == 1,
        c.pad_len() > 1,
    ensures
        c.encoding(n) == a.encoding(n + offset(a.symbols().len(), c.pad_len())),
{
    a.lemma_wf();
    let b = a.symbols().len();
    let p = c.pad_len();
    lemma_pow_positive(b as int, (p - 1) as nat);
    let v = n + offset(b, p);
    lemma_pow0(b as int);
    lemma_digits_min(v as nat, b, p);
    lemma_digits_min(v as nat, b, 1);
}

/// An encoding is at least `pad` symbols long.
pub proof fn lemma_encoding_len<T: UnsignedInteger>(a: AlphaId<T>, n: nat)
    requires
        a.wf(),
    ensures
        a.encoding(n).len() >= a.pad_len(),
{
    a.lemma_wf();
    lemma_digits(n + offset(a.symbols().len(), a.pad_len()), a.symbols().len(), a.pad_len());
}

/// A string with a byte outside the alphabet never decodes; one of symbols
/// only whose decoded value exceeds `T` is an overflow.
pub proof fn lemma_rejects<T: UnsignedInteger>(a: AlphaId<T>, bytes: Seq<u8>)
    requires
        a.wf(),
    ensures
        (exists|j: int| 0 <= j < bytes.len() && !a.symbols().contains(#[trigger] bytes[j]))
            ==> a.decoding(bytes) is Err,
        (forall|j: int| 0 <= j < bytes.len() ==> a.symbols().contains(#[trigger] bytes[j]))
            && decode_run(
            digit_values(a.symbols(), bytes),
            a.symbols().len(),
            a.pad_len(),
            bytes.len(),
        ).acc > T::max_nat() ==> a.decoding(bytes) == Err::<nat, AlphaIdError>(
            AlphaIdError::Overflow,
        ),
{
    let syms = a.symbols();
    lemma_known_len(syms, bytes);
    if forall|j: int| 0 <= j < bytes.len() ==> syms.contains(#[trigger] bytes[j]) {
        if known_len(syms, bytes) < bytes.len() {
            assert(syms.contains(bytes[known_len(syms, bytes) as int]));
        }
    }
}

} // verus!
