//! The codec's configuration: alphabet, pad, and what is derived from them.
use crate::codec::AlphaId;
use crate::integer::UnsignedInteger;
use core::marker::PhantomData;
use vstd::arithmetic::div_mod::lemma_fundamental_div_mod;
use vstd::arithmetic::power::pow;
use vstd::arithmetic::power2::{lemma2_to64_rest, lemma_pow2, lemma_pow2_adds};
use vstd::prelude::*;

verus! {

/// What can go wrong when a codec runs on a value.
#[derive(Debug, PartialEq, Eq, Structural)]
pub enum AlphaIdError {
    InvalidNumber,
    Overflow,
    UnexpectedChar,
}

/// The symbol for digit `i` of the default alphabet: the lowercase letters,
/// the digits, the uppercase letters, `-` and `_`, in that order.
pub open spec fn default_symbol(i: int) -> u8 {
    if i < 26 {
        (97 + i) as u8
    } else if i < 36 {
        (48 + i - 26) as u8
    } else if i < 62 {
        (65 + i - 36) as u8
    } else if i == 62 {
        45u8
    } else {
        95u8
    }
}

/// The default alphabet,
/// `abcdefghijklmnopqrstuvwxyz0123456789ABCDEFGHIJKLMNOPQRSTUVWXYZ-_`.
pub open spec fn default_symbols() -> Seq<u8> {
    Seq::new(64, |i: int| default_symbol(i))
}

/// Whether an alphabet can configure a codec: more than sixteen symbols, no
/// symbol twice.
pub open spec fn valid_alphabet(s: Seq<u8>) -> bool {
    s.len() > 16 && s.no_duplicates()
}

/// The default alphabet is a valid one.
pub proof fn lemma_default_symbols_valid()
    ensures
        valid_alphabet(default_symbols()),
{
    let s = default_symbols();
    assert forall|i: int, j: int| 0 <= i < s.len() && 0 <= j < s.len() && i != j implies s[i]
        != s[j] by {
        assert(s[i] == default_symbol(i));
        assert(s[j] == default_symbol(j));
    }
}

fn default_alphabet() -> (r: Vec<u8>)
    ensures
        r@ == default_symbols(),
{
    let mut r: Vec<u8> = Vec::new();
    // 'a' to 'z'
    let mut c: u8 = 97;
    while c <= 122
        invariant
            97 <= c <= 122 + 1,
            r@.len() == c - 97,
            forall|i: int| 0 <= i < r@.len() ==> r@[i] == default_symbol(i),
        decreases 122 + 1 - c,
    {
        r.push(c);
        c = c + 1;
    }
    // '0' to '9'
    c = 48;
    while c <= 57
        invariant
            48 <= c <= 57 + 1,
            r@.len() == 26 + c - 48,
            forall|i: int| 0 <= i < r@.len() ==> r@[i] == default_symbol(i),
        decreases 57 + 1 - c,
    {
        r.push(c);
        c = c + 1;
    }
    // 'A' to 'Z'
    c = 65;
    while c <= 90
        invariant
            65 <= c <= 90 + 1,
            r@.len() == 36 + c - 65,
            forall|i: int| 0 <= i < r@.len() ==> r@[i] == default_symbol(i),
        decreases 90 + 1 - c,
    {
        r.push(c);
        c = c + 1;
    }
    // '-' and '_'
    r.push(45);
    r.push(95);
    assert(r@ =~= default_symbols());
    r
}

/// The largest `k` with `base` to the power `k` at most `max`.
pub(crate) fn max_exponent(base: u128, max: u128) -> (k: u32)
    requires
        base >= 2,
        max >= 1,
    ensures
        pow(base as int, k as nat) <= max,
        max < pow(base as int, (k + 1) as nat),
{
    let mut k: u32 = 0;
    let mut p: u128 = 1;
    proof {
        reveal(pow);
    }
    while p <= max / base
        invariant
            base >= 2,
            p == pow(base as int, k as nat),
            1 <= p <= max,
            k <= 128,
            pow(2, k as nat) <= p,
        decreases max - p,
    {
        proof {
            crate::numeral::lemma_pow_succ(base as int, k as nat);
            crate::numeral::lemma_pow_succ(2, k as nat);
            assert(p * base <= max) by (nonlinear_arith)
                requires
                    p <= max / base,
                    base >= 2,
            ;
            assert(p * 2 <= p * base) by (nonlinear_arith)
                requires
                    base >= 2,
                    p >= 1,
            ;
            if k == 128 {
                lemma_pow2(128);
                lemma_pow2_adds(64, 64);
                lemma2_to64_rest();
            }
        }
        p = p * base;
        k = k + 1;
    }
    proof {
        crate::numeral::lemma_pow_succ(base as int, k as nat);
        lemma_fundamental_div_mod(max as int, base as int);
        assert(max < p * base) by (nonlinear_arith)
            requires
                p > max / base,
                max == base * (max / base) + max % base,
                0 <= max % base < base,
        ;
    }
    k
}

/// A builder for an `AlphaId`.
pub struct Builder<T: UnsignedInteger = u128> {
    chars: Option<Vec<u8>>,
    pad: Option<u32>,
    _data: PhantomData<T>,
}

impl<T: UnsignedInteger> Default for Builder<T> {
    fn default() -> (r: Self)
        ensures
            r.alphabet() == default_symbols(),
            r.pad_len() == 1,
    {
        Builder { chars: None, pad: None, _data: PhantomData }
    }
}

impl<T: UnsignedInteger> Builder<T> {
    /// The alphabet that the codec will have: the one that was set, else the
    /// default one.
    pub closed spec fn alphabet(&self) -> Seq<u8> {
        match self.chars {
            Some(c) => c@,
            None => default_symbols(),
        }
    }

    /// The pad that the codec will have: the one that was set, else 1.
    pub closed spec fn pad_len(&self) -> nat {
        match self.pad {
            Some(p) => p as nat,
            None => 1,
        }
    }

    /// Constructs a new `Builder`, with the default alphabet and a pad of 1.
    pub fn new() -> (r: Self)
        ensures
            r.alphabet() == default_symbols(),
            r.pad_len() == 1,
    {
        Self::default()
    }

    /// Sets the alphabet, which must have more than sixteen symbols.
    pub fn chars(self, chars: Vec<u8>) -> (r: Self)
        requires
            chars@.len() > 16,
        ensures
            r.alphabet() == chars@,
            r.pad_len() == self.pad_len(),
    {
        Builder { chars: Some(chars), pad: self.pad, _data: PhantomData }
    }

    /// Sets the pad, the minimum length of an encoding, which must be at
    /// least 1.
    pub fn pad(self, pad: u32) -> (r: Self)
        requires
            pad > 0,
        ensures
            r.pad_len() == pad,
            r.alphabet() == self.alphabet(),
    {
        Builder { chars: self.chars, pad: Some(pad), _data: PhantomData }
    }

    /// Consumes the builder, returning an `AlphaId`. The alphabet must not
    /// hold a symbol twice.
    pub fn build(self) -> (r: AlphaId<T>)
        requires
            valid_alphabet(self.alphabet()),
            self.pad_len() >= 1,
        ensures
            r.wf(),
            r.symbols() == self.alphabet(),
            r.pad_len() == self.pad_len(),
    {
        let chars = match self.chars {
            Some(c) => c,
            None => default_alphabet(),
        };
        let pad = match self.pad {
            Some(p) => p,
            None => 1,
        };
        AlphaId::from_alphabet(chars, pad)
    }
}

} // verus!
