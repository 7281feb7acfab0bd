//! Encoding integers as symbol strings and decoding them back.
use crate::config::{default_symbols, valid_alphabet, AlphaIdError, Builder};
use crate::integer::UnsignedInteger;
use crate::numeral::{digits, power};
use core::marker::PhantomData;
use vstd::arithmetic::power::pow;
use vstd::prelude::*;

verus! {

/// What encoding adds to a value before writing it out: nothing without
/// padding, else `b` to the power `pad - 1`, so that the numeral reaches
/// `pad` digits and its digit at position `pad - 1` is shifted by one.
pub open spec fn offset(b: nat, pad: nat) -> nat {
    if pad > 1 {
        pow(b as int, (pad - 1) as nat) as nat
    } else {
        0
    }
}

/// The digits that encode `n`: the base-`b` numeral of `n` plus the offset,
/// least significant first, with at least `pad` digits.
pub open spec fn encoded_digits(n: nat, b: nat, pad: nat) -> Seq<nat> {
    digits(n + offset(b, pad), b, pad)
}

/// Digits written out as symbols of the alphabet `syms`.
pub open spec fn spell(syms: Seq<u8>, ds: Seq<nat>) -> Seq<u8> {
    ds.map_values(|d: nat| syms[d as int])
}

/// The digit value of the symbol `c` in the alphabet `syms`.
pub open spec fn digit_of(syms: Seq<u8>, c: u8) -> nat {
    choose|i: nat| i < syms.len() && syms[i as int] == c
}

/// The digit values of the bytes of a string.
pub open spec fn digit_values(syms: Seq<u8>, bytes: Seq<u8>) -> Seq<nat> {
    bytes.map_values(|c: u8| digit_of(syms, c))
}

/// How many bytes at the start of `bytes` are symbols of `syms`.
pub open spec fn known_len(syms: Seq<u8>, bytes: Seq<u8>) -> nat
    decreases bytes.len(),
{
    if bytes.len() == 0 || !syms.contains(bytes[0]) {
        0
    } else {
        1 + known_len(syms, bytes.drop_first())
    }
}

/// Where decoding stands after a prefix of the digits: the value gathered so
/// far, whether the shifted digit of the padding is still to be found, and
/// the last digit read.
pub struct DecodeState {
    pub acc: int,
    pub unpad: bool,
    pub prev: nat,
}

/// Decoding reads digit `x` at position `i`. Until the shifted digit is
/// found, each position from `pad - 1` on takes it back by one: a non-zero
/// digit is the shifted one, lowered by one. Past position `pad - 1` the
/// shift has carried over zero digits, so each such position first adds `b`
/// to the power `i - 1` times the complement of the previous digit. Every
/// digit then counts `b` to the power `i` times its value.
pub open spec fn decode_step(s: DecodeState, i: nat, x: nat, b: nat, pad: nat) -> DecodeState {
    if s.unpad && i + 1 >= pad {
        let rot = if i >= pad {
            pow(b as int, (i - 1) as nat) * (b - 1 - s.prev)
        } else {
            0
        };
        let y: nat = if x != 0 {
            (x - 1) as nat
        } else {
            0
        };
        DecodeState { acc: s.acc + rot + pow(b as int, i) * y, unpad: x == 0, prev: x }
    } else {
        DecodeState { acc: s.acc + pow(b as int, i) * x, unpad: s.unpad, prev: x }
    }
}

/// The state after decoding the first `k` digits of `xs`.
pub open spec fn decode_run(xs: Seq<nat>, b: nat, pad: nat, k: nat) -> DecodeState
    decreases k,
{
    if k == 0 {
        DecodeState { acc: 0, unpad: pad > 1, prev: 0 }
    } else {
        decode_step(decode_run(xs, b, pad, (k - 1) as nat), (k - 1) as nat, xs[k - 1], b, pad)
    }
}

/// The outcome of decoding `bytes` over the alphabet `syms` into a type whose
/// largest value is `max`. Bytes are read from the first on; the first that
/// is not a symbol stops decoding with `UnexpectedChar`, unless the value
/// gathered before it already exceeds `max`, which is an `Overflow`.
pub open spec fn decoded(syms: Seq<u8>, pad: nat, max: nat, bytes: Seq<u8>) -> Result<
    nat,
    AlphaIdError,
> {
    let k = known_len(syms, bytes);
    let acc = decode_run(digit_values(syms, bytes), syms.len(), pad, k).acc;
    if acc > max {
        Err(AlphaIdError::Overflow)
    } else if k < bytes.len() {
        Err(AlphaIdError::UnexpectedChar)
    } else {
        Ok(acc as nat)
    }
}

/// The leading bytes that `known_len` counts are symbols, and the byte after
/// them is not.
pub proof fn lemma_known_len(syms: Seq<u8>, bytes: Seq<u8>)
    ensures
        known_len(syms, bytes) <= bytes.len(),
        forall|j: int| 0 <= j < known_len(syms, bytes) ==> syms.contains(#[trigger] bytes[j]),
        known_len(syms, bytes) < bytes.len() ==> !syms.contains(
            bytes[known_len(syms, bytes) as int],
        ),
    decreases bytes.len(),
{
    if bytes.len() > 0 && syms.contains(bytes[0]) {
        lemma_known_len(syms, bytes.drop_first());
        assert forall|j: int| 0 <= j < known_len(syms, bytes) implies syms.contains(
            #[trigger] bytes[j],
        ) by {
            if j > 0 {
                assert(bytes[j] == bytes.drop_first()[j - 1]);
            }
        }
    }
}

/// In an alphabet without repeats, a symbol's digit value is its position.
pub proof fn lemma_digit_of(syms: Seq<u8>, t: int)
    requires
        syms.no_duplicates(),
        0 <= t < syms.len(),
    ensures
        digit_of(syms, syms[t]) == t,
{
    let c = syms[t];
    assert((t as nat) < syms.len() && syms[(t as nat) as int] == c);
}

/// A symbol's digit value is below the size of the alphabet.
pub proof fn lemma_digit_of_bound(syms: Seq<u8>, c: u8)
    requires
        syms.contains(c),
    ensures
        digit_of(syms, c) < syms.len(),
        syms[digit_of(syms, c) as int] == c,
{
    let t = choose|t: int| 0 <= t < syms.len() && syms[t] == c;
    assert((t as nat) < syms.len() && syms[(t as nat) as int] == c);
}

/// Decoding never takes value away: over digits below the base, the value
/// gathered after `i` digits is at most the value after `k >= i` digits.
pub proof fn lemma_decode_run_monotone(xs: Seq<nat>, b: nat, pad: nat, i: nat, k: nat)
    requires
        b >= 2,
        i <= k <= xs.len(),
        forall|j: int| 0 <= j < k ==> #[trigger] xs[j] < b,
    ensures
        decode_run(xs, b, pad, i).acc <= decode_run(xs, b, pad, k).acc,
        decode_run(xs, b, pad, k).prev < b,
        decode_run(xs, b, pad, k).acc >= 0,
    decreases k,
{
    if k > 0 {
        let km = (k - 1) as nat;
        if i < k {
            lemma_decode_run_monotone(xs, b, pad, i, km);
        } else {
            lemma_decode_run_monotone(xs, b, pad, km, km);
        }
        lemma_decode_step_grows(decode_run(xs, b, pad, km), km, xs[km as int], b, pad);
    }
}

/// One step of decoding adds a non-negative amount.
pub proof fn lemma_decode_step_grows(s: DecodeState, i: nat, x: nat, b: nat, pad: nat)
    requires
        b >= 2,
        s.prev < b,
    ensures
        decode_step(s, i, x, b, pad).acc >= s.acc,
        decode_step(s, i, x, b, pad).acc >= s.acc + (if s.unpad && i >= pad {
            pow(b as int, (i - 1) as nat) * (b - 1 - s.prev)
        } else {
            0
        }),
{
    vstd::arithmetic::power::lemma_pow_positive(b as int, i);
    vstd::arithmetic::power::lemma_pow_positive(b as int, (i - 1) as nat);
    let y: nat = if x != 0 { (x - 1) as nat } else { 0 };
    vstd::arithmetic::mul::lemma_mul_nonnegative(pow(b as int, i), y as int);
    vstd::arithmetic::mul::lemma_mul_nonnegative(pow(b as int, i), x as int);
    vstd::arithmetic::mul::lemma_mul_nonnegative(pow(b as int, (i - 1) as nat), b - 1 - s.prev);
}

/// Adds `x` times `base` to the power `i` to `n`, or returns `None` where the
/// sum would exceed `max`. `max_pow_i` is the largest exponent whose power of
/// `base` is at most `max`.
fn add_term(n: u128, base: u128, i: usize, x: u128, max: u128, max_pow_i: u32) -> (r: Option<u128>)
    requires
        n <= max,
        base >= 2,
        pow(base as int, max_pow_i as nat) <= max,
        max < pow(base as int, (max_pow_i + 1) as nat),
    ensures
        match r {
            Some(m) => m == n + pow(base as int, i as nat) * x && m <= max,
            None => n + pow(base as int, i as nat) * x > max,
        },
{
    if x == 0 {
        return Some(n);
    }
    if i > max_pow_i as usize {
        proof {
            vstd::arithmetic::power::lemma_pow_increases(base as nat, (max_pow_i + 1) as nat, i as nat);
            vstd::arithmetic::mul::lemma_mul_increases(x as int, pow(base as int, i as nat));
        }
        return None;
    }
    proof {
        vstd::arithmetic::power::lemma_pow_increases(base as nat, i as nat, max_pow_i as nat);
        vstd::arithmetic::power::lemma_pow_positive(base as int, i as nat);
    }
    let pw = power(base, i);
    if max / pw < x {
        proof {
            vstd::arithmetic::div_mod::lemma_fundamental_div_mod(max as int, pw as int);
            assert(pw * x > max) by (nonlinear_arith)
                requires
                    max / pw < x,
                    max == pw * (max / pw) + max % pw,
                    max % pw < pw,
            ;
        }
        return None;
    }
    assert(pw * x <= max) by (nonlinear_arith)
        requires
            x <= max / pw,
            pw > 0,
            max >= 0,
    ;
    let add = pw * x;
    if max - n < add {
        return None;
    }
    Some(n + add)
}

/// Used for encoding and decoding.
pub struct AlphaId<T: UnsignedInteger = u128> {
    chars: Vec<u8>,
    index: Vec<Option<usize>>,
    base: u128,
    pad: u32,
    max_pow_i: u32,
    _data: PhantomData<T>,
}

impl<T: UnsignedInteger> AlphaId<T> {
    /// The alphabet: the symbol for each digit value.
    pub closed spec fn symbols(&self) -> Seq<u8> {
        self.chars@
    }

    /// The minimum length of an encoding.
    pub closed spec fn pad_len(&self) -> nat {
        self.pad as nat
    }

    /// The configuration is consistent: a valid alphabet, a positive pad, a
    /// lookup table that inverts the alphabet, and the largest exponent of
    /// the base whose power fits in `T`.
    pub closed spec fn wf(&self) -> bool {
        &&& valid_alphabet(self.chars@)
        &&& self.base == self.chars@.len()
        &&& self.pad >= 1
        &&& self.index@.len() == 256
        &&& forall|c: int|
            0 <= c < 256 && (#[trigger] self.index@[c]) is Some ==> {
                &&& self.index@[c]->Some_0 < self.chars@.len()
                &&& self.chars@[self.index@[c]->Some_0 as int] == c
            }
        &&& forall|t: int|
            0 <= t < self.chars@.len() ==> self.index@[#[trigger] self.chars@[t] as int] == Some(
                t as usize,
            )
        &&& pow(self.base as int, self.max_pow_i as nat) <= T::max_nat()
        &&& T::max_nat() < pow(self.base as int, (self.max_pow_i + 1) as nat)
    }

    /// What a well-formed configuration guarantees of its alphabet and pad.
    pub proof fn lemma_wf(&self)
        requires
            self.wf(),
        ensures
            valid_alphabet(self.symbols()),
            self.pad_len() >= 1,
    {
    }

    /// The encoding of `n`.
    pub open spec fn encoding(&self, n: nat) -> Seq<u8> {
        spell(self.symbols(), encoded_digits(n, self.symbols().len(), self.pad_len()))
    }

    /// The outcome of decoding `bytes`.
    pub open spec fn decoding(&self, bytes: Seq<u8>) -> Result<nat, AlphaIdError> {
        decoded(self.symbols(), self.pad_len(), T::max_nat(), bytes)
    }

    /// Returns a builder to configure a new `AlphaId`.
    pub fn builder() -> (r: Builder<T>)
        ensures
            r.alphabet() == default_symbols(),
            r.pad_len() == 1,
    {
        Builder::new()
    }

    /// Creates a new `AlphaId` with the default alphabet and a pad of 1.
    pub fn new() -> (r: Self)
        ensures
            r.wf(),
            r.symbols() == default_symbols(),
            r.pad_len() == 1,
    {
        proof {
            crate::config::lemma_default_symbols_valid();
        }
        Builder::new().build()
    }

    /// Builds a codec over the alphabet `chars` with minimum length `pad`.
    pub(crate) fn from_alphabet(chars: Vec<u8>, pad: u32) -> (r: Self)
        requires
            valid_alphabet(chars@),
            pad >= 1,
        ensures
            r.wf(),
            r.symbols() == chars@,
            r.pad_len() == pad,
    {
        let mut index: Vec<Option<usize>> = Vec::new();
        while index.len() < 256
            invariant
                index@.len() <= 256,
                forall|c: int| 0 <= c < index@.len() ==> (#[trigger] index@[c]) is None,
            decreases 256 - index@.len(),
        {
            index.push(None);
        }
        let mut j: usize = 0;
        while j < chars.len()
            invariant
                valid_alphabet(chars@),
                j <= chars@.len(),
                index@.len() == 256,
                forall|c: int|
                    0 <= c < 256 && (#[trigger] index@[c]) is Some ==> {
                        &&& index@[c]->Some_0 < j
                        &&& chars@[index@[c]->Some_0 as int] == c
                    },
                forall|t: int| 0 <= t < j ==> index@[#[trigger] chars@[t] as int] == Some(t as usize),
            decreases chars@.len() - j,
        {
            index.set(chars[j] as usize, Some(j));
            j = j + 1;
        }
        let base = chars.len() as u128;
        let max_pow_i = crate::config::max_exponent(base, T::max_u128());
        AlphaId { chars, index, base, pad, max_pow_i, _data: PhantomData }
    }

    /// Encodes `n`: the numeral of `n` plus the offset, least significant
    /// digit first, written in the alphabet and at least `pad` symbols long.
    pub fn encode(&self, n: T) -> (r: Result<Vec<u8>, AlphaIdError>)
        requires
            self.wf(),
        ensures
            r matches Ok(v) && v@ == self.encoding(n.to_nat()),
    {
        let ghost b = self.base as nat;
        let ghost p = self.pad as nat;
        let ghost target = encoded_digits(n.to_nat(), b, p);
        let mut n: u128 = n.to_u128();
        let ghost mut w: nat = (n + offset(b, p)) as nat;
        let ghost mut emitted: Seq<nat> = Seq::empty();
        let mut out: Vec<u8> = Vec::new();
        proof {
            vstd::arithmetic::power::lemma_pow_positive(b as int, (p - 1) as nat);
            let s = Seq::<nat>::empty() + digits(w, b, p);
            assert(s =~= digits(w, b, p));
        }
        loop
            invariant
                self.wf(),
                b == self.base,
                p == self.pad,
                out@.len() == emitted.len(),
                out@ == spell(self.chars@, emitted),
                target == emitted + digits(w, b, if emitted.len() < p { (p - emitted.len()) as nat } else { 0 }),
                w == n + (if p > 1 && emitted.len() < p { pow(b as int, (p - 1 - emitted.len()) as nat) } else { 0 }),
                emitted.len() >= 1 ==> n < u128::MAX,
            ensures
                out@ == spell(self.chars@, target),
            decreases (if out@.len() < p { p - out@.len() } else { 0 }), n,
        {
            let i = out.len();
            if self.pad > 1 && i == (self.pad - 1) as usize {
                n = n + 1;
            }
            if n == 0 {
                if i < self.pad as usize {
                    proof {
                        let e = (p - 1 - i) as nat;
                        if p > 1 && e >= 1 {
                            crate::numeral::lemma_add_power_shift(0, b, e);
                        }
                        let rest = digits(w / b, b, (p - i - 1) as nat);
                        assert(digits(w, b, (p - i) as nat) == seq![w % b] + rest);
                        assert(target =~= emitted.push(0) + rest);
                        w = w / b;
                        emitted = emitted.push(0);
                    }
                    out.push(self.chars[0]);
                    proof {
                        assert(out@ =~= spell(self.chars@, emitted));
                    }
                    continue;
                }
                proof {
                    assert(target =~= emitted);
                }
                break;
            }
            let a = n % self.base;
            proof {
                let m = if i < p { (p - i) as nat } else { 0 };
                if p > 1 && i + 1 < p {
                    crate::numeral::lemma_add_power_shift(n as nat, b, (p - 1 - i) as nat);
                } else {
                    vstd::arithmetic::power::lemma_pow0(b as int);
                    assert(w == n);
                }
                assert(a < self.chars@.len());
                let rest = digits(w / b, b, if m > 0 { (m - 1) as nat } else { 0 });
                assert(digits(w, b, m) == seq![w % b] + rest);
                assert(target =~= emitted.push(a as nat) + rest);
                w = w / b;
                emitted = emitted.push(a as nat);
                vstd::arithmetic::div_mod::lemma_div_is_strictly_smaller(n as int, b as int);
            }
            out.push(self.chars[a as usize]);
            n = n / self.base;
            proof {
                assert(out@ =~= spell(self.chars@, emitted));
            }
        }
        Ok(out)
    }

    /// Decodes `v` back into the integer that it encodes, or reports the
    /// first byte that is not a symbol, or a value beyond `T`.
    pub fn decode(&self, v: &[u8]) -> (r: Result<T, AlphaIdError>)
        requires
            self.wf(),
        ensures
            match self.decoding(v@) {
                Ok(m) => r matches Ok(t) && t.to_nat() == m,
                Err(e) => r == Err::<T, AlphaIdError>(e),
            },
    {
        let ghost syms = self.chars@;
        let ghost b = self.base as nat;
        let ghost p = self.pad as nat;
        let ghost xs = digit_values(syms, v@);
        let max = T::max_u128();
        let mut i: usize = 0;
        let mut n: u128 = 0;
        let mut unpad = self.pad > 1;
        let mut prev: u128 = 0;
        let top = self.base - 1;
        proof {
            lemma_known_len(syms, v@);
        }
        while i < v.len()
            invariant
                self.wf(),
                syms == self.chars@,
                b == self.base,
                p == self.pad,
                xs == digit_values(syms, v@),
                max == T::max_nat(),
                top == b - 1,
                i <= v@.len(),
                forall|j: int| 0 <= j < i ==> syms.contains(#[trigger] v@[j]),
                decode_run(xs, b, p, i as nat) == (DecodeState {
                    acc: n as int,
                    unpad: unpad,
                    prev: prev as nat,
                }),
                prev < b,
                n <= max,
                known_len(syms, v@) <= v@.len(),
                forall|j: int| 0 <= j < known_len(syms, v@) ==> syms.contains(#[trigger] v@[j]),
                known_len(syms, v@) < v@.len() ==> !syms.contains(v@[known_len(syms, v@) as int]),
            decreases v@.len() - i,
        {
            let ghost before = decode_run(xs, b, p, i as nat);
            match self.index[v[i] as usize] {
                Some(t) => {
                    proof {
                        lemma_digit_of(syms, t as int);
                        assert(xs[i as int] == t);
                        assert forall|j: int| 0 <= j < i + 1 implies syms.contains(
                            #[trigger] v@[j],
                        ) by {
                            if j == i {
                                assert(syms[t as int] == v@[j]);
                            }
                        }
                        assert forall|j: int| 0 <= j < i + 1 implies #[trigger] xs[j] < b by {
                            lemma_digit_of_bound(syms, v@[j]);
                        }
                        if known_len(syms, v@) <= i {
                            assert(syms.contains(v@[known_len(syms, v@) as int]));
                        }
                        lemma_decode_step_grows(before, i as nat, t as nat, b, p);
                        assert forall|j: int| 0 <= j < known_len(syms, v@) implies #[trigger] xs[j]
                            < b by {
                            lemma_digit_of_bound(syms, v@[j]);
                        }
                        lemma_decode_run_monotone(
                            xs,
                            b,
                            p,
                            (i + 1) as nat,
                            known_len(syms, v@),
                        );
                    }
                    let mut x = t as u128;
                    if unpad && i as u128 + 1 >= self.pad as u128 {
                        if i as u128 >= self.pad as u128 {
                            match add_term(n, self.base, i - 1, top - prev, max, self.max_pow_i) {
                                Some(m) => n = m,
                                None => return Err(AlphaIdError::Overflow),
                            }
                        }
                        if x != 0 {
                            unpad = false;
                            x = x - 1;
                        }
                    }
                    prev = t as u128;
                    if x != 0 {
                        match add_term(n, self.base, i, x, max, self.max_pow_i) {
                            Some(m) => n = m,
                            None => return Err(AlphaIdError::Overflow),
                        }
                    }
                    proof {
                        if x == 0 {
                            vstd::arithmetic::mul::lemma_mul_by_zero_is_zero(pow(b as int, i as nat));
                        }
                        assert(decode_run(xs, b, p, (i + 1) as nat) == decode_step(
                            before,
                            i as nat,
                            xs[i as int],
                            b,
                            p,
                        ));
                    }
                },
                None => {
                    proof {
                        if syms.contains(v@[i as int]) {
                            let t = choose|t: int| 0 <= t < syms.len() && syms[t] == v@[i as int];
                            assert(self.index@[syms[t] as int] == Some(t as usize));
                        }
                        if known_len(syms, v@) > i {
                            assert(syms.contains(v@[i as int]));
                        }
                    }
                    return Err(AlphaIdError::UnexpectedChar);
                },
            }
            i = i + 1;
        }
        Ok(T::from_u128(n))
    }
}

} // verus!
