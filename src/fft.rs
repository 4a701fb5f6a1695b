//! Index logic of the in-place radix-2 FFT: power-of-two sizes, bit reversal, the
//! bit-reversal permutation that turns the recursive transform into a bottom-up one,
//! and the zero padding that brings a frame to a transformable length.
use vstd::arithmetic::div_mod::{
    lemma_basic_div, lemma_div_denominator, lemma_fundamental_div_mod,
    lemma_fundamental_div_mod_converse, lemma_mod_multiples_basic,
};
use vstd::arithmetic::power2::{
    lemma2_to64, lemma_pow2_pos, lemma_pow2_strictly_increases,
    lemma_pow2_subtracts, lemma_pow2_unfold, pow2,
};
use vstd::bits::{
    lemma_u64_pow2_no_overflow, lemma_u64_shr_is_div, lemma_usize_pow2_no_overflow,
    lemma_usize_shl_is_mul, lemma_usize_shr_is_div,
};
use vstd::std_specs::bits::{axiom_u64_trailing_zeros, u64_trailing_zeros};
use vstd::prelude::*;

use crate::complex::{is_default, Complex};

verus! {

/// Number of halvings that bring `n` down to 1 (floor of the base-2 logarithm).
pub open spec fn log2(n: nat) -> nat
    decreases n,
{
    if n <= 1 {
        0
    } else {
        1 + log2(n / 2)
    }
}

/// `n` is a power of two, `2^log2(n)`.
pub open spec fn power_of_two(n: nat) -> bool {
    n > 0 && pow2(log2(n)) == n
}

proof fn lemma_power_of_two_halves(n: nat)
    requires
        n > 1,
    ensures
        power_of_two(n) <==> (n % 2 == 0 && power_of_two(n / 2)),
{
    lemma_pow2_unfold(log2(n));
    lemma_pow2_pos(log2(n / 2));
}

proof fn lemma_low_bit_test(x: usize)
    requires
        x > 0,
    ensures
        ((x & ((x - 1) as usize)) == 0) <==> power_of_two(x as nat),
    decreases x,
{
    if x == 1 {
        assert(1usize & 0usize == 0) by (bit_vector);
        lemma2_to64();
    } else if x % 2 == 1 {
        assert(x % 2 == 1 && x > 1 ==> (x & ((x - 1) as usize)) == ((x - 1) as usize)) by (bit_vector);
        lemma_power_of_two_halves(x as nat);
    } else {
        let h = x / 2;
        assert(x % 2 == 0 && x >= 2 && h == x / 2 ==> (((x & ((x - 1) as usize)) == 0) <==> ((h & ((h - 1) as usize))
            == 0))) by (bit_vector);
        lemma_low_bit_test(h);
        lemma_power_of_two_halves(x as nat);
    }
}

/// Whether `x` is a power of two; zero is not.
pub fn is_power_of_two(x: usize) -> (r: bool)
    ensures
        r == power_of_two(x as nat),
{
    match x {
        0 => false,
        x => {
            proof {
                lemma_low_bit_test(x);
            }
            (x > 0) && ((x & (x - 1)) == 0)
        },
    }
}

/// Bit `j` of `x`.
pub open spec fn bit(x: nat, j: nat) -> nat {
    (x / pow2(j)) % 2
}

/// The low `n` bits of `x`, read in reverse order: bit `j` of `x` becomes bit
/// `n - 1 - j` of the result.
pub open spec fn reverse_bits(x: nat, n: nat) -> nat
    decreases n,
{
    if n == 0 {
        0
    } else {
        (x % 2) * pow2((n - 1) as nat) + reverse_bits(x / 2, (n - 1) as nat)
    }
}

proof fn lemma_pow2_bit(k: nat, j: nat)
    requires
        k < 64,
        j < 64,
    ensures
        ((pow2(k) as u64 >> j as u64) & 1u64 == 1u64) <==> j == k,
{
    lemma_u64_pow2_no_overflow(k);
    let x = pow2(k) as u64;
    lemma_u64_shr_is_div(x, j as u64);
    let y = x >> j as u64;
    assert(y & 1u64 == y % 2) by (bit_vector);
    assert(x as nat == pow2(k));
    lemma_pow2_pos(j);
    if j <= k {
        lemma_pow2_subtracts(j, k);
        assert(y as nat == pow2((k - j) as nat));
        if j < k {
            lemma_pow2_unfold((k - j) as nat);
        } else {
            lemma2_to64();
        }
    } else {
        lemma_pow2_strictly_increases(k, j);
        lemma_basic_div(pow2(k) as int, pow2(j) as int);
    }
}

proof fn lemma_trailing_zeros_of_pow2(k: nat)
    requires
        k < 64,
    ensures
        u64_trailing_zeros(pow2(k) as u64) == k,
{
    lemma_u64_pow2_no_overflow(k);
    let x = pow2(k) as u64;
    axiom_u64_trailing_zeros(x);
    let t = u64_trailing_zeros(x);
    lemma_pow2_bit(k, k);
    if t > k {
        assert((x >> k as u64) & 1u64 == 0u64);
    }
    if t < k {
        lemma_pow2_bit(k, t as nat);
    }
}

/// For a power of two, the index of its one set bit, that is its base-2 logarithm.
pub fn pow2_index(size: usize) -> (r: usize)
    requires
        power_of_two(size as nat),
    ensures
        r == log2(size as nat),
        pow2(r as nat) == size,
{
    proof {
        let k = log2(size as nat);
        lemma2_to64();
        if k > 64 {
            lemma_pow2_strictly_increases(64, k);
        }
        lemma_trailing_zeros_of_pow2(k);
    }
    (size as u64).trailing_zeros() as usize
}

proof fn lemma_reverse_bits_split(x: nat, i: nat, n: nat)
    requires
        i < n,
    ensures
        reverse_bits(x / pow2(i), (n - i) as nat) == bit(x, i) * pow2((n - 1 - i) as nat)
            + reverse_bits(x / pow2(i + 1), (n - i - 1) as nat),
{
    lemma_pow2_pos(i);
    lemma_pow2_unfold(i + 1);
    lemma_div_denominator(x as int, pow2(i) as int, 2);
}

proof fn lemma_set_bit(r: usize, k: usize)
    requires
        k < usize::BITS,
        r as nat % pow2(k as nat + 1) == 0,
    ensures
        (r | (1usize << k)) == r + pow2(k as nat),
        (1usize << k) == pow2(k as nat),
{
    lemma_usize_pow2_no_overflow(k as nat);
    lemma_usize_shl_is_mul(1, k);
    lemma_usize_shr_is_div(r, k);
    lemma_pow2_unfold(k as nat + 1);
    lemma_pow2_pos(k as nat);
    let q = r as nat / pow2(k as nat + 1);
    lemma_fundamental_div_mod(r as int, pow2(k as nat + 1) as int);
    assert(r as nat == q * pow2(k as nat + 1));
    assert(r as nat == (2 * q) * pow2(k as nat)) by (nonlinear_arith)
        requires
            r as nat == q * pow2(k as nat + 1),
            pow2(k as nat + 1) == 2 * pow2(k as nat),
    ;
    assert(r as nat / pow2(k as nat) == 2 * q) by (nonlinear_arith)
        requires
            r as nat == (2 * q) * pow2(k as nat),
            pow2(k as nat) > 0,
    ;
    let s = r >> k;
    assert(s & 1usize == s % 2) by (bit_vector);
    assert(k < usize::BITS && (r >> k) & 1usize == 0 ==> (r | (1usize << k)) == r + (1usize
        << k)) by (bit_vector);
}

proof fn lemma_multiple_of_pow2_step(r: nat, k: nat)
    requires
        r % pow2(k + 1) == 0,
    ensures
        r % pow2(k) == 0,
        (r + pow2(k)) % pow2(k) == 0,
{
    lemma_pow2_unfold(k + 1);
    lemma_pow2_pos(k);
    lemma_fundamental_div_mod(r as int, pow2(k + 1) as int);
    let q = r / pow2(k + 1);
    assert(r == (2 * q) * pow2(k)) by (nonlinear_arith)
        requires
            r == pow2(k + 1) * q,
            pow2(k + 1) == 2 * pow2(k),
    ;
    lemma_mod_multiples_basic(2 * q as int, pow2(k) as int);
    lemma_mod_multiples_basic(2 * q as int + 1, pow2(k) as int);
    assert((2 * q + 1) * pow2(k) == r + pow2(k)) by (nonlinear_arith)
        requires
            r == (2 * q) * pow2(k),
    ;
}

proof fn lemma_test_bit(x: usize, i: usize)
    requires
        i < usize::BITS,
    ensures
        ((x & (1usize << i)) != 0) <==> bit(x as nat, i as nat) == 1,
{
    lemma_usize_shr_is_div(x, i);
    let s = x >> i;
    assert(s & 1usize == s % 2) by (bit_vector);
    assert(i < usize::BITS ==> (((x & (1usize << i)) != 0) <==> ((x >> i) & 1usize) == 1))
        by (bit_vector);
}

/// Reverses the low `at` bits of `input`; the bits above `at` are dropped.
pub fn bitwise_reverse(input: usize, at: usize) -> (r: usize)
    requires
        at <= usize::BITS,
    ensures
        r == reverse_bits(input as nat, at as nat),
{
    let mut result: usize = 0;
    proof {
        lemma2_to64();
        lemma_pow2_pos(at as nat);
    }
    for i in 0..at
        invariant
            at <= usize::BITS,
            result + reverse_bits(input as nat / pow2(i as nat), (at - i) as nat) == reverse_bits(
                input as nat,
                at as nat,
            ),
            result as nat % pow2((at - i) as nat) == 0,
    {
        proof {
            lemma_reverse_bits_split(input as nat, i as nat, at as nat);
            assert(reverse_bits(input as nat / pow2(i as nat), (at - i) as nat) == bit(
                input as nat,
                i as nat,
            ) * pow2((at - 1 - i) as nat) + reverse_bits(
                input as nat / pow2((i + 1) as nat),
                (at - (i + 1)) as nat,
            ));
            lemma_test_bit(input, i);
            lemma_multiple_of_pow2_step(result as nat, (at - 1 - i) as nat);
        }
        let ghost r0 = result;
        let ghost b = bit(input as nat, i as nat);
        let ghost p = pow2((at - 1 - i) as nat);
        if input & (1 << i) != 0 {
            proof {
                lemma_set_bit(result, (at - 1 - i) as usize);
            }
            result = result | 1 << (at - 1 - i);
            assert(b * p == p) by (nonlinear_arith)
                requires
                    b == 1,
            ;
        } else {
            assert(b * p == 0) by (nonlinear_arith)
                requires
                    b == 0,
            ;
        }
        proof {
            let ghost rest = reverse_bits(input as nat / pow2((i + 1) as nat), (at - (i + 1)) as nat);
            let ghost cur = reverse_bits(input as nat / pow2(i as nat), (at - i) as nat);
            let ghost total = reverse_bits(input as nat, at as nat);
            assert(result + rest == total) by (nonlinear_arith)
                requires
                    r0 + cur == total,
                    cur == b * p + rest,
                    result == r0 + b * p,
            ;
        }
    }
    result
}

proof fn lemma_reverse_bits_bound(x: nat, n: nat)
    ensures
        reverse_bits(x, n) < pow2(n),
    decreases n,
{
    if n == 0 {
        lemma2_to64();
    } else {
        lemma_reverse_bits_bound(x / 2, (n - 1) as nat);
        lemma_pow2_unfold(n);
        let p = pow2((n - 1) as nat);
        assert((x % 2) * p <= p) by (nonlinear_arith)
            requires
                x % 2 <= 1,
                p > 0,
        ;
    }
}

/// Reversing `n` bits moves the top bit `b` of an `n`-bit value to the bottom.
proof fn lemma_reverse_bits_top(b: nat, w: nat, n: nat)
    requires
        n >= 1,
        b <= 1,
        w < pow2((n - 1) as nat),
    ensures
        reverse_bits(b * pow2((n - 1) as nat) + w, n) == 2 * reverse_bits(w, (n - 1) as nat) + b,
    decreases n,
{
    lemma2_to64();
    if n == 1 {
        assert(w == 0);
        assert(b * pow2(0) + w == b);
        assert(reverse_bits(b, 1) == (b % 2) * pow2(0) + reverse_bits(b / 2, 0));
    } else {
        let p = pow2((n - 2) as nat);
        lemma_pow2_unfold((n - 1) as nat);
        lemma_pow2_pos((n - 2) as nat);
        let v = b * pow2((n - 1) as nat) + w;
        assert(v == (b * p + w / 2) * 2 + w % 2) by (nonlinear_arith)
            requires
                v == b * (2 * p) + w,
                w == (w / 2) * 2 + w % 2,
        ;
        lemma_fundamental_div_mod_converse(v as int, 2, (b * p + w / 2) as int, (w % 2) as int);
        assert(w / 2 < p) by (nonlinear_arith)
            requires
                w < 2 * p,
        ;
        lemma_reverse_bits_top(b, w / 2, (n - 1) as nat);
        let lo = reverse_bits(w / 2, (n - 2) as nat);
        assert(reverse_bits(v, n) == (v % 2) * pow2((n - 1) as nat) + reverse_bits(
            v / 2,
            (n - 1) as nat,
        ));
        assert(reverse_bits(b * p + w / 2, (n - 1) as nat) == 2 * lo + b);
        assert(reverse_bits(w, (n - 1) as nat) == (w % 2) * p + lo);
        assert((w % 2) * (2 * p) + (2 * lo + b) == 2 * ((w % 2) * p + lo) + b) by (nonlinear_arith);
    }
}

/// Reversing the bits of an index twice gives the index back: for every `x` in
/// `[0, 2^n)`, reversing its low `n` bits twice returns `x`.
pub proof fn lemma_reverse_bits_involution(x: nat, n: nat)
    requires
        x < pow2(n),
    ensures
        reverse_bits(x, n) < pow2(n),
        reverse_bits(reverse_bits(x, n), n) == x,
    decreases n,
{
    lemma2_to64();
    lemma_reverse_bits_bound(x, n);
    if n == 0 {
    } else {
        lemma_pow2_unfold(n);
        let p = pow2((n - 1) as nat);
        assert(x / 2 < p) by (nonlinear_arith)
            requires
                x < 2 * p,
        ;
        lemma_reverse_bits_involution(x / 2, (n - 1) as nat);
        lemma_reverse_bits_top(x % 2, reverse_bits(x / 2, (n - 1) as nat), n);
    }
}

/// `s` reordered so that position `i` holds the element at the bit reversal of `i`
/// (over `log2(|s|)` bits).
pub open spec fn bit_reversed<T>(s: Seq<T>) -> Seq<T> {
    Seq::new(s.len(), |i: int| s[reverse_bits(i as nat, log2(s.len())) as int])
}

proof fn lemma_log2_fits(size: usize)
    requires
        power_of_two(size as nat),
    ensures
        log2(size as nat) < usize::BITS,
{
    lemma2_to64();
    let k = log2(size as nat);
    if k > usize::BITS {
        lemma_pow2_strictly_increases(usize::BITS as nat, k);
    }
}

/// Reorders `input` in place by bit-reversed index; only pairs with `i < reverse(i)`
/// are swapped, so each pair moves once.
pub fn bitwise_reverse_permute<T: Copy>(input: &mut Vec<T>, size: usize)
    requires
        old(input).len() == size,
        power_of_two(size as nat),
    ensures
        final(input)@ == bit_reversed(old(input)@),
{
    let size_bit = pow2_index(size);
    proof {
        lemma_log2_fits(size);
    }
    let ghost n = size as nat;
    let ghost k = size_bit as nat;
    let ghost orig = input@;
    for i in 0..size
        invariant
            input@.len() == n,
            orig.len() == n,
            pow2(k) == n,
            k == log2(n),
            k < usize::BITS,
            size_bit == k,
            n == size,
            forall|j: int|
                0 <= j < n ==> #[trigger] input@[j] == if j < i || reverse_bits(j as nat, k) < i {
                    orig[reverse_bits(j as nat, k) as int]
                } else {
                    orig[j]
                },
    {
        let ri = bitwise_reverse(i, size_bit);
        proof {
            lemma_reverse_bits_involution(i as nat, k);
            assert forall|j: int| 0 <= j < n implies #[trigger] reverse_bits(j as nat, k) < n by {
                lemma_reverse_bits_involution(j as nat, k);
            }
        }
        if i < ri {
            let a = input[i];
            let b = input[ri];
            input[i] = b;
            input[ri] = a;
        }
        proof {
            assert forall|j: int| 0 <= j < n implies #[trigger] input@[j] == if j < i + 1
                || reverse_bits(j as nat, k) < i + 1 {
                orig[reverse_bits(j as nat, k) as int]
            } else {
                orig[j]
            } by {
                lemma_reverse_bits_involution(j as nat, k);
                if reverse_bits(j as nat, k) == i {
                    assert(j == ri);
                }
            }
        }
    }
    assert(input@ =~= bit_reversed(orig));
}

/// Why a frame cannot be transformed or padded.
#[derive(Debug, Clone, Copy, PartialEq, Eq, Structural)]
pub enum SizeError {
    /// The transform needs a power-of-two length.
    NotPowerOfTwo,
    /// The frame already holds at least as many entries as asked for.
    TooLarge,
}

/// First step of the in-place transform: checks that the frame length is a power of
/// two and applies the bit-reversal permutation. On error the frame is untouched.
pub fn prepare_transform<T: Copy>(input: &mut Vec<T>) -> (r: Result<(), SizeError>)
    ensures
        r is Err <==> !power_of_two(old(input)@.len()),
        r is Err ==> r == Err::<(), SizeError>(SizeError::NotPowerOfTwo) && final(input)@ == old(
            input,
        )@,
        r is Ok ==> final(input)@ == bit_reversed(old(input)@),
{
    let len = input.len();
    if !is_power_of_two(len) {
        return Err(SizeError::NotPowerOfTwo);
    }
    bitwise_reverse_permute(input, len);
    Ok(())
}

/// `padded` is `frame` followed by zero (default) entries up to `new_len`.
pub open spec fn zero_padded<T: Default>(frame: Seq<Complex<T>>, padded: Seq<Complex<T>>, new_len: nat) -> bool {
    &&& padded.len() == new_len
    &&& padded.subrange(0, frame.len() as int) == frame
    &&& forall|i: int|
        frame.len() <= i < new_len ==> is_default(#[trigger] padded[i].real) && is_default(
            padded[i].imaginary,
        )
}

/// Pads `frame` with zero entries up to `new_len` entries; a frame that is already
/// longer is refused.
pub fn round_to<T: Copy + Default>(frame: Vec<Complex<T>>, new_len: usize) -> (r: Result<
    Vec<Complex<T>>,
    SizeError,
>)
    ensures
        r is Err <==> frame@.len() > new_len,
        r is Err ==> r == Err::<Vec<Complex<T>>, SizeError>(SizeError::TooLarge),
        r matches Ok(v) ==> zero_padded(frame@, v@, new_len as nat),
{
    let mut frame = frame;
    let sz = frame.len();
    if sz == new_len {
        assert(frame@.subrange(0, sz as int) =~= frame@);
        return Ok(frame);
    } else if sz > new_len {
        return Err(SizeError::TooLarge);
    }
    let ghost orig = frame@;
    let new_entries = new_len - sz;
    for _k in 0..new_entries
        invariant
            frame@.len() == sz + _k,
            sz == orig.len(),
            sz + new_entries == new_len,
            frame@.subrange(0, sz as int) == orig,
            forall|i: int|
                sz <= i < frame@.len() ==> is_default(#[trigger] frame@[i].real) && is_default(
                    frame@[i].imaginary,
                ),
    {
        let zero = T::default();
        frame.push(Complex::from_real(zero));
        assert(frame@.subrange(0, sz as int) =~= orig);
    }
    Ok(frame)
}

/// Relies on `usize::checked_next_power_of_two`: the smallest power of two that is at
/// least `n`, or `None` when it does not fit in a `usize`.
#[verifier::external_body]
fn checked_next_power_of_two(n: usize) -> (r: Option<usize>)
    ensures
        r matches Some(p) ==> power_of_two(p as nat) && n <= p && (p == 1 || p / 2 < n),
        r is None ==> n > pow2((usize::BITS - 1) as nat),
{
    n.checked_next_power_of_two()
}

/// Pads `frame` with zero entries up to the next power of two (a frame whose length is
/// already a power of two is returned as it is).
pub fn round_to_nearest_pow2<T: Copy + Default>(frame: Vec<Complex<T>>) -> (r: Result<
    Vec<Complex<T>>,
    SizeError,
>)
    ensures
        r is Err <==> frame@.len() > pow2((usize::BITS - 1) as nat),
        r is Err ==> r == Err::<Vec<Complex<T>>, SizeError>(SizeError::TooLarge),
        r matches Ok(v) ==> power_of_two(v@.len()) && (v@.len() == 1 || v@.len() / 2 < frame@.len())
            && zero_padded(frame@, v@, v@.len()),
{
    let current_len = frame.len();
    match checked_next_power_of_two(current_len) {
        Some(new_len) => {
            proof {
                lemma_log2_fits(new_len);
                if log2(new_len as nat) < (usize::BITS - 1) as nat {
                    lemma_pow2_strictly_increases(log2(new_len as nat), (usize::BITS - 1) as nat);
                }
            }
            round_to(frame, new_len)
        },
        None => Err(SizeError::TooLarge),
    }
}

/// Loads real samples into a transform buffer: entry `i` becomes `data[i] + 0i` and the
/// rest of the buffer is zero. Data that does not leave room for padding is refused and
/// the buffer is left as it was.
pub fn prepare_buffer<T: Copy + Default>(buffer: &mut Vec<Complex<T>>, data: &[T]) -> (r: Result<
    (),
    SizeError,
>)
    ensures
        r is Err <==> data@.len() >= old(buffer)@.len(),
        r is Err ==> r == Err::<(), SizeError>(SizeError::TooLarge) && final(buffer)@ == old(
            buffer,
        )@,
        r is Ok ==> final(buffer)@.len() == old(buffer)@.len() && (forall|i: int|
            0 <= i < data@.len() ==> (#[trigger] final(buffer)@[i]).real == data@[i] && is_default(
                final(buffer)@[i].imaginary,
            )) && (forall|i: int|
            data@.len() <= i < old(buffer)@.len() ==> is_default(#[trigger] final(buffer)@[i].real)
                && is_default(final(buffer)@[i].imaginary)),
{
    if data.len() >= buffer.len() {
        return Err(SizeError::TooLarge);
    }
    let n = buffer.len();
    for i in 0..data.len()
        invariant
            buffer@.len() == n,
            data@.len() < n,
            forall|j: int|
                0 <= j < i ==> (#[trigger] buffer@[j]).real == data@[j] && is_default(
                    buffer@[j].imaginary,
                ),
    {
        buffer.set(i, Complex::from_real(data[i]));
    }
    for i in data.len()..n
        invariant
            buffer@.len() == n,
            data@.len() < n,
            forall|j: int|
                0 <= j < data@.len() ==> (#[trigger] buffer@[j]).real == data@[j] && is_default(
                    buffer@[j].imaginary,
                ),
            forall|j: int|
                data@.len() <= j < i ==> is_default(#[trigger] buffer@[j].real) && is_default(
                    buffer@[j].imaginary,
                ),
    {
        let zero = T::default();
        buffer.set(i, Complex::from_real(zero));
    }
    Ok(())
}

} // verus!
