//! Facts that connect shifts and masks on machine words with arithmetic on
//! natural numbers.

use vstd::arithmetic::div_mod::lemma_mod_multiples_vanish;
use vstd::arithmetic::power2::{
    lemma2_to64,
    lemma_pow2_adds,
    lemma_pow2_pos,
    lemma_pow2_strictly_increases,
    pow2,
};
use vstd::bits::{
    lemma_u16_low_bits_mask_is_mod,
    lemma_u16_shl_is_mul,
    lemma_u32_low_bits_mask_is_mod,
    lemma_u32_shl_is_mul,
    lemma_u32_shr_is_div,
};
use vstd::prelude::*;

verus! {

/// Powers of two are positive and grow with the exponent.
pub proof fn lemma_pow2_le(e1: nat, e2: nat)
    requires
        e1 <= e2,
    ensures
        0 < pow2(e1) <= pow2(e2),
{
    lemma_pow2_pos(e1);
    if e1 < e2 {
        lemma_pow2_strictly_increases(e1, e2);
    }
}

/// A single bit shifted left by `n` places is the `n`-th power of two.
pub proof fn lemma_one_shl(n: u32)
    requires
        n <= 31,
    ensures
        (1u32 << n) == pow2(n as nat),
        0 < pow2(n as nat) <= 0x8000_0000,
{
    lemma2_to64();
    lemma_pow2_le(n as nat, 31);
    lemma_u32_shl_is_mul(1, n);
}

/// Two bytes joined by shift and or form the little-endian word.
pub proof fn lemma_word(b0: u32, b1: u32)
    requires
        b0 < 0x100,
        b1 < 0x100,
    ensures
        ((b1 << 8u32) | b0) == b0 + 0x100 * b1,
{
    assert(((b1 << 8u32) | b0) == b0 + 0x100 * b1) by (bit_vector)
        requires
            b0 < 0x100,
            b1 < 0x100,
    ;
}

/// Placing a 16-bit word above `c` buffered bits adds the word scaled by `2^c`.
pub proof fn lemma_append_word(q: u32, w: u32, c: u32)
    requires
        c <= 15,
        w < 0x1_0000,
        q < pow2(c as nat),
    ensures
        (q | (w << c)) == q + w * pow2(c as nat),
        ((w << c) | q) == q + w * pow2(c as nat),
        q + w * pow2(c as nat) < pow2((c + 16) as nat),
        pow2((c + 16) as nat) <= 0x8000_0000,
{
    let p = pow2(c as nat);
    lemma_one_shl(c);
    lemma_pow2_le(c as nat, 15);
    lemma_pow2_le((c + 16) as nat, 31);
    lemma2_to64();
    assert(w * p <= 0xffff * 0x8000) by (nonlinear_arith)
        requires
            w <= 0xffff,
            p <= 0x8000,
    ;
    lemma_u32_shl_is_mul(w, c);
    let m: u32 = 1u32 << c;
    assert((q | (w << c)) == q + (w << c) && ((w << c) | q) == (q | (w << c))) by (bit_vector)
        requires
            m == 1u32 << c,
            q < m,
            c <= 15,
            w < 0x1_0000,
    ;
    lemma_pow2_adds(c as nat, 16);
    assert(q + w * p < p * 0x1_0000) by (nonlinear_arith)
        requires
            q < p,
            w <= 0xffff,
    ;
}

/// Masking with `2^n - 1` keeps the value modulo `2^n`.
pub proof fn lemma_low_bits(q: u32, n: u32)
    requires
        n <= 16,
    ensures
        1 <= (1u32 << n) <= 0x1_0000,
        (1u32 << n) == pow2(n as nat),
        (q & (((1u32 << n) - 1) as u32)) == q as nat % pow2(n as nat),
        q as nat % pow2(n as nat) < 0x1_0000,
{
    lemma_one_shl(n);
    lemma2_to64();
    lemma_pow2_le(n as nat, 16);
    lemma_u32_low_bits_mask_is_mod(q, n as nat);
}

/// Shifting right by `n` divides by `2^n` and leaves `n` fewer buffered bits.
pub proof fn lemma_shift_out(q: u32, n: u32, c: nat)
    requires
        n <= c <= 31,
        q < pow2(c),
    ensures
        (q >> n) == q as nat / pow2(n as nat),
        q as nat / pow2(n as nat) < pow2((c - n) as nat),
{
    lemma_u32_shr_is_div(q, n);
    lemma_pow2_adds(n as nat, (c - n) as nat);
    let a = pow2(n as nat);
    let b = pow2((c - n) as nat);
    lemma_pow2_pos(n as nat);
    assert((q as nat) / a < b) by (nonlinear_arith)
        requires
            q < a * b,
            a > 0,
    ;
}

/// The low sixteen bits of the buffered bits followed by the next word.
pub proof fn lemma_peek(q: u32, p: u32, c: u32)
    requires
        c <= 31,
        p < 0x1_0000,
        q < pow2(c as nat),
    ensures
        (((p << c) | q) as u16) == (q + p * pow2(c as nat)) % 0x1_0000,
{
    let x: u32 = (p << c) | q;
    assert(x as u16 == x % 0x1_0000) by (bit_vector);
    if c <= 15 {
        lemma_append_word(q, p, c);
    } else {
        assert(x as u16 == q as u16) by (bit_vector)
            requires
                x == (p << c) | q,
                16 <= c <= 31,
        ;
        assert(q as u16 == q % 0x1_0000) by (bit_vector);
        let k = pow2((c - 16) as nat);
        lemma_pow2_adds(16, (c - 16) as nat);
        lemma2_to64();
        assert(p * pow2(c as nat) == 0x1_0000 * (k * p)) by (nonlinear_arith)
            requires
                pow2(c as nat) == 0x1_0000 * k,
        ;
        lemma_mod_multiples_vanish(k * p, q as int, 0x1_0000);
    }
}

/// Masking a 16-bit value with `2^d - 1` keeps the value modulo `2^d`.
pub proof fn lemma_mask16(x: u16, d: u16)
    requires
        d <= 15,
    ensures
        1 <= (1u16 << d) <= 0x8000,
        (1u16 << d) == pow2(d as nat),
        (x & (((1u16 << d) - 1) as u16)) == x as nat % pow2(d as nat),
{
    lemma2_to64();
    lemma_pow2_le(d as nat, 15);
    lemma_u16_shl_is_mul(1, d);
    lemma_u16_low_bits_mask_is_mod(x, d as nat);
}

/// Setting bit `k` of a value that lies below `2^k` adds `2^k` to it.
pub proof fn lemma_set_high_bit(v: u16, k: u16)
    requires
        k <= 14,
        v < pow2(k as nat),
    ensures
        (v | (1u16 << k)) == v + pow2(k as nat),
        v + pow2(k as nat) < pow2((k + 1) as nat) <= 0x8000,
{
    lemma_mask16(v, k);
    let m: u16 = 1u16 << k;
    assert((v | m) == v + m) by (bit_vector)
        requires
            m == 1u16 << k,
            k <= 14,
            v < m,
    ;
    lemma_pow2_adds(k as nat, 1);
    lemma2_to64();
    lemma_pow2_le((k + 1) as nat, 15);
}

} // verus!
