//! Canonical Huffman tables of sixteen slots, and the matching of codes against
//! bits that arrive least-significant first.

use crate::bit_math::{lemma_mask16, lemma_pow2_le, lemma_set_high_bit};
use vstd::arithmetic::div_mod::{
    lemma_add_mod_noop,
    lemma_mod_bound,
    lemma_div_denominator,
    lemma_div_multiples_vanish,
    lemma_fundamental_div_mod_converse,
    lemma_mod_breakdown,
    lemma_mod_mod,
    lemma_mod_multiples_vanish,
    lemma_small_mod,
    lemma_truncate_middle,
};
use vstd::arithmetic::power2::{lemma2_to64, lemma2_to64_rest, lemma_pow2_adds, lemma_pow2_unfold, pow2};
use vstd::prelude::*;

verus! {

/// One slot of a table: the length of the symbol's code, and the code itself
/// with its bits in the order in which the stream delivers them.
#[derive(Clone, Copy, Debug, PartialEq, Eq, Structural)]
pub struct Node {
    /// The canonical code, bit-reversed over `bit_depth` bits.
    pub l3: u32,
    /// The code length in bits; zero marks an unused slot.
    pub bit_depth: u16,
}

/// A table of sixteen slots, indexed by symbol.
pub type Table = [Node; 16];

/// The table with no symbol in use.
pub fn table_new() -> (t: Table)
    ensures
        forall|i: int| 0 <= i < 16 ==> #[trigger] t@[i] == (Node { l3: 0, bit_depth: 0 }),
{
    [Node { l3: 0, bit_depth: 0 };16]
}

/// The low `width` bits of `v` in reverse order.
pub open spec fn reverse_bits(v: nat, width: nat) -> nat
    decreases width,
{
    if width == 0 {
        0
    } else {
        (v % 2) * pow2((width - 1) as nat) + reverse_bits(v / 2, (width - 1) as nat)
    }
}

/// Reverses the low `count` bits of `v`.
pub fn inverse_bits(v: u32, count: u16) -> (r: u32)
    requires
        count <= 32,
    ensures
        r == reverse_bits(v as nat, count as nat),
{
    let mut rest: u32 = v;
    let mut r: u32 = 0;
    let mut i: u16 = 0;
    proof {
        lemma2_to64();
    }
    while i < count
        invariant
            i <= count <= 32,
            r < pow2(i as nat),
            reverse_bits(v as nat, count as nat) == r * pow2((count - i) as nat) + reverse_bits(
                rest as nat,
                (count - i) as nat,
            ),
        decreases count - i,
    {
        proof {
            let m = (count - i) as nat;
            let hi = pow2(m);
            let lo = pow2((m - 1) as nat);
            lemma_pow2_le(i as nat, 31);
            lemma2_to64();
            assert(((r << 1u32) | (rest & 1u32)) == 2 * r + rest % 2) by (bit_vector)
                requires
                    r < 0x8000_0000u32,
            ;
            assert(rest >> 1u32 == rest / 2) by (bit_vector);
            lemma_pow2_unfold(m);
            lemma_pow2_unfold((i + 1) as nat);
            assert((2 * r + rest % 2) * lo == r * hi + (rest % 2) * lo) by (nonlinear_arith)
                requires
                    hi == 2 * lo,
            ;
        }
        r = (r << 1u32) | (rest & 1u32);
        rest = rest >> 1u32;
        i = i + 1;
    }
    proof {
        lemma2_to64();
        assert(r * pow2(0) == r);
    }
    r
}

/// A reversal of `width` bits lies below `2^width`.
pub proof fn lemma_reverse_bits_bound(v: nat, width: nat)
    ensures
        reverse_bits(v, width) < pow2(width),
    decreases width,
{
    lemma2_to64();
    if width > 0 {
        let half = pow2((width - 1) as nat);
        lemma_reverse_bits_bound(v / 2, (width - 1) as nat);
        lemma_pow2_unfold(width);
        assert((v % 2) * half <= half) by (nonlinear_arith)
            requires
                v % 2 <= 1,
        ;
    }
}

/// A reversal of `width` bits reads only the low `width` bits.
pub proof fn lemma_reverse_bits_low(v: nat, width: nat)
    ensures
        reverse_bits(v, width) == reverse_bits(v % pow2(width), width),
    decreases width,
{
    lemma2_to64();
    if width > 0 {
        let half = pow2((width - 1) as nat);
        let low = v % pow2(width);
        lemma_pow2_unfold(width);
        lemma_pow2_le((width - 1) as nat, (width - 1) as nat);
        lemma_mod_breakdown(v as int, 2, half as int);
        lemma_fundamental_div_mod_converse(low as int, 2, ((v / 2) % half) as int, (v % 2) as int);
        lemma_reverse_bits_low(v / 2, (width - 1) as nat);
    }
}

/// A reversal of one more bit shifts the reversal up and brings the next bit
/// of the value in at the bottom.
pub proof fn lemma_reverse_bits_grows(v: nat, width: nat)
    requires
        width >= 1,
    ensures
        reverse_bits(v, width) == 2 * reverse_bits(v, (width - 1) as nat) + (v / pow2(
            (width - 1) as nat,
        )) % 2,
    decreases width,
{
    lemma2_to64();
    if width == 1 {
        assert(reverse_bits(v, 1) == (v % 2) * pow2(0) + reverse_bits(v / 2, 0));
    } else {
        let quarter = pow2((width - 2) as nat);
        let half = pow2((width - 1) as nat);
        lemma_reverse_bits_grows(v / 2, (width - 1) as nat);
        lemma_pow2_unfold((width - 1) as nat);
        lemma_pow2_le((width - 2) as nat, (width - 2) as nat);
        lemma_div_denominator(v as int, 2, quarter as int);
        assert(reverse_bits(v, (width - 1) as nat) == (v % 2) * quarter + reverse_bits(
            v / 2,
            (width - 2) as nat,
        ));
        assert((v % 2) * half == 2 * ((v % 2) * quarter)) by (nonlinear_arith)
            requires
                half == 2 * quarter,
        ;
    }
}

/// Reversing twice gives the low bits back: a stored code, reversed again,
/// is the canonical code.
pub proof fn lemma_reverse_bits_twice(v: nat, width: nat)
    ensures
        reverse_bits(reverse_bits(v, width), width) == v % pow2(width),
    decreases width,
{
    lemma2_to64();
    if width > 0 {
        let half = pow2((width - 1) as nat);
        let b = v % 2;
        let r = reverse_bits(v / 2, (width - 1) as nat);
        let x = reverse_bits(v, width);
        lemma_pow2_unfold(width);
        lemma_pow2_le((width - 1) as nat, (width - 1) as nat);
        lemma_reverse_bits_bound(v / 2, (width - 1) as nat);
        assert(b * half == half * b) by (nonlinear_arith);
        lemma_fundamental_div_mod_converse(x as int, half as int, b as int, r as int);
        lemma_reverse_bits_grows(x, width);
        lemma_reverse_bits_low(x, (width - 1) as nat);
        lemma_reverse_bits_twice(v / 2, (width - 1) as nat);
        lemma_mod_breakdown(v as int, 2, half as int);
    }
}

/// The low `k` bits of a reversal are the reversal of the high `k` bits.
pub proof fn lemma_reverse_bits_tail(v: nat, width: nat, k: nat)
    requires
        k <= width,
    ensures
        reverse_bits(v, width) % pow2(k) == reverse_bits(v / pow2((width - k) as nat), k),
    decreases width,
{
    lemma2_to64();
    lemma_pow2_le(k, k);
    if k == width {
        lemma_reverse_bits_bound(v, width);
        lemma_small_mod(reverse_bits(v, width), pow2(width));
    } else {
        let low = pow2(k);
        let gap = pow2((width - 1 - k) as nat);
        let rest = reverse_bits(v / 2, (width - 1) as nat);
        lemma_pow2_adds(k, (width - 1 - k) as nat);
        lemma_pow2_le((width - 1 - k) as nat, (width - 1 - k) as nat);
        lemma_pow2_unfold((width - k) as nat);
        assert(reverse_bits(v, width) == low * ((v % 2) * gap) + rest) by (nonlinear_arith)
            requires
                reverse_bits(v, width) == (v % 2) * pow2((width - 1) as nat) + rest,
                pow2((width - 1) as nat) == low * gap,
        ;
        lemma_mod_multiples_vanish(((v % 2) * gap) as int, rest as int, low as int);
        lemma_reverse_bits_tail(v / 2, (width - 1) as nat, k);
        lemma_div_denominator(v as int, 2, gap as int);
    }
}

/// The lowest bit of the value becomes the highest bit of the reversal.
proof fn lemma_reverse_bits_unfold(v: nat, width: nat)
    requires
        width >= 1,
    ensures
        reverse_bits(v, width) == (v % 2) * pow2((width - 1) as nat) + reverse_bits(
            v / 2,
            (width - 1) as nat,
        ),
{
}

/// The highest bit of a reversal is the lowest bit of the value.
proof fn lemma_reverse_bits_top(u: nat, k: nat)
    ensures
        reverse_bits(u, k + 1) / pow2(k) == u % 2,
{
    let unit = pow2(k) as int;
    let low_bit = (u % 2) as int;
    let rest = reverse_bits(u / 2, k) as int;
    lemma_pow2_le(k, k);
    lemma_reverse_bits_bound(u / 2, k);
    lemma_reverse_bits_unfold(u, k + 1);
    assert(low_bit * unit >= 0) by (nonlinear_arith)
        requires
            low_bit >= 0,
            unit >= 0,
    ;
    lemma_fundamental_div_mod_converse(reverse_bits(u, k + 1) as int, unit, low_bit, rest);
}

/// Bit `k` of a number is the highest of its low `k + 1` bits.
proof fn lemma_bit_of_low_part(x: nat, k: nat)
    ensures
        (x % pow2(k + 1)) / pow2(k) == (x / pow2(k)) % 2,
{
    let unit = pow2(k) as int;
    let bit = ((x / pow2(k)) % 2) as int;
    lemma_pow2_le(k, k);
    lemma_pow2_unfold(k + 1);
    lemma_mod_breakdown(x as int, unit, 2);
    lemma_mod_bound(x as int, unit);
    assert(unit * bit == bit * unit) by (nonlinear_arith);
    lemma_fundamental_div_mod_converse((x % pow2(k + 1)) as int, unit, bit, x as int % unit);
}

/// A reversal mirrors the bits: bit `k` of the reversal is bit
/// `width - 1 - k` of the value.
pub proof fn lemma_reverse_bits_mirror(v: nat, width: nat, k: nat)
    requires
        k < width,
    ensures
        (reverse_bits(v, width) / pow2(k)) % 2 == (v / pow2((width - 1 - k) as nat)) % 2,
{
    lemma_reverse_bits_tail(v, width, k + 1);
    lemma_reverse_bits_top(v / pow2((width - 1 - k) as nat), k);
    lemma_bit_of_low_part(reverse_bits(v, width), k);
}

/// The number of symbols below `upto` whose code length is `len`.
pub open spec fn count_of_length(depths: Seq<nat>, len: nat, upto: int) -> nat
    decreases upto,
{
    if upto <= 0 {
        0
    } else {
        count_of_length(depths, len, upto - 1) + if depths[upto - 1] == len {
            1nat
        } else {
            0nat
        }
    }
}

/// The first code of length `len`: one past the last code of the length
/// before, with one more bit.
pub open spec fn first_code(depths: Seq<nat>, len: nat) -> nat
    decreases len,
{
    if len <= 1 {
        0
    } else {
        2 * (first_code(depths, (len - 1) as nat) + count_of_length(
            depths,
            (len - 1) as nat,
            depths.len() as int,
        ))
    }
}

/// The canonical code of symbol `i`: codes of one length are consecutive, in
/// symbol order, and follow those of every shorter length. Where the lengths
/// claim more codes than `depths[i]` bits can hold, the code wraps.
pub open spec fn canonical_code(depths: Seq<nat>, i: int) -> nat {
    (first_code(depths, depths[i]) + count_of_length(depths, depths[i], i)) % pow2(depths[i])
}

/// One past the last code of length `len`.
pub open spec fn end_code(depths: Seq<nat>, len: nat) -> nat {
    first_code(depths, len) + count_of_length(depths, len, depths.len() as int)
}

/// Whether the code lengths, of at most sixteen bits each, describe a prefix
/// code: the codes that they claim fit into sixteen bits. This is Kraft's
/// inequality.
pub open spec fn lengths_fit(depths: Seq<nat>) -> bool {
    end_code(depths, 16) <= pow2(16)
}

/// A symbol of length `len` at `i` is counted by every count that reaches past it.
proof fn lemma_count_grows(depths: Seq<nat>, len: nat, i: int, upto: int)
    requires
        0 <= i < upto,
        depths[i] == len,
    ensures
        count_of_length(depths, len, i) + 1 <= count_of_length(depths, len, upto),
    decreases upto - i,
{
    if upto > i + 1 {
        lemma_count_grows(depths, len, i, upto - 1);
    }
}

/// The codes of a longer length start past every code of a shorter length,
/// extended to the longer length.
proof fn lemma_first_code_scales(depths: Seq<nat>, lo: nat, hi: nat)
    requires
        1 <= lo < hi,
    ensures
        end_code(depths, lo) * pow2((hi - lo) as nat) <= first_code(depths, hi),
    decreases hi,
{
    lemma2_to64();
    let e = end_code(depths, lo);
    if hi == lo + 1 {
        assert(e * pow2(1) == 2 * e);
    } else {
        let below = (hi - 1) as nat;
        let p = pow2((below - lo) as nat);
        lemma_first_code_scales(depths, lo, below);
        lemma_pow2_unfold((hi - lo) as nat);
        assert(e * (2 * p) == 2 * (e * p)) by (nonlinear_arith);
    }
}

/// Where the lengths fit, the codes of each length fit into that length.
proof fn lemma_lengths_fit_at(depths: Seq<nat>, len: nat)
    requires
        lengths_fit(depths),
        1 <= len <= 16,
    ensures
        end_code(depths, len) <= pow2(len),
{
    if len < 16 {
        let e = end_code(depths, len);
        let scale = pow2((16 - len) as nat);
        let top = pow2(len);
        lemma_first_code_scales(depths, len, 16);
        lemma_pow2_adds(len, (16 - len) as nat);
        lemma_pow2_le((16 - len) as nat, 16);
        assert(e <= top) by (nonlinear_arith)
            requires
                e * scale <= top * scale,
                scale > 0,
        ;
    }
}

/// No symbol below `upto` is counted where none has the length.
proof fn lemma_count_none(depths: Seq<nat>, len: nat, upto: int)
    requires
        forall|j: int| 0 <= j < upto ==> depths[j] != len,
    ensures
        count_of_length(depths, len, upto) == 0,
    decreases upto,
{
    if upto > 0 {
        lemma_count_none(depths, len, upto - 1);
    }
}

/// The codes of a length start at zero where no symbol has a shorter code.
proof fn lemma_first_code_zero(depths: Seq<nat>, len: nat)
    requires
        forall|j: int| 0 <= j < depths.len() ==> depths[j] == 0 || depths[j] >= len,
    ensures
        first_code(depths, len) == 0,
    decreases len,
{
    if len > 1 {
        lemma_first_code_zero(depths, (len - 1) as nat);
        lemma_count_none(depths, (len - 1) as nat, depths.len() as int);
    }
}

/// The first symbol with the shortest code has the code zero.
pub proof fn lemma_least_code_is_zero(depths: Seq<nat>, i: int)
    requires
        0 <= i < depths.len(),
        depths[i] >= 1,
        forall|j: int| 0 <= j < depths.len() ==> depths[j] == 0 || depths[j] >= depths[i],
        forall|j: int| 0 <= j < i ==> depths[j] != depths[i],
    ensures
        canonical_code(depths, i) == 0,
{
    lemma_first_code_zero(depths, depths[i]);
    lemma_count_none(depths, depths[i], i);
    lemma_pow2_le(depths[i], depths[i]);
    lemma_small_mod(0, pow2(depths[i]));
}

/// Where the lengths fit, no code wraps: each is its place among the codes
/// of its length, and fits into its length.
pub proof fn lemma_code_fits(depths: Seq<nat>, i: int)
    requires
        lengths_fit(depths),
        0 <= i < depths.len(),
        1 <= depths[i] <= 16,
    ensures
        canonical_code(depths, i) == first_code(depths, depths[i]) + count_of_length(
            depths,
            depths[i],
            i,
        ),
        canonical_code(depths, i) + 1 <= end_code(depths, depths[i]) <= pow2(depths[i]),
{
    let code = first_code(depths, depths[i]) + count_of_length(depths, depths[i], i);
    lemma_count_grows(depths, depths[i], i, depths.len() as int);
    lemma_lengths_fit_at(depths, depths[i]);
    lemma_small_mod(code, pow2(depths[i]));
}

/// The canonical codes of lengths that fit form a prefix code in canonical
/// order. No code wraps. No code is the beginning of another. A shorter code,
/// extended to the length of a longer one, comes before it; codes of one
/// length are in symbol order.
pub proof fn lemma_canonical_codes(depths: Seq<nat>, i: int, j: int)
    requires
        lengths_fit(depths),
        0 <= i < depths.len(),
        0 <= j < depths.len(),
        i != j,
        1 <= depths[i] <= depths[j] <= 16,
    ensures
        canonical_code(depths, i) == first_code(depths, depths[i]) + count_of_length(
            depths,
            depths[i],
            i,
        ),
        canonical_code(depths, i) < pow2(depths[i]),
        canonical_code(depths, j) / pow2((depths[j] - depths[i]) as nat) != canonical_code(
            depths,
            i,
        ),
        depths[i] < depths[j] ==> (canonical_code(depths, i) + 1) * pow2(
            (depths[j] - depths[i]) as nat,
        ) <= canonical_code(depths, j),
        depths[i] == depths[j] && i < j ==> canonical_code(depths, i) < canonical_code(depths, j),
{
    let di = depths[i];
    let dj = depths[j];
    let ci = first_code(depths, di) + count_of_length(depths, di, i);
    let cj = first_code(depths, dj) + count_of_length(depths, dj, j);
    let scale = pow2((dj - di) as nat);
    lemma2_to64();
    lemma_code_fits(depths, i);
    lemma_code_fits(depths, j);
    lemma_pow2_le((dj - di) as nat, 16);
    if di < dj {
        let e = end_code(depths, di);
        lemma_first_code_scales(depths, di, dj);
        assert((ci + 1) * scale <= e * scale) by (nonlinear_arith)
            requires
                ci + 1 <= e,
                scale > 0,
        ;
        assert(cj / scale >= ci + 1) by (nonlinear_arith)
            requires
                (ci + 1) * scale <= cj,
                scale > 0,
        ;
    } else {
        assert(cj / 1 == cj);
        if i < j {
            lemma_count_grows(depths, di, i, j);
        } else {
            lemma_count_grows(depths, di, j, i);
        }
    }
}

/// The bit depths of the first `leaf_nodes` slots of a table.
pub open spec fn depths_of(t: Seq<Node>, leaf_nodes: int) -> Seq<nat> {
    Seq::new(leaf_nodes as nat, |i: int| t[i].bit_depth as nat)
}

/// Slot `i` after canonical codes are assigned to the first `leaf_nodes` slots
/// of `t`: a slot in use gets its reversed code, any other slot stays.
pub open spec fn coded_slot(t: Seq<Node>, leaf_nodes: int, i: int) -> Node {
    if 0 <= i < leaf_nodes && 1 <= t[i].bit_depth <= 16 {
        Node {
            l3: reverse_bits(
                canonical_code(depths_of(t, leaf_nodes), i),
                t[i].bit_depth as nat,
            ) as u32,
            bit_depth: t[i].bit_depth,
        }
    } else {
        t[i]
    }
}

/// The running counter, scaled to the top of a 32-bit word, gives the code
/// when divided by the scale.
proof fn lemma_code_from_val(x: nat, div: nat, len: nat)
    requires
        1 <= len <= 16,
        div == pow2((32 - len) as nat),
    ensures
        0 < div < 0x1_0000_0000,
        ((x * div) % 0x1_0000_0000) / div == x % pow2(len),
        x % pow2(len) < 0x1_0000,
{
    let top = pow2(len);
    lemma_pow2_adds((32 - len) as nat, len);
    lemma2_to64();
    lemma2_to64_rest();
    lemma_pow2_le((32 - len) as nat, 31);
    lemma_pow2_le(len, 16);
    lemma_truncate_middle(x as int, div as int, top as int);
    assert(x * div == div * x) by (nonlinear_arith);
    lemma_div_multiples_vanish((x % top) as int, div as int);
}

/// Adding the scale to the running counter, with wrap-around, counts one more code.
proof fn lemma_val_step(x: nat, div: u32, val: u32)
    requires
        0 < div,
        val == (x * div) % 0x1_0000_0000,
    ensures
        val.wrapping_add(div) == ((x + 1) * div) % 0x1_0000_0000,
{
    let a = x * div;
    assert((x + 1) * div == a + div) by (nonlinear_arith)
        requires
            a == x * div,
    ;
    lemma_add_mod_noop(a as int, div as int, 0x1_0000_0000);
    lemma_small_mod(div as nat, 0x1_0000_0000);
}

/// Assigns canonical codes to the first `leaf_nodes` slots of `table`, from
/// the bit depths that they hold, and stores each code bit-reversed.
pub fn assign_codes(table: &mut Table, leaf_nodes: usize)
    requires
        leaf_nodes <= 16,
    ensures
        forall|i: int|
            0 <= i < 16 ==> #[trigger] final(table)@[i] == coded_slot(
                old(table)@,
                leaf_nodes as int,
                i,
            ),
{
    let ghost before = table@;
    let ghost leaf = leaf_nodes as int;
    let ghost depths = depths_of(before, leaf);
    let mut val: u32 = 0;
    let mut div: u32 = 0x8000_0000;
    let mut bits_count: u16 = 1;
    proof {
        lemma2_to64();
    }
    while bits_count < 17
        invariant
            leaf == leaf_nodes <= 16,
            1 <= bits_count <= 17,
            before.len() == 16,
            depths == depths_of(before, leaf),
            div == pow2((32 - bits_count) as nat),
            val == (first_code(depths, bits_count as nat) * div) % 0x1_0000_0000,
            forall|i: int|
                0 <= i < 16 ==> #[trigger] table@[i] == (if before[i].bit_depth < bits_count {
                    coded_slot(before, leaf, i)
                } else {
                    before[i]
                }),
        decreases 17 - bits_count,
    {
        let mut k: usize = 0;
        while k < leaf_nodes
            invariant
                k <= leaf_nodes,
                leaf == leaf_nodes <= 16,
                1 <= bits_count <= 16,
                before.len() == 16,
                depths == depths_of(before, leaf),
                div == pow2((32 - bits_count) as nat),
                val == ((first_code(depths, bits_count as nat) + count_of_length(
                    depths,
                    bits_count as nat,
                    k as int,
                )) * div) % 0x1_0000_0000,
                forall|i: int|
                    0 <= i < 16 ==> #[trigger] table@[i] == (if before[i].bit_depth < bits_count
                        || (before[i].bit_depth == bits_count && i < k) {
                        coded_slot(before, leaf, i)
                    } else {
                        before[i]
                    }),
            decreases leaf_nodes - k,
        {
            let ghost counted = first_code(depths, bits_count as nat) + count_of_length(
                depths,
                bits_count as nat,
                k as int,
            );
            if table[k].bit_depth == bits_count {
                proof {
                    lemma_code_from_val(counted, div as nat, bits_count as nat);
                    lemma_val_step(counted, div, val);
                }
                let code: u32 = val / div;
                let l3: u32 = inverse_bits(code, bits_count);
                table[k].l3 = l3;
                val = val.wrapping_add(div);
            }
            k = k + 1;
        }
        proof {
            let len = bits_count as nat;
            let total = first_code(depths, len) + count_of_length(depths, len, leaf);
            let half = pow2((32 - bits_count - 1) as nat);
            lemma_pow2_unfold((32 - bits_count) as nat);
            assert(div >> 1u32 == div / 2) by (bit_vector);
            assert((2 * total) * half == total * div) by (nonlinear_arith)
                requires
                    div == 2 * half,
            ;
        }
        div = div >> 1u32;
        bits_count = bits_count + 1;
    }
}

/// Slot `i` of the canonical table for the code lengths `depths`.
pub open spec fn canonical_node(depths: Seq<nat>, i: int) -> Node {
    if 0 <= i < depths.len() && depths[i] != 0 {
        Node {
            l3: reverse_bits(canonical_code(depths, i), depths[i]) as u32,
            bit_depth: depths[i] as u16,
        }
    } else {
        Node { l3: 0, bit_depth: 0 }
    }
}

/// The table of sixteen slots for the code lengths `depths`: each symbol in
/// use holds its canonical code bit-reversed, every other slot is unused.
pub open spec fn canonical_table(depths: Seq<nat>) -> Seq<Node> {
    Seq::new(16, |i: int| canonical_node(depths, i))
}

/// Every slot of the table holds a code of at most fifteen bits.
pub open spec fn table_wf(t: Seq<Node>) -> bool {
    t.len() == 16 && forall|i: int| 0 <= i < 16 ==> (#[trigger] t[i]).bit_depth <= 15
}

/// Whether slot `i` is in use and its stored code equals the low bits of `peek`.
pub open spec fn slot_matches(t: Seq<Node>, peek: nat, i: int) -> bool {
    t[i].bit_depth != 0 && t[i].l3 as nat == peek % pow2(t[i].bit_depth as nat)
}

/// The first slot at or after `from` that matches `peek`.
pub open spec fn first_match(t: Seq<Node>, peek: nat, from: int) -> Option<int>
    decreases 16 - from,
{
    if from >= 16 {
        None
    } else if slot_matches(t, peek, from) {
        Some(from)
    } else {
        first_match(t, peek, from + 1)
    }
}

/// `first_match` finds a matching slot, no slot between `from` and it
/// matches, and it finds none only where no slot from `from` on matches.
pub proof fn lemma_first_match_is_least(t: Seq<Node>, peek: nat, from: int)
    requires
        0 <= from <= 16,
    ensures
        match first_match(t, peek, from) {
            Some(i) => from <= i < 16 && slot_matches(t, peek, i) && forall|j: int|
                from <= j < i ==> !slot_matches(t, peek, j),
            None => forall|j: int| from <= j < 16 ==> !slot_matches(t, peek, j),
        },
    decreases 16 - from,
{
    if from < 16 && !slot_matches(t, peek, from) {
        lemma_first_match_is_least(t, peek, from + 1);
    }
}

/// Of two slots of a canonical table, the one with the shorter code matching
/// rules out the other.
proof fn lemma_no_two_match(depths: Seq<nat>, peek: nat, a: int, b: int)
    requires
        lengths_fit(depths),
        depths.len() <= 16,
        forall|k: int| 0 <= k < depths.len() ==> depths[k] <= 15,
        0 <= a < depths.len(),
        0 <= b < depths.len(),
        a != b,
        1 <= depths[a] <= depths[b],
        slot_matches(canonical_table(depths), peek, a),
    ensures
        !slot_matches(canonical_table(depths), peek, b),
{
    let da = depths[a];
    let db = depths[b];
    let ca = canonical_code(depths, a);
    let cb = canonical_code(depths, b);
    let gap = pow2((db - da) as nat);
    lemma2_to64();
    lemma_pow2_le(da, 15);
    lemma_pow2_le(db, 15);
    lemma_pow2_le((db - da) as nat, 15);
    lemma_reverse_bits_bound(ca, da);
    lemma_reverse_bits_bound(cb, db);
    lemma_canonical_codes(depths, a, b);
    lemma_code_fits(depths, b);
    if slot_matches(canonical_table(depths), peek, b) {
        lemma_pow2_adds(da, (db - da) as nat);
        lemma_mod_mod(peek as int, pow2(da) as int, gap as int);
        lemma_reverse_bits_tail(cb, db, da);
        let top = cb / gap;
        lemma_reverse_bits_twice(ca, da);
        lemma_reverse_bits_twice(top, da);
        lemma_small_mod(ca, pow2(da));
        assert(top < pow2(da)) by (nonlinear_arith)
            requires
                top == cb / gap,
                cb < pow2(da) * gap,
                gap > 0,
        ;
        lemma_small_mod(top, pow2(da));
        assert(false);
    }
}

/// Decoding through a canonical table is unambiguous: where the code lengths
/// fit, no bits match the codes of two slots, so the first slot that matches
/// is the only one.
pub proof fn lemma_match_is_unique(depths: Seq<nat>, peek: nat, i: int, j: int)
    requires
        lengths_fit(depths),
        depths.len() <= 16,
        forall|k: int| 0 <= k < depths.len() ==> depths[k] <= 15,
        0 <= i < 16,
        0 <= j < 16,
        i != j,
        slot_matches(canonical_table(depths), peek, i),
    ensures
        !slot_matches(canonical_table(depths), peek, j),
{
    if slot_matches(canonical_table(depths), peek, j) {
        if depths[i] <= depths[j] {
            lemma_no_two_match(depths, peek, i, j);
        } else {
            lemma_no_two_match(depths, peek, j, i);
        }
    }
}

/// Scans the slots in order for the first one in use whose stored code equals
/// the low bits of `peek`.
pub fn find_slot(table: &Table, peek: u16) -> (r: Option<usize>)
    requires
        table_wf(table@),
    ensures
        match r {
            Some(i) => first_match(table@, peek as nat, 0) == Some(i as int),
            None => first_match(table@, peek as nat, 0) == None::<int>,
        },
{
    let mut i: usize = 0;
    while i < 16
        invariant
            i <= 16,
            table_wf(table@),
            first_match(table@, peek as nat, 0) == first_match(table@, peek as nat, i as int),
        decreases 16 - i,
    {
        let node: Node = table[i];
        if node.bit_depth != 0 {
            proof {
                lemma_mask16(peek, node.bit_depth);
            }
            let mask: u16 = (1u16 << node.bit_depth) - 1;
            if node.l3 == (peek & mask) as u32 {
                return Some(i);
            }
        }
        i = i + 1;
    }
    None
}

/// The value that a matched slot stands for: slots 0 and 1 are the values 0
/// and 1; a higher slot gives the bit length of the value, whose leading one
/// is implied and whose lower bits are `extra`.
pub open spec fn escaped(index: nat, extra: nat) -> nat {
    if index < 2 {
        index
    } else {
        extra + pow2((index - 1) as nat)
    }
}

/// A slot from 2 on stands for the values of exactly its own bit length, and
/// each value has at most fifteen bits.
pub proof fn lemma_escaped_range(index: nat, extra: nat)
    requires
        index <= 15,
        index >= 2 ==> extra < pow2((index - 1) as nat),
    ensures
        index < 2 ==> escaped(index, extra) == index,
        index >= 2 ==> pow2((index - 1) as nat) <= escaped(index, extra) < pow2(index),
        escaped(index, extra) < 0x8000,
{
    lemma2_to64();
    if index >= 2 {
        lemma_pow2_unfold(index);
        lemma_pow2_le(index, 15);
    }
}

/// Combines a matched slot index with the extra bits read after the code.
pub fn escape_value(index: u16, extra: u16) -> (v: u16)
    requires
        index <= 15,
        index >= 2 ==> extra < pow2((index - 1) as nat),
    ensures
        v == escaped(index as nat, extra as nat),
{
    if index < 2 {
        index
    } else {
        let k: u16 = index - 1;
        proof {
            lemma_set_high_bit(extra, k);
        }
        extra | (1u16 << k)
    }
}

} // verus!
