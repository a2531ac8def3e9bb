//! A queue of not-yet-consumed bits drawn from a byte source.
//!
//! Bits are delivered least-significant first. The queue is refilled sixteen
//! bits at a time, from a little-endian word of the source; past the end of
//! the source every byte reads as zero, so the stream of bits never ends.

use crate::bit_math::{lemma_append_word, lemma_low_bits, lemma_peek, lemma_shift_out, lemma_word};
use crate::bytes_ext::{byte_or_zero, ByteReader};
use vstd::arithmetic::div_mod::{
    lemma_div_denominator,
    lemma_hoist_over_denominator,
    lemma_mod_bound,
    lemma_mod_breakdown,
    lemma_mod_mod,
    lemma_mod_multiples_vanish,
};
use vstd::arithmetic::power2::{lemma2_to64, lemma_pow2_adds, lemma_pow2_pos, pow2};
use vstd::prelude::*;

verus! {

/// The state of a bit stream over a fixed byte sequence: how many bytes of the
/// source are consumed, and which bits are buffered.
pub struct Stream {
    /// Bytes of the source consumed so far.
    pub pos: nat,
    /// The buffered bits as a number; bit 0 is the next bit to be delivered.
    pub bits: nat,
    /// How many bits are buffered.
    pub count: nat,
}

/// The little-endian word at `pos`, with zero for each byte past the end.
pub open spec fn word_at(data: Seq<u8>, pos: int) -> int {
    byte_or_zero(data, pos) + 0x100 * byte_or_zero(data, pos + 1)
}

/// The position after taking up to two bytes at `pos`.
pub open spec fn pos_after_word(data: Seq<u8>, pos: nat) -> nat {
    if pos + 2 <= data.len() {
        pos + 2
    } else if pos + 1 <= data.len() {
        pos + 1
    } else {
        pos
    }
}

/// The stream after one refill: the next word is placed above the buffered
/// bits, and the buffered width grows by sixteen whatever the source held.
pub open spec fn refilled(data: Seq<u8>, s: Stream) -> Stream {
    Stream {
        pos: pos_after_word(data, s.pos),
        bits: (s.bits + word_at(data, s.pos as int) * pow2(s.count)) as nat,
        count: s.count + 16,
    }
}

/// The stream made ready to deliver `n` bits: refilled once if fewer than `n`
/// bits are buffered, unchanged otherwise.
pub open spec fn filled_for(data: Seq<u8>, s: Stream, n: nat) -> Stream {
    if n > s.count {
        refilled(data, s)
    } else {
        s
    }
}

/// The value of the next `n` bits of the stream.
pub open spec fn bits_value(data: Seq<u8>, s: Stream, n: nat) -> nat {
    filled_for(data, s, n).bits % pow2(n)
}

/// The value of `n` bits lies below `2^n`.
pub proof fn lemma_bits_value_bound(data: Seq<u8>, s: Stream, n: nat)
    ensures
        bits_value(data, s, n) < pow2(n),
{
    lemma_pow2_pos(n);
    lemma_mod_bound(filled_for(data, s, n).bits as int, pow2(n) as int);
}

/// The stream after its next `n` bits are consumed.
pub open spec fn after_bits(data: Seq<u8>, s: Stream, n: nat) -> Stream {
    let f = filled_for(data, s, n);
    Stream { pos: f.pos, bits: f.bits / pow2(n), count: (f.count - n) as nat }
}

/// The next sixteen bits of the stream: the buffered bits, with the next word
/// of the source above them.
pub open spec fn peeked(data: Seq<u8>, s: Stream) -> nat {
    ((s.bits + word_at(data, s.pos as int) * pow2(s.count)) % 0x1_0000) as nat
}

/// What a read does to the stream: the buffered width shrinks by exactly the
/// width of the read; the source is touched only where the read asks for
/// more bits than are buffered, and then the width first grows by exactly
/// sixteen, however many bytes the source still held.
pub proof fn lemma_read_accounting(data: Seq<u8>, s: Stream, n: nat)
    requires
        n <= 16,
    ensures
        n <= s.count ==> after_bits(data, s, n).pos == s.pos && after_bits(data, s, n).count
            == s.count - n,
        n > s.count ==> after_bits(data, s, n).pos == pos_after_word(data, s.pos) && after_bits(
            data,
            s,
            n,
        ).count == s.count + 16 - n,
        s.pos <= after_bits(data, s, n).pos <= s.pos + 2,
        s.pos <= data.len() ==> after_bits(data, s, n).pos <= data.len(),
{
}

/// Past the end of the source the stream delivers zero bits: a read from an
/// empty queue over an exhausted source gives zero.
pub proof fn lemma_zero_past_end(data: Seq<u8>, s: Stream, n: nat)
    requires
        s.pos >= data.len(),
        s.bits == 0,
    ensures
        bits_value(data, s, n) == 0,
        after_bits(data, s, n).bits == 0,
        after_bits(data, s, n).pos == s.pos,
{
    lemma_pow2_pos(n);
    assert(word_at(data, s.pos as int) * pow2(s.count) == 0) by (nonlinear_arith)
        requires
            word_at(data, s.pos as int) == 0,
    ;
    vstd::arithmetic::div_mod::lemma_small_mod(0, pow2(n));
    vstd::arithmetic::div_mod::lemma_div_basics(pow2(n) as int);
}

/// A peek shows what the next read will deliver: the value of the next `n`
/// bits is the low `n` bits of the peeked value.
pub proof fn lemma_peek_agrees_with_read(data: Seq<u8>, s: Stream, n: nat)
    requires
        n <= 16,
    ensures
        bits_value(data, s, n) == peeked(data, s) % pow2(n),
{
    let p = pow2(n) as int;
    let c = pow2(s.count) as int;
    let w = word_at(data, s.pos as int);
    let t = s.bits + w * c;
    let k = pow2((16 - n) as nat) as int;
    lemma_pow2_pos(n);
    lemma_pow2_pos((16 - n) as nat);
    lemma_pow2_adds(n, (16 - n) as nat);
    lemma2_to64();
    assert(w * c >= 0) by (nonlinear_arith)
        requires
            w >= 0,
            c >= 0,
    ;
    lemma_mod_mod(t, p, k);
    if n <= s.count {
        let rest = pow2((s.count - n) as nat) as int;
        lemma_pow2_adds(n, (s.count - n) as nat);
        assert(t == p * (w * rest) + s.bits) by (nonlinear_arith)
            requires
                t == s.bits + w * c,
                c == p * rest,
        ;
        lemma_mod_multiples_vanish(w * rest, s.bits as int, p);
    }
}

/// Taking `a + b` bits of a number apart: the low `a` bits, then `b` bits of
/// what is left.
proof fn lemma_split_low_bits(x: nat, a: nat, b: nat)
    ensures
        x % pow2(a + b) == x % pow2(a) + pow2(a) * ((x / pow2(a)) % pow2(b)),
        (x / pow2(a)) / pow2(b) == x / pow2(a + b),
{
    lemma_pow2_pos(a);
    lemma_pow2_pos(b);
    lemma_pow2_adds(a, b);
    lemma_mod_breakdown(x as int, pow2(a) as int, pow2(b) as int);
    lemma_div_denominator(x as int, pow2(a) as int, pow2(b) as int);
}

/// Reading `a` bits and then `b` bits is reading `a + b` bits at once: the
/// stream is left the same, and the second value stands above the first.
pub proof fn lemma_reads_compose(data: Seq<u8>, s: Stream, a: nat, b: nat)
    requires
        a + b <= 16,
    ensures
        after_bits(data, after_bits(data, s, a), b) == after_bits(data, s, a + b),
        bits_value(data, s, a + b) == bits_value(data, s, a) + pow2(a) * bits_value(
            data,
            after_bits(data, s, a),
            b,
        ),
{
    let w = word_at(data, s.pos as int);
    let c = pow2(s.count);
    let t = (s.bits + w * c) as nat;
    lemma_pow2_pos(a);
    lemma_pow2_pos(s.count);
    assert(w * c >= 0) by (nonlinear_arith)
        requires
            w >= 0,
            c >= 0,
    ;
    if a + b <= s.count {
        lemma_split_low_bits(s.bits, a, b);
    } else if a > s.count {
        lemma_split_low_bits(t, a, b);
    } else {
        let above = pow2((s.count - a) as nat);
        let m = w * above;
        lemma_pow2_adds(a, (s.count - a) as nat);
        assert(m >= 0 && w * c == m * pow2(a)) by (nonlinear_arith)
            requires
                m == w * above,
                c == pow2(a) * above,
                w >= 0,
        ;
        lemma_hoist_over_denominator(s.bits as int, m, pow2(a));
        lemma_mod_multiples_vanish(m, s.bits as int, pow2(a) as int);
        assert(m * pow2(a) == pow2(a) * m) by (nonlinear_arith);
        lemma_split_low_bits(t, a, b);
    }
}

/// The buffer of a bit stream.
#[derive(Clone, Copy, Debug)]
pub struct BitQueue {
    bit_queue: u32,
    bits_in_queue: u16,
}

impl BitQueue {
    /// The buffered bits as a number; bit 0 is the next bit to be delivered.
    pub closed spec fn bits(&self) -> nat {
        self.bit_queue as nat
    }

    /// How many bits are buffered.
    pub closed spec fn count(&self) -> nat {
        self.bits_in_queue as nat
    }

    /// The buffered width is known exactly and no bit is set above it.
    pub open spec fn wf(&self) -> bool {
        self.count() <= 31 && self.bits() < pow2(self.count())
    }

    /// The bit stream formed by this buffer and a source consumed up to `pos`.
    pub open spec fn stream(&self, pos: nat) -> Stream {
        Stream { pos, bits: self.bits(), count: self.count() }
    }

    /// An empty queue.
    pub fn new() -> (q: Self)
        ensures
            q.wf(),
            q.bits() == 0,
            q.count() == 0,
    {
        proof {
            lemma_pow2_pos(0);
        }
        BitQueue { bit_queue: 0, bits_in_queue: 0 }
    }

    /// The number of buffered bits.
    pub fn bits_in_queue(&self) -> (n: u16)
        ensures
            n == self.count(),
    {
        self.bits_in_queue
    }

    /// Pulls one word from the source and places it above the buffered bits.
    pub fn refill(&mut self, r: &mut ByteReader)
        requires
            old(self).wf(),
            old(self).count() <= 15,
            old(r).wf(),
        ensures
            final(self).wf(),
            final(r).wf(),
            final(r).data() == old(r).data(),
            final(self).stream(final(r).pos()) == refilled(
                old(r).data(),
                old(self).stream(old(r).pos()),
            ),
    {
        // Two single bytes, not one word: the source may end on an odd byte.
        let b0: u32 = r.read_u8_or_zero() as u32;
        let b1: u32 = r.read_u8_or_zero() as u32;
        let new_bits: u32 = (b1 << 8u32) | b0;
        let shift: u32 = self.bits_in_queue as u32;
        proof {
            lemma_word(b0, b1);
            lemma_append_word(self.bit_queue, new_bits, shift);
        }
        self.bit_queue = self.bit_queue | (new_bits << shift);
        self.bits_in_queue = self.bits_in_queue + 16;
    }

    /// The next sixteen bits of the stream. Nothing is consumed.
    pub fn peek(&self, r: &ByteReader) -> (t: u16)
        requires
            self.wf(),
            r.wf(),
        ensures
            t == peeked(r.data(), self.stream(r.pos())),
    {
        let low: u32 = r.peek_u8_or_zero(0) as u32;
        let high: u32 = r.peek_u8_or_zero(1) as u32;
        let p: u32 = (high << 8u32) | low;
        let shift: u32 = self.bits_in_queue as u32;
        proof {
            lemma_word(low, high);
            lemma_peek(self.bit_queue, p, shift);
        }
        ((p << shift) | self.bit_queue) as u16
    }

    /// Consumes the next `n` bits of the stream and returns their value.
    pub fn read_bits(&mut self, r: &mut ByteReader, n: u8) -> (v: u16)
        requires
            n <= 16,
            old(self).wf(),
            old(r).wf(),
        ensures
            final(self).wf(),
            final(r).wf(),
            final(r).data() == old(r).data(),
            v == bits_value(old(r).data(), old(self).stream(old(r).pos()), n as nat),
            final(self).stream(final(r).pos()) == after_bits(
                old(r).data(),
                old(self).stream(old(r).pos()),
                n as nat,
            ),
    {
        let n: u16 = n as u16;
        if n > self.bits_in_queue {
            self.refill(r);
        }
        let width: u32 = n as u32;
        proof {
            lemma_low_bits(self.bit_queue, width);
            lemma_shift_out(self.bit_queue, width, self.bits_in_queue as nat);
        }
        let mask: u32 = (1u32 << width) - 1;
        let v: u16 = (self.bit_queue & mask) as u16;
        self.bit_queue = self.bit_queue >> width;
        self.bits_in_queue = self.bits_in_queue - n;
        v
    }
}

} // verus!
