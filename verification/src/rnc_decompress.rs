//! The RNC1 decompressor: a header, then blocks of subchunks, each a run of
//! literal bytes followed by a copy from the output produced so far.

use crate::bit_queue::{
    after_bits,
    bits_value,
    lemma_bits_value_bound,
    peeked,
    BitQueue,
    Stream,
};
use crate::bytes_ext::{be_u16_at, be_u32_at, ByteReader, ReadError};
use crate::huffman::{
    assign_codes,
    canonical_table,
    depths_of,
    escape_value,
    escaped,
    find_slot,
    first_match,
    lemma_escaped_range,
    lemma_first_match_is_least,
    table_new,
    table_wf,
    Node,
    Table,
};
use vstd::arithmetic::power2::{lemma2_to64, pow2};
use vstd::prelude::*;

verus! {

/// Why a stream could not be decompressed.
#[derive(Clone, Copy, Debug, PartialEq, Eq, Structural)]
pub enum DecompressError {
    /// The source ended inside the header or inside a run of literal bytes.
    Io(ReadError),
    /// The stream does not begin with the RNC1 signature.
    SignatureError,
    /// No slot of a Huffman table matches the next bits of the stream.
    NoMatchingCode,
    /// A copy reaches back before the first byte of the output.
    BadMatchDistance,
}

impl DecompressError {
    /// A human-readable description of the error.
    pub fn message(&self) -> (s: String)
        ensures
            s@ == match *self {
                DecompressError::Io(err) => "failed to fill whole buffer"@,
                DecompressError::SignatureError => "Invalid signature"@,
                DecompressError::NoMatchingCode => "No matching Huffman code"@,
                DecompressError::BadMatchDistance => "Match distance out of range"@,
            },
    {
        match self {
            DecompressError::Io(err) => err.message(),
            DecompressError::SignatureError => "Invalid signature".to_string(),
            DecompressError::NoMatchingCode => "No matching Huffman code".to_string(),
            DecompressError::BadMatchDistance => "Match distance out of range".to_string(),
        }
    }
}

/// The number of bytes in the header of a stream.
pub const HEADER_LEN: usize = 18;

/// The four bytes that open every stream: `"RNC"` and the method number 1.
pub open spec fn signature() -> Seq<u8> {
    seq![0x52u8, 0x4eu8, 0x43u8, 0x01u8]
}

/// The fixed fields at the start of a stream.
#[derive(Clone, Copy, Debug)]
pub struct Header {
    pub signature: [u8; 4],
    pub unpacked_len: u32,
    pub packed_len: u32,
    pub crc_unpacked: u16,
    pub crc_packed: u16,
    pub overlaps_size: u8,
    pub blocks: u8,
}

impl Header {
    /// Whether this header holds the fields stored at `data[pos..pos + 18]`:
    /// the multi-byte integers are big-endian.
    pub open spec fn parsed_from(&self, data: Seq<u8>, pos: int) -> bool {
        &&& self.signature@ == data.subrange(pos, pos + 4)
        &&& self.unpacked_len == be_u32_at(data, pos + 4)
        &&& self.packed_len == be_u32_at(data, pos + 8)
        &&& self.crc_unpacked == be_u16_at(data, pos + 12)
        &&& self.crc_packed == be_u16_at(data, pos + 14)
        &&& self.overlaps_size == data[pos + 16]
        &&& self.blocks == data[pos + 17]
    }

    /// Reads the header. The source must hold all eighteen bytes of it.
    pub fn read(r: &mut ByteReader) -> (res: Result<Header, DecompressError>)
        requires
            old(r).wf(),
        ensures
            final(r).wf(),
            final(r).data() == old(r).data(),
            old(r).can_read(18) ==> res.is_ok() && res->Ok_0.parsed_from(
                old(r).data(),
                old(r).pos() as int,
            ) && final(r).pos() == old(r).pos() + 18,
            !old(r).can_read(18) ==> res == Err::<Header, DecompressError>(
                DecompressError::Io(ReadError::UnexpectedEof),
            ) && final(r).pos() == old(r).data().len(),
    {
        let signature: [u8; 4] = match r.read_exact(4) {
            Ok(s) => [s[0], s[1], s[2], s[3]],
            Err(e) => {
                return Err(DecompressError::Io(e));
            },
        };
        let unpacked_len: u32 = match r.read_be_u32() {
            Ok(v) => v,
            Err(e) => {
                return Err(DecompressError::Io(e));
            },
        };
        let packed_len: u32 = match r.read_be_u32() {
            Ok(v) => v,
            Err(e) => {
                return Err(DecompressError::Io(e));
            },
        };
        let crc_unpacked: u16 = match r.read_be_u16() {
            Ok(v) => v,
            Err(e) => {
                return Err(DecompressError::Io(e));
            },
        };
        let crc_packed: u16 = match r.read_be_u16() {
            Ok(v) => v,
            Err(e) => {
                return Err(DecompressError::Io(e));
            },
        };
        let overlaps_size: u8 = match r.read_u8() {
            Ok(v) => v,
            Err(e) => {
                return Err(DecompressError::Io(e));
            },
        };
        let blocks: u8 = match r.read_u8() {
            Ok(v) => v,
            Err(e) => {
                return Err(DecompressError::Io(e));
            },
        };
        let header = Header {
            signature,
            unpacked_len,
            packed_len,
            crc_unpacked,
            crc_packed,
            overlaps_size,
            blocks,
        };
        assert(header.signature@ =~= old(r).data().subrange(
            old(r).pos() as int,
            old(r).pos() as int + 4,
        ));
        Ok(header)
    }

    /// Whether the header opens with the RNC1 signature.
    pub fn signature_is_valid(&self) -> (b: bool)
        ensures
            b == (self.signature@ == signature()),
    {
        let b: bool = self.signature[0] == 0x52 && self.signature[1] == 0x4e && self.signature[2]
            == 0x43 && self.signature[3] == 0x01;
        assert(b == (self.signature@ =~= signature()));
        b
    }
}

/// How far a decode has come: the output and the stream so far, or the error
/// that ended it and the position at which the source was left.
pub enum Progress {
    Going { out: Seq<u8>, stream: Stream },
    Failed { error: DecompressError, pos: nat },
}

/// The value decoded through table `t` and the stream after it, or `None`
/// where no slot matches the next bits. The code of the first matching slot is
/// consumed; a slot from 2 on is followed by one extra bit fewer than its index.
pub open spec fn decoded_value(data: Seq<u8>, s: Stream, t: Seq<Node>) -> Option<(nat, Stream)> {
    match first_match(t, peeked(data, s), 0) {
        None => None,
        Some(i) => {
            let s1 = after_bits(data, s, t[i].bit_depth as nat);
            if i < 2 {
                Some((i as nat, s1))
            } else {
                Some(
                    (
                        escaped(i as nat, bits_value(data, s1, (i - 1) as nat)),
                        after_bits(data, s1, (i - 1) as nat),
                    ),
                )
            }
        },
    }
}

/// The number of leaves that a table description announces: five bits,
/// clamped to the sixteen slots of a table.
pub open spec fn leaf_count(data: Seq<u8>, s: Stream) -> nat {
    if bits_value(data, s, 5) <= 16 {
        bits_value(data, s, 5)
    } else {
        16
    }
}

/// The stream after `k` four-bit code lengths are read from `s`.
pub open spec fn after_depths(data: Seq<u8>, s: Stream, k: nat) -> Stream
    decreases k,
{
    if k == 0 {
        s
    } else {
        after_bits(data, after_depths(data, s, (k - 1) as nat), 4)
    }
}

/// The first `n` four-bit code lengths read from `s`, in symbol order.
pub open spec fn depths_read(data: Seq<u8>, s: Stream, n: nat) -> Seq<nat> {
    Seq::new(n, |k: int| bits_value(data, after_depths(data, s, k as nat), 4))
}

/// The table described at `s`: a leaf count, then one code length per leaf.
pub open spec fn table_read(data: Seq<u8>, s: Stream) -> Seq<Node> {
    canonical_table(depths_read(data, after_bits(data, s, 5), leaf_count(data, s)))
}

/// The stream after the table description at `s`.
pub open spec fn after_table(data: Seq<u8>, s: Stream) -> Stream {
    after_depths(data, after_bits(data, s, 5), leaf_count(data, s))
}

/// `out` followed by `count` bytes, each a copy of the byte `distance` places
/// before the end of what has been written so far. With `distance` below
/// `count` the copy reads bytes that it wrote itself.
pub open spec fn with_match(out: Seq<u8>, distance: nat, count: nat) -> Seq<u8>
    decreases count,
{
    if count == 0 {
        out
    } else {
        let prev = with_match(out, distance, (count - 1) as nat);
        prev.push(prev[prev.len() - distance])
    }
}

/// A copy keeps what was there, appends exactly `count` bytes, and each byte
/// that it appends equals the byte `distance` places before it.
pub proof fn lemma_with_match(out: Seq<u8>, distance: nat, count: nat)
    requires
        1 <= distance <= out.len(),
    ensures
        with_match(out, distance, count).len() == out.len() + count,
        with_match(out, distance, count).subrange(0, out.len() as int) == out,
        forall|j: int|
            out.len() <= j < out.len() + count ==> #[trigger] with_match(out, distance, count)[j]
                == with_match(out, distance, count)[j - distance],
    decreases count,
{
    if count > 0 {
        lemma_with_match(out, distance, (count - 1) as nat);
    }
}

/// Appends `count` bytes to `output`, each a copy of the byte `distance`
/// places before the end. The bytes are copied one at a time, so that a copy
/// longer than its distance repeats what it has just written.
pub fn copy_match(output: &mut Vec<u8>, distance: usize, count: usize)
    requires
        1 <= distance <= old(output)@.len(),
    ensures
        final(output)@ == with_match(old(output)@, distance as nat, count as nat),
{
    let mut j: usize = 0;
    while j < count
        invariant
            j <= count,
            1 <= distance <= old(output)@.len(),
            output@.len() == old(output)@.len() + j,
            output@ == with_match(old(output)@, distance as nat, j as nat),
        decreases count - j,
    {
        let b: u8 = output[output.len() - distance];
        output.push(b);
        j = j + 1;
    }
}

/// Appends `bytes` to `output`.
pub fn append_bytes(output: &mut Vec<u8>, bytes: &[u8])
    ensures
        final(output)@ == old(output)@ + bytes@,
{
    let mut j: usize = 0;
    while j < bytes.len()
        invariant
            j <= bytes@.len(),
            output@ == old(output)@ + bytes@.subrange(0, j as int),
        decreases bytes@.len() - j,
    {
        output.push(bytes[j]);
        j = j + 1;
    }
}

/// The output after the run of literal bytes at `s`: a length decoded through
/// `raw`, then that many bytes taken from the source as they are.
pub open spec fn literal_run(data: Seq<u8>, s: Stream, out: Seq<u8>, raw: Seq<Node>) -> Progress {
    match decoded_value(data, s, raw) {
        None => Progress::Failed { error: DecompressError::NoMatchingCode, pos: s.pos },
        Some((n, s1)) => if s1.pos + n <= data.len() {
            Progress::Going {
                out: out + data.subrange(s1.pos as int, (s1.pos + n) as int),
                stream: Stream { pos: s1.pos + n, bits: s1.bits, count: s1.count },
            }
        } else {
            Progress::Failed {
                error: DecompressError::Io(ReadError::UnexpectedEof),
                pos: data.len(),
            }
        },
    }
}

/// The output after the copy described at `s`: a value decoded through `len_t`
/// is one less than the distance, then a value decoded through `pos_t` is two
/// less than the number of bytes.
pub open spec fn back_reference(
    data: Seq<u8>,
    s: Stream,
    out: Seq<u8>,
    len_t: Seq<Node>,
    pos_t: Seq<Node>,
) -> Progress {
    match decoded_value(data, s, len_t) {
        None => Progress::Failed { error: DecompressError::NoMatchingCode, pos: s.pos },
        Some((d, s1)) => match decoded_value(data, s1, pos_t) {
            None => Progress::Failed { error: DecompressError::NoMatchingCode, pos: s1.pos },
            Some((c, s2)) => if d + 1 <= out.len() {
                Progress::Going { out: with_match(out, d + 1, c + 2), stream: s2 }
            } else {
                Progress::Failed { error: DecompressError::BadMatchDistance, pos: s2.pos }
            },
        },
    }
}

/// The output after the last `remaining` subchunks of a block. Every subchunk
/// is a literal run; all but the last of the block are followed by a copy.
pub open spec fn subchunks_decoded(
    data: Seq<u8>,
    s: Stream,
    out: Seq<u8>,
    raw: Seq<Node>,
    len_t: Seq<Node>,
    pos_t: Seq<Node>,
    remaining: nat,
) -> Progress
    decreases remaining,
{
    if remaining == 0 {
        Progress::Going { out, stream: s }
    } else {
        match literal_run(data, s, out, raw) {
            Progress::Failed { error, pos } => Progress::Failed { error, pos },
            Progress::Going { out: o1, stream: s1 } => if remaining == 1 {
                Progress::Going { out: o1, stream: s1 }
            } else {
                match back_reference(data, s1, o1, len_t, pos_t) {
                    Progress::Failed { error, pos } => Progress::Failed { error, pos },
                    Progress::Going { out: o2, stream: s2 } => subchunks_decoded(
                        data,
                        s2,
                        o2,
                        raw,
                        len_t,
                        pos_t,
                        (remaining - 1) as nat,
                    ),
                }
            },
        }
    }
}

/// The output after one block: three tables, a sixteen-bit count of
/// subchunks, then the subchunks.
pub open spec fn block_decoded(data: Seq<u8>, s: Stream, out: Seq<u8>) -> Progress {
    let raw = table_read(data, s);
    let s1 = after_table(data, s);
    let len_t = table_read(data, s1);
    let s2 = after_table(data, s1);
    let pos_t = table_read(data, s2);
    let s3 = after_table(data, s2);
    subchunks_decoded(
        data,
        after_bits(data, s3, 16),
        out,
        raw,
        len_t,
        pos_t,
        bits_value(data, s3, 16),
    )
}

/// The output after the last `remaining` blocks of a stream.
pub open spec fn blocks_decoded(data: Seq<u8>, s: Stream, out: Seq<u8>, remaining: nat) -> Progress
    decreases remaining,
{
    if remaining == 0 {
        Progress::Going { out, stream: s }
    } else {
        match block_decoded(data, s, out) {
            Progress::Failed { error, pos } => Progress::Failed { error, pos },
            Progress::Going { out: o1, stream: s1 } => blocks_decoded(
                data,
                s1,
                o1,
                (remaining - 1) as nat,
            ),
        }
    }
}

/// What decoding the stream at `s` gives: the header must be complete and
/// open with the signature; two bits of padding follow it, then as many blocks
/// as the header announces. Neither the lengths nor the checksums of the
/// header are held against the output.
pub open spec fn stream_decoded(data: Seq<u8>, s: Stream) -> Progress {
    if s.pos + 18 > data.len() {
        Progress::Failed { error: DecompressError::Io(ReadError::UnexpectedEof), pos: data.len() }
    } else if data.subrange(s.pos as int, s.pos as int + 4) != signature() {
        Progress::Failed { error: DecompressError::SignatureError, pos: s.pos + 18 }
    } else {
        let body = Stream { pos: s.pos + 18, bits: s.bits, count: s.count };
        blocks_decoded(
            data,
            after_bits(data, body, 2),
            Seq::<u8>::empty(),
            data[s.pos as int + 17] as nat,
        )
    }
}

/// The length of the output after the literal run at `s`, and the stream
/// after it; `None` where the run fails. Only the length `len` of the output
/// so far is looked at, never its bytes.
pub open spec fn literal_run_measured(data: Seq<u8>, s: Stream, len: nat, raw: Seq<Node>) -> Option<
    (nat, Stream),
> {
    match decoded_value(data, s, raw) {
        None => None,
        Some((n, s1)) => if s1.pos + n <= data.len() {
            Some((len + n, Stream { pos: s1.pos + n, bits: s1.bits, count: s1.count }))
        } else {
            None
        },
    }
}

/// The length of the output after the copy described at `s`, and the stream
/// after it; `None` where the copy fails.
pub open spec fn back_reference_measured(
    data: Seq<u8>,
    s: Stream,
    len: nat,
    len_t: Seq<Node>,
    pos_t: Seq<Node>,
) -> Option<(nat, Stream)> {
    match decoded_value(data, s, len_t) {
        None => None,
        Some((d, s1)) => match decoded_value(data, s1, pos_t) {
            None => None,
            Some((c, s2)) => if d + 1 <= len {
                Some((len + c + 2, s2))
            } else {
                None
            },
        },
    }
}

/// The length of the output after the last `remaining` subchunks of a block.
pub open spec fn subchunks_measured(
    data: Seq<u8>,
    s: Stream,
    len: nat,
    raw: Seq<Node>,
    len_t: Seq<Node>,
    pos_t: Seq<Node>,
    remaining: nat,
) -> Option<(nat, Stream)>
    decreases remaining,
{
    if remaining == 0 {
        Some((len, s))
    } else {
        match literal_run_measured(data, s, len, raw) {
            None => None,
            Some((l1, s1)) => if remaining == 1 {
                Some((l1, s1))
            } else {
                match back_reference_measured(data, s1, l1, len_t, pos_t) {
                    None => None,
                    Some((l2, s2)) => subchunks_measured(
                        data,
                        s2,
                        l2,
                        raw,
                        len_t,
                        pos_t,
                        (remaining - 1) as nat,
                    ),
                }
            },
        }
    }
}

/// The length of the output after one block.
pub open spec fn block_measured(data: Seq<u8>, s: Stream, len: nat) -> Option<(nat, Stream)> {
    let raw = table_read(data, s);
    let s1 = after_table(data, s);
    let len_t = table_read(data, s1);
    let s2 = after_table(data, s1);
    let pos_t = table_read(data, s2);
    let s3 = after_table(data, s2);
    subchunks_measured(
        data,
        after_bits(data, s3, 16),
        len,
        raw,
        len_t,
        pos_t,
        bits_value(data, s3, 16),
    )
}

/// The length of the output after the last `remaining` blocks of a stream.
pub open spec fn blocks_measured(data: Seq<u8>, s: Stream, len: nat, remaining: nat) -> Option<
    (nat, Stream),
>
    decreases remaining,
{
    if remaining == 0 {
        Some((len, s))
    } else {
        match block_measured(data, s, len) {
            None => None,
            Some((l1, s1)) => blocks_measured(data, s1, l1, (remaining - 1) as nat),
        }
    }
}

/// What the runs of the stream that starts at `data[pos]` add up to: the
/// lengths of its literal runs and of its copies. `None` where the stream
/// cannot be decoded.
pub open spec fn measured(data: Seq<u8>, pos: nat) -> Option<nat> {
    if pos + 18 > data.len() {
        None
    } else if data.subrange(pos as int, pos as int + 4) != signature() {
        None
    } else {
        let body = Stream { pos: pos + 18, bits: 0, count: 0 };
        match blocks_measured(data, after_bits(data, body, 2), 0, data[pos as int + 17] as nat) {
            None => None,
            Some((len, s)) => Some(len),
        }
    }
}

/// Whether a measure agrees with a decode: both fail, or both stand at the
/// same stream and the measure is the length of the output.
pub open spec fn measures(m: Option<(nat, Stream)>, p: Progress) -> bool {
    match p {
        Progress::Going { out, stream } => m == Some((out.len(), stream)),
        Progress::Failed { error, pos } => m is None,
    }
}

/// Subchunk by subchunk, the length of the output follows from the lengths
/// that the stream holds.
proof fn lemma_subchunks_measured(
    data: Seq<u8>,
    s: Stream,
    out: Seq<u8>,
    raw: Seq<Node>,
    len_t: Seq<Node>,
    pos_t: Seq<Node>,
    remaining: nat,
)
    ensures
        measures(
            subchunks_measured(data, s, out.len(), raw, len_t, pos_t, remaining),
            subchunks_decoded(data, s, out, raw, len_t, pos_t, remaining),
        ),
    decreases remaining,
{
    if remaining > 0 {
        match literal_run(data, s, out, raw) {
            Progress::Failed { error, pos } => {},
            Progress::Going { out: o1, stream: s1 } => {
                if remaining > 1 {
                    match back_reference(data, s1, o1, len_t, pos_t) {
                        Progress::Failed { error, pos } => {},
                        Progress::Going { out: o2, stream: s2 } => {
                            let d = decoded_value(data, s1, len_t)->Some_0.0;
                            let s3 = decoded_value(data, s1, len_t)->Some_0.1;
                            let c = decoded_value(data, s3, pos_t)->Some_0.0;
                            lemma_with_match(o1, d + 1, c + 2);
                            lemma_subchunks_measured(
                                data,
                                s2,
                                o2,
                                raw,
                                len_t,
                                pos_t,
                                (remaining - 1) as nat,
                            );
                        },
                    }
                }
            },
        }
    }
}

/// Block by block, the length of the output follows from the lengths that
/// the stream holds.
proof fn lemma_blocks_measured(data: Seq<u8>, s: Stream, out: Seq<u8>, remaining: nat)
    ensures
        measures(
            blocks_measured(data, s, out.len(), remaining),
            blocks_decoded(data, s, out, remaining),
        ),
    decreases remaining,
{
    if remaining > 0 {
        let raw = table_read(data, s);
        let s1 = after_table(data, s);
        let len_t = table_read(data, s1);
        let s2 = after_table(data, s1);
        let pos_t = table_read(data, s2);
        let s3 = after_table(data, s2);
        lemma_subchunks_measured(
            data,
            after_bits(data, s3, 16),
            out,
            raw,
            len_t,
            pos_t,
            bits_value(data, s3, 16),
        );
        match block_decoded(data, s, out) {
            Progress::Failed { error, pos } => {},
            Progress::Going { out: o1, stream: t } => {
                lemma_blocks_measured(data, t, o1, (remaining - 1) as nat);
            },
        }
    }
}

/// The length of the output is decided by the structure of the stream
/// alone: a stream decodes exactly where its runs can be added up, and its
/// output is as long as their sum.
pub proof fn lemma_length_is_measured(data: Seq<u8>, pos: nat)
    ensures
        match unpacked(data, pos) {
            Progress::Going { out, stream } => measured(data, pos) == Some(out.len()),
            Progress::Failed { error, pos: left_at } => measured(data, pos) is None,
        },
{
    if pos + 18 <= data.len() && data.subrange(pos as int, pos as int + 4) == signature() {
        let body = Stream { pos: pos + 18, bits: 0, count: 0 };
        let start = after_bits(data, body, 2);
        let blocks = data[pos as int + 17] as nat;
        lemma_blocks_measured(data, start, Seq::<u8>::empty(), blocks);
        assert(unpacked(data, pos) == blocks_decoded(data, start, Seq::<u8>::empty(), blocks));
    }
}

/// A stream whose header declares what its runs add up to decodes, and its
/// output has exactly the declared length. The decoder itself never holds the
/// declared length against its output, so a header that declares another
/// number changes nothing of what is decoded.
pub proof fn lemma_declared_length(data: Seq<u8>, pos: nat)
    requires
        pos + 18 <= data.len(),
        measured(data, pos) == Some(be_u32_at(data, pos as int + 4) as nat),
    ensures
        unpacked(data, pos) matches Progress::Going { out, stream } && out.len() == be_u32_at(
            data,
            pos as int + 4,
        ),
{
    lemma_length_is_measured(data, pos);
}

/// A decoder over a byte source: the source, the bits buffered from it, and
/// the output produced so far.
pub struct Decoder<'a> {
    pub r: ByteReader<'a>,
    pub bit_queue: BitQueue,
    pub output: Vec<u8>,
}

impl<'a> Decoder<'a> {
    /// The source and the bit queue are well-formed.
    pub open spec fn wf(&self) -> bool {
        self.r.wf() && self.bit_queue.wf()
    }

    /// The bit stream that the decoder stands at.
    pub open spec fn stream(&self) -> Stream {
        self.bit_queue.stream(self.r.pos())
    }

    /// Whether the decoder has come to `p` with the result `res`: on success
    /// it holds the output and stands at the stream of `p`; on failure `res` is
    /// the error of `p` and the source is left at its position.
    pub open spec fn reached(&self, res: Result<(), DecompressError>, p: Progress) -> bool {
        match p {
            Progress::Going { out, stream } => res == Ok::<(), DecompressError>(())
                && self.output@ == out && self.stream() == stream,
            Progress::Failed { error, pos } => res == Err::<(), DecompressError>(error)
                && self.r.pos() == pos,
        }
    }

    /// A decoder at the current position of `r`, with nothing buffered and no output.
    pub fn new(r: ByteReader<'a>) -> (d: Self)
        requires
            r.wf(),
        ensures
            d.wf(),
            d.r == r,
            d.stream() == (Stream { pos: r.pos(), bits: 0, count: 0 }),
            d.output@ == Seq::<u8>::empty(),
    {
        Decoder { r, bit_queue: BitQueue::new(), output: Vec::new() }
    }

    /// Consumes the next `n` bits of the stream and returns their value.
    pub fn read_bits(&mut self, n: u8) -> (v: u16)
        requires
            n <= 16,
            old(self).wf(),
        ensures
            final(self).wf(),
            final(self).r.data() == old(self).r.data(),
            final(self).output@ == old(self).output@,
            v == bits_value(old(self).r.data(), old(self).stream(), n as nat),
            v < pow2(n as nat),
            final(self).stream() == after_bits(old(self).r.data(), old(self).stream(), n as nat),
    {
        proof {
            lemma_bits_value_bound(self.r.data(), self.stream(), n as nat);
        }
        self.bit_queue.read_bits(&mut self.r, n)
    }

    /// Reads a table description from the stream and builds the table: every
    /// slot of `table` is set anew.
    pub fn read_table(&mut self, table: &mut Table)
        requires
            old(self).wf(),
        ensures
            final(self).wf(),
            final(self).r.data() == old(self).r.data(),
            final(self).output@ == old(self).output@,
            final(table)@ == table_read(old(self).r.data(), old(self).stream()),
            table_wf(final(table)@),
            final(self).stream() == after_table(old(self).r.data(), old(self).stream()),
    {
        let ghost data = self.r.data();
        *table = table_new();
        let announced: u16 = self.read_bits(5);
        let leaf_nodes: usize = if announced > 16 {
            16
        } else {
            announced as usize
        };
        let ghost s1 = self.stream();
        let mut k: usize = 0;
        proof {
            lemma2_to64();
        }
        while k < leaf_nodes
            invariant
                k <= leaf_nodes <= 16,
                self.wf(),
                self.r.data() == data,
                self.output@ == old(self).output@,
                self.stream() == after_depths(data, s1, k as nat),
                forall|i: int|
                    0 <= i < 16 ==> #[trigger] table@[i] == (if i < k {
                        Node { l3: 0, bit_depth: depths_read(data, s1, leaf_nodes as nat)[i] as u16 }
                    } else {
                        Node { l3: 0, bit_depth: 0 }
                    }),
                forall|i: int| 0 <= i < k ==> depths_read(data, s1, leaf_nodes as nat)[i] <= 15,
            decreases leaf_nodes - k,
        {
            let depth: u16 = self.read_bits(4);
            proof {
                lemma2_to64();
            }
            table[k].bit_depth = depth;
            k = k + 1;
        }
        let ghost filled = table@;
        let ghost depths = depths_read(data, s1, leaf_nodes as nat);
        assign_codes(table, leaf_nodes);
        proof {
            assert(depths_of(filled, leaf_nodes as int) =~= depths);
        }
    }

    /// Decodes one value through `table`: finds the first slot whose code the
    /// next bits match, consumes the code, and reads the extra bits of a slot
    /// from 2 on.
    pub fn input_value(&mut self, table: &Table) -> (res: Result<u16, DecompressError>)
        requires
            old(self).wf(),
            table_wf(table@),
        ensures
            final(self).wf(),
            final(self).r.data() == old(self).r.data(),
            final(self).output@ == old(self).output@,
            match decoded_value(old(self).r.data(), old(self).stream(), table@) {
                Some((v, s)) => res == Ok::<u16, DecompressError>(v as u16) && v < 0x8000
                    && final(self).stream() == s,
                None => res == Err::<u16, DecompressError>(DecompressError::NoMatchingCode)
                    && final(self).stream() == old(self).stream(),
            },
    {
        let peek: u16 = self.bit_queue.peek(&self.r);
        match find_slot(table, peek) {
            None => Err(DecompressError::NoMatchingCode),
            Some(i) => {
                proof {
                    lemma_first_match_is_least(table@, peek as nat, 0);
                }
                let depth: u16 = table[i].bit_depth;
                let _code: u16 = self.read_bits(depth as u8);
                if i < 2 {
                    Ok(i as u16)
                } else {
                    let extra: u16 = self.read_bits((i - 1) as u8);
                    proof {
                        lemma_escaped_range(i as nat, extra as nat);
                    }
                    Ok(escape_value(i as u16, extra))
                }
            },
        }
    }
}

impl<'a> Decoder<'a> {
    /// Decodes the length of a literal run through `raw_table` and copies that
    /// many bytes from the source to the output, past the bit queue.
    pub fn copy_literal_run(&mut self, raw_table: &Table) -> (res: Result<(), DecompressError>)
        requires
            old(self).wf(),
            table_wf(raw_table@),
        ensures
            final(self).wf(),
            final(self).r.data() == old(self).r.data(),
            final(self).reached(
                res,
                literal_run(old(self).r.data(), old(self).stream(), old(self).output@, raw_table@),
            ),
    {
        let input_length: usize = match self.input_value(raw_table) {
            Ok(v) => v as usize,
            Err(e) => {
                return Err(e);
            },
        };
        match self.r.read_exact(input_length) {
            Err(e) => Err(DecompressError::Io(e)),
            Ok(bytes) => {
                append_bytes(&mut self.output, bytes);
                Ok(())
            },
        }
    }

    /// Decodes a distance through `len_table` and a count through `pos_table`,
    /// and appends the copy that they describe to the output.
    pub fn copy_back_reference(&mut self, len_table: &Table, pos_table: &Table) -> (res: Result<
        (),
        DecompressError,
    >)
        requires
            old(self).wf(),
            table_wf(len_table@),
            table_wf(pos_table@),
        ensures
            final(self).wf(),
            final(self).r.data() == old(self).r.data(),
            final(self).reached(
                res,
                back_reference(
                    old(self).r.data(),
                    old(self).stream(),
                    old(self).output@,
                    len_table@,
                    pos_table@,
                ),
            ),
    {
        let match_offset: usize = match self.input_value(len_table) {
            Ok(v) => v as usize + 1,
            Err(e) => {
                return Err(e);
            },
        };
        let match_count: usize = match self.input_value(pos_table) {
            Ok(v) => v as usize + 2,
            Err(e) => {
                return Err(e);
            },
        };
        if match_offset > self.output.len() {
            return Err(DecompressError::BadMatchDistance);
        }
        copy_match(&mut self.output, match_offset, match_count);
        Ok(())
    }

    /// Decodes the `subchunks` subchunks of a block.
    pub fn decode_subchunks(
        &mut self,
        raw_table: &Table,
        len_table: &Table,
        pos_table: &Table,
        subchunks: u16,
    ) -> (res: Result<(), DecompressError>)
        requires
            old(self).wf(),
            table_wf(raw_table@),
            table_wf(len_table@),
            table_wf(pos_table@),
        ensures
            final(self).wf(),
            final(self).r.data() == old(self).r.data(),
            final(self).reached(
                res,
                subchunks_decoded(
                    old(self).r.data(),
                    old(self).stream(),
                    old(self).output@,
                    raw_table@,
                    len_table@,
                    pos_table@,
                    subchunks as nat,
                ),
            ),
    {
        let ghost data = self.r.data();
        let ghost whole = subchunks_decoded(
            data,
            self.stream(),
            self.output@,
            raw_table@,
            len_table@,
            pos_table@,
            subchunks as nat,
        );
        let mut subchunk: u16 = 0;
        while subchunk < subchunks
            invariant
                subchunk <= subchunks,
                self.wf(),
                self.r.data() == data,
                data == old(self).r.data(),
                whole == subchunks_decoded(
                    data,
                    old(self).stream(),
                    old(self).output@,
                    raw_table@,
                    len_table@,
                    pos_table@,
                    subchunks as nat,
                ),
                table_wf(raw_table@),
                table_wf(len_table@),
                table_wf(pos_table@),
                whole == subchunks_decoded(
                    data,
                    self.stream(),
                    self.output@,
                    raw_table@,
                    len_table@,
                    pos_table@,
                    (subchunks - subchunk) as nat,
                ),
            decreases subchunks - subchunk,
        {
            match self.copy_literal_run(raw_table) {
                Ok(()) => {},
                Err(e) => {
                    return Err(e);
                },
            }
            if subchunk < subchunks - 1 {
                match self.copy_back_reference(len_table, pos_table) {
                    Ok(()) => {},
                    Err(e) => {
                        return Err(e);
                    },
                }
            }
            subchunk = subchunk + 1;
        }
        Ok(())
    }

    /// Decodes one block: its three tables, its count of subchunks, and the
    /// subchunks.
    pub fn decode_block(&mut self) -> (res: Result<(), DecompressError>)
        requires
            old(self).wf(),
        ensures
            final(self).wf(),
            final(self).r.data() == old(self).r.data(),
            final(self).reached(
                res,
                block_decoded(old(self).r.data(), old(self).stream(), old(self).output@),
            ),
    {
        let mut raw_table: Table = table_new();
        let mut len_table: Table = table_new();
        let mut pos_table: Table = table_new();
        self.read_table(&mut raw_table);
        self.read_table(&mut len_table);
        self.read_table(&mut pos_table);
        let subchunks: u16 = self.read_bits(16);
        self.decode_subchunks(&raw_table, &len_table, &pos_table, subchunks)
    }

    /// Decodes the stream at which the decoder stands. Once the header is
    /// accepted, whatever the decoder held as output is dropped. A header that
    /// is cut short or does not open with the signature leaves the output and
    /// the bit queue as they were.
    pub fn decode(&mut self) -> (res: Result<(), DecompressError>)
        requires
            old(self).wf(),
        ensures
            final(self).wf(),
            final(self).r.data() == old(self).r.data(),
            final(self).reached(res, stream_decoded(old(self).r.data(), old(self).stream())),
            (!old(self).r.can_read(18) || old(self).r.data().subrange(
                old(self).r.pos() as int,
                old(self).r.pos() as int + 4,
            ) != signature()) ==> final(self).output@ == old(self).output@ && final(self).bit_queue
                == old(self).bit_queue,
    {
        let ghost data = self.r.data();
        let header: Header = match Header::read(&mut self.r) {
            Ok(h) => h,
            Err(e) => {
                return Err(e);
            },
        };
        if !header.signature_is_valid() {
            return Err(DecompressError::SignatureError);
        }
        self.output = Vec::with_capacity(header.unpacked_len as usize);
        let _padding: u16 = self.read_bits(2);
        let ghost whole = stream_decoded(data, old(self).stream());
        let mut block: u8 = 0;
        while block < header.blocks
            invariant
                block <= header.blocks,
                self.wf(),
                self.r.data() == data,
                data == old(self).r.data(),
                old(self).r.can_read(18),
                data.subrange(old(self).r.pos() as int, old(self).r.pos() as int + 4)
                    == signature(),
                whole == stream_decoded(data, old(self).stream()),
                whole == blocks_decoded(
                    data,
                    self.stream(),
                    self.output@,
                    (header.blocks - block) as nat,
                ),
            decreases header.blocks - block,
        {
            match self.decode_block() {
                Ok(()) => {},
                Err(e) => {
                    return Err(e);
                },
            }
            block = block + 1;
        }
        Ok(())
    }
}

/// What decompressing the stream that starts at `data[pos]` gives.
pub open spec fn unpacked(data: Seq<u8>, pos: nat) -> Progress {
    stream_decoded(data, Stream { pos, bits: 0, count: 0 })
}

/// Nothing is decoded before the header is accepted. A source that ends inside the header
/// gives an I/O error and is left at its end. A complete header that does not
/// open with the signature gives a signature error, whatever follows it, and
/// the source is left just past the header.
pub proof fn lemma_header_comes_first(data: Seq<u8>, pos: nat)
    ensures
        pos + 18 > data.len() ==> unpacked(data, pos) == (Progress::Failed {
            error: DecompressError::Io(ReadError::UnexpectedEof),
            pos: data.len(),
        }),
        pos + 18 <= data.len() && data.subrange(pos as int, pos as int + 4) != signature() ==> unpacked(
            data,
            pos,
        ) == (Progress::Failed { error: DecompressError::SignatureError, pos: pos + 18 }),
{
}

/// A stream whose header announces no block decodes to the empty output.
pub proof fn lemma_no_blocks(data: Seq<u8>, pos: nat)
    requires
        pos + 18 <= data.len(),
        data.subrange(pos as int, pos as int + 4) == signature(),
        data[pos as int + 17] == 0,
    ensures
        unpacked(data, pos) matches Progress::Going { out, stream } && out == Seq::<u8>::empty(),
{
}

/// Decompresses the RNC1 stream at which `r` stands. On success `r` is left
/// where the decoder stopped reading; after an error it is left where the
/// error was found.
pub fn decompress_rnc1<'a>(r: &mut ByteReader<'a>) -> (res: Result<Vec<u8>, DecompressError>)
    requires
        old(r).wf(),
    ensures
        final(r).wf(),
        final(r).data() == old(r).data(),
        match unpacked(old(r).data(), old(r).pos()) {
            Progress::Going { out, stream } => res.is_ok() && res->Ok_0@ == out && final(r).pos()
                == stream.pos,
            Progress::Failed { error, pos } => res == Err::<Vec<u8>, DecompressError>(error)
                && final(r).pos() == pos,
        },
{
    let mut decoder: Decoder<'a> = Decoder::new(*r);
    let res: Result<(), DecompressError> = decoder.decode();
    *r = decoder.r;
    match res {
        Ok(()) => Ok(decoder.output),
        Err(e) => Err(e),
    }
}

} // verus!
