//! The archive: a directory table of entries, and the resources that the
//! entries locate in the data file.

use crate::bytes_ext::{le_i16_at, le_u16_at, le_u24_at, le_u32_at, ByteReader, ReadError};
use crate::rnc_decompress::{
    append_bytes,
    decompress_rnc1,
    lemma_header_comes_first,
    signature,
    unpacked,
    DecompressError,
    Progress,
};
use vstd::prelude::*;

verus! {

/// One line of the directory table.
#[derive(Clone, Copy, Debug, PartialEq, Eq, Structural)]
pub struct Entry {
    /// The identifier of the resource.
    pub number: u16,
    /// Where the resource starts in the data file.
    pub offset: u32,
    /// The number of bytes that the resource takes in the data file.
    pub size: u32,
    /// Whether the resource begins with a header.
    pub has_file_header: bool,
    /// Whether the header is part of what the resource hands out.
    pub uses_file_header: bool,
}

/// The number of bytes that one entry takes in the directory table.
pub const ENTRY_LEN: usize = 8;

/// The entry made of an identifier, an offset and the raw 24-bit size field.
/// The low 22 bits of the field are the size. Its two top bits are flags:
/// bit 23 clear says that the resource has a header, bit 22 clear that the
/// header is used.
pub open spec fn entry_of(number: int, offset: int, raw_size: int) -> Entry {
    Entry {
        number: number as u16,
        offset: offset as u32,
        size: (raw_size % 0x40_0000) as u32,
        has_file_header: (raw_size / 0x80_0000) % 2 == 0,
        uses_file_header: (raw_size / 0x40_0000) % 2 == 0,
    }
}

/// The entry stored at `data[at..at + 8]`: a 16-bit identifier, a 24-bit
/// offset and a 24-bit size field, all little-endian.
pub open spec fn entry_at(data: Seq<u8>, at: int) -> Entry {
    entry_of(le_u16_at(data, at), le_u24_at(data, at + 2), le_u24_at(data, at + 5))
}

/// The three fields of an entry's size field take it apart: the size lies
/// below `2^22`, and the raw field is the size with bit 22 set where the header
/// is not used and bit 23 set where there is no header.
pub proof fn lemma_entry_fields(number: int, offset: int, raw_size: int)
    requires
        0 <= raw_size < 0x100_0000,
    ensures
        entry_of(number, offset, raw_size).size < 0x40_0000,
        raw_size == entry_of(number, offset, raw_size).size + (if entry_of(
            number,
            offset,
            raw_size,
        ).uses_file_header {
            0int
        } else {
            0x40_0000
        }) + (if entry_of(number, offset, raw_size).has_file_header {
            0int
        } else {
            0x80_0000
        }),
{
}

/// Whether the directory table that starts at `pos` is complete: its count
/// of entries, and eight bytes for each entry that the count announces.
pub open spec fn directory_complete(data: Seq<u8>, pos: int) -> bool {
    pos + 4 <= data.len() && pos + 4 + 8 * le_u32_at(data, pos) <= data.len()
}

/// Builds an entry from the three fields of its line.
pub fn make_entry(number: u16, offset: u32, raw_size: u32) -> (e: Entry)
    requires
        raw_size < 0x100_0000,
    ensures
        e == entry_of(number as int, offset as int, raw_size as int),
        e.size < 0x40_0000,
{
    assert(raw_size & 0x3f_ffff == raw_size % 0x40_0000) by (bit_vector);
    assert(((raw_size >> 23u32) & 1 == 0) == ((raw_size / 0x80_0000) % 2 == 0)) by (bit_vector);
    assert(((raw_size >> 22u32) & 1 == 0) == ((raw_size / 0x40_0000) % 2 == 0)) by (bit_vector);
    Entry {
        number,
        offset,
        size: raw_size & 0x3f_ffff,
        has_file_header: (raw_size >> 23u32) & 1 == 0,
        uses_file_header: (raw_size >> 22u32) & 1 == 0,
    }
}

/// Reads the directory table at which `file` stands: a 32-bit count, then
/// that many entries, in file order.
pub fn read_dinner_table(file: &mut ByteReader) -> (res: Result<Vec<Entry>, ReadError>)
    requires
        old(file).wf(),
    ensures
        final(file).wf(),
        final(file).data() == old(file).data(),
        directory_complete(old(file).data(), old(file).pos() as int) ==> res.is_ok() && res->Ok_0@.len()
            == le_u32_at(old(file).data(), old(file).pos() as int) && (forall|i: int|
            0 <= i < res->Ok_0@.len() ==> #[trigger] res->Ok_0@[i] == entry_at(
                old(file).data(),
                old(file).pos() + 4 + 8 * i,
            )) && final(file).pos() == old(file).pos() + 4 + 8 * res->Ok_0@.len(),
        !directory_complete(old(file).data(), old(file).pos() as int) ==> res == Err::<
            Vec<Entry>,
            ReadError,
        >(ReadError::UnexpectedEof) && final(file).pos() == old(file).data().len(),
{
    let ghost data = file.data();
    let ghost start = file.pos() as int;
    let entry_count: u32 = match file.read_le_u32() {
        Ok(v) => v,
        Err(e) => {
            return Err(e);
        },
    };
    let mut directory: Vec<Entry> = Vec::new();
    let mut i: u32 = 0;
    while i < entry_count
        invariant
            i <= entry_count,
            file.wf(),
            file.data() == data,
            data == old(file).data(),
            start == old(file).pos(),
            start + 4 <= data.len(),
            entry_count == le_u32_at(data, start),
            file.pos() == start + 4 + 8 * i,
            directory@.len() == i,
            forall|j: int| 0 <= j < i ==> #[trigger] directory@[j] == entry_at(data, start + 4 + 8 * j),
        decreases entry_count - i,
    {
        let number: u16 = match file.read_le_u16() {
            Ok(v) => v,
            Err(e) => {
                return Err(e);
            },
        };
        let offset: u32 = match file.read_le_u24() {
            Ok(v) => v,
            Err(e) => {
                return Err(e);
            },
        };
        let size: u32 = match file.read_le_u24() {
            Ok(v) => v,
            Err(e) => {
                return Err(e);
            },
        };
        directory.push(make_entry(number, offset, size));
        i = i + 1;
    }
    Ok(directory)
}

/// The bytes of `entry` in the data file `file`, where the file holds all of
/// them.
pub open spec fn entry_bytes(entry: Entry, file: Seq<u8>) -> Option<Seq<u8>> {
    if entry.offset + entry.size <= file.len() {
        Some(file.subrange(entry.offset as int, entry.offset + entry.size))
    } else {
        None
    }
}

/// A copy of `bytes`.
pub fn bytes_to_vec(bytes: &[u8]) -> (v: Vec<u8>)
    ensures
        v@ == bytes@,
{
    let mut v: Vec<u8> = Vec::new();
    append_bytes(&mut v, bytes);
    v
}

/// Takes the bytes of `entry` out of the data file `file`.
pub fn read_entry(entry: &Entry, file: &[u8]) -> (res: Result<Vec<u8>, ReadError>)
    ensures
        match entry_bytes(*entry, file@) {
            Some(bytes) => res.is_ok() && res->Ok_0@ == bytes,
            None => res == Err::<Vec<u8>, ReadError>(ReadError::UnexpectedEof),
        },
{
    let mut r: ByteReader = ByteReader::new(file);
    if entry.offset as usize > file.len() {
        return Err(ReadError::UnexpectedEof);
    }
    r.seek(entry.offset as usize);
    match r.read_exact(entry.size as usize) {
        Ok(bytes) => Ok(bytes_to_vec(bytes)),
        Err(e) => Err(e),
    }
}

/// The number of bytes in the header of a resource.
pub const HEADER_LEN: usize = 22;

/// The header that a resource may begin with.
#[derive(Clone, Copy, Debug, PartialEq, Eq, Structural)]
pub struct Header {
    pub flags: u16,
    pub x: u16,
    pub y: u16,
    pub width: u16,
    pub height: u16,
    pub sp_size: u16,
    pub tot_size: u16,
    pub n_sprites: u16,
    pub offset_x: i16,
    pub offset_y: i16,
    pub compressed_size: u16,
}

/// The header stored at `data[at..at + 22]`: eleven little-endian 16-bit
/// fields, of which the two offsets are signed.
pub open spec fn header_at(data: Seq<u8>, at: int) -> Header {
    Header {
        flags: le_u16_at(data, at) as u16,
        x: le_u16_at(data, at + 2) as u16,
        y: le_u16_at(data, at + 4) as u16,
        width: le_u16_at(data, at + 6) as u16,
        height: le_u16_at(data, at + 8) as u16,
        sp_size: le_u16_at(data, at + 10) as u16,
        tot_size: le_u16_at(data, at + 12) as u16,
        n_sprites: le_u16_at(data, at + 14) as u16,
        offset_x: le_i16_at(data, at + 16) as i16,
        offset_y: le_i16_at(data, at + 18) as i16,
        compressed_size: le_u16_at(data, at + 20) as u16,
    }
}

impl Header {
    /// Whether bit 7 of the flags is set: the payload is compressed.
    pub open spec fn compressed(&self) -> bool {
        (self.flags / 0x80) % 2 == 1
    }

    /// Whether the payload that follows the header is compressed.
    pub fn is_compressed(&self) -> (b: bool)
        ensures
            b == self.compressed(),
    {
        let flags: u16 = self.flags;
        assert((flags & 0x80 != 0) == ((flags / 0x80) % 2 == 1)) by (bit_vector);
        flags & 0x80 != 0
    }

    /// Reads the header at which `r` stands.
    pub fn read(r: &mut ByteReader) -> (res: Result<Header, ReadError>)
        requires
            old(r).wf(),
        ensures
            final(r).wf(),
            final(r).data() == old(r).data(),
            old(r).can_read(22) ==> res == Ok::<Header, ReadError>(
                header_at(old(r).data(), old(r).pos() as int),
            ) && final(r).pos() == old(r).pos() + 22,
            !old(r).can_read(22) ==> res == Err::<Header, ReadError>(ReadError::UnexpectedEof)
                && final(r).pos() == old(r).data().len(),
    {
        let flags: u16 = match r.read_le_u16() {
            Ok(v) => v,
            Err(e) => {
                return Err(e);
            },
        };
        let x: u16 = match r.read_le_u16() {
            Ok(v) => v,
            Err(e) => {
                return Err(e);
            },
        };
        let y: u16 = match r.read_le_u16() {
            Ok(v) => v,
            Err(e) => {
                return Err(e);
            },
        };
        let width: u16 = match r.read_le_u16() {
            Ok(v) => v,
            Err(e) => {
                return Err(e);
            },
        };
        let height: u16 = match r.read_le_u16() {
            Ok(v) => v,
            Err(e) => {
                return Err(e);
            },
        };
        let sp_size: u16 = match r.read_le_u16() {
            Ok(v) => v,
            Err(e) => {
                return Err(e);
            },
        };
        let tot_size: u16 = match r.read_le_u16() {
            Ok(v) => v,
            Err(e) => {
                return Err(e);
            },
        };
        let n_sprites: u16 = match r.read_le_u16() {
            Ok(v) => v,
            Err(e) => {
                return Err(e);
            },
        };
        let offset_x: i16 = match r.read_le_i16() {
            Ok(v) => v,
            Err(e) => {
                return Err(e);
            },
        };
        let offset_y: i16 = match r.read_le_i16() {
            Ok(v) => v,
            Err(e) => {
                return Err(e);
            },
        };
        let compressed_size: u16 = match r.read_le_u16() {
            Ok(v) => v,
            Err(e) => {
                return Err(e);
            },
        };
        Ok(
            Header {
                flags,
                x,
                y,
                width,
                height,
                sp_size,
                tot_size,
                n_sprites,
                offset_x,
                offset_y,
                compressed_size,
            },
        )
    }
}

/// A resource taken out of the archive: its entry, its header where it has
/// one, and its payload.
#[derive(Debug)]
pub struct Resource {
    pub entry: Entry,
    pub header: Option<Header>,
    pub data: Vec<u8>,
}

/// A resource as a value: its entry, its header, and its payload as a
/// sequence of bytes.
pub struct ResourceView {
    pub entry: Entry,
    pub header: Option<Header>,
    pub data: Seq<u8>,
}

impl View for Resource {
    type V = ResourceView;

    open spec fn view(&self) -> ResourceView {
        ResourceView { entry: self.entry, header: self.header, data: self.data@ }
    }
}

impl Resource {
    /// Whether the resource has a header that marks its payload as compressed.
    pub fn is_compressed(&self) -> (b: bool)
        ensures
            b == match self.header {
                Some(h) => h.compressed(),
                None => false,
            },
    {
        match &self.header {
            Some(h) => h.is_compressed(),
            None => false,
        }
    }
}

/// The payload of a resource with a header, whose bytes in the data file are
/// `data`. A payload that is not marked as compressed is what follows the
/// header. One that is marked is decompressed; where that fails, whatever the
/// failure, the payload is again what follows the header, as it is.
pub open spec fn payload_of(data: Seq<u8>) -> Seq<u8> {
    if header_at(data, 0).compressed() {
        match unpacked(data, 22) {
            Progress::Going { out, stream } => out,
            Progress::Failed { error, pos } => data.subrange(22, data.len() as int),
        }
    } else {
        data.subrange(22, data.len() as int)
    }
}

/// The resource that `entry` and its bytes `data` give. An entry without a
/// header hands out its bytes as they are. The bytes of one with a header
/// must hold all of the header.
pub open spec fn resource_of(entry: Entry, data: Seq<u8>) -> Result<ResourceView, ReadError> {
    if !entry.has_file_header {
        Ok(ResourceView { entry, header: None, data })
    } else if data.len() < 22 {
        Err(ReadError::UnexpectedEof)
    } else {
        Ok(ResourceView { entry, header: Some(header_at(data, 0)), data: payload_of(data) })
    }
}

/// A resource without a header is its slice of the data file, byte for byte.
pub proof fn lemma_plain_resource(entry: Entry, file: Seq<u8>)
    requires
        !entry.has_file_header,
        entry.offset + entry.size <= file.len(),
    ensures
        entry_bytes(entry, file) matches Some(bytes) && resource_of(entry, bytes) == Ok::<
            ResourceView,
            ReadError,
        >(
            ResourceView {
                entry,
                header: None,
                data: file.subrange(entry.offset as int, entry.offset + entry.size),
            },
        ),
{
}

/// A resource with a header is always handed out, with its header, once its
/// bytes hold the header: no failure of the decoder is passed on.
pub proof fn lemma_resource_with_header(entry: Entry, data: Seq<u8>)
    requires
        entry.has_file_header,
        data.len() >= 22,
    ensures
        resource_of(entry, data) matches Ok(view) && view.entry == entry && view.header == Some(
            header_at(data, 0),
        ),
{
}

/// Where decompression fails, for whatever reason, the payload is every byte
/// after the header, as it is: nothing that the decoder read is lost.
pub proof fn lemma_failed_decode_falls_back(entry: Entry, data: Seq<u8>)
    requires
        entry.has_file_header,
        data.len() >= 22,
        header_at(data, 0).compressed(),
        unpacked(data, 22) is Failed,
    ensures
        resource_of(entry, data) == Ok::<ResourceView, ReadError>(
            ResourceView {
                entry,
                header: Some(header_at(data, 0)),
                data: data.subrange(22, data.len() as int),
            },
        ),
{
}

/// A payload that is marked as compressed but does not open with the
/// signature, or is too short to hold the header of a stream, is handed out
/// as it is.
pub proof fn lemma_bad_signature_falls_back(entry: Entry, data: Seq<u8>)
    requires
        entry.has_file_header,
        data.len() >= 22,
        header_at(data, 0).compressed(),
        data.len() < 40 || data.subrange(22, 26) != signature(),
    ensures
        data.len() >= 40 ==> unpacked(data, 22) == (Progress::Failed {
            error: DecompressError::SignatureError,
            pos: 40,
        }),
        resource_of(entry, data) == Ok::<ResourceView, ReadError>(
            ResourceView {
                entry,
                header: Some(header_at(data, 0)),
                data: data.subrange(22, data.len() as int),
            },
        ),
{
    lemma_header_comes_first(data, 22);
}

/// Interprets the bytes of an entry: strips and parses the header where the
/// entry has one, and decompresses the payload where the header asks for it.
/// A payload that cannot be decompressed is handed out as it is.
pub fn read_resource(entry: &Entry, data: Vec<u8>) -> (res: Result<Resource, ReadError>)
    ensures
        match resource_of(*entry, data@) {
            Ok(view) => res.is_ok() && res->Ok_0@ == view,
            Err(e) => res.is_err() && res->Err_0 == e,
        },
{
    if !entry.has_file_header {
        return Ok(Resource { entry: *entry, header: None, data });
    }
    let mut r: ByteReader = ByteReader::new(data.as_slice());
    let header: Header = match Header::read(&mut r) {
        Ok(h) => h,
        Err(e) => {
            return Err(e);
        },
    };
    let payload: Vec<u8> = if header.is_compressed() {
        // The decoder works on a reader of its own: `r` stays behind the header.
        let mut packed: ByteReader = r;
        match decompress_rnc1(&mut packed) {
            Ok(unpacked_data) => unpacked_data,
            Err(_) => bytes_to_vec(r.read_to_end()),
        }
    } else {
        bytes_to_vec(r.read_to_end())
    };
    Ok(Resource { entry: *entry, header: Some(header), data: payload })
}

/// The index of the first entry of `directory` whose number is `id`.
pub open spec fn index_of_number(directory: Seq<Entry>, id: u16, from: int) -> Option<int>
    decreases directory.len() - from,
{
    if from >= directory.len() {
        None
    } else if directory[from].number == id {
        Some(from)
    } else {
        index_of_number(directory, id, from + 1)
    }
}

/// The resource that `get_resource_by_id` hands out: that of the first entry
/// with the number `id`, where there is one, the data file holds its bytes,
/// and they hold its header.
pub open spec fn resource_by_id(id: u16, directory: Seq<Entry>, file: Seq<u8>) -> Option<
    ResourceView,
> {
    match index_of_number(directory, id, 0) {
        None => None,
        Some(i) => match entry_bytes(directory[i], file) {
            None => None,
            Some(bytes) => match resource_of(directory[i], bytes) {
                Err(e) => None,
                Ok(view) => Some(view),
            },
        },
    }
}

/// Looks up the entry with the number `id` and reads its resource from the
/// data file.
pub fn get_resource_by_id(id: u16, directory: &[Entry], file: &[u8]) -> (res: Option<Resource>)
    ensures
        match resource_by_id(id, directory@, file@) {
            Some(view) => res.is_some() && res->Some_0@ == view,
            None => res.is_none(),
        },
{
    let mut i: usize = 0;
    while i < directory.len()
        invariant
            i <= directory@.len(),
            index_of_number(directory@, id, 0) == index_of_number(directory@, id, i as int),
        decreases directory@.len() - i,
    {
        if directory[i].number == id {
            let entry: Entry = directory[i];
            let data: Vec<u8> = match read_entry(&entry, file) {
                Ok(d) => d,
                Err(_) => {
                    return None;
                },
            };
            return match read_resource(&entry, data) {
                Ok(resource) => Some(resource),
                Err(_) => None,
            };
        }
        i = i + 1;
    }
    None
}

/// Scales a colour component of six bits to eight bits. A component above
/// 63 gives the low eight bits of the scaled value.
pub fn rescale_6_bit_color_to_8_bit(c: u8) -> (r: u8)
    ensures
        r == ((255 * c) / 63) % 256,
        c <= 63 ==> r == (255 * c) / 63,
{
    let wide: u16 = (255 * (c as u16)) / 63;
    assert(wide as u8 == wide % 256) by (bit_vector);
    wide as u8
}

} // verus!
