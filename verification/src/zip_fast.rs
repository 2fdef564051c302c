//! A minimal archive index for large ZIP files.
//!
//! Only the end-of-central-directory record and the central directory are
//! parsed when an archive is opened; local file headers are read when an
//! entry is extracted. Every offset taken from the archive is checked
//! against the bytes at hand before it is used.

use vstd::prelude::*;
use vstd::slice::{slice_subrange, slice_to_vec};
use vstd::utf8::{decode_utf8, valid_utf8};

use crate::bytes::{le16, le32, le64, lemma_le_bounds, r16, r32, r64};
use crate::outside::{
    decode_text, decoding, guess_encoding, guessed_encoding, inflate, inflated, is_utf8,
    lossy_utf8, mapped_bytes, utf8_lossy,
};

verus! {

/// Signature of the end-of-central-directory record.
pub const EOCD_SIG: u32 = 0x06054b50;

/// Signature of the zip64 end-of-central-directory locator.
pub const EOCD64_LOC_SIG: u32 = 0x07064b50;

/// Signature of the zip64 end-of-central-directory record.
pub const EOCD64_SIG: u32 = 0x06064b50;

/// Signature of a central directory file header.
pub const CD_SIG: u32 = 0x02014b50;

/// Signature of a local file header.
pub const LOCAL_SIG: u32 = 0x04034b50;

/// Length of the end-of-central-directory record without its comment.
pub const EOCD_LEN: usize = 22;

/// The longest comment that can follow the end-of-central-directory record.
pub const MAX_COMMENT_LEN: usize = 65535;

/// The value of a 32-bit size or offset field that sends the reader to the
/// zip64 extra field.
pub const ZIP64_SENTINEL: u64 = 0xFFFF_FFFF;

/// Why an archive could not be indexed or an entry could not be read.
#[derive(Debug, Clone, Copy, PartialEq, Eq, Structural)]
pub enum ZipError {
    /// The file is shorter than an end-of-central-directory record.
    TooSmall,
    /// No end-of-central-directory signature in the tail of the file.
    EocdNotFound,
    /// No entry of the index has the requested name.
    EntryNotFound,
    /// The recorded local header does not lie inside the file.
    HeaderOutOfBounds,
    /// The bytes at the recorded offset are no local file header.
    BadLocalSignature,
    /// The entry's data would end behind the end of the file.
    DataOutOfBounds,
    /// The entry is neither stored nor deflated.
    UnsupportedMethod(u16),
    /// The deflate stream of the entry is damaged.
    CorruptData,
}

/// The three families that callers tell apart.
#[derive(Debug, Clone, Copy, PartialEq, Eq, Structural)]
pub enum ErrorKind {
    /// The archive or an entry of it is malformed.
    Format,
    /// Something asked for does not exist.
    NotFound,
    /// A file could not be opened or read.
    Io,
}

impl ZipError {
    /// The family of this error.
    pub open spec fn spec_kind(self) -> ErrorKind {
        match self {
            ZipError::EntryNotFound => ErrorKind::NotFound,
            _ => ErrorKind::Format,
        }
    }

    /// The family of this error: a missing entry is `NotFound`, everything
    /// else a format error.
    #[verifier::when_used_as_spec(spec_kind)]
    pub fn kind(self) -> (k: ErrorKind)
        ensures
            k == self.spec_kind(),
    {
        match self {
            ZipError::EntryNotFound => ErrorKind::NotFound,
            _ => ErrorKind::Format,
        }
    }

    /// The text shown for this error.
    pub open spec fn spec_message(self) -> Seq<char> {
        match self {
            ZipError::TooSmall => "File too small to be a ZIP archive"@,
            ZipError::EocdNotFound => "EOCD record not found"@,
            ZipError::EntryNotFound => "ZIP entry not found"@,
            ZipError::HeaderOutOfBounds => "Local header offset out of bounds"@,
            ZipError::BadLocalSignature => "Invalid local file header signature"@,
            ZipError::DataOutOfBounds => "Compressed data extends beyond file"@,
            ZipError::UnsupportedMethod(_) => "Unsupported compression method"@,
            ZipError::CorruptData => "Corrupt deflate stream"@,
        }
    }

    /// The text shown for this error.
    pub fn message(self) -> (text: &'static str)
        ensures
            text@ == self.spec_message(),
    {
        match self {
            ZipError::TooSmall => "File too small to be a ZIP archive",
            ZipError::EocdNotFound => "EOCD record not found",
            ZipError::EntryNotFound => "ZIP entry not found",
            ZipError::HeaderOutOfBounds => "Local header offset out of bounds",
            ZipError::BadLocalSignature => "Invalid local file header signature",
            ZipError::DataOutOfBounds => "Compressed data extends beyond file",
            ZipError::UnsupportedMethod(_) => "Unsupported compression method",
            ZipError::CorruptData => "Corrupt deflate stream",
        }
    }
}

// ── end of central directory ────────────────────────────────────────

/// Whether an end-of-central-directory signature stands at `i`, with room
/// behind it for the fixed part of the record.
pub open spec fn eocd_at(d: Seq<u8>, i: int) -> bool {
    0 <= i && i + 22 <= d.len() && le32(d, i) == EOCD_SIG
}

/// The lowest offset that the backward search for the record looks at: the
/// record and the longest comment must fit behind it.
pub open spec fn search_floor(len: int) -> int {
    if len > 22 + 65535 {
        len - (22 + 65535)
    } else {
        0
    }
}

/// The highest offset from `floor` to `i` at which the record's signature
/// stands.
pub open spec fn last_eocd(d: Seq<u8>, floor: int, i: int) -> Option<int>
    decreases i - floor + 1,
{
    if i < floor {
        None
    } else if eocd_at(d, i) {
        Some(i)
    } else {
        last_eocd(d, floor, i - 1)
    }
}

/// Where the end-of-central-directory record of `d` starts: the last place
/// in the tail of the file where its signature is found.
pub open spec fn eocd_position(d: Seq<u8>) -> Option<int> {
    last_eocd(d, search_floor(d.len() as int), d.len() - 22)
}

/// Scans backwards from the end of the file for the end-of-central-directory
/// signature. Looks at no more than the last `22 + 65535` bytes.
pub fn find_eocd(data: &[u8]) -> (pos: Option<usize>)
    ensures
        match pos {
            Some(i) => eocd_position(data@) == Some(i as int) && eocd_at(data@, i as int),
            None => eocd_position(data@) is None,
        },
{
    let len = data.len();
    if len < EOCD_LEN {
        return None;
    }
    let floor = if len > EOCD_LEN + MAX_COMMENT_LEN {
        len - (EOCD_LEN + MAX_COMMENT_LEN)
    } else {
        0
    };
    let mut i = len - EOCD_LEN;
    loop
        invariant
            len == data@.len(),
            floor == search_floor(len as int),
            floor <= i <= len - 22,
            eocd_position(data@) == last_eocd(data@, floor as int, i as int),
        decreases i - floor,
    {
        if r32(data, i) == EOCD_SIG {
            return Some(i);
        }
        if i == floor {
            assert(last_eocd(data@, floor as int, floor - 1) is None);
            return None;
        }
        i = i - 1;
    }
}

/// Where the zip64 end-of-central-directory record starts, if a locator
/// stands right before the end record at `eocd` and points at one.
pub open spec fn zip64_record(d: Seq<u8>, eocd: int) -> Option<int> {
    if eocd >= 20 && le32(d, eocd - 20) == EOCD64_LOC_SIG {
        let at = le64(d, eocd - 12);
        if at + 56 <= d.len() && le32(d, at) == EOCD64_SIG {
            Some(at)
        } else {
            None
        }
    } else {
        None
    }
}

/// The number of entries and the offset of the central directory that the
/// end record at `eocd` declares. The 64-bit values win where a valid zip64
/// record is found; an invalid one is passed over.
pub open spec fn directory_extent(d: Seq<u8>, eocd: int) -> (int, int) {
    match zip64_record(d, eocd) {
        Some(at) => (le64(d, at + 32), le64(d, at + 48)),
        None => (le16(d, eocd + 10), le32(d, eocd + 16)),
    }
}

/// Reads the entry count and the central directory's offset from the end
/// record at `eocd_pos`, and from the zip64 record where there is one.
pub fn parse_eocd(data: &[u8], eocd_pos: usize) -> (extent: (u64, u64))
    requires
        eocd_pos + 22 <= data@.len(),
    ensures
        (extent.0 as int, extent.1 as int) == directory_extent(data@, eocd_pos as int),
{
    let len = data.len();
    let num16 = r16(data, eocd_pos + 10) as u64;
    let off32 = r32(data, eocd_pos + 16) as u64;
    if eocd_pos >= 20 {
        let loc = eocd_pos - 20;
        if r32(data, loc) == EOCD64_LOC_SIG {
            let at = r64(data, loc + 8);
            if len >= 56 && at <= (len - 56) as u64 {
                let at = at as usize;
                if r32(data, at) == EOCD64_SIG {
                    return (r64(data, at + 32), r64(data, at + 48));
                }
            }
        }
    }
    (num16, off32)
}

// ── zip64 extra field ───────────────────────────────────────────────

/// The two sizes and the offset of one entry.
pub struct Sizes {
    pub uncompressed: int,
    pub compressed: int,
    pub offset: int,
}

/// Where the first sub-block tagged `0x0001` starts in an extra field whose
/// sub-blocks are walked from `p`. Each sub-block is a 16-bit tag, a 16-bit
/// length and that many bytes.
pub open spec fn zip64_block(extra: Seq<u8>, p: int) -> Option<int>
    decreases extra.len() - p,
{
    if p < 0 || p + 4 > extra.len() {
        None
    } else if le16(extra, p) == 1 {
        Some(p)
    } else {
        let next = p + 4 + le16(extra, p + 2);
        if next > extra.len() {
            None
        } else {
            zip64_block(extra, next)
        }
    }
}

/// Whether an 8-byte field at `at` lies inside the sub-block at `block`, as
/// far as the sub-block declares itself and as far as the extra field goes.
pub open spec fn field_fits(extra: Seq<u8>, block: int, at: int) -> bool {
    at + 8 <= block + 4 + le16(extra, block + 2) && at + 8 <= extra.len()
}

/// The sizes and offset of an entry after its zip64 extra field was read.
///
/// `narrow` holds the 32-bit fields of the record, `start` the values to
/// keep where the extra field gives none. In the zip64 sub-block a 64-bit
/// value stands for each 32-bit field that holds the sentinel, in the order
/// uncompressed size, compressed size, offset; a value that does not fit in
/// the sub-block is not taken, and costs no room.
pub open spec fn zip64_sizes(extra: Seq<u8>, narrow: Sizes, start: Sizes) -> Sizes {
    match zip64_block(extra, 0) {
        None => start,
        Some(b) => {
            let at_u = b + 4;
            let take_u = narrow.uncompressed == ZIP64_SENTINEL && field_fits(extra, b, at_u);
            let at_c = if take_u {
                at_u + 8
            } else {
                at_u
            };
            let take_c = narrow.compressed == ZIP64_SENTINEL && field_fits(extra, b, at_c);
            let at_o = if take_c {
                at_c + 8
            } else {
                at_c
            };
            let take_o = narrow.offset == ZIP64_SENTINEL && field_fits(extra, b, at_o);
            Sizes {
                uncompressed: if take_u {
                    le64(extra, at_u)
                } else {
                    start.uncompressed
                },
                compressed: if take_c {
                    le64(extra, at_c)
                } else {
                    start.compressed
                },
                offset: if take_o {
                    le64(extra, at_o)
                } else {
                    start.offset
                },
            }
        },
    }
}

/// Reads the 64-bit sizes and offset of an entry from its extra field, for
/// those of the 32-bit values `u32_val`, `c32_val` and `off32_val` that hold
/// the sentinel.
pub fn read_zip64_extra(
    extra: &[u8],
    u32_val: u64,
    uncompressed: &mut u64,
    c32_val: u64,
    compressed: &mut u64,
    off32_val: u64,
    offset: &mut u64,
)
    ensures
        (Sizes {
            uncompressed: *final(uncompressed) as int,
            compressed: *final(compressed) as int,
            offset: *final(offset) as int,
        }) == zip64_sizes(
            extra@,
            (Sizes {
                uncompressed: u32_val as int,
                compressed: c32_val as int,
                offset: off32_val as int,
            }),
            (Sizes {
                uncompressed: *old(uncompressed) as int,
                compressed: *old(compressed) as int,
                offset: *old(offset) as int,
            }),
        ),
{
    let len = extra.len();
    let mut p: usize = 0;
    while len - p >= 4
        invariant
            len == extra@.len(),
            p <= len,
            zip64_block(extra@, 0) == zip64_block(extra@, p as int),
            *uncompressed == *old(uncompressed),
            *compressed == *old(compressed),
            *offset == *old(offset),
        decreases len - p,
    {
        let id = r16(extra, p);
        let sz = r16(extra, p + 2) as usize;
        let body = p + 4;
        if id == 0x0001 {
            // What the sub-block may hold: its declared length, cut at the
            // end of the extra field.
            let room = if sz <= len - body {
                sz
            } else {
                len - body
            };
            let mut used: usize = 0;
            if u32_val == ZIP64_SENTINEL && room - used >= 8 {
                *uncompressed = r64(extra, body + used);
                used = used + 8;
            }
            if c32_val == ZIP64_SENTINEL && room - used >= 8 {
                *compressed = r64(extra, body + used);
                used = used + 8;
            }
            if off32_val == ZIP64_SENTINEL && room - used >= 8 {
                *offset = r64(extra, body + used);
            }
            return ;
        }
        if sz > len - body {
            return ;
        }
        p = body + sz;
    }
}

// ── central directory ───────────────────────────────────────────────

/// What one central directory record says of its entry, before the name is
/// decoded.
pub struct Record {
    pub method: int,
    pub compressed_size: int,
    pub uncompressed_size: int,
    pub local_header_offset: int,
    pub name_bytes: Seq<u8>,
    pub utf8_flag: bool,
}

/// One central directory record as it was read, the name still in bytes.
#[derive(Debug)]
pub struct RawEntry {
    pub compression_method: u16,
    pub compressed_size: u64,
    pub uncompressed_size: u64,
    pub local_header_offset: u64,
    pub name_bytes: Vec<u8>,
    pub is_utf8_flag: bool,
}

impl View for RawEntry {
    type V = Record;

    open spec fn view(&self) -> Record {
        Record {
            method: self.compression_method as int,
            compressed_size: self.compressed_size as int,
            uncompressed_size: self.uncompressed_size as int,
            local_header_offset: self.local_header_offset as int,
            name_bytes: self.name_bytes@,
            utf8_flag: self.is_utf8_flag,
        }
    }
}

/// The records that a vector of raw entries stands for.
pub open spec fn records_of(raw: Seq<RawEntry>) -> Seq<Record> {
    Seq::new(raw.len(), |i: int| raw[i]@)
}

/// Whether a central directory record can be read at `pos`: its fixed part
/// and its name lie inside the file, and it starts with the signature.
pub open spec fn record_at(d: Seq<u8>, pos: int) -> bool {
    &&& 0 <= pos
    &&& pos + 46 <= d.len()
    &&& le32(d, pos) == CD_SIG
    &&& pos + 46 + le16(d, pos + 28) <= d.len()
}

/// The length of the record at `pos`: fixed part, name, extra field and
/// comment.
pub open spec fn record_span(d: Seq<u8>, pos: int) -> int {
    46 + le16(d, pos + 28) + le16(d, pos + 30) + le16(d, pos + 32)
}

/// Whether the general purpose flags say that the name is UTF-8 (bit 11).
pub open spec fn utf8_flag_set(flags: int) -> bool {
    (flags / 0x800) % 2 == 1
}

/// The sizes and offset of the record at `pos`: its 32-bit fields, and for
/// those that hold the sentinel the values of the zip64 extra field, where
/// the extra field lies inside the file.
pub open spec fn record_sizes(d: Seq<u8>, pos: int) -> Sizes {
    let narrow = Sizes {
        uncompressed: le32(d, pos + 24),
        compressed: le32(d, pos + 20),
        offset: le32(d, pos + 42),
    };
    let name_end = pos + 46 + le16(d, pos + 28);
    let extra_end = name_end + le16(d, pos + 30);
    let widened = narrow.compressed == ZIP64_SENTINEL || narrow.uncompressed == ZIP64_SENTINEL
        || narrow.offset == ZIP64_SENTINEL;
    if widened && extra_end <= d.len() {
        zip64_sizes(d.subrange(name_end, extra_end), narrow, narrow)
    } else {
        narrow
    }
}

/// The record at `pos`.
pub open spec fn record(d: Seq<u8>, pos: int) -> Record {
    let sizes = record_sizes(d, pos);
    Record {
        method: le16(d, pos + 10),
        compressed_size: sizes.compressed,
        uncompressed_size: sizes.uncompressed,
        local_header_offset: sizes.offset,
        name_bytes: d.subrange(pos + 46, pos + 46 + le16(d, pos + 28)),
        utf8_flag: utf8_flag_set(le16(d, pos + 8)),
    }
}

/// The records of a central directory that starts at `pos` and declares
/// `count` entries: one after the other, up to the first place where no
/// record can be read, and no more than `count`.
pub open spec fn central_directory(d: Seq<u8>, pos: int, count: nat) -> Seq<Record>
    decreases count,
{
    if count == 0 || !record_at(d, pos) {
        Seq::empty()
    } else {
        seq![record(d, pos)] + central_directory(d, pos + record_span(d, pos), (count - 1) as nat)
    }
}

/// Reads the record at `pos`.
fn read_record(data: &[u8], pos: usize) -> (raw: RawEntry)
    requires
        record_at(data@, pos as int),
    ensures
        raw@ == record(data@, pos as int),
        raw.name_bytes@.len() <= 0xFFFF,
{
    let len = data.len();
    let flags = r16(data, pos + 8);
    let is_utf8_flag = (flags & 0x0800) != 0;
    assert(((flags & 0x0800) != 0) == ((flags / 0x800) % 2 == 1)) by (bit_vector);
    let method = r16(data, pos + 10);
    let c32 = r32(data, pos + 20) as u64;
    let u32_ = r32(data, pos + 24) as u64;
    let name_len = r16(data, pos + 28) as usize;
    let extra_len = r16(data, pos + 30) as usize;
    let off32 = r32(data, pos + 42) as u64;
    let name_end = pos + 46 + name_len;
    let name_bytes = slice_to_vec(slice_subrange(data, pos + 46, name_end));

    let mut compressed = c32;
    let mut uncompressed = u32_;
    let mut offset = off32;
    if c32 == ZIP64_SENTINEL || u32_ == ZIP64_SENTINEL || off32 == ZIP64_SENTINEL {
        if extra_len <= len - name_end {
            read_zip64_extra(
                slice_subrange(data, name_end, name_end + extra_len),
                u32_,
                &mut uncompressed,
                c32,
                &mut compressed,
                off32,
                &mut offset,
            );
        }
    }
    RawEntry {
        compression_method: method,
        compressed_size: compressed,
        uncompressed_size: uncompressed,
        local_header_offset: offset,
        name_bytes,
        is_utf8_flag,
    }
}

/// Adding a record in front of a directory: what was read so far, then the
/// record at `pos`, then the rest.
proof fn lemma_directory_step(d: Seq<u8>, pos: int, count: nat, done: Seq<Record>)
    requires
        count > 0,
        record_at(d, pos),
    ensures
        done + central_directory(d, pos, count) == done.push(record(d, pos)) + central_directory(
            d,
            pos + record_span(d, pos),
            (count - 1) as nat,
        ),
{
    let rest = central_directory(d, pos + record_span(d, pos), (count - 1) as nat);
    assert(done + (seq![record(d, pos)] + rest) =~= done.push(record(d, pos)) + rest);
}

/// Where no record can be read, or none is left to read, the directory ends.
proof fn lemma_directory_end(d: Seq<u8>, pos: int, count: nat, done: Seq<Record>)
    requires
        count == 0 || !record_at(d, pos),
    ensures
        done + central_directory(d, pos, count) == done,
{
    assert(done + Seq::<Record>::empty() =~= done);
}

/// Walks the central directory from `cd_offset` and reads its records, at
/// most `num_entries` of them. Stops without an error at the first place
/// that holds no record.
pub fn read_directory(data: &[u8], cd_offset: u64, num_entries: u64) -> (raw: Vec<RawEntry>)
    ensures
        records_of(raw@) == central_directory(data@, cd_offset as int, num_entries as nat),
        forall|i: int| 0 <= i < raw@.len() ==> (#[trigger] raw@[i]).name_bytes@.len() <= 0xFFFF,
{
    let len = data.len();
    // No directory holds more records than the file has room for.
    let most = len / 46;
    let hint = if num_entries <= most as u64 {
        num_entries as usize
    } else {
        most
    };
    let mut raw_entries: Vec<RawEntry> = Vec::with_capacity(hint);
    assert(records_of(raw_entries@) =~= Seq::<Record>::empty());
    if cd_offset > len as u64 {
        proof {
            lemma_directory_end(data@, cd_offset as int, num_entries as nat, Seq::empty());
        }
        return raw_entries;
    }
    let mut pos: usize = cd_offset as usize;
    let mut left: u64 = num_entries;
    while left > 0
        invariant
            len == data@.len(),
            pos <= len,
            records_of(raw_entries@) + central_directory(data@, pos as int, left as nat)
                == central_directory(data@, cd_offset as int, num_entries as nat),
            forall|i: int|
                0 <= i < raw_entries@.len() ==> (#[trigger] raw_entries@[i]).name_bytes@.len()
                    <= 0xFFFF,
        decreases left,
    {
        if len - pos < 46 || r32(data, pos) != CD_SIG || r16(data, pos + 28) as usize > len - pos
            - 46 {
            proof {
                lemma_directory_end(data@, pos as int, left as nat, records_of(raw_entries@));
            }
            return raw_entries;
        }
        let name_len = r16(data, pos + 28) as usize;
        let extra_len = r16(data, pos + 30) as usize;
        let comment_len = r16(data, pos + 32) as usize;
        let name_end = pos + 46 + name_len;
        let entry = read_record(data, pos);
        proof {
            lemma_directory_step(data@, pos as int, left as nat, records_of(raw_entries@));
            assert(records_of(raw_entries@.push(entry)) =~= records_of(raw_entries@).push(
                entry@,
            ));
        }
        raw_entries.push(entry);
        left = left - 1;
        if extra_len + comment_len > len - name_end {
            // The next record would start behind the end of the file.
            proof {
                lemma_directory_end(
                    data@,
                    name_end + extra_len + comment_len,
                    left as nat,
                    records_of(raw_entries@),
                );
            }
            return raw_entries;
        }
        pos = name_end + extra_len + comment_len;
    }
    proof {
        lemma_directory_end(data@, pos as int, left as nat, records_of(raw_entries@));
    }
    raw_entries
}

// ── entry names ─────────────────────────────────────────────────────

/// One entry of an archive: its name, how it is compressed, its two sizes
/// and where its local header starts.
pub struct EntryView {
    pub name: Seq<char>,
    pub method: int,
    pub compressed_size: int,
    pub uncompressed_size: int,
    pub local_header_offset: int,
}

/// One entry of an archive, parsed from the central directory.
#[derive(Debug)]
pub struct EntryMeta {
    pub name: String,
    pub compression_method: u16,
    pub compressed_size: u64,
    pub uncompressed_size: u64,
    pub local_header_offset: u64,
}

impl View for EntryMeta {
    type V = EntryView;

    open spec fn view(&self) -> EntryView {
        EntryView {
            name: self.name@,
            method: self.compression_method as int,
            compressed_size: self.compressed_size as int,
            uncompressed_size: self.uncompressed_size as int,
            local_header_offset: self.local_header_offset as int,
        }
    }
}

/// The entries that a vector of entries stands for.
pub open spec fn entries_of(entries: Seq<EntryMeta>) -> Seq<EntryView> {
    Seq::new(entries.len(), |i: int| entries[i]@)
}

/// Whether the encoding of a record's name has to be guessed: the record
/// does not declare UTF-8 and the bytes are not well-formed UTF-8.
pub open spec fn needs_detection(r: Record) -> bool {
    !r.utf8_flag && !valid_utf8(r.name_bytes)
}

/// The bytes from which the one legacy encoding of an archive is guessed:
/// the names that need it, one after the other in directory order.
pub open spec fn detection_stream(rs: Seq<Record>) -> Seq<u8>
    decreases rs.len(),
{
    if rs.len() == 0 {
        Seq::empty()
    } else if needs_detection(rs.last()) {
        detection_stream(rs.drop_last()) + rs.last().name_bytes
    } else {
        detection_stream(rs.drop_last())
    }
}

/// The name of a record in an archive whose legacy names make up `stream`.
/// Well-formed UTF-8 is decoded as it stands; bytes declared UTF-8 that are
/// not well-formed are decoded with replacement characters; all other names
/// are decoded in the encoding guessed for the whole archive.
pub open spec fn entry_name(r: Record, stream: Seq<u8>) -> Seq<char> {
    if valid_utf8(r.name_bytes) {
        decode_utf8(r.name_bytes)
    } else if r.utf8_flag {
        lossy_utf8(r.name_bytes)
    } else {
        decoding(guessed_encoding(stream), r.name_bytes).0
    }
}

/// The entry that a record describes.
pub open spec fn named(r: Record, stream: Seq<u8>) -> EntryView {
    EntryView {
        name: entry_name(r, stream),
        method: r.method,
        compressed_size: r.compressed_size,
        uncompressed_size: r.uncompressed_size,
        local_header_offset: r.local_header_offset,
    }
}

/// The entries of a directory, in the order of its records.
pub open spec fn named_entries(rs: Seq<Record>) -> Seq<EntryView> {
    Seq::new(rs.len(), |i: int| named(rs[i], detection_stream(rs)))
}

/// Appends `src` to `dst`.
fn append_bytes(dst: &mut Vec<u8>, src: &[u8])
    ensures
        final(dst)@ == old(dst)@ + src@,
{
    let n = src.len();
    let mut i: usize = 0;
    while i < n
        invariant
            n == src@.len(),
            i <= n,
            dst@ == old(dst)@ + src@.subrange(0, i as int),
        decreases n - i,
    {
        dst.push(src[i]);
        i = i + 1;
        assert(dst@ =~= old(dst)@ + src@.subrange(0, i as int));
    }
    assert(src@.subrange(0, n as int) =~= src@);
}

/// Collects the names whose encoding has to be guessed.
fn collect_legacy_names(raw: &Vec<RawEntry>) -> (stream: Vec<u8>)
    ensures
        stream@ == detection_stream(records_of(raw@)),
{
    let n = raw.len();
    let mut stream: Vec<u8> = Vec::new();
    let mut i: usize = 0;
    assert(records_of(raw@).subrange(0, 0) =~= Seq::<Record>::empty());
    while i < n
        invariant
            n == raw@.len(),
            i <= n,
            stream@ == detection_stream(records_of(raw@).subrange(0, i as int)),
        decreases n - i,
    {
        let entry = &raw[i];
        proof {
            let next = records_of(raw@).subrange(0, i + 1);
            assert(next.drop_last() =~= records_of(raw@).subrange(0, i as int));
            assert(next.last() == entry@);
        }
        if !entry.is_utf8_flag && !is_utf8(entry.name_bytes.as_slice()) {
            append_bytes(&mut stream, entry.name_bytes.as_slice());
        }
        i = i + 1;
    }
    assert(records_of(raw@).subrange(0, n as int) =~= records_of(raw@));
    stream
}

/// Gives each record its name. The names that are neither declared nor
/// found to be UTF-8 are all decoded in one encoding, guessed from all of
/// them together.
pub fn decode_names(raw: Vec<RawEntry>) -> (entries: Vec<EntryMeta>)
    requires
        forall|i: int| 0 <= i < raw@.len() ==> (#[trigger] raw@[i]).name_bytes@.len() <= 0xFFFF,
    ensures
        entries_of(entries@) == named_entries(records_of(raw@)),
{
    let n = raw.len();
    let stream = collect_legacy_names(&raw);
    let detected = if stream.len() > 0 {
        Some(guess_encoding(stream.as_slice()))
    } else {
        None
    };
    let mut entries: Vec<EntryMeta> = Vec::with_capacity(n);
    let mut i: usize = 0;
    while i < n
        invariant
            n == raw@.len(),
            i <= n,
            stream@ == detection_stream(records_of(raw@)),
            forall|j: int|
                0 <= j < raw@.len() ==> (#[trigger] raw@[j]).name_bytes@.len() <= 0xFFFF,
            detected is Some ==> detected->0 == guessed_encoding(stream@),
            detected is None ==> stream@.len() == 0,
            entries@.len() == i,
            forall|j: int| 0 <= j < i ==> (#[trigger] entries@[j])@ == named(raw@[j]@, stream@),
        decreases n - i,
    {
        let r = &raw[i];
        let bytes = r.name_bytes.as_slice();
        let name = if r.is_utf8_flag || is_utf8(bytes) {
            utf8_lossy(bytes)
        } else {
            match detected {
                Some(encoding) => decode_text(encoding, bytes).0,
                // A name that needs an encoding makes the stream grow, so
                // one was guessed; without one the bytes are read as UTF-8.
                None => utf8_lossy(bytes),
            }
        };
        proof {
            if needs_detection(r@) && detected is None {
                lemma_stream_holds_legacy_names(records_of(raw@), i as int);
                lemma_invalid_utf8_is_not_empty(r.name_bytes@);
            }
        }
        entries.push(
            EntryMeta {
                name,
                compression_method: r.compression_method,
                compressed_size: r.compressed_size,
                uncompressed_size: r.uncompressed_size,
                local_header_offset: r.local_header_offset,
            },
        );
        i = i + 1;
    }
    assert(entries_of(entries@) =~= named_entries(records_of(raw@)));
    entries
}

/// The stream is at least as long as each legacy name in it.
proof fn lemma_stream_holds_legacy_names(rs: Seq<Record>, i: int)
    requires
        0 <= i < rs.len(),
        needs_detection(rs[i]),
    ensures
        detection_stream(rs).len() >= rs[i].name_bytes.len(),
    decreases rs.len(),
{
    if i == rs.len() - 1 {
    } else {
        lemma_stream_holds_legacy_names(rs.drop_last(), i);
    }
}

/// The empty byte string is well-formed UTF-8.
proof fn lemma_invalid_utf8_is_not_empty(bytes: Seq<u8>)
    requires
        !valid_utf8(bytes),
    ensures
        bytes.len() > 0,
{
}

/// Parses the central directory at `cd_offset`: reads its records, at most
/// `num_entries` of them, and decodes their names.
pub fn parse_cd(data: &[u8], cd_offset: u64, num_entries: u64) -> (entries: Vec<EntryMeta>)
    ensures
        entries_of(entries@) == named_entries(
            central_directory(data@, cd_offset as int, num_entries as nat),
        ),
{
    decode_names(read_directory(data, cd_offset, num_entries))
}

// ── the index of an archive ─────────────────────────────────────────

/// The entries of the archive `d`, or why it has no index.
pub open spec fn index_of(d: Seq<u8>) -> Result<Seq<EntryView>, ZipError> {
    if d.len() < 22 {
        Err(ZipError::TooSmall)
    } else {
        match eocd_position(d) {
            None => Err(ZipError::EocdNotFound),
            Some(eocd) => {
                let extent = directory_extent(d, eocd);
                Ok(named_entries(central_directory(d, extent.1, extent.0 as nat)))
            },
        }
    }
}

/// Indexes an archive: finds the end-of-central-directory record and parses
/// the central directory it points at. No local header is looked at.
pub fn parse_archive(data: &[u8]) -> (res: Result<Vec<EntryMeta>, ZipError>)
    ensures
        match res {
            Ok(entries) => index_of(data@) == Ok::<Seq<EntryView>, ZipError>(
                entries_of(entries@),
            ),
            Err(e) => index_of(data@) == Err::<Seq<EntryView>, ZipError>(e),
        },
{
    if data.len() < EOCD_LEN {
        return Err(ZipError::TooSmall);
    }
    match find_eocd(data) {
        None => Err(ZipError::EocdNotFound),
        Some(eocd_pos) => {
            let (num_entries, cd_offset) = parse_eocd(data, eocd_pos);
            Ok(parse_cd(data, cd_offset, num_entries))
        },
    }
}

// ── reading an entry ────────────────────────────────────────────────

/// The first entry from `from` on that is called `name`.
pub open spec fn first_named_from(entries: Seq<EntryView>, name: Seq<char>, from: int) -> Option<
    int,
>
    decreases entries.len() - from,
{
    if from < 0 || from >= entries.len() {
        None
    } else if entries[from].name == name {
        Some(from)
    } else {
        first_named_from(entries, name, from + 1)
    }
}

/// The first entry that is called `name`.
pub open spec fn first_named(entries: Seq<EntryView>, name: Seq<char>) -> Option<int> {
    first_named_from(entries, name, 0)
}

/// Where the data of the entry starts whose local header is at `lh`: behind
/// the fixed part of the header, its name and its extra field.
pub open spec fn data_start(d: Seq<u8>, lh: int) -> int {
    lh + 30 + le16(d, lh + 26) + le16(d, lh + 28)
}

/// The bytes of entry `e` in the archive `d`, or why they cannot be had.
pub open spec fn extracted(d: Seq<u8>, e: EntryView) -> Result<Seq<u8>, ZipError> {
    let lh = e.local_header_offset;
    let start = data_start(d, lh);
    let end = start + e.compressed_size;
    if lh + 30 > d.len() {
        Err(ZipError::HeaderOutOfBounds)
    } else if le32(d, lh) != LOCAL_SIG {
        Err(ZipError::BadLocalSignature)
    } else if end > d.len() {
        Err(ZipError::DataOutOfBounds)
    } else if e.method == 0 {
        Ok(d.subrange(start, end))
    } else if e.method == 8 {
        match inflated(d.subrange(start, end)) {
            Some(bytes) => Ok(bytes),
            None => Err(ZipError::CorruptData),
        }
    } else {
        Err(ZipError::UnsupportedMethod(e.method as u16))
    }
}

/// What reading the entry called `name` gives, in the archive `d` with the
/// index `entries`.
pub open spec fn entry_read(d: Seq<u8>, entries: Seq<EntryView>, name: Seq<char>) -> Result<
    Seq<u8>,
    ZipError,
> {
    match first_named(entries, name) {
        None => Err(ZipError::EntryNotFound),
        Some(i) => extracted(d, entries[i]),
    }
}

/// Whether `res` is the outcome `expected`, bytes compared by what they hold.
pub open spec fn is_outcome(res: Result<Vec<u8>, ZipError>, expected: Result<Seq<u8>, ZipError>) -> bool {
    match res {
        Ok(bytes) => expected == Ok::<Seq<u8>, ZipError>(bytes@),
        Err(e) => expected == Err::<Seq<u8>, ZipError>(e),
    }
}

/// Reads the data of `entry` from the archive `data`: checks the local
/// header at the recorded offset, then copies stored data or inflates
/// deflated data.
pub fn decompress(data: &[u8], entry: &EntryMeta) -> (res: Result<Vec<u8>, ZipError>)
    ensures
        is_outcome(res, extracted(data@, entry@)),
{
    let len = data.len();
    if len < 30 || entry.local_header_offset > (len - 30) as u64 {
        return Err(ZipError::HeaderOutOfBounds);
    }
    let lh = entry.local_header_offset as usize;
    if r32(data, lh) != LOCAL_SIG {
        return Err(ZipError::BadLocalSignature);
    }
    let name_len = r16(data, lh + 26) as usize;
    let extra_len = r16(data, lh + 28) as usize;
    // What lies behind the fixed part of the header.
    let room = len - lh - 30;
    if name_len + extra_len > room {
        return Err(ZipError::DataOutOfBounds);
    }
    let data_start = lh + 30 + name_len + extra_len;
    if entry.compressed_size > (len - data_start) as u64 {
        return Err(ZipError::DataOutOfBounds);
    }
    let data_end = data_start + entry.compressed_size as usize;
    let compressed = slice_subrange(data, data_start, data_end);
    if entry.compression_method == 0 {
        Ok(slice_to_vec(compressed))
    } else if entry.compression_method == 8 {
        // The buffer starts out with room for the recorded size, but for no
        // more than the data can come to: no deflate stream decodes to more
        // than 1032 times its own length.
        let most = match compressed.len().checked_mul(1032) {
            Some(most) => if most <= isize::MAX as usize {
                most
            } else {
                isize::MAX as usize
            },
            None => isize::MAX as usize,
        };
        let hint = if entry.uncompressed_size <= most as u64 {
            entry.uncompressed_size as usize
        } else {
            most
        };
        match inflate(compressed, Vec::with_capacity(hint)) {
            Some(bytes) => Ok(bytes),
            None => Err(ZipError::CorruptData),
        }
    } else {
        Err(ZipError::UnsupportedMethod(entry.compression_method))
    }
}

/// Looks for the first entry called `name`.
pub fn find_entry(entries: &Vec<EntryMeta>, name: &str) -> (found: Option<usize>)
    ensures
        match found {
            Some(i) => first_named(entries_of(entries@), name@) == Some(i as int) && i
                < entries@.len(),
            None => first_named(entries_of(entries@), name@) is None,
        },
{
    let wanted = name.to_owned();
    let n = entries.len();
    let mut i: usize = 0;
    while i < n
        invariant
            n == entries@.len(),
            i <= n,
            wanted@ == name@,
            first_named(entries_of(entries@), name@) == first_named_from(
                entries_of(entries@),
                name@,
                i as int,
            ),
        decreases n - i,
    {
        if entries[i].name == wanted {
            return Some(i);
        }
        i = i + 1;
    }
    None
}

/// Reads the entry called `name` from the archive `data`, whose index is
/// `entries`.
pub fn read_entry_at(data: &[u8], entries: &Vec<EntryMeta>, name: &str) -> (res: Result<
    Vec<u8>,
    ZipError,
>)
    ensures
        is_outcome(res, entry_read(data@, entries_of(entries@), name@)),
{
    match find_entry(entries, name) {
        None => Err(ZipError::EntryNotFound),
        Some(i) => decompress(data, &entries[i]),
    }
}

/// An archive that was opened: the mapped file and the list of its entries
/// in central directory order.
pub struct ZipIndex {
    mmap: memmap2::Mmap,
    entries: Vec<EntryMeta>,
}

impl ZipIndex {
    /// The entries of the index, in central directory order.
    pub closed spec fn entries(&self) -> Seq<EntryView> {
        entries_of(self.entries@)
    }

    /// The names of the entries, in central directory order.
    pub open spec fn names(&self) -> Seq<Seq<char>> {
        Seq::new(self.entries().len(), |i: int| self.entries()[i].name)
    }

    /// Opens a mapped archive: indexes the bytes that the mapping holds.
    ///
    /// The mapping shows a file that this library does not control, so the
    /// result is stated of the bytes that were found in it: they are some
    /// byte sequence, and the result is what [`index_of`] says of them.
    pub fn open(mmap: memmap2::Mmap) -> (res: Result<ZipIndex, ZipError>)
        ensures
            match res {
                Ok(index) => exists|d: Seq<u8>| #[trigger]
                    index_of(d) == Ok::<Seq<EntryView>, ZipError>(index.entries()),
                Err(e) => exists|d: Seq<u8>| #[trigger]
                    index_of(d) == Err::<Seq<EntryView>, ZipError>(e),
            },
    {
        let parsed = parse_archive(mapped_bytes(&mmap));
        match parsed {
            Ok(entries) => Ok(ZipIndex { mmap, entries }),
            Err(e) => Err(e),
        }
    }

    /// The names of all entries, files and directories, in central
    /// directory order. Each call gives the whole list.
    pub fn entry_names(&self) -> (names: Vec<String>)
        ensures
            names@.len() == self.entries().len(),
            forall|i: int|
                0 <= i < names@.len() ==> (#[trigger] names@[i])@ == self.entries()[i].name,
    {
        let n = self.entries.len();
        let mut names: Vec<String> = Vec::with_capacity(n);
        let mut i: usize = 0;
        while i < n
            invariant
                n == self.entries@.len(),
                i <= n,
                names@.len() == i,
                forall|j: int|
                    0 <= j < i ==> (#[trigger] names@[j])@ == self.entries@[j].name@,
            decreases n - i,
        {
            names.push(self.entries[i].name.clone());
            i = i + 1;
        }
        names
    }

    /// Reads and decompresses the first entry called `name`.
    ///
    /// Fails with `EntryNotFound` exactly where the index has no such
    /// entry. Otherwise the result is what [`entry_read`] says of the bytes
    /// that the mapping holds when they are read.
    pub fn read_entry(&self, name: &str) -> (res: Result<Vec<u8>, ZipError>)
        ensures
            first_named(self.entries(), name@) is None <==> res == Err::<Vec<u8>, ZipError>(
                ZipError::EntryNotFound,
            ),
            exists|d: Seq<u8>| is_outcome(res, #[trigger] entry_read(d, self.entries(), name@)),
    {
        read_entry_at(mapped_bytes(&self.mmap), &self.entries, name)
    }
}

// ── what holds of every archive ─────────────────────────────────────

/// Where the `k`-th record of a directory starts that begins at `pos`, each
/// record taken to be as long as it says.
pub open spec fn record_start(d: Seq<u8>, pos: int, k: nat) -> int
    decreases k,
{
    if k == 0 {
        pos
    } else {
        record_start(d, pos + record_span(d, pos), (k - 1) as nat)
    }
}

/// A directory never yields more records than it declares.
pub proof fn lemma_directory_is_bounded(d: Seq<u8>, pos: int, count: nat)
    ensures
        central_directory(d, pos, count).len() <= count,
    decreases count,
{
    if count > 0 && record_at(d, pos) {
        lemma_directory_is_bounded(d, pos + record_span(d, pos), (count - 1) as nat);
    }
}

/// A directory of `n` records that can all be read, one behind the other,
/// yields exactly those `n` records, in that order. Nothing is asked of the
/// extra fields: it holds with and without zip64 values.
pub proof fn lemma_directory_in_order(d: Seq<u8>, pos: int, n: nat)
    requires
        forall|k: nat| k < n ==> record_at(d, #[trigger] record_start(d, pos, k)),
    ensures
        central_directory(d, pos, n).len() == n,
        forall|k: nat|
            k < n ==> central_directory(d, pos, n)[k as int] == record(
                d,
                #[trigger] record_start(d, pos, k),
            ),
    decreases n,
{
    if n > 0 {
        let next = pos + record_span(d, pos);
        let rest = (n - 1) as nat;
        assert(record_at(d, record_start(d, pos, 0)));
        assert forall|k: nat| k < rest implies record_at(d, #[trigger] record_start(d, next, k)) by {
            assert(record_start(d, pos, k + 1) == record_start(d, next, k));
            assert(record_at(d, record_start(d, pos, k + 1)));
        }
        lemma_directory_in_order(d, next, rest);
        assert forall|k: nat| k < n implies central_directory(d, pos, n)[k as int] == record(
            d,
            #[trigger] record_start(d, pos, k),
        ) by {
            if k > 0 {
                let j = (k - 1) as nat;
                assert(record_start(d, pos, k) == record_start(d, next, j));
                assert(central_directory(d, next, rest)[j as int] == record(
                    d,
                    record_start(d, next, j),
                ));
            }
        }
    }
}

/// An archive whose end record declares `n` entries, and whose directory
/// holds `n` records that can be read one behind the other, has an index of
/// exactly `n` entries. The `k`-th entry is the one that the `k`-th record
/// describes, so the names come in central directory order, whether or not
/// zip64 fields are present.
pub proof fn lemma_index_follows_directory(d: Seq<u8>, eocd: int, n: nat)
    requires
        d.len() >= 22,
        eocd_position(d) == Some(eocd),
        directory_extent(d, eocd).0 == n,
        forall|k: nat|
            k < n ==> record_at(
                d,
                #[trigger] record_start(d, directory_extent(d, eocd).1, k),
            ),
    ensures
        index_of(d) is Ok,
        index_of(d)->Ok_0.len() == n,
        forall|k: nat|
            k < n ==> (#[trigger] index_of(d)->Ok_0[k as int]) == named(
                record(d, record_start(d, directory_extent(d, eocd).1, k)),
                detection_stream(central_directory(d, directory_extent(d, eocd).1, n)),
            ),
{
    lemma_directory_in_order(d, directory_extent(d, eocd).1, n);
}

/// A stored entry is read as the bytes that the archive holds for it: as
/// many as the directory records as its compressed size, which is its
/// uncompressed size wherever the two recorded sizes agree.
pub proof fn lemma_stored_entry_has_recorded_size(d: Seq<u8>, entry: EntryMeta)
    requires
        entry.compression_method == 0,
        extracted(d, entry@) is Ok,
    ensures
        extracted(d, entry@)->Ok_0.len() == entry.compressed_size,
        entry.compressed_size == entry.uncompressed_size ==> extracted(d, entry@)->Ok_0.len()
            == entry.uncompressed_size,
{
    lemma_le_bounds(d, entry.local_header_offset as int + 26);
    lemma_le_bounds(d, entry.local_header_offset as int + 28);
}

} // verus!
