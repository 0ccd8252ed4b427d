//! The binary container format.
//!
//! Layout (all integers little-endian):
//! - bytes 0..16: header — 8-byte magic, 1-byte version, 1-byte block-size
//!   exponent, 2 reserved bytes, 4-byte file count `N`;
//! - bytes 16..16+12*N: the entry table, one 12-byte record per file:
//!   4-byte filename address, 4-byte block address, 4-byte content size;
//! - elsewhere: length-prefixed names (1 length byte, then that many bytes)
//!   and the content blocks, found through the records.
//!
//! Magic and version are validated before any other field is trusted. Block
//! addresses and sizes are taken as-is: the reader trusts the archive.

use vstd::arithmetic::power2::pow2;
use vstd::bits::lemma_u64_shl_is_mul;
use vstd::bytes::spec_u32_from_le_bytes;
use vstd::bytes::u32_from_le_bytes;
use vstd::prelude::*;
use vstd::slice::slice_subrange;

use crate::io::Io;

verus! {

/// The supported container version.
pub const VERSION: u8 = 0;

/// The 8-byte magic constant at offset 0: the bytes of `NrRdOnly`.
pub open spec fn spec_magic() -> Seq<u8> {
    seq![0x4eu8, 0x72u8, 0x52u8, 0x64u8, 0x4fu8, 0x6eu8, 0x6cu8, 0x79u8]
}

/// The first 8 of the 16 header bytes `d` are the magic constant.
pub open spec fn magic_ok(d: Seq<u8>) -> bool {
    d.subrange(0, 8) == spec_magic()
}

/// The version byte of the 16 header bytes `d` is the supported version.
pub open spec fn version_ok(d: Seq<u8>) -> bool {
    d[8] == VERSION
}

/// The block-size exponent of the 16 header bytes `d`.
pub open spec fn header_block_size(d: Seq<u8>) -> u8 {
    d[9]
}

/// The file count of the 16 header bytes `d`.
pub open spec fn header_file_count(d: Seq<u8>) -> u32 {
    spec_u32_from_le_bytes(d.subrange(12, 16))
}

/// The entry record decoded from 12 record bytes `d`.
pub open spec fn spec_parse_entry(d: Seq<u8>) -> Entry {
    Entry {
        filename_addr: spec_u32_from_le_bytes(d.subrange(0, 4)),
        block_addr: spec_u32_from_le_bytes(d.subrange(4, 8)),
        file_size: spec_u32_from_le_bytes(d.subrange(8, 12)),
    }
}

/// The entry of index `i` in a stream with contents `data`: the decoding of
/// the 12 bytes at offset `16 + 12*i`.
pub open spec fn spec_entry_at(data: Seq<u8>, i: int) -> Entry {
    spec_parse_entry(data.subrange(16 + 12 * i, 16 + 12 * i + 12))
}

/// The length-prefixed name stored at byte offset `addr` of `data`.
pub open spec fn spec_name_at(data: Seq<u8>, addr: int) -> Seq<u8> {
    data.subrange(addr + 1, addr + 1 + data[addr] as int)
}

/// The name of the entry of index `i` in a stream with contents `data`.
pub open spec fn spec_entry_name(data: Seq<u8>, i: int) -> Seq<u8> {
    spec_name_at(data, spec_entry_at(data, i).filename_addr as int)
}

/// Why a header failed to load: bad magic, wrong version, or an error `R` of
/// the backing stream.
#[derive(Debug)]
pub enum ParseHeaderError<R> {
    BadMagic,
    UnsupportedVersion,
    Other(R),
}

/// The decoded container header: block-size exponent and file count.
#[derive(Clone, Copy, Debug)]
pub struct Header {
    pub block_size: u8,
    pub file_count: u32,
}

/// One decoded entry record: where the file's name lives, where its content
/// starts (in blocks), and how many bytes of content it has.
#[derive(Clone, Copy, Debug, PartialEq, Eq, Structural)]
pub struct Entry {
    pub filename_addr: u32,
    pub block_addr: u32,
    pub file_size: u32,
}

/// Decode 16 header bytes: validate magic and version, then extract the
/// block-size exponent and the file count.
pub fn parse_header<R>(d: &[u8]) -> (r: Result<(u8, u32), ParseHeaderError<R>>)
    requires
        d@.len() == 16,
    ensures
        r is Ok <==> magic_ok(d@) && version_ok(d@),
        r matches Ok(p) ==> p.0 == header_block_size(d@) && p.1 == header_file_count(d@),
        r matches Err(e) ==> (e is BadMagic <==> !magic_ok(d@)),
        r matches Err(e) ==> (e is UnsupportedVersion <==> magic_ok(d@) && !version_ok(d@)),
        r matches Err(e) ==> !(e is Other),
{
    proof {
        if magic_ok(d@) {
            assert(d@.subrange(0, 8)[0] == 0x4eu8);
            assert(d@.subrange(0, 8)[1] == 0x72u8);
            assert(d@.subrange(0, 8)[2] == 0x52u8);
            assert(d@.subrange(0, 8)[3] == 0x64u8);
            assert(d@.subrange(0, 8)[4] == 0x4fu8);
            assert(d@.subrange(0, 8)[5] == 0x6eu8);
            assert(d@.subrange(0, 8)[6] == 0x6cu8);
            assert(d@.subrange(0, 8)[7] == 0x79u8);
        }
    }
    if d[0] != 0x4e || d[1] != 0x72 || d[2] != 0x52 || d[3] != 0x64 || d[4] != 0x4f || d[5]
        != 0x6e || d[6] != 0x6c || d[7] != 0x79 {
        Err(ParseHeaderError::BadMagic)
    } else {
        proof {
            assert(d@.subrange(0, 8) =~= spec_magic());
        }
        if d[8] != VERSION {
            Err(ParseHeaderError::UnsupportedVersion)
        } else {
            let n = u32_from_le_bytes(slice_subrange(d, 12, 16));
            Ok((d[9], n))
        }
    }
}

/// Decode one 12-byte entry record. Decoding cannot fail once the bytes are
/// in hand.
pub fn parse_entry(d: &[u8]) -> (e: Entry)
    requires
        d@.len() == 12,
    ensures
        e == spec_parse_entry(d@),
{
    let filename_addr = u32_from_le_bytes(slice_subrange(d, 0, 4));
    let block_addr = u32_from_le_bytes(slice_subrange(d, 4, 8));
    let file_size = u32_from_le_bytes(slice_subrange(d, 8, 12));
    Entry { filename_addr, block_addr, file_size }
}

/// Read a length-prefixed name at the stream's cursor: one length byte, then
/// that many name bytes.
pub fn read_string<I: Io>(io: &mut I) -> (r: Result<Vec<u8>, I::Error>)
    ensures
        final(io).data() == old(io).data(),
        r matches Ok(v) ==> ({
            let d = old(io).data();
            let p = old(io).pos();
            &&& 0 <= p
            &&& p + 1 <= d.len()
            &&& p + 1 + d[p] as int <= d.len()
            &&& v@ == spec_name_at(d, p)
            &&& v@.len() <= 255
            &&& final(io).pos() == p + 1 + d[p] as int
        }),
{
    let l = match io.read_exact(1) {
        Ok(v) => v,
        Err(e) => {
            return Err(e);
        },
    };
    let n = l[0];
    proof {
        assert(l@[0] == old(io).data()[old(io).pos()]);
    }
    match io.read_exact(n as usize) {
        Ok(v) => Ok(v),
        Err(e) => Err(e),
    }
}

/// Fetch and decode the entry record of index `index`, without checking the
/// index against the header's file count: one seek plus one 12-byte read.
pub fn get<I: Io>(index: u32, io: &mut I) -> (r: Result<Entry, I::Error>)
    ensures
        final(io).data() == old(io).data(),
        r matches Ok(e) ==> ({
            let d = old(io).data();
            &&& 16 + 12 * (index as int) + 12 <= d.len()
            &&& e == spec_entry_at(d, index as int)
            &&& final(io).pos() == 16 + 12 * (index as int) + 12
        }),
{
    match io.seek(16 + index as u64 * 12) {
        Ok(()) => {},
        Err(e) => {
            return Err(e);
        },
    }
    let b = match io.read_exact(12) {
        Ok(v) => v,
        Err(e) => {
            return Err(e);
        },
    };
    Ok(parse_entry(b.as_slice()))
}

impl Header {
    /// Read 16 bytes at the stream's cursor and decode them as the container
    /// header. An I/O failure is reported apart from the two format errors.
    pub fn load<I: Io>(io: &mut I) -> (r: Result<Header, ParseHeaderError<I::Error>>)
        ensures
            final(io).data() == old(io).data(),
            ({
                let d = old(io).data();
                let p = old(io).pos();
                &&& r matches Ok(h) ==> {
                    &&& 0 <= p
                    &&& p + 16 <= d.len()
                    &&& magic_ok(d.subrange(p, p + 16))
                    &&& version_ok(d.subrange(p, p + 16))
                    &&& h.block_size == header_block_size(d.subrange(p, p + 16))
                    &&& h.file_count == header_file_count(d.subrange(p, p + 16))
                    &&& final(io).pos() == p + 16
                }
                &&& r matches Err(e) ==> match e {
                    ParseHeaderError::BadMagic => 0 <= p && p + 16 <= d.len() && !magic_ok(
                        d.subrange(p, p + 16),
                    ),
                    ParseHeaderError::UnsupportedVersion => 0 <= p && p + 16 <= d.len()
                        && magic_ok(d.subrange(p, p + 16)) && !version_ok(d.subrange(p, p + 16)),
                    ParseHeaderError::Other(_) => true,
                }
                // unless a primitive of the stream failed, loading succeeds
                // exactly when the 16 bytes at the cursor are in bounds with
                // good magic and version
                &&& ({
                    let good = 0 <= p && p + 16 <= d.len() && magic_ok(d.subrange(p, p + 16))
                        && version_ok(d.subrange(p, p + 16));
                    match r {
                        Ok(_) => good,
                        Err(ParseHeaderError::BadMagic) => !good,
                        Err(ParseHeaderError::UnsupportedVersion) => !good,
                        Err(ParseHeaderError::Other(_)) => true,
                    }
                })
            }),
    {
        let b = match io.read_exact(16) {
            Ok(v) => v,
            Err(e) => {
                return Err(ParseHeaderError::Other(e));
            },
        };
        match parse_header::<I::Error>(b.as_slice()) {
            Ok((block_size, file_count)) => Ok(Header { block_size, file_count }),
            Err(e) => Err(e),
        }
    }

    /// Fetch the entry of index `index`, or `None` when the index is at or
    /// past the file count.
    pub fn get<I: Io>(&self, index: u32, io: &mut I) -> (r: Option<
        Result<Entry, I::Error>,
    >)
        ensures
            final(io).data() == old(io).data(),
            r is None <==> index >= self.file_count,
            r is None ==> final(io).pos() == old(io).pos(),
            r matches Some(Ok(e)) ==> ({
                let d = old(io).data();
                &&& 16 + 12 * (index as int) + 12 <= d.len()
                &&& e == spec_entry_at(d, index as int)
            }),
    {
        if index < self.file_count {
            Some(get(index, io))
        } else {
            None
        }
    }

    /// Start a sequential walk of the entry table, seeking to its first
    /// record.
    pub fn iter<I: Io>(&self, io: &mut I) -> (r: Result<Iter, I::Error>)
        ensures
            final(io).data() == old(io).data(),
            r matches Ok(it) ==> it.spec_offset() == 0 && it.spec_count() == self.file_count
                && final(io).pos() == 16,
    {
        match io.seek(16) {
            Ok(()) => Ok(Iter { offset: 0, count: self.file_count }),
            Err(e) => Err(e),
        }
    }

    /// The number of entries in the container.
    pub fn file_count(&self) -> (r: u32)
        ensures
            r == self.file_count,
    {
        self.file_count
    }

    /// The block-size exponent: content offsets are counted in units of
    /// `2^block_size` bytes.
    pub fn block_size(&self) -> (r: u8)
        ensures
            r == self.block_size,
    {
        self.block_size
    }
}

impl Entry {
    /// Resolve this entry's name: seek to its filename address and read the
    /// length-prefixed bytes found there.
    pub fn name<I: Io>(&self, io: &mut I) -> (r: Result<Vec<u8>, I::Error>)
        ensures
            final(io).data() == old(io).data(),
            r matches Ok(v) ==> ({
                let d = old(io).data();
                let a = self.filename_addr as int;
                &&& a + 1 <= d.len()
                &&& a + 1 + d[a] as int <= d.len()
                &&& v@ == spec_name_at(d, a)
                &&& v@.len() <= 255
            }),
    {
        match io.seek(self.filename_addr as u64) {
            Ok(()) => {},
            Err(e) => {
                return Err(e);
            },
        }
        read_string(io)
    }

    /// The content start address, in blocks.
    pub fn block(&self) -> (r: u32)
        ensures
            r == self.block_addr,
    {
        self.block_addr
    }

    /// The content start address in bytes: the block address scaled by the
    /// header's block size.
    pub fn offset(&self, header: &Header) -> (r: u64)
        requires
            header.block_size < 64,
            self.block_addr * pow2(header.block_size as nat) <= u64::MAX,
        ensures
            r == self.block_addr * pow2(header.block_size as nat),
    {
        proof {
            lemma_u64_shl_is_mul(self.block_addr as u64, header.block_size as u64);
        }
        (self.block_addr as u64) << (header.block_size as u64)
    }

    /// The content size in bytes.
    pub fn size(&self) -> (r: u32)
        ensures
            r == self.file_size,
    {
        self.file_size
    }
}

/// A cursor over the entry table: the entries of index `offset..count`, in
/// ascending index order, fetched one seek-plus-read at a time against a
/// stream handed to each step.
pub struct Iter {
    offset: u32,
    count: u32,
}

impl Iter {
    /// The index the walk stands at.
    pub closed spec fn spec_offset(&self) -> u32 {
        self.offset
    }

    /// The index the walk ends before.
    pub closed spec fn spec_count(&self) -> u32 {
        self.count
    }

    /// Fetch the entry at the cursor and advance past it; `None` once the
    /// table is exhausted.
    pub fn next<I: Io>(&mut self, io: &mut I) -> (r: Option<Result<Entry, I::Error>>)
        ensures
            final(io).data() == old(io).data(),
            final(self).spec_count() == old(self).spec_count(),
            old(self).spec_offset() >= old(self).spec_count() ==> r is None
                && final(self).spec_offset() == old(self).spec_offset(),
            old(self).spec_offset() < old(self).spec_count()
                ==> final(self).spec_offset() == old(self).spec_offset() + 1 && r is Some,
            r matches Some(Ok(e)) ==> ({
                let d = old(io).data();
                let i = old(self).spec_offset() as int;
                &&& 16 + 12 * i + 12 <= d.len()
                &&& e == spec_entry_at(d, i)
            }),
    {
        if self.offset < self.count {
            let o = self.offset;
            self.offset = o + 1;
            Some(get(o, io))
        } else {
            None
        }
    }

    /// How many entries remain, as a lower and an upper bound.
    pub fn size_hint(&self) -> (r: (usize, Option<usize>))
        ensures
            r.0 == self.spec_remaining(),
            r.1 == Some(self.spec_remaining() as usize),
    {
        let l = self.len();
        (l, Some(l))
    }

    /// How many entries remain.
    pub fn count(self) -> (r: usize)
        ensures
            r == self.spec_remaining(),
    {
        self.len()
    }

    /// Skip `n` entries without reading them — the cursor saturates at the
    /// largest index — then fetch the next one.
    pub fn nth<I: Io>(&mut self, n: usize, io: &mut I) -> (r: Option<Result<Entry, I::Error>>)
        ensures
            final(io).data() == old(io).data(),
            final(self).spec_count() == old(self).spec_count(),
            ({
                let adv = spec_sat_add_u32(old(self).spec_offset(), n as int);
                &&& adv >= old(self).spec_count() ==> r is None && final(self).spec_offset() == adv
                &&& adv < old(self).spec_count() ==> final(self).spec_offset() == adv + 1
                    && r is Some
                &&& r matches Some(Ok(e)) ==> ({
                    let d = old(io).data();
                    &&& 16 + 12 * (adv as int) + 12 <= d.len()
                    &&& e == spec_entry_at(d, adv as int)
                })
            }),
    {
        let n32: u32 = if n > u32::MAX as usize {
            u32::MAX
        } else {
            n as u32
        };
        self.offset = if n32 > u32::MAX - self.offset {
            u32::MAX
        } else {
            self.offset + n32
        };
        self.next(io)
    }

    /// How many entries remain: the count minus the cursor, and none once the
    /// cursor stands at or past the count.
    pub fn len(&self) -> (r: usize)
        ensures
            r == self.spec_remaining(),
    {
        if self.offset <= self.count {
            (self.count - self.offset) as usize
        } else {
            0
        }
    }

    /// The number of entries still ahead of the cursor.
    pub open spec fn spec_remaining(&self) -> int {
        if self.spec_offset() <= self.spec_count() {
            self.spec_count() - self.spec_offset()
        } else {
            0
        }
    }
}

/// Saturating addition of a non-negative amount to a 32-bit cursor.
pub open spec fn spec_sat_add_u32(a: u32, n: int) -> u32 {
    if a + n > u32::MAX {
        u32::MAX
    } else {
        (a + n) as u32
    }
}

} // verus!
