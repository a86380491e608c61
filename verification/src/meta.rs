//! What a file says about itself: the preamble at its start and the
//! metadata at its end.
//!
//! The preamble has a fixed size and is written last. It tells where the
//! metadata starts and carries the checksum of its bytes. The metadata
//! lists, for each column, the blocks in the order in which they were
//! closed, with the place of each in the file.

use crate::bytes::{
    le_i32, le_u16, le_u32, le_u64, read_i32, read_u16, read_u32, read_u64, u16_le_bytes,
    u32_le_bytes, u64_le_bytes, write_u16, write_u32, write_u64,
};
use crate::fields::{Fields, FIELDS_NUM};
use vstd::prelude::*;

verus! {

/// Size in bytes of the preamble of a file.
pub const FILE_INFO_SIZE: usize = 26;

/// Number of bytes of the preamble that carry a value; the rest is zero.
pub const FILE_INFO_USED: usize = 16;

/// The CRC-32 checksum of a byte string, as the `crc32fast` crate computes
/// it. Nothing is stated of its value but that it depends on the bytes
/// alone.
pub uninterp spec fn crc32_of(bytes: Seq<u8>) -> u32;

/// `crc32fast::hash`: the CRC-32 checksum of `bytes`. The contract only
/// names the result; it is the same for the same bytes.
#[verifier::external_body]
pub(crate) fn calc_crc_for_meta_bytes(bytes: &[u8]) -> (crc: u32)
    ensures
        crc == crc32_of(bytes@),
{
    crc32fast::hash(bytes)
}

/// The codec that compresses the blocks of a column. The library hands it
/// through; it never compresses itself.
#[derive(Clone, Copy, Debug, PartialEq, Eq, Hash, Structural)]
pub enum Codecs {
    Gzip,
    Lz4,
    Zstd,
}

/// The preamble of a file.
#[derive(Clone, Copy, Debug)]
pub struct FileInfo {
    /// Version of the format, major then minor.
    pub gbam_version: [u16; 2],
    /// Where the metadata starts in the file.
    pub seekpos: u64,
    /// Checksum of the bytes of the metadata.
    pub crc32: u32,
}

/// The bytes of the preamble that holds the given values: the two parts of
/// the version, the place of the metadata and the checksum, each least
/// significant byte first, then zeros up to `FILE_INFO_SIZE`.
pub open spec fn file_info_bytes(major: u16, minor: u16, seekpos: u64, crc32: u32) -> Seq<u8> {
    u16_le_bytes(major) + u16_le_bytes(minor) + u64_le_bytes(seekpos) + u32_le_bytes(crc32)
        + Seq::new((FILE_INFO_SIZE - FILE_INFO_USED) as nat, |i: int| 0u8)
}

impl FileInfo {
    /// The bytes of this preamble.
    pub open spec fn bytes(self) -> Seq<u8> {
        file_info_bytes(self.gbam_version@[0], self.gbam_version@[1], self.seekpos, self.crc32)
    }

    /// A preamble with the given values.
    pub fn new(gbam_version: [u16; 2], seekpos: u64, crc32: u32) -> (info: Self)
        ensures
            info.gbam_version == gbam_version,
            info.seekpos == seekpos,
            info.crc32 == crc32,
    {
        FileInfo { gbam_version, seekpos, crc32 }
    }

    /// Encodes the preamble into `FILE_INFO_SIZE` bytes.
    pub fn to_bytes(&self) -> (out: Vec<u8>)
        ensures
            out@ == self.bytes(),
            out@.len() == FILE_INFO_SIZE,
    {
        let mut out: Vec<u8> = Vec::new();
        let major = write_u16(self.gbam_version[0]);
        let minor = write_u16(self.gbam_version[1]);
        let seekpos = write_u64(self.seekpos);
        let crc32 = write_u32(self.crc32);
        append(&mut out, major.as_slice());
        append(&mut out, minor.as_slice());
        append(&mut out, seekpos.as_slice());
        append(&mut out, crc32.as_slice());
        let ghost head = out@;
        let mut i: usize = FILE_INFO_USED;
        while i < FILE_INFO_SIZE
            invariant
                FILE_INFO_USED <= i <= FILE_INFO_SIZE,
                out@ == head + Seq::new((i - FILE_INFO_USED) as nat, |k: int| 0u8),
            decreases FILE_INFO_SIZE - i,
        {
            out.push(0u8);
            i += 1;
            assert(out@ =~= head + Seq::new((i - FILE_INFO_USED) as nat, |k: int| 0u8));
        }
        assert(out@ =~= self.bytes());
        out
    }

    /// Decodes a preamble from the start of `bytes`. There is none where
    /// fewer than `FILE_INFO_SIZE` bytes are given.
    pub fn from_bytes(bytes: &[u8]) -> (info: Option<Self>)
        ensures
            info is Some <==> bytes@.len() >= FILE_INFO_SIZE,
            info matches Some(i) ==> {
                &&& i.gbam_version@[0] == le_u16(bytes@.subrange(0, 2))
                &&& i.gbam_version@[1] == le_u16(bytes@.subrange(2, 4))
                &&& i.seekpos == le_u64(bytes@.subrange(4, 12))
                &&& i.crc32 == le_u32(bytes@.subrange(12, 16))
            },
    {
        if bytes.len() < FILE_INFO_SIZE {
            return None;
        }
        let major = read_u16(vstd::slice::slice_subrange(bytes, 0, 2));
        let minor = read_u16(vstd::slice::slice_subrange(bytes, 2, 4));
        let seekpos = read_u64(vstd::slice::slice_subrange(bytes, 4, 12));
        let crc32 = read_u32(vstd::slice::slice_subrange(bytes, 12, 16));
        Some(FileInfo { gbam_version: [major, minor], seekpos, crc32 })
    }

    /// Whether `meta_bytes` are the metadata that this preamble vouches
    /// for: their checksum is the one that the preamble carries.
    pub fn matches_meta(&self, meta_bytes: &[u8]) -> (ok: bool)
        ensures
            ok == (crc32_of(meta_bytes@) == self.crc32),
    {
        calc_crc_for_meta_bytes(meta_bytes) == self.crc32
    }
}

/// Appends the bytes of `data` to `out`.
pub fn append(out: &mut Vec<u8>, data: &[u8])
    ensures
        final(out)@ == old(out)@ + data@,
{
    let ghost before = out@;
    let mut i: usize = 0;
    assert(before + data@.subrange(0, 0) =~= before);
    while i < data.len()
        invariant
            i <= data@.len(),
            out@ == before + data@.subrange(0, i as int),
        decreases data@.len() - i,
    {
        out.push(data[i]);
        i += 1;
        assert(out@ =~= before + data@.subrange(0, i as int));
    }
    assert(data@.subrange(0, data@.len() as int) =~= data@);
}

/// A preamble that was encoded decodes to the values it was made of.
pub proof fn lemma_file_info_round_trip(major: u16, minor: u16, seekpos: u64, crc32: u32)
    ensures
        file_info_bytes(major, minor, seekpos, crc32).len() == FILE_INFO_SIZE,
        le_u16(file_info_bytes(major, minor, seekpos, crc32).subrange(0, 2)) == major,
        le_u16(file_info_bytes(major, minor, seekpos, crc32).subrange(2, 4)) == minor,
        le_u64(file_info_bytes(major, minor, seekpos, crc32).subrange(4, 12)) == seekpos,
        le_u32(file_info_bytes(major, minor, seekpos, crc32).subrange(12, 16)) == crc32,
{
    let b = file_info_bytes(major, minor, seekpos, crc32);
    crate::bytes::lemma_le_round_trip(major, crc32, seekpos, 0);
    crate::bytes::lemma_le_round_trip(minor, crc32, seekpos, 0);
    assert(u64_le_bytes(seekpos).len() == 8);
    assert(b.subrange(0, 2) =~= u16_le_bytes(major));
    assert(b.subrange(2, 4) =~= u16_le_bytes(minor));
    assert(b.subrange(4, 12) =~= u64_le_bytes(seekpos));
    assert(b.subrange(12, 16) =~= u32_le_bytes(crc32));
}

/// The preamble vouches for the metadata it was made for: the checksum
/// that a preamble carries is the checksum of the metadata whose checksum
/// went into it, and the place it gives is the place that went into it.
pub proof fn lemma_preamble_vouches(seekpos: u64, meta_bytes: Seq<u8>)
    ensures
        le_u32(file_info_bytes(1, 0, seekpos, crc32_of(meta_bytes)).subrange(12, 16)) == crc32_of(
            meta_bytes,
        ),
        le_u64(file_info_bytes(1, 0, seekpos, crc32_of(meta_bytes)).subrange(4, 12)) == seekpos,
{
    lemma_file_info_round_trip(1, 0, seekpos, crc32_of(meta_bytes));
}

/// What the metadata says of one block.
#[derive(Debug)]
pub struct BlockMeta {
    /// Where the compressed block starts in the file.
    pub seekpos: u64,
    /// Number of values in the block.
    pub numitems: u32,
    /// The greatest value of the block, in the encoding of the field.
    pub max_value: Option<Vec<u8>>,
    /// The least value of the block, in the encoding of the field.
    pub min_value: Option<Vec<u8>>,
}

/// The bytes of an optional byte string.
pub open spec fn opt_bytes(v: Option<Vec<u8>>) -> Option<Seq<u8>> {
    match v {
        Some(b) => Some(b@),
        None => None,
    }
}

impl BlockMeta {
    /// The least and the greatest value of the block read as signed
    /// integers of four bytes, where the block has both.
    pub open spec fn range(&self) -> Option<(int, int)> {
        match (self.min_value, self.max_value) {
            (Some(lo), Some(hi)) => if lo@.len() >= 4 && hi@.len() >= 4 {
                Some((le_i32(lo@), le_i32(hi@)))
            } else {
                None
            },
            _ => None,
        }
    }

    /// The least and the greatest value of the block as signed integers,
    /// where the block has statistics of four bytes each.
    pub fn stats(&self) -> (r: Option<(i32, i32)>)
        ensures
            r is Some <==> self.range() is Some,
            r matches Some((lo, hi)) ==> self.range() == Some((lo as int, hi as int)),
    {
        match (&self.min_value, &self.max_value) {
            (Some(lo), Some(hi)) => {
                if lo.len() >= 4 && hi.len() >= 4 {
                    Some((read_i32(lo.as_slice()), read_i32(hi.as_slice())))
                } else {
                    None
                }
            },
            _ => None,
        }
    }
}

impl Default for BlockMeta {
    fn default() -> (meta: Self)
        ensures
            meta.seekpos == 0,
            meta.numitems == 0,
            meta.max_value is None,
            meta.min_value is None,
    {
        BlockMeta { seekpos: 0, numitems: 0, max_value: None, min_value: None }
    }
}

/// What the metadata says of one column: its blocks, in the order in
/// which they were closed, and the size of each after compression.
#[derive(Debug)]
pub struct FieldMeta {
    pub blocks: Vec<BlockMeta>,
    pub block_sizes: Vec<u32>,
}

/// The metadata of a file.
#[derive(Debug)]
pub struct FileMeta {
    /// The codec of each column, by the position of the column.
    pub codecs: Vec<Codecs>,
    /// Name and length of each reference sequence.
    pub ref_seqs: Vec<(String, i32)>,
    /// The blocks of each column, by the position of the column.
    pub fields: Vec<FieldMeta>,
}

impl FileMeta {
    /// The metadata has an entry for each column of the catalog.
    pub open spec fn wf(&self) -> bool {
        self.codecs@.len() == FIELDS_NUM && self.fields@.len() == FIELDS_NUM
    }

    /// The blocks of a column.
    pub open spec fn blocks_of(&self, field: Fields) -> Seq<BlockMeta> {
        self.fields@[field.ord()].blocks@
    }

    /// The compressed sizes of the blocks of a column.
    pub open spec fn sizes_of(&self, field: Fields) -> Seq<u32> {
        self.fields@[field.ord()].block_sizes@
    }

    /// Metadata of a file without blocks, with one codec for all columns.
    pub fn new(codec: Codecs, ref_seqs: Vec<(String, i32)>) -> (meta: Self)
        ensures
            meta.wf(),
            meta.ref_seqs == ref_seqs,
            forall|i: int| 0 <= i < FIELDS_NUM ==> meta.codecs@[i] == codec,
            forall|i: int|
                0 <= i < FIELDS_NUM ==> (#[trigger] meta.fields@[i]).blocks@.len() == 0
                    && meta.fields@[i].block_sizes@.len() == 0,
    {
        let mut codecs: Vec<Codecs> = Vec::new();
        let mut fields: Vec<FieldMeta> = Vec::new();
        let mut i: usize = 0;
        while i < FIELDS_NUM
            invariant
                i <= FIELDS_NUM,
                codecs@.len() == i,
                fields@.len() == i,
                forall|k: int| 0 <= k < i ==> codecs@[k] == codec,
                forall|k: int|
                    0 <= k < i ==> (#[trigger] fields@[k]).blocks@.len() == 0
                        && fields@[k].block_sizes@.len() == 0,
            decreases FIELDS_NUM - i,
        {
            codecs.push(codec);
            fields.push(FieldMeta { blocks: Vec::new(), block_sizes: Vec::new() });
            i += 1;
        }
        FileMeta { codecs, ref_seqs, fields }
    }

    /// The codec of a column.
    pub fn get_field_codec(&self, field: &Fields) -> (codec: &Codecs)
        requires
            self.wf(),
        ensures
            *codec == self.codecs@[field.ord()],
    {
        &self.codecs[field.index()]
    }

    /// The blocks of a column.
    pub fn view_blocks(&self, field: &Fields) -> (blocks: &Vec<BlockMeta>)
        requires
            self.wf(),
        ensures
            blocks@ == self.blocks_of(*field),
    {
        &self.fields[field.index()].blocks
    }

    /// Name and length of each reference sequence.
    pub fn get_ref_seqs(&self) -> (refs: &Vec<(String, i32)>)
        ensures
            *refs == self.ref_seqs,
    {
        &self.ref_seqs
    }
}

} // verus!
