//! Access to the fields of one alignment record.
//!
//! A record is a byte string laid out as a BAM alignment: a fixed header of
//! 32 bytes, then the read name, the CIGAR operations, the packed sequence,
//! the base qualities and the auxiliary tags. The header holds the lengths
//! from which the place of each later part follows.

use crate::bytes::{le_u16, le_u32, read_u16, read_u32};
use crate::fields::Fields;
use crate::{U16_SIZE, U32_SIZE, U8_SIZE};
use vstd::prelude::*;

verus! {

/// Length of the fixed header of a record.
pub const HEADER_SIZE: usize = 32;

/// Length of the read name that the header announces.
pub open spec fn name_len(b: Seq<u8>) -> int {
    b[8] as int
}

/// Number of CIGAR operations that the header announces.
pub open spec fn cigar_ops(b: Seq<u8>) -> int {
    le_u16(b.subrange(12, 14))
}

/// Number of bases that the header announces.
pub open spec fn seq_len(b: Seq<u8>) -> int {
    le_u32(b.subrange(16, 20))
}

/// Where the part of variable length `f` starts in the record `b`.
pub open spec fn var_field_offset(b: Seq<u8>, f: Fields) -> int {
    match f {
        Fields::RawCigar => 32 + name_len(b),
        Fields::RawSequence => 32 + name_len(b) + 4 * cigar_ops(b),
        Fields::RawQual => 32 + name_len(b) + 4 * cigar_ops(b) + (seq_len(b) + 1) / 2,
        Fields::RawTags => 32 + name_len(b) + 4 * cigar_ops(b) + (seq_len(b) + 1) / 2 + seq_len(
            b,
        ),
        _ => 32,
    }
}

/// Number of bytes of the part of variable length `f` in the record `b`.
/// The tags take what is left of the record.
pub open spec fn var_field_len(b: Seq<u8>, f: Fields) -> int {
    match f {
        Fields::ReadName => name_len(b),
        Fields::RawCigar => 4 * cigar_ops(b),
        Fields::RawSequence => (seq_len(b) + 1) / 2,
        Fields::RawQual => seq_len(b),
        Fields::RawTags => if var_field_offset(b, Fields::RawTags) <= b.len() {
            b.len() - var_field_offset(b, Fields::RawTags)
        } else {
            0
        },
        _ => 0,
    }
}

/// The header announces no more than the record holds.
pub open spec fn well_formed(b: Seq<u8>) -> bool {
    b.len() >= 32 && var_field_offset(b, Fields::RawTags) <= b.len()
}

/// The field is a part of a record; the two columns that exist only as
/// indexes are not.
pub open spec fn in_record(f: Fields) -> bool {
    f != Fields::RawSeqLen && f != Fields::RawTagsLen
}

/// Where the field `f` starts in the record `b`.
pub open spec fn field_offset(b: Seq<u8>, f: Fields) -> int {
    match f {
        Fields::RefID => 0,
        Fields::Pos => 4,
        Fields::LName => 8,
        Fields::Mapq => 9,
        Fields::Bin => 10,
        Fields::NCigar => 12,
        Fields::Flags => 14,
        Fields::SequenceLength => 16,
        Fields::NextRefID => 20,
        Fields::NextPos => 24,
        Fields::TemplateLength => 28,
        _ => var_field_offset(b, f),
    }
}

/// Number of bytes of the field `f` in the record `b`.
pub open spec fn field_len(b: Seq<u8>, f: Fields) -> int {
    match f {
        Fields::LName | Fields::Mapq => 1,
        Fields::Bin | Fields::NCigar | Fields::Flags => 2,
        Fields::RefID | Fields::Pos | Fields::SequenceLength | Fields::NextRefID
        | Fields::NextPos | Fields::TemplateLength => 4,
        _ => var_field_len(b, f),
    }
}

/// The bytes of the field `f` in the record `b`.
pub open spec fn field_bytes(b: Seq<u8>, f: Fields) -> Seq<u8> {
    b.subrange(field_offset(b, f), field_offset(b, f) + field_len(b, f))
}

/// What a header field that holds a length says: the length of the name,
/// the number of bases, the number of CIGAR operations, or the number of
/// bytes of tags.
pub open spec fn len_val(b: Seq<u8>, f: Fields) -> int {
    match f {
        Fields::LName => name_len(b),
        Fields::SequenceLength => seq_len(b),
        Fields::NCigar => cigar_ops(b),
        _ => var_field_len(b, Fields::RawTags),
    }
}

/// The record that stands for "nothing aligned": no reference, no position,
/// the name `*`, no bases.
pub open spec fn default_record() -> Seq<u8> {
    seq![
        0xffu8, 0xff, 0xff, 0xff,
        0xff, 0xff, 0xff, 0xff,
        0x02,
        0xff,
        0x48, 0x12,
        0x00, 0x00,
        0x04, 0x00,
        0x00, 0x00, 0x00, 0x00,
        0xff, 0xff, 0xff, 0xff,
        0xff, 0xff, 0xff, 0xff,
        0x00, 0x00, 0x00, 0x00,
        0x2a, 0x00,
    ]
}

/// In a well-formed record every field lies inside the record, and the
/// parts of variable length follow one another without a gap.
pub proof fn lemma_fields_in_bounds(b: Seq<u8>, f: Fields)
    requires
        well_formed(b),
        in_record(f),
    ensures
        0 <= field_offset(b, f),
        0 <= field_len(b, f),
        field_offset(b, f) + field_len(b, f) <= b.len(),
        field_bytes(b, f).len() == field_len(b, f),
        f.is_variable() && f != Fields::RawTags ==> field_offset(b, f) + field_len(b, f) <= b.len(),
        var_field_offset(b, Fields::RawCigar) == var_field_offset(b, Fields::ReadName)
            + var_field_len(b, Fields::ReadName),
        var_field_offset(b, Fields::RawSequence) == var_field_offset(b, Fields::RawCigar)
            + var_field_len(b, Fields::RawCigar),
        var_field_offset(b, Fields::RawQual) == var_field_offset(b, Fields::RawSequence)
            + var_field_len(b, Fields::RawSequence),
        var_field_offset(b, Fields::RawTags) == var_field_offset(b, Fields::RawQual)
            + var_field_len(b, Fields::RawQual),
        var_field_offset(b, Fields::RawTags) + var_field_len(b, Fields::RawTags) == b.len(),
{
}

/// Provides access to the bytes of one record.
#[derive(Clone, Debug)]
pub struct RawRecord(pub Vec<u8>);

impl View for RawRecord {
    type V = Seq<u8>;

    open spec fn view(&self) -> Seq<u8> {
        self.0@
    }
}

impl RawRecord {
    /// Changes the size of the record: cuts it, or fills it up with zeros.
    pub fn resize(&mut self, new_len: usize)
        ensures
            final(self)@.len() == new_len,
            forall|i: int|
                0 <= i < new_len && i < old(self)@.len() ==> final(self)@[i] == old(self)@[i],
            forall|i: int| old(self)@.len() <= i < new_len ==> final(self)@[i] == 0u8,
    {
        let ghost before = self.0@;
        self.0.resize(new_len, 0u8);
        proof {
            if new_len > before.len() {
                assert forall|i: int| 0 <= i < before.len() implies self.0@[i] == before[i] by {
                    assert(self.0@.subrange(0, before.len() as int)[i] == before[i]);
                }
            }
        }
    }

    /// The `len` bytes that start at `offset`.
    pub fn get_slice(&self, offset: usize, len: usize) -> (out: &[u8])
        requires
            offset + len <= self@.len(),
        ensures
            out@ == self@.subrange(offset as int, offset + len),
    {
        let total: usize = self.0.len();
        assert(offset + len <= total);
        vstd::slice::slice_subrange(self.0.as_slice(), offset, offset + len)
    }

    /// Length of the read name, as the header gives it.
    pub fn l_read_name(&self) -> (n: u8)
        requires
            self@.len() >= 32,
        ensures
            n == name_len(self@),
    {
        self.0[8]
    }

    /// Number of CIGAR operations, as the header gives it.
    pub fn n_cigar_op(&self) -> (n: u16)
        requires
            self@.len() >= 32,
        ensures
            n == cigar_ops(self@),
    {
        read_u16(self.get_slice(12, U16_SIZE))
    }

    /// Number of bases, as the header gives it.
    pub fn l_seq(&self) -> (n: u32)
        requires
            self@.len() >= 32,
        ensures
            n == seq_len(self@),
    {
        read_u32(self.get_slice(16, U32_SIZE))
    }

    /// Whether the lengths in the header fit the length of the record.
    pub fn is_well_formed(&self) -> (ok: bool)
        ensures
            ok == well_formed(self@),
    {
        if self.0.len() < HEADER_SIZE {
            return false;
        }
        let name: u64 = self.l_read_name() as u64;
        let cigar: u64 = 4 * (self.n_cigar_op() as u64);
        let bases: u64 = self.l_seq() as u64;
        let tags_start: u64 = 32 + name + cigar + (bases + 1) / 2 + bases;
        tags_start <= self.0.len() as u64
    }

    /// The value of a header field that holds the length of another part:
    /// `LName`, `SequenceLength`, `NCigar`, or `RawTagsLen` for the number
    /// of bytes of tags.
    pub fn get_len_val(&self, field: &Fields) -> (n: usize)
        requires
            well_formed(self@),
            *field == Fields::LName || *field == Fields::SequenceLength || *field == Fields::NCigar
                || *field == Fields::RawTagsLen,
        ensures
            n == len_val(self@, *field),
    {
        match field {
            Fields::LName => self.l_read_name() as usize,
            Fields::SequenceLength => self.l_seq() as usize,
            Fields::NCigar => self.n_cigar_op() as usize,
            _ => self.0.len() - self.get_offset(&Fields::RawTags),
        }
    }

    /// Number of bytes that a part of variable length takes in this record.
    pub fn get_var_field_len(&self, field: &Fields) -> (n: usize)
        requires
            well_formed(self@),
            field.is_variable(),
        ensures
            n == var_field_len(self@, *field),
    {
        match field {
            Fields::ReadName => self.l_read_name() as usize,
            Fields::RawCigar => U32_SIZE * (self.n_cigar_op() as usize),
            Fields::RawSequence => ((self.l_seq() as u64 + 1) / 2) as usize,
            Fields::RawQual => self.l_seq() as usize,
            _ => self.0.len() - self.get_offset(&Fields::RawTags),
        }
    }

    /// Where a part of variable length starts in this record.
    pub fn get_offset(&self, field: &Fields) -> (offset: usize)
        requires
            well_formed(self@),
            field.is_variable(),
        ensures
            offset == var_field_offset(self@, *field),
            offset <= self@.len(),
    {
        let total: usize = self.0.len();
        let name: usize = self.l_read_name() as usize;
        let cigar: usize = U32_SIZE * (self.n_cigar_op() as usize);
        let packed: usize = ((self.l_seq() as u64 + 1) / 2) as usize;
        let bases: usize = self.l_seq() as usize;
        assert(32 + name + cigar + packed + bases == var_field_offset(self@, Fields::RawTags));
        assert(32 + name + cigar + packed + bases <= total);
        match field {
            Fields::ReadName => HEADER_SIZE,
            Fields::RawCigar => HEADER_SIZE + name,
            Fields::RawSequence => HEADER_SIZE + name + cigar,
            Fields::RawQual => HEADER_SIZE + name + cigar + packed,
            _ => HEADER_SIZE + name + cigar + packed + bases,
        }
    }

    /// The bytes of a field of this record, without copying them.
    pub fn get_bytes(&self, field: &Fields) -> (out: &[u8])
        requires
            well_formed(self@),
            in_record(*field),
        ensures
            out@ == field_bytes(self@, *field),
            out@.len() == field_len(self@, *field),
    {
        proof {
            lemma_fields_in_bounds(self@, *field);
        }
        match field {
            Fields::RefID => self.get_slice(0, U32_SIZE),
            Fields::Pos => self.get_slice(4, U32_SIZE),
            Fields::LName => self.get_slice(8, U8_SIZE),
            Fields::Mapq => self.get_slice(9, U8_SIZE),
            Fields::Bin => self.get_slice(10, U16_SIZE),
            Fields::NCigar => self.get_slice(12, U16_SIZE),
            Fields::Flags => self.get_slice(14, U16_SIZE),
            Fields::SequenceLength => self.get_slice(16, U32_SIZE),
            Fields::NextRefID => self.get_slice(20, U32_SIZE),
            Fields::NextPos => self.get_slice(24, U32_SIZE),
            Fields::TemplateLength => self.get_slice(28, U32_SIZE),
            _ => self.get_slice(self.get_offset(field), self.get_var_field_len(field)),
        }
    }
}

impl From<Vec<u8>> for RawRecord {
    fn from(bytes: Vec<u8>) -> (record: Self) {
        RawRecord(bytes)
    }
}

impl vstd::std_specs::convert::FromSpecImpl<Vec<u8>> for RawRecord {
    open spec fn obeys_from_spec() -> bool {
        true
    }

    open spec fn from_spec(bytes: Vec<u8>) -> Self {
        RawRecord(bytes)
    }
}

/// Whether two byte strings hold the same bytes.
fn same_bytes(a: &[u8], b: &[u8]) -> (same: bool)
    ensures
        same == (a@ == b@),
{
    if a.len() != b.len() {
        return false;
    }
    let mut i: usize = 0;
    while i < a.len()
        invariant
            i <= a@.len(),
            a@.len() == b@.len(),
            forall|k: int| 0 <= k < i ==> a@[k] == b@[k],
        decreases a@.len() - i,
    {
        if a[i] != b[i] {
            return false;
        }
        i += 1;
    }
    assert(a@ =~= b@);
    true
}

impl PartialEq for RawRecord {
    fn eq(&self, other: &Self) -> (same: bool) {
        same_bytes(self.0.as_slice(), other.0.as_slice())
    }
}

impl Eq for RawRecord {

}

impl vstd::std_specs::cmp::PartialEqSpecImpl for RawRecord {
    open spec fn obeys_eq_spec() -> bool {
        true
    }

    open spec fn eq_spec(&self, other: &Self) -> bool {
        self@ == other@
    }
}

impl core::ops::Deref for RawRecord {
    type Target = [u8];

    fn deref(&self) -> (bytes: &[u8])
        ensures
            bytes@ == self@,
    {
        self.0.as_slice()
    }
}

impl core::ops::DerefMut for RawRecord {
    fn deref_mut(&mut self) -> (bytes: &mut [u8])
        ensures
            bytes@ == old(self)@,
            final(self)@ == final(bytes)@,
    {
        self.0.as_mut_slice()
    }
}

impl Default for RawRecord {
    fn default() -> (record: Self)
        ensures
            record@ == default_record(),
            well_formed(record@),
    {
        let bytes: Vec<u8> = vec![
            0xff, 0xff, 0xff, 0xff,
            0xff, 0xff, 0xff, 0xff,
            0x02,
            0xff,
            0x48, 0x12,
            0x00, 0x00,
            0x04, 0x00,
            0x00, 0x00, 0x00, 0x00,
            0xff, 0xff, 0xff, 0xff,
            0xff, 0xff, 0xff, 0xff,
            0x00, 0x00, 0x00, 0x00,
            0x2a, 0x00,
        ];
        proof {
            assert(bytes@ =~= default_record());
            lemma_default_well_formed();
        }
        RawRecord(bytes)
    }
}

/// The default record is well formed: its name has two bytes, and it has
/// neither operations, bases nor tags.
pub proof fn lemma_default_well_formed()
    ensures
        well_formed(default_record()),
        name_len(default_record()) == 2,
        cigar_ops(default_record()) == 0,
        seq_len(default_record()) == 0,
        var_field_len(default_record(), Fields::RawTags) == 0,
{
    let b = default_record();
    assert(b.len() == 34);
    assert(b.subrange(12, 14)[0] == b[12]);
    assert(b.subrange(12, 14)[1] == b[13]);
    assert(b.subrange(16, 20)[0] == b[16]);
    assert(b.subrange(16, 20)[1] == b[17]);
    assert(b.subrange(16, 20)[2] == b[18]);
    assert(b.subrange(16, 20)[3] == b[19]);
}

} // verus!
