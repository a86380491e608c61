//! The field catalog: the columns of the format, their widths, and the
//! index column that accompanies each column of variable width.

use vstd::prelude::*;

verus! {

/// Number of columns in the catalog.
pub const FIELDS_NUM: usize = 18;

/// The columns of the format.
///
/// The first eleven are the fixed header of a record. The next two exist
/// only as index columns. The last five are the parts of variable length.
/// `LName`, `NCigar` and `SequenceLength` play both roles: in a record they
/// are header fields, in a file they are the index columns of `ReadName`,
/// `RawCigar` and `RawQual`.
#[derive(Clone, Copy, Debug, PartialEq, Eq, Hash, Structural)]
pub enum Fields {
    /// Reference sequence id.
    RefID,
    /// Leftmost position on the reference, counted from zero.
    Pos,
    /// Length of the read name, terminator included.
    LName,
    /// Mapping quality.
    Mapq,
    /// Bin of the positional index.
    Bin,
    /// Number of CIGAR operations.
    NCigar,
    /// Bitwise flags.
    Flags,
    /// Number of bases in the read.
    SequenceLength,
    /// Reference id of the mate.
    NextRefID,
    /// Position of the mate.
    NextPos,
    /// Template length.
    TemplateLength,
    /// Index column of the packed sequence.
    RawSeqLen,
    /// Index column of the auxiliary tags.
    RawTagsLen,
    /// Read name.
    ReadName,
    /// Packed CIGAR operations, four bytes each.
    RawCigar,
    /// Packed sequence, two bases in a byte.
    RawSequence,
    /// Base qualities, one byte for a base.
    RawQual,
    /// Auxiliary tags, up to the end of the record.
    RawTags,
}

/// Whether the values of a column all have one width.
#[derive(Clone, Copy, Debug, PartialEq, Eq, Structural)]
pub enum FieldType {
    /// Every value has the same number of bytes.
    FixedSized,
    /// The values differ in length; an index column gives their ends.
    VariableSized,
}

impl Fields {
    /// Position of the column in the catalog.
    pub open spec fn ord(self) -> int {
        match self {
            Fields::RefID => 0,
            Fields::Pos => 1,
            Fields::LName => 2,
            Fields::Mapq => 3,
            Fields::Bin => 4,
            Fields::NCigar => 5,
            Fields::Flags => 6,
            Fields::SequenceLength => 7,
            Fields::NextRefID => 8,
            Fields::NextPos => 9,
            Fields::TemplateLength => 10,
            Fields::RawSeqLen => 11,
            Fields::RawTagsLen => 12,
            Fields::ReadName => 13,
            Fields::RawCigar => 14,
            Fields::RawSequence => 15,
            Fields::RawQual => 16,
            Fields::RawTags => 17,
        }
    }

    /// The column at a position of the catalog; `RawTags` past its end.
    pub open spec fn at(i: int) -> Fields {
        if i == 0 {
            Fields::RefID
        } else if i == 1 {
            Fields::Pos
        } else if i == 2 {
            Fields::LName
        } else if i == 3 {
            Fields::Mapq
        } else if i == 4 {
            Fields::Bin
        } else if i == 5 {
            Fields::NCigar
        } else if i == 6 {
            Fields::Flags
        } else if i == 7 {
            Fields::SequenceLength
        } else if i == 8 {
            Fields::NextRefID
        } else if i == 9 {
            Fields::NextPos
        } else if i == 10 {
            Fields::TemplateLength
        } else if i == 11 {
            Fields::RawSeqLen
        } else if i == 12 {
            Fields::RawTagsLen
        } else if i == 13 {
            Fields::ReadName
        } else if i == 14 {
            Fields::RawCigar
        } else if i == 15 {
            Fields::RawSequence
        } else if i == 16 {
            Fields::RawQual
        } else {
            Fields::RawTags
        }
    }

    /// The column holds values of variable length.
    pub open spec fn is_variable(self) -> bool {
        self == Fields::ReadName || self == Fields::RawCigar || self == Fields::RawSequence
            || self == Fields::RawQual || self == Fields::RawTags
    }

    /// The column only holds the ends of the values of another column.
    pub open spec fn is_index(self) -> bool {
        self == Fields::LName || self == Fields::NCigar || self == Fields::SequenceLength
            || self == Fields::RawSeqLen || self == Fields::RawTagsLen
    }

    /// The column is filled from the bytes of the records themselves.
    pub open spec fn is_data(self) -> bool {
        !self.is_index()
    }

    /// The index column of a column of variable width; the column itself
    /// where it has none.
    pub open spec fn index_field(self) -> Fields {
        match self {
            Fields::ReadName => Fields::LName,
            Fields::RawCigar => Fields::NCigar,
            Fields::RawSequence => Fields::RawSeqLen,
            Fields::RawQual => Fields::SequenceLength,
            Fields::RawTags => Fields::RawTagsLen,
            _ => self,
        }
    }

    /// The column of variable width whose ends an index column holds; the
    /// column itself where it is no index column.
    pub open spec fn indexed_field(self) -> Fields {
        match self {
            Fields::LName => Fields::ReadName,
            Fields::NCigar => Fields::RawCigar,
            Fields::RawSeqLen => Fields::RawSequence,
            Fields::SequenceLength => Fields::RawQual,
            Fields::RawTagsLen => Fields::RawTags,
            _ => self,
        }
    }

    /// Width in bytes of one value of the column in a file; zero for a
    /// column of variable width.
    pub open spec fn item_width(self) -> int {
        match self {
            Fields::Mapq => 1,
            Fields::Bin | Fields::Flags => 2,
            Fields::ReadName | Fields::RawCigar | Fields::RawSequence | Fields::RawQual
            | Fields::RawTags => 0,
            _ => 4,
        }
    }

    /// Position of the column in the catalog.
    pub fn index(&self) -> (i: usize)
        ensures
            i == self.ord(),
            i < FIELDS_NUM,
    {
        match self {
            Fields::RefID => 0,
            Fields::Pos => 1,
            Fields::LName => 2,
            Fields::Mapq => 3,
            Fields::Bin => 4,
            Fields::NCigar => 5,
            Fields::Flags => 6,
            Fields::SequenceLength => 7,
            Fields::NextRefID => 8,
            Fields::NextPos => 9,
            Fields::TemplateLength => 10,
            Fields::RawSeqLen => 11,
            Fields::RawTagsLen => 12,
            Fields::ReadName => 13,
            Fields::RawCigar => 14,
            Fields::RawSequence => 15,
            Fields::RawQual => 16,
            Fields::RawTags => 17,
        }
    }

    /// The column at a position of the catalog, if there is one.
    pub fn from_index(i: usize) -> (field: Option<Fields>)
        ensures
            i < FIELDS_NUM <==> field is Some,
            field matches Some(f) ==> f == Fields::at(i as int) && f.ord() == i,
    {
        if i >= FIELDS_NUM {
            None
        } else if i == 0 {
            Some(Fields::RefID)
        } else if i == 1 {
            Some(Fields::Pos)
        } else if i == 2 {
            Some(Fields::LName)
        } else if i == 3 {
            Some(Fields::Mapq)
        } else if i == 4 {
            Some(Fields::Bin)
        } else if i == 5 {
            Some(Fields::NCigar)
        } else if i == 6 {
            Some(Fields::Flags)
        } else if i == 7 {
            Some(Fields::SequenceLength)
        } else if i == 8 {
            Some(Fields::NextRefID)
        } else if i == 9 {
            Some(Fields::NextPos)
        } else if i == 10 {
            Some(Fields::TemplateLength)
        } else if i == 11 {
            Some(Fields::RawSeqLen)
        } else if i == 12 {
            Some(Fields::RawTagsLen)
        } else if i == 13 {
            Some(Fields::ReadName)
        } else if i == 14 {
            Some(Fields::RawCigar)
        } else if i == 15 {
            Some(Fields::RawSequence)
        } else if i == 16 {
            Some(Fields::RawQual)
        } else {
            Some(Fields::RawTags)
        }
    }
}

/// Tells columns of fixed width from columns of variable width.
pub fn field_type(field: &Fields) -> (t: FieldType)
    ensures
        t == FieldType::VariableSized <==> field.is_variable(),
        t == FieldType::FixedSized <==> !field.is_variable(),
{
    match field {
        Fields::ReadName | Fields::RawCigar | Fields::RawSequence | Fields::RawQual
        | Fields::RawTags => FieldType::VariableSized,
        _ => FieldType::FixedSized,
    }
}

/// Whether the column carries bytes of the records, as opposed to the
/// offsets that an index column carries.
pub fn is_data_field(field: &Fields) -> (b: bool)
    ensures
        b == field.is_data(),
{
    match field {
        Fields::LName | Fields::NCigar | Fields::SequenceLength | Fields::RawSeqLen
        | Fields::RawTagsLen => false,
        _ => true,
    }
}

/// The index column that accompanies a column of variable width.
pub fn var_size_field_to_index(field: &Fields) -> (index: Fields)
    requires
        field.is_variable(),
    ensures
        index == field.index_field(),
        index.is_index(),
        index.item_width() == 4,
{
    match field {
        Fields::ReadName => Fields::LName,
        Fields::RawCigar => Fields::NCigar,
        Fields::RawSequence => Fields::RawSeqLen,
        Fields::RawQual => Fields::SequenceLength,
        _ => Fields::RawTagsLen,
    }
}

/// Width in bytes of one value of a column of fixed width, and `None` for
/// a column of variable width.
pub fn field_item_size(field: &Fields) -> (size: Option<usize>)
    ensures
        field.is_variable() <==> size is None,
        size matches Some(w) ==> w == field.item_width() && 1 <= w <= 4,
{
    match field {
        Fields::Mapq => Some(1),
        Fields::Bin | Fields::Flags => Some(2),
        Fields::ReadName | Fields::RawCigar | Fields::RawSequence | Fields::RawQual
        | Fields::RawTags => None,
        _ => Some(4),
    }
}

/// The catalog orders the columns: two columns at one position are one
/// column, and every position below `FIELDS_NUM` holds the column that
/// reports it.
pub proof fn lemma_catalog_positions(f: Fields, g: Fields)
    ensures
        0 <= f.ord() < FIELDS_NUM,
        Fields::at(f.ord()) == f,
        f.ord() == g.ord() ==> f == g,
{
}

} // verus!
