//! Reading values back from the blocks of a column.
//!
//! A value is found by its number among the values of the column: the
//! counts of the blocks give the block and the place in it. A value of
//! fixed width lies at its place times the width. A value of variable
//! width ends where its entry in the index column says, and starts where
//! the value before it ends, or at the start of the block.

use crate::bytes::{le_u32, read_u32};
use crate::fields::{field_item_size, is_data_field, var_size_field_to_index, Fields, FIELDS_NUM};
use crate::meta::{opt_bytes, BlockMeta, FileMeta};
use vstd::prelude::*;

verus! {

/// The counts of values of the blocks of a column.
pub open spec fn counts_of(blocks: Seq<BlockMeta>) -> Seq<nat> {
    blocks.map_values(|b: BlockMeta| b.numitems as nat)
}

/// The bytes of the blocks of a column.
pub open spec fn bytes_of(data: Seq<Vec<u8>>) -> Seq<Seq<u8>> {
    data.map_values(|d: Vec<u8>| d@)
}

/// Number of values in the blocks before block `j`.
pub open spec fn count_before(counts: Seq<nat>, j: int) -> int
    decreases j,
{
    if j <= 0 {
        0
    } else {
        count_before(counts, j - 1) + counts[j - 1]
    }
}

/// Value `i` of the column is value `k` of block `j`.
pub open spec fn located(counts: Seq<nat>, i: int, j: int, k: int) -> bool {
    0 <= j < counts.len() && 0 <= k < counts[j] && count_before(counts, j) + k == i
}

/// The block and the place in it of value `i`, counted from block `j`
/// on: the first block that has more values than are left to skip.
pub open spec fn find_from(counts: Seq<nat>, j: int, i: int) -> Option<(int, int)>
    decreases counts.len() - j,
{
    if j < 0 || j >= counts.len() {
        None
    } else if i < counts[j] {
        Some((j, i))
    } else {
        find_from(counts, j + 1, i - counts[j])
    }
}

/// The block and the place in it of value `i` of a column; `None` where the
/// column has no such value.
pub open spec fn find(counts: Seq<nat>, i: int) -> Option<(int, int)> {
    find_from(counts, 0, i)
}

/// Value `i` of a column of fixed width `w`; `None` where the column has no
/// such value or its block is not there in full.
pub open spec fn fixed_value(counts: Seq<nat>, data: Seq<Seq<u8>>, i: int, w: int) -> Option<
    Seq<u8>,
> {
    match find(counts, i) {
        Some((j, k)) => if j < data.len() && (k + 1) * w <= data[j].len() {
            Some(data[j].subrange(k * w, (k + 1) * w))
        } else {
            None
        },
        None => None,
    }
}

/// Entry `i` of an index column: an offset of four bytes.
pub open spec fn index_value(counts: Seq<nat>, data: Seq<Seq<u8>>, i: int) -> Option<int> {
    match fixed_value(counts, data, i, 4) {
        Some(bytes) => Some(le_u32(bytes)),
        None => None,
    }
}

/// Where value `i` of a column of variable width starts in its block, given
/// its place `k` in the block: at the start of the block, or where the
/// value before it ends.
pub open spec fn start_of(xcounts: Seq<nat>, xdata: Seq<Seq<u8>>, i: int, k: int) -> Option<int> {
    if k == 0 {
        Some(0)
    } else {
        index_value(xcounts, xdata, i - 1)
    }
}

/// Value `i` of a column of variable width, whose index column has the
/// counts `xcounts` and the bytes `xdata`; `None` where a block that is
/// needed is not there, or the offsets do not fit the block.
pub open spec fn variable_value(
    counts: Seq<nat>,
    data: Seq<Seq<u8>>,
    xcounts: Seq<nat>,
    xdata: Seq<Seq<u8>>,
    i: int,
) -> Option<Seq<u8>> {
    match find(counts, i) {
        Some((j, k)) => match (start_of(xcounts, xdata, i, k), index_value(xcounts, xdata, i)) {
            (Some(start), Some(end)) => if j < data.len() && start <= end <= data[j].len() {
                Some(data[j].subrange(start, end))
            } else {
                None
            },
            _ => None,
        },
        None => None,
    }
}

/// A value that lies in block `j` at place `k` is found there, and nowhere
/// else.
pub proof fn lemma_find_located(counts: Seq<nat>, i: int, j: int, k: int)
    requires
        located(counts, i, j, k),
    ensures
        find(counts, i) == Some((j, k)),
{
    lemma_find_from(counts, i, j, k, 0);
}

/// Searching from a block at or before the one that holds the value finds
/// the value.
proof fn lemma_find_from(counts: Seq<nat>, i: int, j: int, k: int, t: int)
    requires
        located(counts, i, j, k),
        0 <= t <= j,
    ensures
        find_from(counts, t, i - count_before(counts, t)) == Some((j, k)),
    decreases j - t,
{
    if t < j {
        lemma_count_before_grows(counts, t + 1, j);
        lemma_find_from(counts, i, j, k, t + 1);
    }
}

/// A value of fixed width that was read has that width.
pub proof fn lemma_fixed_value_len(counts: Seq<nat>, data: Seq<Seq<u8>>, i: int, w: int)
    requires
        0 <= i,
        0 <= w,
    ensures
        fixed_value(counts, data, i, w) matches Some(bytes) ==> bytes.len() == w,
{
    match find(counts, i) {
        Some((j, k)) => {
            lemma_find_bounds(counts, 0, i);
            assert((k + 1) * w == k * w + w && 0 <= k * w) by (nonlinear_arith)
                requires
                    0 <= k,
                    0 <= w,
            ;
        },
        None => {},
    }
}

/// A value of variable width that was read is no longer than an offset of
/// four bytes can say.
pub proof fn lemma_variable_value_len(
    counts: Seq<nat>,
    data: Seq<Seq<u8>>,
    xcounts: Seq<nat>,
    xdata: Seq<Seq<u8>>,
    i: int,
)
    requires
        0 <= i,
    ensures
        variable_value(counts, data, xcounts, xdata, i) matches Some(bytes) ==> bytes.len()
            <= u32::MAX,
{
    lemma_find_bounds(counts, 0, i);
    lemma_fixed_value_len(xcounts, xdata, i, 4);
    if i > 0 {
        lemma_fixed_value_len(xcounts, xdata, i - 1, 4);
    }
}

/// What a search finds is a block of the column and a place in it.
pub proof fn lemma_find_bounds(counts: Seq<nat>, t: int, i: int)
    requires
        0 <= t,
        0 <= i,
    ensures
        find_from(counts, t, i) matches Some((j, k)) ==> t <= j < counts.len() && 0 <= k
            < counts[j] && k <= i,
    decreases counts.len() - t,
{
    if t < counts.len() && i >= counts[t] {
        lemma_find_bounds(counts, t + 1, i - counts[t]);
    }
}

/// The count of the values before a block grows with the block.
pub proof fn lemma_count_before_grows(counts: Seq<nat>, a: int, b: int)
    requires
        0 <= a <= b,
    ensures
        0 <= count_before(counts, a) <= count_before(counts, b),
    decreases b,
{
    if a < b {
        lemma_count_before_grows(counts, a, b - 1);
    } else if a > 0 {
        lemma_count_before_grows(counts, a - 1, a - 1);
    }
}

/// Finds the block of value `index` and the place of the value in it.
pub fn locate(blocks: &Vec<BlockMeta>, index: usize) -> (place: Option<(usize, usize)>)
    ensures
        match place {
            Some((j, k)) => {
                &&& find(counts_of(blocks@), index as int) == Some((j as int, k as int))
                &&& j < blocks@.len()
                &&& k < blocks@[j as int].numitems
                &&& k <= index
            },
            None => find(counts_of(blocks@), index as int) is None,
        },
{
    let ghost counts = counts_of(blocks@);
    let mut left: usize = index;
    let mut j: usize = 0;
    while j < blocks.len()
        invariant
            j <= blocks@.len(),
            left <= index,
            counts == counts_of(blocks@),
            find(counts, index as int) == find_from(counts, j as int, left as int),
        decreases blocks@.len() - j,
    {
        let n: usize = blocks[j].numitems as usize;
        assert(counts[j as int] == n);
        if left < n {
            return Some((j, left));
        }
        left = left - n;
        j += 1;
    }
    None
}

/// Reads value `index` of a column of fixed width `width` from the blocks
/// of the column.
pub fn read_fixed<'a>(
    blocks: &Vec<BlockMeta>,
    data: &'a Vec<Vec<u8>>,
    index: usize,
    width: usize,
) -> (value: Option<&'a [u8]>)
    ensures
        match value {
            Some(bytes) => fixed_value(
                counts_of(blocks@),
                bytes_of(data@),
                index as int,
                width as int,
            ) == Some(bytes@),
            None => fixed_value(counts_of(blocks@), bytes_of(data@), index as int, width as int)
                is None,
        },
{
    match locate(blocks, index) {
        Some((j, k)) => {
            if j >= data.len() {
                return None;
            }
            let block = data[j].as_slice();
            assert(bytes_of(data@)[j as int] == block@);
            let next: usize = k + 1;
            proof {
                let kk: int = k as int;
                let w: int = width as int;
                assert((kk + 1) * w == next * width && kk * w == next * width - width && 0 <= kk
                    * w) by (nonlinear_arith)
                    requires
                        next == kk + 1,
                        w == width,
                        0 <= kk,
                        0 <= w,
                ;
            }
            let size: usize = block.len();
            match next.checked_mul(width) {
                Some(end) => {
                    if end > size {
                        return None;
                    }
                    Some(vstd::slice::slice_subrange(block, end - width, end))
                },
                None => None,
            }
        },
        None => None,
    }
}

/// Reads entry `index` of an index column.
pub fn read_index(blocks: &Vec<BlockMeta>, data: &Vec<Vec<u8>>, index: usize) -> (value: Option<
    u32,
>)
    ensures
        match value {
            Some(end) => index_value(counts_of(blocks@), bytes_of(data@), index as int) == Some(
                end as int,
            ),
            None => index_value(counts_of(blocks@), bytes_of(data@), index as int) is None,
        },
{
    match read_fixed(blocks, data, index, 4) {
        Some(bytes) => {
            proof {
                lemma_fixed_value_len(counts_of(blocks@), bytes_of(data@), index as int, 4);
            }
            Some(read_u32(bytes))
        },
        None => None,
    }
}

/// Reads value `index` of a column of variable width. The end of the value
/// comes from its entry in the index column, its start from the entry
/// before, unless the value is the first of its block.
pub fn read_variable<'a>(
    blocks: &Vec<BlockMeta>,
    data: &'a Vec<Vec<u8>>,
    index_blocks: &Vec<BlockMeta>,
    index_data: &Vec<Vec<u8>>,
    index: usize,
) -> (value: Option<&'a [u8]>)
    ensures
        match value {
            Some(bytes) => variable_value(
                counts_of(blocks@),
                bytes_of(data@),
                counts_of(index_blocks@),
                bytes_of(index_data@),
                index as int,
            ) == Some(bytes@),
            None => variable_value(
                counts_of(blocks@),
                bytes_of(data@),
                counts_of(index_blocks@),
                bytes_of(index_data@),
                index as int,
            ) is None,
        },
{
    match locate(blocks, index) {
        Some((j, k)) => {
            let start: usize = if k == 0 {
                0
            } else {
                match read_index(index_blocks, index_data, index - 1) {
                    Some(s) => s as usize,
                    None => {
                        return None;
                    },
                }
            };
            let end: usize = match read_index(index_blocks, index_data, index) {
                Some(e) => e as usize,
                None => {
                    return None;
                },
            };
            if j >= data.len() {
                return None;
            }
            let block = data[j].as_slice();
            assert(bytes_of(data@)[j as int] == block@);
            if start > end || end > block.len() {
                return None;
            }
            Some(vstd::slice::slice_subrange(block, start, end))
        },
        None => None,
    }
}

/// Which fields a reader brings back of each record.
#[derive(Debug)]
pub struct ParsingTemplate {
    /// For each position of the catalog, whether its field is asked for.
    pub active: Vec<bool>,
}

impl ParsingTemplate {
    /// The template has an entry for each field of the catalog.
    pub open spec fn wf(&self) -> bool {
        self.active@.len() == FIELDS_NUM
    }

    /// The template asks for the field.
    pub open spec fn is_active(&self, f: Fields) -> bool {
        self.active@[f.ord()]
    }

    /// A template that asks for no field.
    pub fn new() -> (template: Self)
        ensures
            template.wf(),
            forall|i: int| 0 <= i < FIELDS_NUM ==> !template.active@[i],
    {
        let mut active: Vec<bool> = Vec::new();
        let mut i: usize = 0;
        while i < FIELDS_NUM
            invariant
                i <= FIELDS_NUM,
                active@.len() == i,
                forall|k: int| 0 <= k < i ==> !active@[k],
            decreases FIELDS_NUM - i,
        {
            active.push(false);
            i += 1;
        }
        ParsingTemplate { active }
    }

    /// A template that asks for the fields of the list, and for no other.
    pub fn new_with(fields: &[Fields]) -> (template: Self)
        ensures
            template.wf(),
            forall|i: int|
                0 <= i < FIELDS_NUM ==> (template.active@[i] <==> exists|k: int|
                    0 <= k < fields@.len() && (#[trigger] fields@[k]).ord() == i),
    {
        let mut template = ParsingTemplate::new();
        let mut n: usize = 0;
        while n < fields.len()
            invariant
                n <= fields@.len(),
                template.wf(),
                forall|i: int|
                    0 <= i < FIELDS_NUM ==> (template.active@[i] <==> exists|k: int|
                        0 <= k < n && (#[trigger] fields@[k]).ord() == i),
            decreases fields@.len() - n,
        {
            let ghost before = template.active@;
            let idx: usize = fields[n].index();
            template.active[idx] = true;
            proof {
                assert forall|i: int| 0 <= i < FIELDS_NUM implies (template.active@[i]
                    <==> exists|k: int| 0 <= k < n + 1 && (#[trigger] fields@[k]).ord() == i) by {
                    if i == idx {
                        assert(fields@[n as int].ord() == i);
                    } else if before[i] {
                        let k = choose|k: int| 0 <= k < n && (#[trigger] fields@[k]).ord() == i;
                        assert(fields@[k].ord() == i);
                    }
                }
            }
            n += 1;
        }
        template
    }

    /// Asks for every field.
    pub fn set_all(&mut self)
        ensures
            final(self).wf(),
            forall|i: int| 0 <= i < FIELDS_NUM ==> final(self).active@[i],
    {
        let mut active: Vec<bool> = Vec::new();
        let mut i: usize = 0;
        while i < FIELDS_NUM
            invariant
                i <= FIELDS_NUM,
                active@.len() == i,
                forall|k: int| 0 <= k < i ==> active@[k],
            decreases FIELDS_NUM - i,
        {
            active.push(true);
            i += 1;
        }
        self.active = active;
    }
}

/// One record as a reader brings it back: for each field that was asked
/// for, its bytes.
#[derive(Debug)]
pub struct GbamRecord {
    /// For each position of the catalog, the bytes of its field, where the
    /// field was asked for.
    pub fields: Vec<Option<Vec<u8>>>,
}

impl GbamRecord {
    /// The record has an entry for each field of the catalog.
    pub open spec fn wf(&self) -> bool {
        self.fields@.len() == FIELDS_NUM
    }

    /// The bytes of a field, where the record has them.
    pub open spec fn field(&self, f: Fields) -> Option<Seq<u8>> {
        opt_bytes(self.fields@[f.ord()])
    }

    /// The bytes of a field, where the record has them.
    pub fn get(&self, field: &Fields) -> (bytes: Option<&[u8]>)
        requires
            self.wf(),
        ensures
            match bytes {
                Some(b) => self.field(*field) == Some(b@),
                None => self.field(*field) is None,
            },
    {
        match &self.fields[field.index()] {
            Some(b) => Some(b.as_slice()),
            None => None,
        }
    }
}

impl Default for GbamRecord {
    fn default() -> (record: Self)
        ensures
            record.wf(),
            forall|i: int| 0 <= i < FIELDS_NUM ==> record.fields@[i] is None,
    {
        let mut fields: Vec<Option<Vec<u8>>> = Vec::new();
        let mut i: usize = 0;
        while i < FIELDS_NUM
            invariant
                i <= FIELDS_NUM,
                fields@.len() == i,
                forall|k: int| 0 <= k < i ==> fields@[k] is None,
            decreases FIELDS_NUM - i,
        {
            fields.push(None);
            i += 1;
        }
        GbamRecord { fields }
    }
}

/// Reads records from the blocks of a file. The blocks are handed to the
/// reader after they were fetched and decompressed; a block that was not
/// handed over is empty to the reader, and a value in it cannot be read.
#[derive(Debug)]
pub struct Reader {
    /// The metadata of the file.
    pub file_meta: FileMeta,
    /// The fields that `fill_record` brings back.
    pub parsing_template: ParsingTemplate,
    /// The decompressed blocks: for each position of the catalog, by the
    /// number of the block.
    pub data: Vec<Vec<Vec<u8>>>,
    /// Number of records in the file.
    pub amount: usize,
}

impl Reader {
    /// The reader has its metadata and a list of blocks for each field,
    /// and it knows the number of records: the count of the values of the
    /// column of reference ids.
    pub open spec fn wf(&self) -> bool {
        &&& self.file_meta.wf()
        &&& self.parsing_template.wf()
        &&& self.data@.len() == FIELDS_NUM
        &&& self.amount == count_before(
            counts_of(self.file_meta.blocks_of(Fields::RefID)),
            self.file_meta.blocks_of(Fields::RefID).len() as int,
        )
    }

    /// The counts of the blocks of a field.
    pub open spec fn counts(&self, f: Fields) -> Seq<nat> {
        counts_of(self.file_meta.blocks_of(f))
    }

    /// The bytes of the blocks of a field, as far as they were handed over.
    pub open spec fn bytes(&self, f: Fields) -> Seq<Seq<u8>> {
        bytes_of(self.data@[f.ord()]@)
    }

    /// The bytes of field `f` of record `i`, where they can be read.
    pub open spec fn value(&self, f: Fields, i: int) -> Option<Seq<u8>> {
        if f.is_variable() {
            variable_value(
                self.counts(f),
                self.bytes(f),
                self.counts(f.index_field()),
                self.bytes(f.index_field()),
                i,
            )
        } else {
            fixed_value(self.counts(f), self.bytes(f), i, f.item_width())
        }
    }

    /// What `fill_record` brings back of field `f` of record `i`: its
    /// bytes where the field is a data field that the template asks for.
    pub open spec fn wanted(&self, f: Fields) -> bool {
        self.parsing_template.is_active(f) && f.is_data()
    }

    /// A reader over the file with the given metadata, with no block
    /// handed over yet. There is none where the metadata lacks a field, or
    /// where the number of records is too large to count.
    pub fn new_with_meta(parsing_template: ParsingTemplate, file_meta: FileMeta) -> (reader: Option<
        Reader,
    >)
        requires
            parsing_template.wf(),
        ensures
            reader is Some <==> file_meta.wf() && count_before(
                counts_of(file_meta.blocks_of(Fields::RefID)),
                file_meta.blocks_of(Fields::RefID).len() as int,
            ) <= usize::MAX,
            reader matches Some(r) ==> {
                &&& r.wf()
                &&& r.file_meta == file_meta
                &&& r.parsing_template == parsing_template
                &&& forall|i: int| 0 <= i < FIELDS_NUM ==> (#[trigger] r.data@[i])@.len() == 0
            },
    {
        if file_meta.codecs.len() != FIELDS_NUM || file_meta.fields.len() != FIELDS_NUM {
            return None;
        }
        let amount = match total_items(file_meta.view_blocks(&Fields::RefID)) {
            Some(n) => n,
            None => {
                return None;
            },
        };
        let mut data: Vec<Vec<Vec<u8>>> = Vec::new();
        let mut i: usize = 0;
        while i < FIELDS_NUM
            invariant
                i <= FIELDS_NUM,
                data@.len() == i,
                forall|k: int| 0 <= k < i ==> (#[trigger] data@[k])@.len() == 0,
            decreases FIELDS_NUM - i,
        {
            data.push(Vec::new());
            i += 1;
        }
        Some(Reader { file_meta, parsing_template, data, amount })
    }

    /// Hands the decompressed bytes of block `block` of `field` to the
    /// reader.
    pub fn load_block(&mut self, field: &Fields, block: usize, bytes: Vec<u8>)
        requires
            old(self).wf(),
            block < usize::MAX,
        ensures
            final(self).wf(),
            final(self).file_meta == old(self).file_meta,
            final(self).parsing_template == old(self).parsing_template,
            final(self).amount == old(self).amount,
            forall|i: int|
                0 <= i < FIELDS_NUM && i != field.ord() ==> final(self).data@[i] == old(self).data@[i],
            final(self).data@[field.ord()]@.len() >= old(self).data@[field.ord()]@.len(),
            final(self).data@[field.ord()]@.len() > block,
            final(self).data@[field.ord()]@[block as int] == bytes,
            forall|j: int|
                0 <= j < old(self).data@[field.ord()]@.len() && j != block ==> final(self).data@[field.ord()]@[j] == old(self).data@[field.ord()]@[j],
            forall|j: int|
                old(self).data@[field.ord()]@.len() <= j < final(self).data@[field.ord()]@.len()
                    && j != block ==> (#[trigger] final(self).data@[field.ord()]@[j])@.len() == 0,
    {
        let idx: usize = field.index();
        let mut column: Vec<Vec<u8>> = Vec::new();
        core::mem::swap(&mut column, &mut self.data[idx]);
        let ghost before = column@;
        while column.len() <= block
            invariant
                block < usize::MAX,
                before.len() <= column@.len(),
                column@.len() <= block + 1 || column@.len() == before.len(),
                forall|j: int| 0 <= j < before.len() ==> column@[j] == before[j],
                forall|j: int| before.len() <= j < column@.len() ==> (#[trigger] column@[j])@.len()
                    == 0,
            decreases block + 1 - column@.len(),
        {
            column.push(Vec::new());
        }
        column[block] = bytes;
        core::mem::swap(&mut column, &mut self.data[idx]);
    }

    /// Reads field `field` of record `rec_num`.
    pub fn read_field<'a>(&'a self, field: &Fields, rec_num: usize) -> (value: Option<&'a [u8]>)
        requires
            self.wf(),
        ensures
            match value {
                Some(bytes) => self.value(*field, rec_num as int) == Some(bytes@),
                None => self.value(*field, rec_num as int) is None,
            },
    {
        let idx: usize = field.index();
        match field_item_size(field) {
            Some(width) => read_fixed(
                &self.file_meta.fields[idx].blocks,
                &self.data[idx],
                rec_num,
                width,
            ),
            None => {
                let x: usize = var_size_field_to_index(field).index();
                read_variable(
                    &self.file_meta.fields[idx].blocks,
                    &self.data[idx],
                    &self.file_meta.fields[x].blocks,
                    &self.data[x],
                    rec_num,
                )
            },
        }
    }

    /// Brings back record `rec_num`: the bytes of each data field that the
    /// template asks for, and nothing of the other fields. The result says
    /// whether every field asked for could be read; where it could not,
    /// `rec` holds nothing to rely on.
    pub fn fill_record(&self, rec_num: usize, rec: &mut GbamRecord) -> (ok: bool)
        requires
            self.wf(),
        ensures
            final(rec).wf(),
            ok <==> forall|f: Fields|
                self.wanted(f) ==> (#[trigger] self.value(f, rec_num as int)) is Some,
            ok ==> forall|f: Fields|
                #[trigger] final(rec).field(f) == if self.wanted(f) {
                    self.value(f, rec_num as int)
                } else {
                    None
                },
    {
        let mut fields: Vec<Option<Vec<u8>>> = Vec::new();
        let mut ok: bool = true;
        let mut i: usize = 0;
        while i < FIELDS_NUM
            invariant
                i <= FIELDS_NUM,
                self.wf(),
                fields@.len() == i,
                ok <==> forall|k: int|
                    0 <= k < i && self.wanted(Fields::at(k)) ==> (#[trigger] self.value(
                        Fields::at(k),
                        rec_num as int,
                    )) is Some,
                ok ==> forall|k: int|
                    0 <= k < i ==> opt_bytes(#[trigger] fields@[k]) == if self.wanted(
                        Fields::at(k),
                    ) {
                        self.value(Fields::at(k), rec_num as int)
                    } else {
                        None
                    },
            decreases FIELDS_NUM - i,
        {
            let field = match Fields::from_index(i) {
                Some(field) => field,
                None => Fields::RawTags,
            };
            let ghost was_ok = ok;
            let ghost had = fields@;
            if self.parsing_template.active[i] && is_data_field(&field) {
                match self.read_field(&field, rec_num) {
                    Some(bytes) => {
                        fields.push(Some(vstd::slice::slice_to_vec(bytes)));
                    },
                    None => {
                        fields.push(None);
                        ok = false;
                    },
                }
            } else {
                fields.push(None);
            }
            proof {
                assert forall|k: int| 0 <= k < i implies fields@[k] == had[k] by {}
                if was_ok && !ok {
                    assert(self.wanted(Fields::at(i as int)));
                    assert(self.value(Fields::at(i as int), rec_num as int) is None);
                }
            }
            i += 1;
        }
        rec.fields = fields;
        proof {
            assert forall|f: Fields| self.wanted(f) && ok implies (#[trigger] self.value(
                f,
                rec_num as int,
            )) is Some by {
                crate::fields::lemma_catalog_positions(f, f);
            }
            if !ok {
                let k = choose|k: int|
                    0 <= k < FIELDS_NUM && self.wanted(Fields::at(k)) && !((#[trigger] self.value(
                        Fields::at(k),
                        rec_num as int,
                    )) is Some);
                assert(self.wanted(Fields::at(k)) && self.value(Fields::at(k), rec_num as int)
                    is None);
            }
            if ok {
                assert forall|f: Fields| #[trigger]
                    rec.field(f) == if self.wanted(f) {
                        self.value(f, rec_num as int)
                    } else {
                        None
                    } by {
                    crate::fields::lemma_catalog_positions(f, f);
                }
            }
        }
        ok
    }
}

/// The number of values of a column, where it can be counted.
pub fn total_items(blocks: &Vec<BlockMeta>) -> (total: Option<usize>)
    ensures
        match total {
            Some(n) => n == count_before(counts_of(blocks@), blocks@.len() as int),
            None => count_before(counts_of(blocks@), blocks@.len() as int) > usize::MAX,
        },
{
    let ghost counts = counts_of(blocks@);
    let mut total: usize = 0;
    let mut j: usize = 0;
    while j < blocks.len()
        invariant
            j <= blocks@.len(),
            counts == counts_of(blocks@),
            total == count_before(counts, j as int),
        decreases blocks@.len() - j,
    {
        let n: usize = blocks[j].numitems as usize;
        assert(counts[j as int] == n);
        if n > usize::MAX - total {
            proof {
                lemma_count_before_grows(counts, j + 1, blocks@.len() as int);
            }
            return None;
        }
        total = total + n;
        j += 1;
    }
    Some(total)
}

} // verus!
