//! The columnar writer.
//!
//! The writer splits each record into its fields and gathers the values of
//! each field in the open block of its column. A block that is closed
//! leaves the writer as a task for compression. The compressed block comes
//! back to be placed in the file, and the writer notes in the metadata
//! where it was placed. Compression and the file itself are the caller's
//! business: the writer decides what is written where.

use crate::block::{
    closes, column_flush, column_push, empty_block, empty_column, open_after, BlockView,
    ColumnView,
};
use crate::bytes::{i32_le_bytes, read_i32, u32_le_bytes, write_i32, write_u32};
use crate::fields::{
    field_type, is_data_field, var_size_field_to_index, FieldType, Fields, FIELDS_NUM,
};
use crate::meta::{
    append, calc_crc_for_meta_bytes, crc32_of, file_info_bytes, opt_bytes, BlockMeta, Codecs,
    FieldMeta, FileInfo, FileMeta, FILE_INFO_SIZE,
};
use crate::record::{field_bytes, well_formed, RawRecord};
use crate::SIZE_LIMIT;
use vstd::prelude::*;

verus! {

/// A closed block on its way to or from compression. On the way there
/// `buf` holds the bytes of the block; on the way back, what the codec
/// made of them.
#[derive(Debug)]
pub struct CompressTask {
    /// Position of the block among the blocks of its column.
    pub ordering_key: usize,
    /// The column of the block.
    pub field: Fields,
    /// Number of values in the block.
    pub num_items: u32,
    /// Number of bytes of the block before compression.
    pub uncompr_size: usize,
    /// The bytes of the block.
    pub buf: Vec<u8>,
    /// The codec to compress the block with.
    pub codec: Codecs,
    /// The greatest value of the block, where statistics are kept.
    pub max_value: Option<Vec<u8>>,
    /// The least value of the block, where statistics are kept.
    pub min_value: Option<Vec<u8>>,
}

/// What a task says, as plain values.
pub struct TaskView {
    pub ordering_key: nat,
    pub field: Fields,
    pub codec: Codecs,
    pub num_items: nat,
    pub uncompr_size: nat,
    pub bytes: Seq<u8>,
    pub max_value: Option<Seq<u8>>,
    pub min_value: Option<Seq<u8>>,
}

impl View for CompressTask {
    type V = TaskView;

    open spec fn view(&self) -> TaskView {
        TaskView {
            ordering_key: self.ordering_key as nat,
            field: self.field,
            codec: self.codec,
            num_items: self.num_items as nat,
            uncompr_size: self.uncompr_size as nat,
            bytes: self.buf@,
            max_value: opt_bytes(self.max_value),
            min_value: opt_bytes(self.min_value),
        }
    }
}

impl CompressTask {
    /// A task that stands for no block: it counts no value and holds no
    /// byte. A pool of workers hands such tasks out until the first real
    /// block is done.
    pub fn sentinel(codec: Codecs) -> (task: Self)
        ensures
            task@ == (TaskView {
                ordering_key: 0,
                field: Fields::RefID,
                codec,
                num_items: 0,
                uncompr_size: 0,
                bytes: Seq::empty(),
                max_value: None,
                min_value: None,
            }),
    {
        CompressTask {
            ordering_key: 0,
            field: Fields::RefID,
            num_items: 0,
            uncompr_size: 0,
            buf: Vec::new(),
            codec,
            max_value: None,
            min_value: None,
        }
    }

    /// Whether the task stands for no block. A block that a writer closed
    /// always counts a value.
    pub fn is_sentinel(&self) -> (none: bool)
        ensures
            none == (self.num_items == 0),
    {
        self.num_items == 0
    }
}

/// The task that carries the open block of a column when it is closed: the
/// bytes and the count of the block, its place among the blocks of the
/// column, and its least and greatest value in four bytes each.
pub open spec fn closing_task(c: ColumnView, field: Fields, codec: Codecs) -> TaskView {
    TaskView {
        ordering_key: c.closed.len(),
        field,
        codec,
        num_items: c.open.items,
        uncompr_size: c.open.bytes.len(),
        bytes: c.open.bytes,
        max_value: match c.open.range {
            Some((lo, hi)) => Some(i32_le_bytes(hi as i32)),
            None => None,
        },
        min_value: match c.open.range {
            Some((lo, hi)) => Some(i32_le_bytes(lo as i32)),
            None => None,
        },
    }
}

/// What is known of a block before it is compressed.
#[derive(Debug)]
pub struct BlockInfo {
    /// Number of values in the block.
    pub numitems: u32,
    /// Size of the block after compression; zero while it is not known.
    pub block_size: u32,
    /// Size of the block before compression.
    pub uncompr_size: usize,
    /// The column of the block.
    pub field: Fields,
    /// The greatest value of the block, where statistics are kept.
    pub max_value: Option<Vec<u8>>,
    /// The least value of the block, where statistics are kept.
    pub min_value: Option<Vec<u8>>,
}

impl Default for BlockInfo {
    fn default() -> (info: Self)
        ensures
            info.numitems == 0,
            info.block_size == 0,
            info.uncompr_size == 0,
            info.field == Fields::RefID,
            info.max_value is None,
            info.min_value is None,
    {
        BlockInfo {
            numitems: 0,
            block_size: 0,
            uncompr_size: 0,
            field: Fields::RefID,
            max_value: None,
            min_value: None,
        }
    }
}

/// One column while it is filled.
pub struct Inner {
    /// The field whose values the column takes.
    pub field: Fields,
    /// The codec for the blocks of the column.
    pub codec: Codecs,
    /// The bytes of the open block.
    pub buffer: Vec<u8>,
    /// Number of values in the open block.
    pub rec_count: u32,
    /// Number of blocks that were closed.
    pub block_num: usize,
    /// Whether the column keeps the least and greatest value of a block.
    pub with_stats: bool,
    /// The least and greatest value of the open block.
    pub range: Option<(i32, i32)>,
    /// The blocks that were closed, oldest first.
    pub closed: Ghost<Seq<BlockView>>,
}

impl View for Inner {
    type V = ColumnView;

    open spec fn view(&self) -> ColumnView {
        ColumnView {
            closed: self.closed@,
            open: BlockView {
                bytes: self.buffer@,
                items: self.rec_count as nat,
                range: match self.range {
                    Some((lo, hi)) => Some((lo as int, hi as int)),
                    None => None,
                },
            },
        }
    }
}

impl Inner {
    /// The counters agree with the blocks: a block without values has no
    /// bytes, and a range is kept exactly for a block with values of a
    /// column with statistics.
    pub open spec fn wf(&self) -> bool {
        &&& self.closed@.len() == self.block_num
        &&& self.rec_count == 0 ==> self.buffer@.len() == 0
        &&& self.range is Some <==> self.with_stats && self.rec_count > 0
    }

    /// A column that took no value.
    pub fn new(field: Fields, codec: Codecs, with_stats: bool) -> (column: Self)
        ensures
            column.wf(),
            column@ == empty_column(),
            column.field == field,
            column.codec == codec,
            column.with_stats == with_stats,
    {
        Inner {
            field,
            codec,
            buffer: Vec::new(),
            rec_count: 0,
            block_num: 0,
            with_stats,
            range: None,
            closed: Ghost(Seq::empty()),
        }
    }

    /// What is known of the open block: its field, its count and size,
    /// and its least and greatest value in four bytes each.
    pub fn block_info(&self) -> (info: BlockInfo)
        ensures
            info.numitems == self.rec_count,
            info.block_size == 0,
            info.uncompr_size == self.buffer@.len(),
            info.field == self.field,
            opt_bytes(info.max_value) == closing_task(self@, self.field, self.codec).max_value,
            opt_bytes(info.min_value) == closing_task(self@, self.field, self.codec).min_value,
    {
        let (min_value, max_value) = range_bytes(&self.range);
        BlockInfo {
            numitems: self.rec_count,
            block_size: 0,
            uncompr_size: self.buffer.len(),
            field: self.field,
            max_value,
            min_value,
        }
    }

    /// Takes the value of the field of the column from a record.
    pub fn write_record_field(&mut self, rec: &RawRecord) -> (task: Option<CompressTask>)
        requires
            old(self).wf(),
            old(self).block_num < usize::MAX,
            well_formed(rec@),
            old(self).field.is_data(),
            old(self).with_stats ==> crate::record::field_len(rec@, old(self).field) >= 4,
        ensures
            took(*old(self), *final(self), field_bytes(rec@, old(self).field)),
            task is Some <==> closes(old(self)@.open, field_bytes(rec@, old(self).field)),
            task matches Some(t) ==> t@ == closing_task(old(self)@, old(self).field, old(self).codec),
    {
        let field = self.field;
        let data = rec.get_bytes(&field);
        self.write_data(data)
    }

    /// Closes the open block, if it holds a value, and hands it out as a
    /// task. The next block of the column starts empty.
    pub fn flush(&mut self) -> (task: Option<CompressTask>)
        requires
            old(self).wf(),
            old(self).rec_count > 0 ==> old(self).block_num < usize::MAX,
        ensures
            final(self).wf(),
            final(self)@ == column_flush(old(self)@),
            final(self).field == old(self).field,
            final(self).codec == old(self).codec,
            final(self).with_stats == old(self).with_stats,
            final(self).block_num == old(self).block_num + if old(self).rec_count > 0 {
                1int
            } else {
                0int
            },
            task is Some <==> old(self).rec_count > 0,
            task matches Some(t) ==> t@ == closing_task(old(self)@, old(self).field, old(self).codec)
                && t.num_items > 0,
    {
        if self.rec_count == 0 {
            return None;
        }
        let ghost before = self@;
        let mut buf: Vec<u8> = Vec::new();
        core::mem::swap(&mut buf, &mut self.buffer);
        let (min_value, max_value) = range_bytes(&self.range);
        let task = CompressTask {
            ordering_key: self.block_num,
            field: self.field,
            num_items: self.rec_count,
            uncompr_size: buf.len(),
            buf,
            codec: self.codec,
            max_value,
            min_value,
        };
        self.block_num = self.block_num + 1;
        self.rec_count = 0;
        self.range = None;
        self.closed = Ghost(before.closed.push(before.open));
        assert(self@.open == empty_block());
        Some(task)
    }

    /// Takes one value into the column. The open block is closed first, and
    /// handed out as a task, where it holds bytes and the value would take
    /// it past `SIZE_LIMIT`, or where it can count no further value.
    pub fn write_data(&mut self, data: &[u8]) -> (task: Option<CompressTask>)
        requires
            old(self).wf(),
            old(self).block_num < usize::MAX,
            old(self).with_stats ==> data@.len() >= 4,
        ensures
            final(self).wf(),
            final(self)@ == column_push(old(self)@, data@, old(self).with_stats),
            final(self).field == old(self).field,
            final(self).codec == old(self).codec,
            final(self).with_stats == old(self).with_stats,
            final(self).rec_count > 0,
            final(self).block_num == old(self).block_num + if closes(old(self)@.open, data@) {
                1int
            } else {
                0int
            },
            task is Some <==> closes(old(self)@.open, data@),
            task matches Some(t) ==> t@ == closing_task(old(self)@, old(self).field, old(self).codec)
                && t.num_items > 0,
    {
        let filled: usize = self.buffer.len();
        let over: bool = filled > SIZE_LIMIT || data.len() > SIZE_LIMIT - filled;
        let closing: bool = (filled > 0 && over) || self.rec_count == u32::MAX;
        assert(closing == closes(self@.open, data@));
        let task = if closing {
            self.flush()
        } else {
            None
        };
        append(&mut self.buffer, data);
        self.rec_count = self.rec_count + 1;
        if self.with_stats {
            let v: i32 = read_i32(data);
            self.range = match self.range {
                None => Some((v, v)),
                Some((lo, hi)) => Some(
                    (
                        if v < lo {
                            v
                        } else {
                            lo
                        },
                        if v > hi {
                            v
                        } else {
                            hi
                        },
                    ),
                ),
            };
        }
        proof {
            if closing {
                assert(self.buffer@ =~= data@);
            }
        }
        task
    }
}

/// The least and the greatest value of a block, each in four bytes, least
/// significant byte first.
pub fn range_bytes(range: &Option<(i32, i32)>) -> (bytes: (Option<Vec<u8>>, Option<Vec<u8>>))
    ensures
        match *range {
            Some((lo, hi)) => opt_bytes(bytes.0) == Some(i32_le_bytes(lo)) && opt_bytes(bytes.1)
                == Some(i32_le_bytes(hi)),
            None => bytes.0 is None && bytes.1 is None,
        },
{
    match range {
        Some((lo, hi)) => {
            let lo_bytes = write_i32(*lo);
            let hi_bytes = write_i32(*hi);
            (
                Some(vstd::slice::slice_to_vec(lo_bytes.as_slice())),
                Some(vstd::slice::slice_to_vec(hi_bytes.as_slice())),
            )
        },
        None => (None, None),
    }
}

/// Why the writer refused a call.
#[derive(Clone, Copy, Debug, PartialEq, Eq, Structural)]
pub enum WriterError {
    /// The lengths in the header of the record do not fit its length, or
    /// the record is too long for the offsets of the format. The number is
    /// the position of the record among those pushed.
    MalformedRecord(u64),
    /// The counters of the writer can count no further record.
    TooManyRecords,
    /// The compressed block cannot be noted in the metadata: its key, its
    /// size or the place after it is out of range.
    BlockOutOfRange,
    /// The file would grow past what its preamble can address.
    FileTooLarge,
}

/// The tasks of a list, as plain values.
pub open spec fn tasks_view(tasks: Seq<CompressTask>) -> Seq<TaskView> {
    tasks.map_values(|t: CompressTask| t@)
}

/// Only the column of the reference id keeps statistics.
pub open spec fn keeps_stats(f: Fields) -> bool {
    f == Fields::RefID
}

/// The blocks of a column with one more block placed at `key`: the list is
/// filled up with empty entries where it is too short.
pub open spec fn placed<T>(list: Seq<T>, key: int, value: T, fill: T) -> Seq<T> {
    if key < list.len() {
        list.update(key, value)
    } else {
        (list + Seq::new((key - list.len()) as nat, |i: int| fill)).push(value)
    }
}

/// The entry of one block was placed in the metadata of a column: the
/// entry at `key` says where the block lies, how many values it holds and
/// what its least and greatest values are; the entries before stayed; the
/// entries between the old end of the list and `key` are empty; and the
/// list of sizes has `size` at `key`.
pub open spec fn block_placed(
    before: FieldMeta,
    after: FieldMeta,
    key: int,
    seekpos: u64,
    numitems: u32,
    min_value: Option<Seq<u8>>,
    max_value: Option<Seq<u8>>,
    size: u32,
) -> bool {
    &&& after.block_sizes@ == placed(before.block_sizes@, key, size, 0u32)
    &&& after.blocks@.len() == if key < before.blocks@.len() {
        before.blocks@.len()
    } else {
        (key + 1) as nat
    }
    &&& after.blocks@[key].seekpos == seekpos
    &&& after.blocks@[key].numitems == numitems
    &&& opt_bytes(after.blocks@[key].min_value) == min_value
    &&& opt_bytes(after.blocks@[key].max_value) == max_value
    &&& forall|i: int|
        0 <= i < before.blocks@.len() && i != key ==> after.blocks@[i] == before.blocks@[i]
    &&& forall|i: int|
        before.blocks@.len() <= i < key ==> {
            &&& (#[trigger] after.blocks@[i]).seekpos == 0
            &&& after.blocks@[i].numitems == 0
            &&& after.blocks@[i].max_value is None
            &&& after.blocks@[i].min_value is None
        }
}

impl FieldMeta {
    /// Places the entry of a block at its key. Entries between the end of
    /// the list and the key are filled in empty.
    pub fn place(&mut self, key: usize, meta: BlockMeta, size: u32)
        requires
            key < usize::MAX,
        ensures
            final(self).blocks@[key as int] == meta,
            block_placed(
                *old(self),
                *final(self),
                key as int,
                meta.seekpos,
                meta.numitems,
                opt_bytes(meta.min_value),
                opt_bytes(meta.max_value),
                size,
            ),
    {
        while self.block_sizes.len() <= key
            invariant
                key < usize::MAX,
                self.blocks == old(self).blocks,
                old(self).block_sizes@.len() <= self.block_sizes@.len(),
                self.block_sizes@.len() <= key + 1 || self.block_sizes@.len() == old(self).block_sizes@.len(),
                self.block_sizes@ == old(self).block_sizes@ + Seq::new(
                    (self.block_sizes@.len() - old(self).block_sizes@.len()) as nat,
                    |i: int| 0u32,
                ),
            decreases key + 1 - self.block_sizes@.len(),
        {
            self.block_sizes.push(0);
            assert(self.block_sizes@ =~= old(self).block_sizes@ + Seq::new(
                (self.block_sizes@.len() - old(self).block_sizes@.len()) as nat,
                |i: int| 0u32,
            ));
        }
        self.block_sizes[key] = size;
        assert(self.block_sizes@ =~= placed(old(self).block_sizes@, key as int, size, 0u32));
        while self.blocks.len() <= key
            invariant
                key < usize::MAX,
                self.block_sizes@ == placed(old(self).block_sizes@, key as int, size, 0u32),
                old(self).blocks@.len() <= self.blocks@.len(),
                self.blocks@.len() <= key + 1 || self.blocks@.len() == old(self).blocks@.len(),
                forall|i: int|
                    0 <= i < old(self).blocks@.len() ==> self.blocks@[i] == old(self).blocks@[i],
                forall|i: int|
                    old(self).blocks@.len() <= i < self.blocks@.len() ==> {
                        &&& (#[trigger] self.blocks@[i]).seekpos == 0
                        &&& self.blocks@[i].numitems == 0
                        &&& self.blocks@[i].max_value is None
                        &&& self.blocks@[i].min_value is None
                    },
            decreases key + 1 - self.blocks@.len(),
        {
            self.blocks.push(BlockMeta::default());
        }
        self.blocks[key] = meta;
    }
}

/// The writer: the columns of the file while they are filled, the
/// metadata of the blocks that were placed, and the place in the file
/// where the next block goes.
pub struct Writer {
    /// The columns of data, by the position of their field in the catalog.
    /// The positions of fields that are only indexes stay unused.
    pub columns: Vec<Inner>,
    /// The index columns, each at the position of the field of variable
    /// width that it indexes. The other positions stay unused.
    pub indexes: Vec<Inner>,
    /// The metadata of the file as far as it is known.
    pub file_meta: FileMeta,
    /// Number of bytes of the file that are spoken for: the preamble and
    /// the blocks placed so far.
    pub cursor: u64,
    /// Number of records pushed.
    pub amount: u64,
}

/// A column of a writer is in order: it is well formed, it has not closed
/// more blocks than `amount` records allow, and its settings are those of
/// its field.
pub open spec fn column_ok(
    column: Inner,
    field: Fields,
    codec: Codecs,
    stats: bool,
    amount: int,
) -> bool {
    &&& column.wf()
    &&& column.field == field
    &&& column.codec == codec
    &&& column.with_stats == stats
    &&& column.block_num + if column.rec_count > 0 {
        1int
    } else {
        0int
    } <= amount
}

impl Writer {
    /// The writer has its columns, and their counters agree with the
    /// number of records pushed.
    pub open spec fn wf(&self) -> bool {
        &&& self.columns@.len() == FIELDS_NUM
        &&& self.indexes@.len() == FIELDS_NUM
        &&& self.file_meta.wf()
        &&& self.amount <= usize::MAX
        &&& forall|i: int|
            0 <= i < FIELDS_NUM ==> #[trigger] column_ok(
                self.columns@[i],
                Fields::at(i),
                self.file_meta.codecs@[i],
                keeps_stats(Fields::at(i)),
                self.amount as int,
            )
        &&& forall|i: int|
            0 <= i < FIELDS_NUM ==> #[trigger] column_ok(
                self.indexes@[i],
                Fields::at(i).index_field(),
                self.file_meta.codecs@[Fields::at(i).index_field().ord()],
                false,
                self.amount as int,
            )
    }

    /// The column of a field, as it stands in the writer.
    pub open spec fn slot(&self, f: Fields) -> Inner {
        if f.is_index() {
            self.indexes@[f.indexed_field().ord()]
        } else {
            self.columns@[f.ord()]
        }
    }

    /// The column of a field.
    pub open spec fn column(&self, f: Fields) -> ColumnView {
        self.slot(f)@
    }

    /// What the column of `f` takes from a record. A column of data takes
    /// the bytes of its field. An index column takes, in four bytes, the
    /// length that the open block of its column of variable width has once
    /// that column took its own value.
    pub open spec fn payload(&self, record: Seq<u8>, f: Fields) -> Seq<u8> {
        if f.is_index() {
            let v = f.indexed_field();
            u32_le_bytes(
                open_after(self.column(v).open, field_bytes(record, v), false).bytes.len() as u32,
            )
        } else {
            field_bytes(record, f)
        }
    }

    /// The column of `f` once the writer took a record.
    pub open spec fn column_after(&self, record: Seq<u8>, f: Fields) -> ColumnView {
        column_push(self.column(f), self.payload(record, f), keeps_stats(f))
    }

    /// The task that the column of `f` hands out when its open block is
    /// closed.
    pub open spec fn closing(&self, f: Fields) -> TaskView {
        closing_task(self.column(f), f, self.slot(f).codec)
    }

    /// The tasks that a record makes the first `n` fields of the catalog
    /// hand out, in the order in which the blocks are closed: field after
    /// field, and after a field of variable width its index column.
    pub open spec fn tasks_upto(&self, record: Seq<u8>, n: int) -> Seq<TaskView>
        decreases n,
    {
        if n <= 0 {
            Seq::empty()
        } else {
            let earlier = self.tasks_upto(record, n - 1);
            let f = Fields::at(n - 1);
            let x = f.index_field();
            if !f.is_data() {
                earlier
            } else {
                let own = if closes(self.column(f).open, self.payload(record, f)) {
                    earlier.push(self.closing(f))
                } else {
                    earlier
                };
                if f.is_variable() && closes(self.column(x).open, self.payload(record, x)) {
                    own.push(self.closing(x))
                } else {
                    own
                }
            }
        }
    }

    /// The tasks that the first `n` fields of the catalog hand out when
    /// every open block that holds a value is closed.
    pub open spec fn flush_tasks_upto(&self, n: int) -> Seq<TaskView>
        decreases n,
    {
        if n <= 0 {
            Seq::empty()
        } else {
            let earlier = self.flush_tasks_upto(n - 1);
            let f = Fields::at(n - 1);
            if self.column(f).open.items > 0 {
                earlier.push(self.closing(f))
            } else {
                earlier
            }
        }
    }

    /// A writer for a new file. The place of the first block is right
    /// after the preamble.
    pub fn new(codec: Codecs, ref_seqs: Vec<(String, i32)>) -> (writer: Self)
        ensures
            writer.wf(),
            writer.cursor == FILE_INFO_SIZE,
            writer.amount == 0,
            writer.file_meta.ref_seqs == ref_seqs,
            forall|i: int| 0 <= i < FIELDS_NUM ==> writer.file_meta.codecs@[i] == codec,
            forall|i: int|
                0 <= i < FIELDS_NUM ==> (#[trigger] writer.file_meta.fields@[i]).blocks@.len() == 0
                    && writer.file_meta.fields@[i].block_sizes@.len() == 0,
            forall|f: Fields| #[trigger] writer.column(f) == empty_column(),
    {
        let file_meta = FileMeta::new(codec, ref_seqs);
        let mut columns: Vec<Inner> = Vec::new();
        let mut indexes: Vec<Inner> = Vec::new();
        let mut i: usize = 0;
        while i < FIELDS_NUM
            invariant
                i <= FIELDS_NUM,
                columns@.len() == i,
                indexes@.len() == i,
                forall|k: int|
                    0 <= k < i ==> #[trigger] column_ok(
                        columns@[k],
                        Fields::at(k),
                        codec,
                        keeps_stats(Fields::at(k)),
                        0,
                    ) && columns@[k]@ == empty_column(),
                forall|k: int|
                    0 <= k < i ==> #[trigger] column_ok(
                        indexes@[k],
                        Fields::at(k).index_field(),
                        codec,
                        false,
                        0,
                    ) && indexes@[k]@ == empty_column(),
            decreases FIELDS_NUM - i,
        {
            let field = match Fields::from_index(i) {
                Some(field) => field,
                None => Fields::RawTags,
            };
            let column = Inner::new(field, codec, has_stats(&field));
            let index = Inner::new(index_of(&field), codec, false);
            assert(column_ok(column, Fields::at(i as int), codec, keeps_stats(Fields::at(i as int)), 0));
            assert(column_ok(index, Fields::at(i as int).index_field(), codec, false, 0));
            columns.push(column);
            indexes.push(index);
            i += 1;
        }
        let writer = Writer { columns, indexes, file_meta, cursor: FILE_INFO_SIZE as u64, amount: 0 };
        proof {
            assert forall|f: Fields| #[trigger] writer.column(f) == empty_column() by {
                crate::fields::lemma_catalog_positions(f, f.indexed_field());
                if f.is_index() {
                    assert(column_ok(
                        writer.indexes@[f.indexed_field().ord()],
                        Fields::at(f.indexed_field().ord()).index_field(),
                        codec,
                        false,
                        0,
                    ));
                } else {
                    assert(column_ok(
                        writer.columns@[f.ord()],
                        Fields::at(f.ord()),
                        codec,
                        keeps_stats(Fields::at(f.ord())),
                        0,
                    ));
                }
            }
        }
        writer
    }

    /// Hands the bytes of a data field to its column, and collects the
    /// task of the block that this closes.
    fn update_field_buf(&mut self, field: &Fields, new_data: &[u8], tasks: &mut Vec<CompressTask>)
        requires
            field.is_data(),
            old(self).columns@.len() == FIELDS_NUM,
            old(self).columns@[field.ord()].wf(),
            old(self).columns@[field.ord()].block_num < usize::MAX,
            old(self).columns@[field.ord()].with_stats ==> new_data@.len() >= 4,
        ensures
            final(self).file_meta == old(self).file_meta,
            final(self).cursor == old(self).cursor,
            final(self).amount == old(self).amount,
            final(self).indexes == old(self).indexes,
            final(self).columns@ == old(self).columns@.update(
                field.ord(),
                final(self).columns@[field.ord()],
            ),
            took(old(self).columns@[field.ord()], final(self).columns@[field.ord()], new_data@),
            tasks_view(final(tasks)@) == with_closing(
                tasks_view(old(tasks)@),
                old(self).columns@[field.ord()],
                new_data@,
            ),
    {
        let idx: usize = field.index();
        let task = self.columns[idx].write_data(new_data);
        match task {
            Some(t) => {
                tasks.push(t);
                assert(tasks_view(tasks@) =~= tasks_view(old(tasks)@).push(t@));
            },
            None => {},
        }
        assert(self.columns@ =~= old(self).columns@.update(field.ord(), self.columns@[field.ord()]));
    }

    /// Hands an offset to the index column of a field of variable width,
    /// and collects the task of the block that this closes.
    fn update_index_buf(&mut self, field: &Fields, new_data: &[u8], tasks: &mut Vec<CompressTask>)
        requires
            old(self).indexes@.len() == FIELDS_NUM,
            old(self).indexes@[field.ord()].wf(),
            old(self).indexes@[field.ord()].block_num < usize::MAX,
            !old(self).indexes@[field.ord()].with_stats,
        ensures
            final(self).file_meta == old(self).file_meta,
            final(self).cursor == old(self).cursor,
            final(self).amount == old(self).amount,
            final(self).columns == old(self).columns,
            final(self).indexes@ == old(self).indexes@.update(
                field.ord(),
                final(self).indexes@[field.ord()],
            ),
            took(old(self).indexes@[field.ord()], final(self).indexes@[field.ord()], new_data@),
            tasks_view(final(tasks)@) == with_closing(
                tasks_view(old(tasks)@),
                old(self).indexes@[field.ord()],
                new_data@,
            ),
    {
        let idx: usize = field.index();
        let task = self.indexes[idx].write_data(new_data);
        match task {
            Some(t) => {
                tasks.push(t);
                assert(tasks_view(tasks@) =~= tasks_view(old(tasks)@).push(t@));
            },
            None => {},
        }
        assert(self.indexes@ =~= old(self).indexes@.update(field.ord(), self.indexes@[field.ord()]));
    }

    /// Takes one record. Each data field of the record goes to its column,
    /// in the order of the catalog; after a field of variable width, the
    /// length of the open block of its column goes to its index column.
    /// The blocks that this closes are handed out as tasks, in the order
    /// in which they were closed.
    ///
    /// A record whose header does not fit its length, or which is too long
    /// for an offset of four bytes, is refused, and so is a record that the
    /// counters cannot count; the writer is then left as it was.
    pub fn push_record(&mut self, record: &RawRecord) -> (result: Result<
        Vec<CompressTask>,
        WriterError,
    >)
        requires
            old(self).wf(),
        ensures
            final(self).wf(),
            final(self).file_meta == old(self).file_meta,
            final(self).cursor == old(self).cursor,
            match result {
                Ok(tasks) => {
                    &&& admissible(record@)
                    &&& old(self).amount < usize::MAX
                    &&& tasks_view(tasks@) == old(self).tasks_upto(record@, FIELDS_NUM as int)
                    &&& final(self).amount == old(self).amount + 1
                    &&& forall|f: Fields| #[trigger]
                        final(self).column(f) == old(self).column_after(record@, f)
                },
                Err(e) => {
                    &&& *final(self) == *old(self)
                    &&& !admissible(record@) || old(self).amount >= usize::MAX
                    &&& e == if !admissible(record@) {
                        WriterError::MalformedRecord(old(self).amount)
                    } else {
                        WriterError::TooManyRecords
                    }
                },
            },
    {
        if !record.is_well_formed() || record.0.len() > u32::MAX as usize {
            return Err(WriterError::MalformedRecord(self.amount));
        }
        if self.amount >= usize::MAX as u64 {
            return Err(WriterError::TooManyRecords);
        }
        let ghost before = *self;
        let mut tasks: Vec<CompressTask> = Vec::new();
        let mut i: usize = 0;
        assert(tasks_view(tasks@) =~= before.tasks_upto(record@, 0));
        proof {
            assert forall|k: int| 0 <= k < FIELDS_NUM implies #[trigger] pushed_at(
                before,
                *self,
                record@,
                k,
                0,
            ) by {
                assert(column_ok(
                    before.columns@[k],
                    Fields::at(k),
                    before.file_meta.codecs@[k],
                    keeps_stats(Fields::at(k)),
                    before.amount as int,
                ));
                assert(column_ok(
                    before.indexes@[k],
                    Fields::at(k).index_field(),
                    before.file_meta.codecs@[Fields::at(k).index_field().ord()],
                    false,
                    before.amount as int,
                ));
            }
        }
        while i < FIELDS_NUM
            invariant
                i <= FIELDS_NUM,
                before.wf(),
                before.amount < usize::MAX,
                admissible(record@),
                self.columns@.len() == FIELDS_NUM,
                self.indexes@.len() == FIELDS_NUM,
                self.file_meta == before.file_meta,
                self.cursor == before.cursor,
                self.amount == before.amount,
                tasks_view(tasks@) == before.tasks_upto(record@, i as int),
                forall|k: int|
                    0 <= k < FIELDS_NUM ==> #[trigger] pushed_at(before, *self, record@, k, i as int),
            decreases FIELDS_NUM - i,
        {
            let ghost entry = *self;
            assert(pushed_at(before, entry, record@, i as int, i as int));
            assert(column_ok(
                before.columns@[i as int],
                Fields::at(i as int),
                before.file_meta.codecs@[i as int],
                keeps_stats(Fields::at(i as int)),
                before.amount as int,
            ));
            assert(column_ok(
                before.indexes@[i as int],
                Fields::at(i as int).index_field(),
                before.file_meta.codecs@[Fields::at(i as int).index_field().ord()],
                false,
                before.amount as int,
            ));
            match Fields::from_index(i) {
                Some(field) => {
                    if is_data_field(&field) {
                        let new_data = record.get_bytes(&field);
                        proof {
                            crate::record::lemma_fields_in_bounds(record@, field);
                        }
                        self.update_field_buf(&field, new_data, &mut tasks);
                        match field_type(&field) {
                            FieldType::VariableSized => {
                                let end_pos: usize = self.columns[i].buffer.len();
                                let index_bytes = write_u32(end_pos as u32);
                                self.update_index_buf(&field, index_bytes.as_slice(), &mut tasks);
                            },
                            FieldType::FixedSized => {},
                        }
                    }
                },
                None => {},
            }
            proof {
                let f = Fields::at(i as int);
                crate::fields::lemma_catalog_positions(f, f.index_field());
                crate::fields::lemma_catalog_positions(f.index_field(), f);
                assert(pushed_at(before, *self, record@, i as int, i + 1));
                assert forall|k: int| 0 <= k < FIELDS_NUM implies #[trigger] pushed_at(
                    before,
                    *self,
                    record@,
                    k,
                    i + 1,
                ) by {
                    if k != i {
                        assert(pushed_at(before, entry, record@, k, i as int));
                    }
                }
            }
            i += 1;
        }
        let ghost done = *self;
        self.amount = self.amount + 1;
        proof {
            assert(self.columns == done.columns && self.indexes == done.indexes);
            assert forall|k: int| 0 <= k < FIELDS_NUM implies #[trigger] column_ok(
                self.columns@[k],
                Fields::at(k),
                self.file_meta.codecs@[k],
                keeps_stats(Fields::at(k)),
                self.amount as int,
            ) by {
                assert(pushed_at(before, done, record@, k, FIELDS_NUM as int));
            }
            assert forall|k: int| 0 <= k < FIELDS_NUM implies #[trigger] column_ok(
                self.indexes@[k],
                Fields::at(k).index_field(),
                self.file_meta.codecs@[Fields::at(k).index_field().ord()],
                false,
                self.amount as int,
            ) by {
                assert(pushed_at(before, done, record@, k, FIELDS_NUM as int));
            }
            assert forall|f: Fields| #[trigger]
                self.column(f) == before.column_after(record@, f) by {
                crate::fields::lemma_catalog_positions(f, f.indexed_field());
                crate::fields::lemma_catalog_positions(f.indexed_field(), f);
                if f.is_index() {
                    assert(pushed_at(
                        before,
                        done,
                        record@,
                        f.indexed_field().ord(),
                        FIELDS_NUM as int,
                    ));
                } else {
                    assert(pushed_at(before, done, record@, f.ord(), FIELDS_NUM as int));
                }
            }
        }
        Ok(tasks)
    }

    /// Closes the open block of the column of `field`, if it holds a value,
    /// and hands it out as a task.
    pub fn flush(&mut self, field: &Fields) -> (task: Option<CompressTask>)
        requires
            old(self).wf(),
        ensures
            final(self).wf(),
            final(self).file_meta == old(self).file_meta,
            final(self).cursor == old(self).cursor,
            final(self).amount == old(self).amount,
            final(self).column(*field) == column_flush(old(self).column(*field)),
            final(self).slot(*field).codec == old(self).slot(*field).codec,
            forall|g: Fields| g != *field ==> #[trigger] final(self).slot(g) == old(self).slot(g),
            if field.is_index() {
                final(self).columns == old(self).columns && final(self).indexes@ == old(self).indexes@.update(field.indexed_field().ord(), final(self).slot(*field))
            } else {
                final(self).indexes == old(self).indexes && final(self).columns@ == old(self).columns@.update(field.ord(), final(self).slot(*field))
            },
            task is Some <==> old(self).column(*field).open.items > 0,
            task matches Some(t) ==> t@ == old(self).closing(*field),
    {
        proof {
            crate::fields::lemma_catalog_positions(*field, field.indexed_field());
            crate::fields::lemma_catalog_positions(field.indexed_field(), *field);
            assert forall|g: Fields| g != *field && g.is_index() == field.is_index() implies (
            if g.is_index() {
                g.indexed_field().ord() != field.indexed_field().ord()
            } else {
                g.ord() != field.ord()
            }) by {
                crate::fields::lemma_catalog_positions(g, *field);
                crate::fields::lemma_catalog_positions(g.indexed_field(), field.indexed_field());
            }
        }
        let ghost before = *self;
        if is_data_field(field) {
            let idx: usize = field.index();
            assert(column_ok(
                self.columns@[idx as int],
                Fields::at(idx as int),
                self.file_meta.codecs@[idx as int],
                keeps_stats(Fields::at(idx as int)),
                self.amount as int,
            ));
            let task = self.columns[idx].flush();
            proof {
                assert(self.columns@ =~= before.columns@.update(idx as int, self.columns@[idx as int]));
                assert forall|k: int| 0 <= k < FIELDS_NUM implies #[trigger] column_ok(
                    self.columns@[k],
                    Fields::at(k),
                    self.file_meta.codecs@[k],
                    keeps_stats(Fields::at(k)),
                    self.amount as int,
                ) by {
                    assert(column_ok(
                        before.columns@[k],
                        Fields::at(k),
                        before.file_meta.codecs@[k],
                        keeps_stats(Fields::at(k)),
                        before.amount as int,
                    ));
                }
            }
            task
        } else {
            let idx: usize = indexed_by(field).index();
            assert(column_ok(
                self.indexes@[idx as int],
                Fields::at(idx as int).index_field(),
                self.file_meta.codecs@[Fields::at(idx as int).index_field().ord()],
                false,
                self.amount as int,
            ));
            let task = self.indexes[idx].flush();
            proof {
                assert(self.indexes@ =~= before.indexes@.update(idx as int, self.indexes@[idx as int]));
                assert forall|k: int| 0 <= k < FIELDS_NUM implies #[trigger] column_ok(
                    self.indexes@[k],
                    Fields::at(k).index_field(),
                    self.file_meta.codecs@[Fields::at(k).index_field().ord()],
                    false,
                    self.amount as int,
                ) by {
                    assert(column_ok(
                        before.indexes@[k],
                        Fields::at(k).index_field(),
                        before.file_meta.codecs@[Fields::at(k).index_field().ord()],
                        false,
                        before.amount as int,
                    ));
                }
            }
            task
        }
    }

    /// Closes every open block that holds a value, field after field in
    /// the order of the catalog, and hands the blocks out as tasks.
    pub fn flush_all(&mut self) -> (tasks: Vec<CompressTask>)
        requires
            old(self).wf(),
        ensures
            final(self).wf(),
            final(self).file_meta == old(self).file_meta,
            final(self).cursor == old(self).cursor,
            final(self).amount == old(self).amount,
            tasks_view(tasks@) == old(self).flush_tasks_upto(FIELDS_NUM as int),
            forall|f: Fields| #[trigger] final(self).column(f) == column_flush(old(self).column(f)),
    {
        let ghost before = *self;
        let mut tasks: Vec<CompressTask> = Vec::new();
        let mut i: usize = 0;
        assert(tasks_view(tasks@) =~= before.flush_tasks_upto(0));
        while i < FIELDS_NUM
            invariant
                i <= FIELDS_NUM,
                self.wf(),
                self.file_meta == before.file_meta,
                self.cursor == before.cursor,
                self.amount == before.amount,
                tasks_view(tasks@) == before.flush_tasks_upto(i as int),
                forall|f: Fields| #[trigger]
                    flushed_at(before, *self, f, i as int),
            decreases FIELDS_NUM - i,
        {
            let ghost entry = *self;
            match Fields::from_index(i) {
                Some(field) => {
                    assert(flushed_at(before, entry, field, i as int));
                    let ghost collected = tasks@;
                    let task = self.flush(&field);
                    match task {
                        Some(t) => {
                            tasks.push(t);
                            assert(tasks_view(tasks@) =~= tasks_view(collected).push(t@));
                        },
                        None => {},
                    }
                    proof {
                        assert forall|f: Fields| #[trigger]
                            flushed_at(before, *self, f, i + 1) by {
                            assert(flushed_at(before, entry, f, i as int));
                            crate::fields::lemma_catalog_positions(f, field);
                            crate::fields::lemma_catalog_positions(
                                f.indexed_field(),
                                field.indexed_field(),
                            );
                        }
                    }
                },
                None => {},
            }
            i += 1;
        }
        proof {
            assert forall|f: Fields| #[trigger] self.column(f) == column_flush(before.column(f)) by {
                assert(flushed_at(before, *self, f, FIELDS_NUM as int));
                crate::fields::lemma_catalog_positions(f, f);
            }
        }
        tasks
    }

    /// Notes a compressed block in the metadata and moves the place for the
    /// next block past it. The block is noted at its ordering key among the
    /// blocks of its field, whatever the order in which blocks come back
    /// from compression; the place noted is where the cursor stood. The
    /// caller writes the bytes of the block at that place.
    ///
    /// A block is refused, and the writer left as it was, where its key is
    /// the largest number there is, where its size does not fit in four
    /// bytes, or where the place after it does not fit in eight.
    pub fn write_data_and_update_meta(&mut self, task: &CompressTask) -> (result: Result<
        u64,
        WriterError,
    >)
        requires
            old(self).wf(),
        ensures
            final(self).wf(),
            final(self).columns == old(self).columns,
            final(self).indexes == old(self).indexes,
            final(self).amount == old(self).amount,
            match result {
                Ok(seekpos) => {
                    &&& fits(*old(self), *task)
                    &&& seekpos == old(self).cursor
                    &&& final(self).cursor == old(self).cursor + task.buf@.len()
                    &&& final(self).file_meta.codecs == old(self).file_meta.codecs
                    &&& final(self).file_meta.ref_seqs == old(self).file_meta.ref_seqs
                    &&& final(self).file_meta.fields@ == old(self).file_meta.fields@.update(
                        task.field.ord(),
                        final(self).file_meta.fields@[task.field.ord()],
                    )
                    &&& block_placed(
                        old(self).file_meta.fields@[task.field.ord()],
                        final(self).file_meta.fields@[task.field.ord()],
                        task.ordering_key as int,
                        old(self).cursor,
                        task.num_items,
                        opt_bytes(task.min_value),
                        opt_bytes(task.max_value),
                        task.buf@.len() as u32,
                    )
                },
                Err(e) => {
                    &&& !fits(*old(self), *task)
                    &&& e == WriterError::BlockOutOfRange
                    &&& *final(self) == *old(self)
                },
            },
    {
        let compressed_size: usize = task.buf.len();
        if task.ordering_key == usize::MAX || compressed_size > u32::MAX as usize
            || compressed_size as u64 > u64::MAX - self.cursor {
            return Err(WriterError::BlockOutOfRange);
        }
        let seekpos: u64 = self.cursor;
        let meta = BlockMeta {
            seekpos,
            numitems: task.num_items,
            max_value: copy_opt(&task.max_value),
            min_value: copy_opt(&task.min_value),
        };
        let idx: usize = task.field.index();
        let ghost before = self.file_meta.fields@;
        self.file_meta.fields[idx].place(task.ordering_key, meta, compressed_size as u32);
        assert(self.file_meta.fields@ =~= before.update(idx as int, self.file_meta.fields@[idx as int]));
        self.cursor = self.cursor + compressed_size as u64;
        Ok(seekpos)
    }

    /// Ends the file. `main_meta_bytes` are the bytes of the metadata as
    /// the caller has encoded them; they go where the cursor stands. The
    /// result is the preamble, which goes to the start of the file, and the
    /// total size of the file. The preamble carries version 1.0, the place
    /// of the metadata and the checksum of its bytes.
    ///
    /// Where the size of the file does not fit in eight bytes the call is
    /// refused and the writer left as it was.
    pub fn finish(&mut self, main_meta_bytes: &[u8]) -> (result: Result<(Vec<u8>, u64), WriterError>)
        requires
            old(self).wf(),
        ensures
            final(self).wf(),
            final(self).columns == old(self).columns,
            final(self).indexes == old(self).indexes,
            final(self).file_meta == old(self).file_meta,
            final(self).amount == old(self).amount,
            match result {
                Ok((preamble, total)) => {
                    &&& old(self).cursor + main_meta_bytes@.len() <= u64::MAX
                    &&& preamble@ == file_info_bytes(
                        1,
                        0,
                        old(self).cursor,
                        crc32_of(main_meta_bytes@),
                    )
                    &&& total == old(self).cursor + main_meta_bytes@.len()
                    &&& final(self).cursor == total
                },
                Err(e) => {
                    &&& old(self).cursor + main_meta_bytes@.len() > u64::MAX
                    &&& e == WriterError::FileTooLarge
                    &&& *final(self) == *old(self)
                },
            },
    {
        let meta_len: usize = main_meta_bytes.len();
        if meta_len as u64 > u64::MAX - self.cursor {
            return Err(WriterError::FileTooLarge);
        }
        let meta_start_pos: u64 = self.cursor;
        let crc32: u32 = calc_crc_for_meta_bytes(main_meta_bytes);
        let total_bytes_written: u64 = meta_start_pos + meta_len as u64;
        let file_info = FileInfo::new([1, 0], meta_start_pos, crc32);
        let preamble = file_info.to_bytes();
        self.cursor = total_bytes_written;
        Ok((preamble, total_bytes_written))
    }
}

/// Whether the column of a field keeps the least and greatest value of
/// each block.
pub fn has_stats(field: &Fields) -> (stats: bool)
    ensures
        stats == keeps_stats(*field),
{
    match field {
        Fields::RefID => true,
        _ => false,
    }
}

/// The index column of a field of variable width; the field itself where
/// it has none.
pub fn index_of(field: &Fields) -> (index: Fields)
    ensures
        index == field.index_field(),
{
    match field_type(field) {
        FieldType::VariableSized => var_size_field_to_index(field),
        FieldType::FixedSized => *field,
    }
}

/// The column `after` is the column `before` once it took `data`: the
/// blocks moved as the model says, the settings stayed, and one more block
/// was closed where the value did not fit.
pub open spec fn took(before: Inner, after: Inner, data: Seq<u8>) -> bool {
    &&& after.wf()
    &&& after@ == column_push(before@, data, before.with_stats)
    &&& after.field == before.field
    &&& after.codec == before.codec
    &&& after.with_stats == before.with_stats
    &&& after.rec_count > 0
    &&& after.block_num == before.block_num + if closes(before@.open, data) {
        1int
    } else {
        0int
    }
}

/// A list of tasks with the task of the open block of `column` added, where
/// `data` closes that block.
pub open spec fn with_closing(tasks: Seq<TaskView>, column: Inner, data: Seq<u8>) -> Seq<TaskView> {
    if closes(column@.open, data) {
        tasks.push(closing_task(column@, column.field, column.codec))
    } else {
        tasks
    }
}

/// A record that the writer takes: its header fits its length, and it is
/// short enough for offsets of four bytes.
pub open spec fn admissible(record: Seq<u8>) -> bool {
    well_formed(record) && record.len() <= u32::MAX
}

/// Where the columns at position `k` stand while a record is taken and
/// the first `n` fields of the catalog were gone through. Before its turn
/// a position is as it was. After its turn the column of a data field took
/// the bytes of the field, and the index column of a field of variable
/// width took the length of the open block of that field.
pub open spec fn pushed_at(before: Writer, now: Writer, record: Seq<u8>, k: int, n: int) -> bool {
    let f = Fields::at(k);
    let x = f.index_field();
    &&& if k < n && f.is_data() {
        &&& took(before.columns@[k], now.columns@[k], field_bytes(record, f))
        &&& now.columns@[k]@ == before.column_after(record, f)
    } else {
        now.columns@[k] == before.columns@[k]
    }
    &&& if k < n && f.is_variable() {
        &&& took(before.indexes@[k], now.indexes@[k], before.payload(record, x))
        &&& now.indexes@[k]@ == before.column_after(record, x)
    } else {
        now.indexes@[k] == before.indexes@[k]
    }
    &&& column_ok(
        now.columns@[k],
        f,
        before.file_meta.codecs@[k],
        keeps_stats(f),
        before.amount + 1,
    )
    &&& column_ok(now.indexes@[k], x, before.file_meta.codecs@[x.ord()], false, before.amount + 1)
}

/// Where the column of `f` stands while the open blocks are closed and
/// the first `n` fields of the catalog were gone through.
pub open spec fn flushed_at(before: Writer, now: Writer, f: Fields, n: int) -> bool {
    if f.ord() < n {
        now.column(f) == column_flush(before.column(f)) && now.slot(f).codec == before.slot(f).codec
    } else {
        now.slot(f) == before.slot(f)
    }
}

/// The compressed block of a task can be noted by the writer: its key is
/// not the largest number there is, its size fits in four bytes, and the
/// place after it fits in eight.
pub open spec fn fits(writer: Writer, task: CompressTask) -> bool {
    &&& task.ordering_key < usize::MAX
    &&& task.buf@.len() <= u32::MAX
    &&& writer.cursor + task.buf@.len() <= u64::MAX
}

/// The field of variable width that an index column belongs to; the field
/// itself where it is no index column.
pub fn indexed_by(field: &Fields) -> (indexed: Fields)
    ensures
        indexed == field.indexed_field(),
{
    match field {
        Fields::LName => Fields::ReadName,
        Fields::NCigar => Fields::RawCigar,
        Fields::RawSeqLen => Fields::RawSequence,
        Fields::SequenceLength => Fields::RawQual,
        Fields::RawTagsLen => Fields::RawTags,
        _ => *field,
    }
}

/// A copy of an optional byte string.
pub fn copy_opt(value: &Option<Vec<u8>>) -> (copy: Option<Vec<u8>>)
    ensures
        opt_bytes(copy) == opt_bytes(*value),
{
    match value {
        Some(bytes) => Some(vstd::slice::slice_to_vec(bytes.as_slice())),
        None => None,
    }
}

} // verus!
