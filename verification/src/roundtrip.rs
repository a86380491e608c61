//! What is written can be read back.
//!
//! The laws of this file join the model of a column to the functions that
//! read: a value that went into a column is read back from the blocks of
//! the column, byte for byte, by its number alone.

use crate::block::{
    all_blocks, block_holds, block_items, closes, column_blocks, column_flush, column_of,
    column_push, concat, empty_column, holds_in_order, items_before, lemma_column_holds,
    lemma_items_before, range_of, BlockView, ColumnView,
};
use crate::bytes::{le_i32, lemma_u32_round_trip, u32_le_bytes};
use crate::fields::Fields;
use crate::reader::{
    count_before, fixed_value, index_value, lemma_find_located, located, variable_value, Reader,
};
use crate::record::{field_bytes, lemma_fields_in_bounds};
use crate::writer::{admissible, closing_task, keeps_stats, Writer};
use crate::meta::Codecs;
use crate::SIZE_LIMIT;
use vstd::prelude::*;

verus! {

/// The counts of values of a list of blocks.
pub open spec fn block_counts(blocks: Seq<BlockView>) -> Seq<nat> {
    blocks.map_values(|b: BlockView| b.items)
}

/// The bytes of a list of blocks.
pub open spec fn block_bytes(blocks: Seq<BlockView>) -> Seq<Seq<u8>> {
    blocks.map_values(|b: BlockView| b.bytes)
}

/// Where value `k` of a list of values starts when the values are written
/// one after another.
pub open spec fn offset_of(items: Seq<Seq<u8>>, k: int) -> int {
    concat(items.take(k)).len() as int
}

/// What the index column of a column of variable width takes: for each
/// value, in four bytes, the length of the open block once the column took
/// the value.
pub open spec fn index_items(items: Seq<Seq<u8>>) -> Seq<Seq<u8>> {
    Seq::new(items.len(), |i: int| u32_le_bytes(end_after(items, i) as u32))
}

/// The length of the open block of a column once it took value `i`.
pub open spec fn end_after(items: Seq<Seq<u8>>, i: int) -> nat {
    column_of(items.take(i + 1), false).open.bytes.len()
}

/// Counting the values before a block comes to the same on the blocks and
/// on their counts.
pub proof fn lemma_counts_agree(blocks: Seq<BlockView>, j: int)
    requires
        0 <= j <= blocks.len(),
    ensures
        count_before(block_counts(blocks), j) == items_before(blocks, j),
    decreases j,
{
    if j > 0 {
        lemma_counts_agree(blocks, j - 1);
    }
}

/// The length of values written one after another is the sum of their
/// lengths; it grows with each value.
pub proof fn lemma_offsets(items: Seq<Seq<u8>>, k: int)
    requires
        0 <= k < items.len(),
    ensures
        offset_of(items, k + 1) == offset_of(items, k) + items[k].len(),
        0 <= offset_of(items, k),
        offset_of(items, k + 1) <= concat(items).len(),
    decreases items.len(),
{
    assert(items.take(k + 1).drop_last() =~= items.take(k));
    assert(items.take(k + 1).last() == items[k]);
    if k + 1 < items.len() {
        let head = items.drop_last();
        lemma_offsets(head, k);
        assert(head.take(k + 1) =~= items.take(k + 1));
        assert(head.take(k) =~= items.take(k));
    } else {
        assert(items.take(k + 1) =~= items);
    }
}

/// Each value lies, in the values written one after another, between its
/// offset and the offset of the next.
pub proof fn lemma_concat_slice(items: Seq<Seq<u8>>, k: int)
    requires
        0 <= k < items.len(),
    ensures
        concat(items).subrange(offset_of(items, k), offset_of(items, k + 1)) == items[k],
    decreases items.len(),
{
    lemma_offsets(items, k);
    let head = items.drop_last();
    if k + 1 < items.len() {
        lemma_concat_slice(head, k);
        lemma_offsets(head, k);
        assert(head.take(k + 1) =~= items.take(k + 1));
        assert(head.take(k) =~= items.take(k));
        assert(concat(items).subrange(offset_of(items, k), offset_of(items, k + 1)) =~= concat(
            head,
        ).subrange(offset_of(head, k), offset_of(head, k + 1)));
    } else {
        assert(items.take(k + 1) =~= items);
        assert(items.take(k) =~= head);
        assert(concat(items).subrange(offset_of(items, k), offset_of(items, k + 1)) =~= items[k]);
    }
}

/// Values of one width start at multiples of that width.
pub proof fn lemma_uniform_offsets(items: Seq<Seq<u8>>, w: int, k: int)
    requires
        0 <= k <= items.len(),
        forall|t: int| 0 <= t < items.len() ==> (#[trigger] items[t]).len() == w,
    ensures
        offset_of(items, k) == k * w,
    decreases k,
{
    if k > 0 {
        lemma_uniform_offsets(items, w, k - 1);
        lemma_offsets(items, k - 1);
        assert((k - 1) * w + w == k * w) by (nonlinear_arith);
    } else {
        assert(items.take(0) =~= Seq::<Seq<u8>>::empty());
    }
}

/// The blocks of a finished column hold the values in order, as the
/// blocks of the column did before its open block was closed.
pub proof fn lemma_finished_holds(items: Seq<Seq<u8>>, stats: bool)
    ensures
        holds_in_order(column_blocks(items, stats), items, stats),
        forall|j: int|
            0 <= j < column_blocks(items, stats).len() ==> 1 <= (#[trigger] column_blocks(
                items,
                stats,
            )[j]).items <= u32::MAX,
{
    let c = column_of(items, stats);
    let all = all_blocks(c);
    let blocks = column_blocks(items, stats);
    lemma_column_holds(items, stats);
    if c.open.items > 0 {
        assert(blocks =~= all);
    } else {
        assert(blocks =~= all.drop_last());
        let n = blocks.len() as int;
        lemma_items_before(all, blocks, n);
        lemma_items_before(all, all, n + 1);
        assert forall|j: int| 0 <= j < blocks.len() implies #[trigger] block_holds(
            blocks,
            items,
            stats,
            j,
        ) by {
            assert(block_holds(all, items, stats, j));
            lemma_items_before(all, blocks, j);
            assert(block_items(blocks, items, j) =~= block_items(all, items, j));
        }
    }
}

/// A value of a column of fixed width is read back from the blocks of the
/// column: where every value has `w` bytes, value `i` of the column is
/// found in its block at `w` times its place.
pub proof fn lemma_fixed_round_trip(items: Seq<Seq<u8>>, stats: bool, w: int, i: int)
    requires
        0 <= i < items.len(),
        forall|t: int| 0 <= t < items.len() ==> (#[trigger] items[t]).len() == w,
    ensures
        fixed_value(
            block_counts(column_blocks(items, stats)),
            block_bytes(column_blocks(items, stats)),
            i,
            w,
        ) == Some(items[i]),
{
    let blocks = column_blocks(items, stats);
    let counts = block_counts(blocks);
    lemma_finished_holds(items, stats);
    let (j, k) = lemma_some_block_holds(blocks, items, stats, i);
    lemma_counts_agree(blocks, j);
    lemma_find_located(counts, i, j, k);
    let held = block_items(blocks, items, j);
    assert(block_holds(blocks, items, stats, j));
    lemma_concat_slice(held, k);
    lemma_uniform_offsets(held, w, k);
    lemma_uniform_offsets(held, w, k + 1);
    lemma_offsets(held, k);
    assert(held[k] == items[i]);
}

/// Every value lies in some block, at some place.
pub proof fn lemma_some_block_holds(
    blocks: Seq<BlockView>,
    items: Seq<Seq<u8>>,
    stats: bool,
    i: int,
) -> (place: (int, int))
    requires
        holds_in_order(blocks, items, stats),
        0 <= i < items.len(),
    ensures
        0 <= place.0 < blocks.len(),
        0 <= place.1 < blocks[place.0].items,
        items_before(blocks, place.0) + place.1 == i,
{
    lemma_block_of(blocks, i, blocks.len() as int)
}

/// A value whose number is below the count of the first `n` blocks lies in
/// one of them.
proof fn lemma_block_of(blocks: Seq<BlockView>, i: int, n: int) -> (place: (int, int))
    requires
        0 <= n <= blocks.len(),
        0 <= i < items_before(blocks, n),
    ensures
        0 <= place.0 < n,
        0 <= place.1 < blocks[place.0].items,
        items_before(blocks, place.0) + place.1 == i,
    decreases n,
{
    if i >= items_before(blocks, n - 1) {
        (n - 1, i - items_before(blocks, n - 1))
    } else {
        lemma_block_of(blocks, i, n - 1)
    }
}

/// The open block of a column is no longer than the limit, unless it
/// holds a single value that is.
pub proof fn lemma_open_block_bound(items: Seq<Seq<u8>>, stats: bool)
    requires
        items.len() > 0,
    ensures
        column_of(items, stats).open.items >= 1,
        column_of(items, stats).open.bytes.len() <= SIZE_LIMIT || column_of(
            items,
            stats,
        ).open.bytes.len() == items.last().len(),
    decreases items.len(),
{
    let head = items.drop_last();
    if head.len() > 0 {
        lemma_open_block_bound(head, stats);
    }
    lemma_column_holds(head, stats);
    let c = column_of(head, stats);
    if !closes(c.open, items.last()) && c.open.bytes.len() == 0 {
        assert(c.open.bytes + items.last() =~= items.last());
    }
}

/// Blocks stay as they are once later values come: the blocks that were
/// closed when the column had taken `m` values are the first blocks of the
/// column for good, and the block that was open then never loses a value.
pub proof fn lemma_blocks_persist(items: Seq<Seq<u8>>, stats: bool, m: int)
    requires
        0 <= m <= items.len(),
    ensures
        column_of(items.take(m), stats).closed.len() <= column_of(items, stats).closed.len(),
        forall|t: int|
            0 <= t < column_of(items.take(m), stats).closed.len() ==> (#[trigger] all_blocks(
                column_of(items, stats),
            )[t]).items == column_of(items.take(m), stats).closed[t].items,
        all_blocks(column_of(items, stats))[column_of(
            items.take(m),
            stats,
        ).closed.len() as int].items >= column_of(items.take(m), stats).open.items,
    decreases items.len(),
{
    if m == items.len() {
        assert(items.take(m) =~= items);
    } else {
        let head = items.drop_last();
        assert(head.take(m) =~= items.take(m));
        lemma_blocks_persist(head, stats, m);
        let c = column_of(head, stats);
        let after = column_push(c, items.last(), stats);
        assert(column_of(items, stats) == after);
        let early = column_of(items.take(m), stats);
        assert forall|t: int| 0 <= t < early.closed.len() implies (#[trigger] all_blocks(
            after,
        )[t]).items == early.closed[t].items by {
            assert(all_blocks(c)[t].items == early.closed[t].items);
        }
    }
}

/// Where a value of a column lies: after the column took value `i`, the
/// number of blocks closed is the number of the block of the value, and
/// the count of the open block is one more than the place of the value in
/// its block.
pub proof fn lemma_place_of(items: Seq<Seq<u8>>, stats: bool, i: int)
    requires
        0 <= i < items.len(),
    ensures
        located(
            block_counts(column_blocks(items, stats)),
            i,
            column_of(items.take(i + 1), stats).closed.len() as int,
            column_of(items.take(i + 1), stats).open.items - 1,
        ),
        column_of(items.take(i + 1), stats).open.bytes.len() == offset_of(
            block_items(
                column_blocks(items, stats),
                items,
                column_of(items.take(i + 1), stats).closed.len() as int,
            ),
            column_of(items.take(i + 1), stats).open.items as int,
        ),
{
    let early_items = items.take(i + 1);
    let early = column_of(early_items, stats);
    let c = column_of(items, stats);
    let blocks = column_blocks(items, stats);
    let j = early.closed.len() as int;
    let k = early.open.items - 1;
    lemma_open_block_bound(early_items, stats);
    lemma_open_block_bound(items, stats);
    lemma_column_holds(early_items, stats);
    lemma_finished_holds(items, stats);
    lemma_blocks_persist(items, stats, i + 1);
    assert(blocks =~= all_blocks(c));
    let early_all = all_blocks(early);
    // The blocks closed early have the counts that they keep.
    lemma_same_counts_before(early_all, blocks, j);
    lemma_items_before(early_all, early_all, j + 1);
    assert(block_holds(early_all, early_items, stats, j));
    lemma_counts_agree(blocks, j);
    assert(items_before(blocks, j) + k == i);
    // The open block then is the start of the block in the end.
    assert(block_holds(blocks, items, stats, j));
    let held = block_items(blocks, items, j);
    assert(block_items(early_all, early_items, j) =~= held.take(k + 1));
}

/// Blocks with the same counts have the same number of values before them.
proof fn lemma_same_counts_before(a: Seq<BlockView>, b: Seq<BlockView>, j: int)
    requires
        0 <= j <= a.len(),
        j <= b.len(),
        forall|t: int| 0 <= t < j ==> (#[trigger] b[t]).items == a[t].items,
    ensures
        items_before(a, j) == items_before(b, j),
    decreases j,
{
    if j > 0 {
        lemma_same_counts_before(a, b, j - 1);
    }
}

/// A value of a column of variable width is read back from the blocks of
/// the column and of its index column: where no value is longer than an
/// offset of four bytes can say, value `i` is found between the offset
/// that the index column holds for the value before it, or the start of
/// the block, and the offset that the index column holds for the value
/// itself.
pub proof fn lemma_variable_round_trip(items: Seq<Seq<u8>>, i: int)
    requires
        0 <= i < items.len(),
        forall|t: int| 0 <= t < items.len() ==> (#[trigger] items[t]).len() <= u32::MAX,
    ensures
        variable_value(
            block_counts(column_blocks(items, false)),
            block_bytes(column_blocks(items, false)),
            block_counts(column_blocks(index_items(items), false)),
            block_bytes(column_blocks(index_items(items), false)),
            i,
        ) == Some(items[i]),
{
    let blocks = column_blocks(items, false);
    let counts = block_counts(blocks);
    let ends = index_items(items);
    let early = column_of(items.take(i + 1), false);
    let j = early.closed.len() as int;
    let k = early.open.items - 1;
    lemma_place_of(items, false, i);
    lemma_find_located(counts, i, j, k);
    lemma_finished_holds(items, false);
    assert(block_holds(blocks, items, false, j));
    let held = block_items(blocks, items, j);
    lemma_counts_agree(blocks, j);
    lemma_index_entry(items, i);
    lemma_concat_slice(held, k);
    lemma_offsets(held, k);
    assert(held[k] == items[i]);
    if k > 0 {
        lemma_index_entry(items, i - 1);
        lemma_place_of(items, false, i - 1);
        let before = column_of(items.take(i), false);
        assert(items.take(i - 1 + 1) =~= items.take(i));
        lemma_find_located(counts, i - 1, before.closed.len() as int, before.open.items - 1);
        assert(located(counts, i - 1, j, k - 1));
        lemma_find_located(counts, i - 1, j, k - 1);
    } else {
        assert(held.take(0) =~= Seq::<Seq<u8>>::empty());
    }
}

/// The index column gives back the offset that it took for a value.
pub proof fn lemma_index_entry(items: Seq<Seq<u8>>, i: int)
    requires
        0 <= i < items.len(),
        forall|t: int| 0 <= t < items.len() ==> (#[trigger] items[t]).len() <= u32::MAX,
    ensures
        index_value(
            block_counts(column_blocks(index_items(items), false)),
            block_bytes(column_blocks(index_items(items), false)),
            i,
        ) == Some(column_of(items.take(i + 1), false).open.bytes.len() as int),
{
    let ends = index_items(items);
    let end = column_of(items.take(i + 1), false).open.bytes.len();
    lemma_open_block_bound(items.take(i + 1), false);
    assert(items.take(i + 1).last() == items[i]);
    assert(end <= u32::MAX);
    assert forall|t: int| 0 <= t < ends.len() implies (#[trigger] ends[t]).len() == 4 by {}
    lemma_fixed_round_trip(ends, false, 4, i);
    lemma_u32_round_trip(end as u32);
}

/// The values that a data field takes from a list of records.
pub open spec fn field_items(records: Seq<Seq<u8>>, f: Fields) -> Seq<Seq<u8>> {
    Seq::new(records.len(), |i: int| field_bytes(records[i], f))
}

/// The values that the column of `f` takes from a list of records: the
/// bytes of the field, or, for an index column, the offsets of the field
/// that it indexes.
pub open spec fn column_items(records: Seq<Seq<u8>>, f: Fields) -> Seq<Seq<u8>> {
    if f.is_index() {
        index_items(field_items(records, f.indexed_field()))
    } else {
        field_items(records, f)
    }
}

/// The columns of the writer are those of a writer that took `records`.
pub open spec fn holds_records(w: Writer, records: Seq<Seq<u8>>) -> bool {
    forall|f: Fields| #[trigger] w.column(f) == column_of(column_items(records, f), keeps_stats(f))
}

/// A new writer holds no records.
pub proof fn lemma_writer_starts(w: Writer)
    requires
        forall|f: Fields| #[trigger] w.column(f) == empty_column(),
    ensures
        holds_records(w, Seq::empty()),
{
    assert forall|f: Fields| #[trigger]
        w.column(f) == column_of(column_items(Seq::empty(), f), keeps_stats(f)) by {
        assert(column_items(Seq::empty(), f) =~= Seq::<Seq<u8>>::empty());
    }
}

/// A writer that held `records` and took one more holds them all: each of
/// its columns took what the model of the column says.
pub proof fn lemma_writer_takes(
    before: Writer,
    after: Writer,
    records: Seq<Seq<u8>>,
    record: Seq<u8>,
)
    requires
        holds_records(before, records),
        forall|f: Fields| #[trigger] after.column(f) == before.column_after(record, f),
    ensures
        holds_records(after, records.push(record)),
{
    let more = records.push(record);
    assert forall|f: Fields| #[trigger]
        after.column(f) == column_of(column_items(more, f), keeps_stats(f)) by {
        assert(after.column(f) == before.column_after(record, f));
        assert(before.column(f) == column_of(column_items(records, f), keeps_stats(f)));
        if f.is_index() {
            let v = f.indexed_field();
            let values = field_items(records, v);
            let value = field_bytes(record, v);
            assert(before.column(v) == column_of(column_items(records, v), keeps_stats(v)));
            assert(field_items(more, v) =~= values.push(value));
            assert(values.push(value).drop_last() =~= values);
            assert(values.push(value).take(records.len() as int + 1) =~= values.push(value));
            assert forall|t: int| 0 <= t < records.len() implies #[trigger] end_after(
                values.push(value),
                t,
            ) == end_after(values, t) by {
                assert(values.push(value).take(t + 1) =~= values.take(t + 1));
            }
            assert(index_items(values.push(value)) =~= index_items(values).push(
                before.payload(record, f),
            ));
            assert(index_items(values).push(before.payload(record, f)).drop_last() =~= index_items(
                values,
            ));
        } else {
            assert(column_items(more, f) =~= column_items(records, f).push(field_bytes(record, f)));
            assert(column_items(records, f).push(field_bytes(record, f)).drop_last()
                =~= column_items(records, f));
        }
    }
}

/// What is written is read back. Let a writer have taken `records`, each
/// one well formed, and let `done` be the writer after its open blocks
/// were closed. Then for each data field and each record, reading the
/// value of that number from the blocks of the field gives the bytes of
/// the field in the record: at a multiple of the width for a field of
/// fixed width, between the offsets of the index column for a field of
/// variable width.
pub proof fn lemma_written_is_read(
    w: Writer,
    done: Writer,
    records: Seq<Seq<u8>>,
    f: Fields,
    i: int,
)
    requires
        holds_records(w, records),
        forall|g: Fields| #[trigger] done.column(g) == column_flush(w.column(g)),
        forall|t: int| 0 <= t < records.len() ==> admissible(#[trigger] records[t]),
        f.is_data(),
        0 <= i < records.len(),
    ensures
        !f.is_variable() ==> fixed_value(
            block_counts(done.column(f).closed),
            block_bytes(done.column(f).closed),
            i,
            f.item_width(),
        ) == Some(field_bytes(records[i], f)),
        f.is_variable() ==> variable_value(
            block_counts(done.column(f).closed),
            block_bytes(done.column(f).closed),
            block_counts(done.column(f.index_field()).closed),
            block_bytes(done.column(f.index_field()).closed),
            i,
        ) == Some(field_bytes(records[i], f)),
{
    let values = field_items(records, f);
    assert(done.column(f) == column_flush(w.column(f)));
    assert(w.column(f) == column_of(column_items(records, f), keeps_stats(f)));
    assert forall|t: int| 0 <= t < values.len() implies (#[trigger] values[t]).len() <= u32::MAX
        && (!f.is_variable() ==> values[t].len() == f.item_width()) by {
        assert(admissible(records[t]));
        lemma_fields_in_bounds(records[t], f);
    }
    if f.is_variable() {
        let x = f.index_field();
        assert(x.is_index() && x.indexed_field() == f);
        assert(done.column(x) == column_flush(w.column(x)));
        assert(w.column(x) == column_of(column_items(records, x), keeps_stats(x)));
        lemma_variable_round_trip(values, i);
    } else {
        lemma_fixed_round_trip(values, keeps_stats(f), f.item_width(), i);
    }
}

/// The reader was handed the blocks of the column of `f` as the writer
/// closed them: the metadata has their counts, and their bytes are there.
pub open spec fn holds_blocks(reader: Reader, done: Writer, f: Fields) -> bool {
    reader.counts(f) == block_counts(done.column(f).closed) && reader.bytes(f) == block_bytes(
        done.column(f).closed,
    )
}

/// A reader gives back what a writer took. Let a writer have taken
/// `records`, each one well formed, let `done` be the writer after its
/// open blocks were closed, and let a reader hold the blocks of a data
/// field, and of its index column if it has one, as the writer closed
/// them. Then the reader reads of each record the bytes that the field has
/// in the record.
pub proof fn lemma_reader_round_trip(
    w: Writer,
    done: Writer,
    records: Seq<Seq<u8>>,
    reader: Reader,
    f: Fields,
    i: int,
)
    requires
        holds_records(w, records),
        forall|g: Fields| #[trigger] done.column(g) == column_flush(w.column(g)),
        forall|t: int| 0 <= t < records.len() ==> admissible(#[trigger] records[t]),
        f.is_data(),
        0 <= i < records.len(),
        holds_blocks(reader, done, f),
        f.is_variable() ==> holds_blocks(reader, done, f.index_field()),
    ensures
        reader.value(f, i) == Some(field_bytes(records[i], f)),
{
    lemma_written_is_read(w, done, records, f, i);
}

/// The task that a column hands out when a block is closed is that block:
/// it carries the bytes and the count of the block, and its key is the
/// number of the block among the blocks of the column.
pub proof fn lemma_task_is_block(c: ColumnView, data: Seq<u8>, stats: bool, f: Fields, codec: Codecs)
    ensures
        closes(c.open, data) ==> {
            let t = closing_task(c, f, codec);
            let block = column_push(c, data, stats).closed[t.ordering_key as int];
            t.bytes == block.bytes && t.num_items == block.items
        },
        c.open.items > 0 ==> {
            let t = closing_task(c, f, codec);
            let block = column_flush(c).closed[t.ordering_key as int];
            t.bytes == block.bytes && t.num_items == block.items
        },
{
}

/// Two columns have blocks of the same counts where their values have the
/// same lengths, value for value: the cutting of a column into blocks goes
/// by the lengths of the values alone. In particular the blocks of two
/// fields of one fixed width hold the same records.
pub proof fn lemma_counts_by_length(a: Seq<Seq<u8>>, b: Seq<Seq<u8>>, stats_a: bool, stats_b: bool)
    requires
        a.len() == b.len(),
        forall|t: int| 0 <= t < a.len() ==> (#[trigger] a[t]).len() == b[t].len(),
    ensures
        block_counts(column_blocks(a, stats_a)) == block_counts(column_blocks(b, stats_b)),
{
    lemma_same_shape(a, b, stats_a, stats_b);
    let ca = column_of(a, stats_a);
    let cb = column_of(b, stats_b);
    if ca.open.items > 0 {
        assert(block_counts(ca.closed.push(ca.open)) =~= block_counts(ca.closed).push(
            ca.open.items,
        ));
        assert(block_counts(cb.closed.push(cb.open)) =~= block_counts(cb.closed).push(
            cb.open.items,
        ));
    }
}

/// Columns whose values have the same lengths have the same shape: the
/// same counts in their closed blocks, and open blocks of the same count
/// and length.
proof fn lemma_same_shape(a: Seq<Seq<u8>>, b: Seq<Seq<u8>>, stats_a: bool, stats_b: bool)
    requires
        a.len() == b.len(),
        forall|t: int| 0 <= t < a.len() ==> (#[trigger] a[t]).len() == b[t].len(),
    ensures
        block_counts(column_of(a, stats_a).closed) == block_counts(column_of(b, stats_b).closed),
        column_of(a, stats_a).open.items == column_of(b, stats_b).open.items,
        column_of(a, stats_a).open.bytes.len() == column_of(b, stats_b).open.bytes.len(),
    decreases a.len(),
{
    if a.len() > 0 {
        lemma_same_shape(a.drop_last(), b.drop_last(), stats_a, stats_b);
        let ca = column_of(a.drop_last(), stats_a);
        let cb = column_of(b.drop_last(), stats_b);
        assert(a.last().len() == b.last().len());
        assert(closes(ca.open, a.last()) == closes(cb.open, b.last()));
        if closes(ca.open, a.last()) {
            assert(block_counts(ca.closed.push(ca.open)) =~= block_counts(ca.closed).push(
                ca.open.items,
            ));
            assert(block_counts(cb.closed.push(cb.open)) =~= block_counts(cb.closed).push(
                cb.open.items,
            ));
        }
    } else {
        assert(block_counts(column_of(a, stats_a).closed) =~= block_counts(
            column_of(b, stats_b).closed,
        ));
    }
}

/// The blocks of a column of fixed width are full: where every value has
/// `w` bytes, for one of the widths of the catalog, every block that was
/// closed before the end holds as many values as fit under the limit.
pub proof fn lemma_fixed_blocks_full(items: Seq<Seq<u8>>, stats: bool, w: int, j: int)
    requires
        w == 1 || w == 2 || w == 4,
        forall|t: int| 0 <= t < items.len() ==> (#[trigger] items[t]).len() == w,
        0 <= j < column_of(items, stats).closed.len(),
    ensures
        column_of(items, stats).closed[j].items == SIZE_LIMIT as int / w,
        column_of(items, stats).open.bytes.len() == w * column_of(items, stats).open.items,
        column_of(items, stats).open.items <= SIZE_LIMIT as int / w,
    decreases items.len(),
{
    lemma_fixed_open_block(items, stats, w);
    let head = items.drop_last();
    let c = column_of(head, stats);
    lemma_fixed_open_block(head, stats, w);
    if j < c.closed.len() {
        lemma_fixed_blocks_full(head, stats, w, j);
    }
}

/// The open block of a column of fixed width holds whole values, and no
/// more than fit under the limit.
proof fn lemma_fixed_open_block(items: Seq<Seq<u8>>, stats: bool, w: int)
    requires
        w == 1 || w == 2 || w == 4,
        forall|t: int| 0 <= t < items.len() ==> (#[trigger] items[t]).len() == w,
    ensures
        column_of(items, stats).open.bytes.len() == w * column_of(items, stats).open.items,
        column_of(items, stats).open.items <= SIZE_LIMIT as int / w,
    decreases items.len(),
{
    if items.len() > 0 {
        lemma_fixed_open_block(items.drop_last(), stats, w);
    }
}

/// The statistics of a block bound its values: in a column that keeps
/// statistics, every block with a value has a range, and every value of
/// the block, read as a signed integer of four bytes, lies in it.
pub proof fn lemma_range_covers(items: Seq<Seq<u8>>, j: int, k: int)
    requires
        0 <= j < column_blocks(items, true).len(),
        0 <= k < column_blocks(items, true)[j].items,
    ensures
        column_blocks(items, true)[j].range matches Some((lo, hi)) && lo <= le_i32(
            block_items(column_blocks(items, true), items, j)[k],
        ) <= hi,
{
    let blocks = column_blocks(items, true);
    lemma_finished_holds(items, true);
    assert(block_holds(blocks, items, true, j));
    lemma_range_bounds(block_items(blocks, items, j), k);
}

/// The range of a list of values holds each of them.
pub proof fn lemma_range_bounds(items: Seq<Seq<u8>>, k: int)
    requires
        0 <= k < items.len(),
    ensures
        range_of(items) matches Some((lo, hi)) && lo <= le_i32(items[k]) <= hi,
    decreases items.len(),
{
    if k < items.len() - 1 {
        lemma_range_bounds(items.drop_last(), k);
    }
}

/// The blocks of two fields of one fixed width hold the same records: let
/// a writer have taken `records`, each one well formed, and let `done` be
/// the writer after its open blocks were closed. Then the blocks of two
/// data fields of the same fixed width have, block for block, the same
/// counts.
pub proof fn lemma_uniform_blocks(
    w: Writer,
    done: Writer,
    records: Seq<Seq<u8>>,
    f: Fields,
    g: Fields,
)
    requires
        holds_records(w, records),
        forall|h: Fields| #[trigger] done.column(h) == column_flush(w.column(h)),
        forall|t: int| 0 <= t < records.len() ==> admissible(#[trigger] records[t]),
        f.is_data() && !f.is_variable(),
        g.is_data() && !g.is_variable(),
        f.item_width() == g.item_width(),
    ensures
        block_counts(done.column(f).closed) == block_counts(done.column(g).closed),
{
    let a = field_items(records, f);
    let b = field_items(records, g);
    assert(done.column(f) == column_flush(w.column(f)));
    assert(done.column(g) == column_flush(w.column(g)));
    assert(w.column(f) == column_of(column_items(records, f), keeps_stats(f)));
    assert(w.column(g) == column_of(column_items(records, g), keeps_stats(g)));
    assert forall|t: int| 0 <= t < a.len() implies (#[trigger] a[t]).len() == b[t].len() by {
        assert(admissible(records[t]));
        lemma_fields_in_bounds(records[t], f);
        lemma_fields_in_bounds(records[t], g);
    }
    lemma_counts_by_length(a, b, keeps_stats(f), keeps_stats(g));
}

/// The statistics of the blocks of reference ids are right: let a writer
/// have taken `records`, each one well formed, and let `done` be the
/// writer after its open blocks were closed. Then every block of reference
/// ids has a range, and the reference id of every record of the block lies
/// in it.
pub proof fn lemma_stats_hold(w: Writer, done: Writer, records: Seq<Seq<u8>>, i: int, j: int, k: int)
    requires
        holds_records(w, records),
        forall|h: Fields| #[trigger] done.column(h) == column_flush(w.column(h)),
        forall|t: int| 0 <= t < records.len() ==> admissible(#[trigger] records[t]),
        located(block_counts(done.column(Fields::RefID).closed), i, j, k),
    ensures
        0 <= i < records.len(),
        done.column(Fields::RefID).closed[j].range matches Some((lo, hi)) && lo <= le_i32(
            field_bytes(records[i], Fields::RefID),
        ) <= hi,
{
    let items = field_items(records, Fields::RefID);
    let blocks = column_blocks(items, true);
    assert(done.column(Fields::RefID) == column_flush(w.column(Fields::RefID)));
    assert(w.column(Fields::RefID) == column_of(
        column_items(records, Fields::RefID),
        keeps_stats(Fields::RefID),
    ));
    lemma_finished_holds(items, true);
    lemma_counts_agree(blocks, j);
    assert(block_holds(blocks, items, true, j));
    lemma_range_covers(items, j, k);
    assert(block_items(blocks, items, j)[k] == items[i]);
}

} // verus!
