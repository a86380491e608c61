//! The model of a column: how a stream of values is cut into blocks.
//!
//! A column takes the values of one field, record after record. The values
//! are gathered in an open block. Before a value that would take the open
//! block past `SIZE_LIMIT` the block is closed and the value opens the
//! next one; a value that is larger than the limit therefore gets a block
//! of its own. The laws of this file say that the blocks hold the values in
//! their order, without a gap, and where in its block each value lies.

use crate::bytes::le_i32;
use crate::SIZE_LIMIT;
use vstd::prelude::*;

verus! {

/// A block: its bytes, the number of values in it, and the least and the
/// greatest of them where the column keeps statistics.
pub struct BlockView {
    pub bytes: Seq<u8>,
    pub items: nat,
    pub range: Option<(int, int)>,
}

/// A column: the blocks that were closed, oldest first, and the open one.
pub struct ColumnView {
    pub closed: Seq<BlockView>,
    pub open: BlockView,
}

/// The block that holds nothing.
pub open spec fn empty_block() -> BlockView {
    BlockView { bytes: Seq::empty(), items: 0, range: None }
}

/// The column that took no value.
pub open spec fn empty_column() -> ColumnView {
    ColumnView { closed: Seq::empty(), open: empty_block() }
}

/// The open block is closed before it takes `data`: it holds bytes and
/// would grow past the limit, or its counter of values is exhausted.
pub open spec fn closes(open: BlockView, data: Seq<u8>) -> bool {
    (open.bytes.len() > 0 && open.bytes.len() + data.len() > SIZE_LIMIT) || open.items >= u32::MAX
}

/// A range of values made wider, if need be, to hold `v`.
pub open spec fn widen(range: Option<(int, int)>, v: int) -> (int, int) {
    match range {
        None => (v, v),
        Some((lo, hi)) => (
            if v < lo {
                v
            } else {
                lo
            },
            if v > hi {
                v
            } else {
                hi
            },
        ),
    }
}

/// The statistics of a block after it took `data`. A column that keeps
/// statistics reads each value as a signed integer of four bytes.
pub open spec fn range_with(stats: bool, range: Option<(int, int)>, data: Seq<u8>) -> Option<
    (int, int),
> {
    if stats {
        Some(widen(range, le_i32(data)))
    } else {
        None
    }
}

/// The open block after the column took `data`.
pub open spec fn open_after(open: BlockView, data: Seq<u8>, stats: bool) -> BlockView {
    if closes(open, data) {
        BlockView { bytes: data, items: 1, range: range_with(stats, None, data) }
    } else {
        BlockView {
            bytes: open.bytes + data,
            items: open.items + 1,
            range: range_with(stats, open.range, data),
        }
    }
}

/// The column after it took `data`.
pub open spec fn column_push(c: ColumnView, data: Seq<u8>, stats: bool) -> ColumnView {
    ColumnView {
        closed: if closes(c.open, data) {
            c.closed.push(c.open)
        } else {
            c.closed
        },
        open: open_after(c.open, data, stats),
    }
}

/// The column after its open block was closed, if that block held a value.
pub open spec fn column_flush(c: ColumnView) -> ColumnView {
    if c.open.items > 0 {
        ColumnView { closed: c.closed.push(c.open), open: empty_block() }
    } else {
        c
    }
}

/// The column that took the values `items`, first to last.
pub open spec fn column_of(items: Seq<Seq<u8>>, stats: bool) -> ColumnView
    decreases items.len(),
{
    if items.len() == 0 {
        empty_column()
    } else {
        column_push(column_of(items.drop_last(), stats), items.last(), stats)
    }
}

/// The blocks of a finished column that took the values `items`.
pub open spec fn column_blocks(items: Seq<Seq<u8>>, stats: bool) -> Seq<BlockView> {
    column_flush(column_of(items, stats)).closed
}

/// The closed blocks of a column followed by its open block.
pub open spec fn all_blocks(c: ColumnView) -> Seq<BlockView> {
    c.closed.push(c.open)
}

/// Number of values in the blocks before block `j`.
pub open spec fn items_before(blocks: Seq<BlockView>, j: int) -> int
    decreases j,
{
    if j <= 0 {
        0
    } else {
        items_before(blocks, j - 1) + blocks[j - 1].items
    }
}

/// The values `items` written one after another.
pub open spec fn concat(items: Seq<Seq<u8>>) -> Seq<u8>
    decreases items.len(),
{
    if items.len() == 0 {
        Seq::empty()
    } else {
        concat(items.drop_last()) + items.last()
    }
}

/// The values that block `j` holds, where the blocks hold `items` in order.
pub open spec fn block_items(blocks: Seq<BlockView>, items: Seq<Seq<u8>>, j: int) -> Seq<
    Seq<u8>,
> {
    items.subrange(items_before(blocks, j), items_before(blocks, j) + blocks[j].items)
}

/// The least and greatest of the values `items`, each read as a signed
/// integer of four bytes.
pub open spec fn range_of(items: Seq<Seq<u8>>) -> Option<(int, int)>
    decreases items.len(),
{
    if items.len() == 0 {
        None
    } else {
        Some(widen(range_of(items.drop_last()), le_i32(items.last())))
    }
}

/// Block `j` is made of the values that follow those of the blocks before
/// it, and where statistics are kept they are the range of those values.
pub open spec fn block_holds(
    blocks: Seq<BlockView>,
    items: Seq<Seq<u8>>,
    stats: bool,
    j: int,
) -> bool {
    &&& 0 <= items_before(blocks, j)
    &&& items_before(blocks, j) + blocks[j].items <= items.len()
    &&& blocks[j].bytes == concat(block_items(blocks, items, j))
    &&& blocks[j].range == if stats {
        range_of(block_items(blocks, items, j))
    } else {
        None
    }
}

/// The blocks hold the values `items` in order and without a gap.
pub open spec fn holds_in_order(blocks: Seq<BlockView>, items: Seq<Seq<u8>>, stats: bool) -> bool {
    &&& items_before(blocks, blocks.len() as int) == items.len()
    &&& forall|j: int| 0 <= j < blocks.len() ==> #[trigger] block_holds(blocks, items, stats, j)
}

/// The count of the values before a block depends on the blocks before it
/// alone, and grows with the block.
pub proof fn lemma_items_before(a: Seq<BlockView>, b: Seq<BlockView>, j: int)
    requires
        0 <= j <= a.len(),
        j <= b.len(),
        forall|t: int| 0 <= t < j ==> a[t] == b[t],
    ensures
        items_before(a, j) == items_before(b, j),
        0 <= items_before(a, j),
        j > 0 ==> items_before(a, j - 1) + a[j - 1].items == items_before(a, j),
    decreases j,
{
    if j > 0 {
        lemma_items_before(a, b, j - 1);
    }
}

/// Writing one more value after others.
pub proof fn lemma_concat_push(items: Seq<Seq<u8>>, x: Seq<u8>)
    ensures
        concat(items.push(x)) == concat(items) + x,
        concat(seq![x]) == x,
        range_of(items.push(x)) == Some(widen(range_of(items), le_i32(x))),
        range_of(seq![x]) == Some(widen(None, le_i32(x))),
{
    assert(items.push(x).drop_last() =~= items);
    assert(seq![x].drop_last() =~= Seq::<Seq<u8>>::empty());
    assert(concat(Seq::<Seq<u8>>::empty()) + x =~= x);
    assert(range_of(seq![x].drop_last()) == None::<(int, int)>);
    assert(seq![x].last() == x);
}

/// A block that holds its values keeps holding them when blocks and
/// values are added after it.
proof fn lemma_block_stays(
    a: Seq<BlockView>,
    b: Seq<BlockView>,
    items: Seq<Seq<u8>>,
    x: Seq<u8>,
    stats: bool,
    j: int,
)
    requires
        0 <= j < a.len(),
        j < b.len(),
        forall|t: int| 0 <= t <= j ==> a[t] == b[t],
        block_holds(a, items, stats, j),
    ensures
        block_holds(b, items.push(x), stats, j),
{
    lemma_items_before(a, b, j);
    assert(block_items(b, items.push(x), j) =~= block_items(a, items, j));
}

/// The blocks still hold the values after the open block was closed and
/// the next value opened a new one.
proof fn lemma_holds_after_close(
    blocks: Seq<BlockView>,
    items: Seq<Seq<u8>>,
    x: Seq<u8>,
    stats: bool,
)
    requires
        holds_in_order(blocks, items, stats),
    ensures
        holds_in_order(
            blocks.push(BlockView { bytes: x, items: 1, range: range_with(stats, None, x) }),
            items.push(x),
            stats,
        ),
{
    let all = blocks.push(BlockView { bytes: x, items: 1, range: range_with(stats, None, x) });
    let n = blocks.len() as int;
    lemma_items_before(all, blocks, n);
    lemma_items_before(all, all, n + 1);
    assert forall|j: int| 0 <= j < all.len() implies #[trigger] block_holds(
        all,
        items.push(x),
        stats,
        j,
    ) by {
        if j < n {
            assert(block_holds(blocks, items, stats, j));
            lemma_block_stays(blocks, all, items, x, stats, j);
        } else {
            assert(block_items(all, items.push(x), j) =~= seq![x]);
            lemma_concat_push(Seq::empty(), x);
        }
    }
}

/// The blocks still hold the values after the last block took one more.
proof fn lemma_holds_after_extend(
    blocks: Seq<BlockView>,
    items: Seq<Seq<u8>>,
    x: Seq<u8>,
    stats: bool,
)
    requires
        blocks.len() > 0,
        holds_in_order(blocks, items, stats),
    ensures
        holds_in_order(
            blocks.drop_last().push(
                BlockView {
                    bytes: blocks.last().bytes + x,
                    items: blocks.last().items + 1,
                    range: range_with(stats, blocks.last().range, x),
                },
            ),
            items.push(x),
            stats,
        ),
{
    let grown = BlockView {
        bytes: blocks.last().bytes + x,
        items: blocks.last().items + 1,
        range: range_with(stats, blocks.last().range, x),
    };
    let all = blocks.drop_last().push(grown);
    let last = blocks.len() - 1;
    lemma_items_before(all, blocks, last);
    lemma_items_before(all, all, last + 1);
    lemma_items_before(blocks, blocks, last + 1);
    assert forall|j: int| 0 <= j < all.len() implies #[trigger] block_holds(
        all,
        items.push(x),
        stats,
        j,
    ) by {
        assert(block_holds(blocks, items, stats, j));
        if j < last {
            lemma_block_stays(blocks, all, items, x, stats, j);
        } else {
            assert(block_items(all, items.push(x), j) =~= block_items(blocks, items, j).push(x));
            lemma_concat_push(block_items(blocks, items, j), x);
        }
    }
}

/// A column holds the values it took in order: its closed blocks and its
/// open block, taken together, are made of the values one after another.
pub proof fn lemma_column_holds(items: Seq<Seq<u8>>, stats: bool)
    ensures
        holds_in_order(all_blocks(column_of(items, stats)), items, stats),
        column_of(items, stats).open.items <= u32::MAX,
        column_of(items, stats).open.items == 0 ==> column_of(items, stats).open == empty_block(),
        forall|j: int|
            0 <= j < column_of(items, stats).closed.len() ==> 1 <= (#[trigger] column_of(
                items,
                stats,
            ).closed[j]).items <= u32::MAX,
    decreases items.len(),
{
    let c = column_of(items, stats);
    let all = all_blocks(c);
    if items.len() == 0 {
        assert(items_before(all, 1) == items_before(all, 0) + all[0].items);
        assert(block_items(all, items, 0) =~= Seq::<Seq<u8>>::empty());
        assert(block_holds(all, items, stats, 0));
    } else {
        let prev = items.drop_last();
        let x = items.last();
        let pc = column_of(prev, stats);
        let pall = all_blocks(pc);
        lemma_column_holds(prev, stats);
        assert(items =~= prev.push(x));
        if closes(pc.open, x) {
            lemma_holds_after_close(pall, prev, x, stats);
            assert(all =~= pall.push(
                BlockView { bytes: x, items: 1, range: range_with(stats, None, x) },
            ));
        } else {
            lemma_holds_after_extend(pall, prev, x, stats);
            assert(pall.drop_last() =~= pc.closed);
            assert(all =~= pall.drop_last().push(open_after(pc.open, x, stats)));
        }
    }
}

} // verus!
