//! Read depth of one reference.
//!
//! The records of a sorted file that lie on one reference stand together.
//! The statistics of the blocks of reference ids tell which blocks can
//! hold them, so only the records of those blocks are read. Each of them
//! that lies on the reference is swept into a coverage vector, which then
//! holds, for each base, the number of alignments that cover it.

use crate::bytes::{le_i32, read_i32};
use crate::fields::Fields;
use crate::meta::BlockMeta;
use crate::query::cigar::{base_coverage, coverage_of, lemma_coverage_bound};
use crate::query::coverage::{
    accumulate, clip, delta_at, depth_at, lemma_delta_bound, lemma_sums_are_running,
    lemma_sweep_counts, step_at, sum_upto, Alignment,
};
use crate::reader::{
    count_before, counts_of, lemma_count_before_grows, lemma_fixed_value_len,
    lemma_variable_value_len, GbamRecord, Reader,
};
use vstd::prelude::*;

verus! {

/// Why a depth query failed.
#[derive(Clone, Copy, Debug, PartialEq, Eq, Structural)]
pub enum DepthError {
    /// The record of this number could not be read: a block that holds one
    /// of its fields was not handed to the reader, or the reader was not
    /// asked for reference id, position and CIGAR.
    Unreadable(usize),
    /// More records would have to be swept than a depth can count.
    TooManyRecords,
}

/// Every field that the reader is asked for can be read of record `i`.
pub open spec fn readable(reader: Reader, i: int) -> bool {
    forall|f: Fields| reader.wanted(f) ==> (#[trigger] reader.value(f, i)) is Some
}

/// The reader is asked for what the sweep needs: reference id, position
/// and CIGAR.
pub open spec fn reads_alignments(reader: Reader) -> bool {
    reader.wanted(Fields::RefID) && reader.wanted(Fields::Pos) && reader.wanted(Fields::RawCigar)
}

/// What the sweep reads of the bytes of reference id, position and CIGAR.
pub open spec fn alignment_of(refid: Seq<u8>, pos: Seq<u8>, cigar: Seq<u8>) -> Alignment {
    Alignment {
        refid: le_i32(refid) as i32,
        pos: le_i32(pos) as i32,
        base_cov: coverage_of(cigar) as u64,
    }
}

/// What the sweep reads of record `i`, where the record can be read.
pub open spec fn alignment_at(reader: Reader, i: int) -> Option<Alignment> {
    if readable(reader, i) && reads_alignments(reader) {
        match (
            reader.value(Fields::RefID, i),
            reader.value(Fields::Pos, i),
            reader.value(Fields::RawCigar, i),
        ) {
            (Some(refid), Some(pos), Some(cigar)) => Some(alignment_of(refid, pos, cigar)),
            _ => None,
        }
    } else {
        None
    }
}

/// What the sweep reads of the records from `first` up to, not including,
/// `end`.
pub open spec fn alignments(reader: Reader, first: int, end: int) -> Seq<Alignment> {
    Seq::new(
        (end - first) as nat,
        |t: int|
            match alignment_at(reader, first + t) {
                Some(a) => a,
                None => Alignment { refid: 0, pos: 0, base_cov: 0 },
            },
    )
}

/// What the sweep reads of a record that was brought back.
fn read_alignment(rec: &GbamRecord) -> (a: Option<(i32, i32, u64)>)
    requires
        rec.wf(),
        rec.field(Fields::RefID) matches Some(b) ==> b.len() == 4,
        rec.field(Fields::Pos) matches Some(b) ==> b.len() == 4,
        rec.field(Fields::RawCigar) matches Some(b) ==> b.len() <= u32::MAX,
    ensures
        match a {
            Some((refid, pos, cov)) => {
                &&& rec.field(Fields::RefID) matches Some(r)
                &&& rec.field(Fields::Pos) matches Some(p)
                &&& rec.field(Fields::RawCigar) matches Some(c)
                &&& alignment_of(r, p, c) == (Alignment { refid, pos, base_cov: cov })
                &&& cov <= 0x0fff_ffff * 0x4000_0000
            },
            None => rec.field(Fields::RefID) is None || rec.field(Fields::Pos) is None || rec.field(
                Fields::RawCigar,
            ) is None,
        },
{
    let refid = match rec.get(&Fields::RefID) {
        Some(b) => read_i32(b),
        None => {
            return None;
        },
    };
    let pos = match rec.get(&Fields::Pos) {
        Some(b) => read_i32(b),
        None => {
            return None;
        },
    };
    match rec.get(&Fields::RawCigar) {
        Some(b) => {
            proof {
                lemma_coverage_bound(b@, b@.len() as int / 4);
            }
            Some((refid, pos, base_coverage(b)))
        },
        None => None,
    }
}

/// Sweeps the records from `first` up to, not including, `end` into
/// `scan_line`: each record that lies on `target_id` adds one at the base
/// where it starts and takes one away at the base after its last. The part
/// of an alignment that lies before the first base or after the last base
/// of the reference is cut off, so an alignment that ends with the
/// reference takes nothing away.
///
/// The sweep fails at the first record that cannot be read.
pub fn process_range(
    reader: &Reader,
    first: usize,
    end: usize,
    scan_line: Vec<i32>,
    target_id: i32,
) -> (result: Result<Vec<i32>, DepthError>)
    requires
        reader.wf(),
        first <= end,
        forall|p: int|
            0 <= p < scan_line@.len() ==> -(i32::MAX - (end - first)) <= #[trigger] scan_line@[p]
                <= i32::MAX - (end - first),
    ensures
        match result {
            Ok(line) => {
                &&& forall|i: int| first <= i < end ==> alignment_at(*reader, i) is Some
                &&& line@.len() == scan_line@.len()
                &&& forall|p: int|
                    0 <= p < line@.len() ==> #[trigger] line@[p] == scan_line@[p] + delta_at(
                        alignments(*reader, first as int, end as int),
                        target_id,
                        line@.len() as int,
                        p,
                    )
            },
            Err(e) => exists|i: int|
                {
                    &&& first <= i < end
                    &&& e == DepthError::Unreadable(i as usize)
                    &&& alignment_at(*reader, i) is None
                    &&& forall|k: int| first <= k < i ==> alignment_at(*reader, k) is Some
                },
        },
{
    let ghost start_line = scan_line@;
    let mut scan_line = scan_line;
    let len: usize = scan_line.len();
    let mut rec = GbamRecord::default();
    let mut idx: usize = first;
    proof {
        assert(alignments(*reader, first as int, first as int) =~= Seq::<Alignment>::empty());
    }
    while idx < end
        invariant
            first <= idx <= end,
            reader.wf(),
            len == scan_line@.len(),
            len == start_line.len(),
            forall|i: int| first <= i < idx ==> alignment_at(*reader, i) is Some,
            forall|p: int|
                0 <= p < len ==> -(i32::MAX - (end - first)) <= #[trigger] start_line[p] <= i32::MAX
                    - (end - first),
            forall|p: int|
                0 <= p < len ==> #[trigger] scan_line@[p] == start_line[p] + delta_at(
                    alignments(*reader, first as int, idx as int),
                    target_id,
                    len as int,
                    p,
                ),
        decreases end - idx,
    {
        let ghost done = alignments(*reader, first as int, idx as int);
        let ok = reader.fill_record(idx, &mut rec);
        if !ok {
            return Err(DepthError::Unreadable(idx));
        }
        proof {
            assert(readable(*reader, idx as int));
            lemma_fixed_value_len(
                reader.counts(Fields::RefID),
                reader.bytes(Fields::RefID),
                idx as int,
                4,
            );
            lemma_fixed_value_len(
                reader.counts(Fields::Pos),
                reader.bytes(Fields::Pos),
                idx as int,
                4,
            );
            lemma_variable_value_len(
                reader.counts(Fields::RawCigar),
                reader.bytes(Fields::RawCigar),
                reader.counts(Fields::NCigar),
                reader.bytes(Fields::NCigar),
                idx as int,
            );
            assert(rec.field(Fields::RefID) == if reader.wanted(Fields::RefID) {
                reader.value(Fields::RefID, idx as int)
            } else {
                None
            });
            assert(rec.field(Fields::Pos) == if reader.wanted(Fields::Pos) {
                reader.value(Fields::Pos, idx as int)
            } else {
                None
            });
            assert(rec.field(Fields::RawCigar) == if reader.wanted(Fields::RawCigar) {
                reader.value(Fields::RawCigar, idx as int)
            } else {
                None
            });
        }
        let (refid, pos, cov) = match read_alignment(&rec) {
            Some(a) => a,
            None => {
                return Err(DepthError::Unreadable(idx));
            },
        };
        let ghost a = Alignment { refid, pos, base_cov: cov };
        proof {
            assert(alignment_at(*reader, idx as int) == Some(a));
            assert(alignments(*reader, first as int, idx + 1) =~= done.push(a));
            assert(done.push(a).drop_last() =~= done);
            lemma_delta_bound(done, target_id, len as int, 0);
        }
        if refid == target_id {
            let read_start: i128 = pos as i128;
            let read_end: i128 = pos as i128 + cov as i128;
            let s: i128 = if read_start < 0 {
                0
            } else if read_start > len as i128 {
                len as i128
            } else {
                read_start
            };
            let e: i128 = if read_end < 0 {
                0
            } else if read_end > len as i128 {
                len as i128
            } else {
                read_end
            };
            assert(s == clip(a.start(), len as int) && e == clip(a.end(), len as int));
            if s < e {
                let at: usize = s as usize;
                proof {
                    lemma_delta_bound(done, target_id, len as int, at as int);
                }
                scan_line[at] = scan_line[at] + 1;
                if e < len as i128 {
                    let past: usize = e as usize;
                    proof {
                        lemma_delta_bound(done, target_id, len as int, past as int);
                    }
                    scan_line[past] = scan_line[past] - 1;
                }
            }
        }
        proof {
            assert forall|p: int| 0 <= p < len implies #[trigger] scan_line@[p] == start_line[p]
                + delta_at(done.push(a), target_id, len as int, p) by {
                assert(delta_at(done.push(a), target_id, len as int, p) == delta_at(
                    done,
                    target_id,
                    len as int,
                    p,
                ) + step_at(a, target_id, len as int, p));
            }
        }
        idx += 1;
    }
    Ok(scan_line)
}

/// The least reference id of block `j`, as its statistics give it.
pub open spec fn min_at(blocks: Seq<BlockMeta>, j: int) -> int {
    match blocks[j].range() {
        Some((lo, hi)) => lo,
        None => 0,
    }
}

/// The greatest reference id of block `j`, as its statistics give it.
pub open spec fn max_at(blocks: Seq<BlockMeta>, j: int) -> int {
    match blocks[j].range() {
        Some((lo, hi)) => hi,
        None => 0,
    }
}

/// Every block has statistics.
pub open spec fn all_ranged(blocks: Seq<BlockMeta>) -> bool {
    forall|j: int| 0 <= j < blocks.len() ==> (#[trigger] blocks[j]).range() is Some
}

/// The statistics go up from block to block, as they do in a sorted file.
pub open spec fn ranges_sorted(blocks: Seq<BlockMeta>) -> bool {
    forall|a: int, b: int|
        #![trigger min_at(blocks, a), min_at(blocks, b)]
        #![trigger max_at(blocks, a), max_at(blocks, b)]
        0 <= a <= b < blocks.len() ==> min_at(blocks, a) <= min_at(blocks, b) && max_at(blocks, a)
            <= max_at(blocks, b)
}

/// The statistics can guide a search: every block has them, and they go
/// up from block to block.
pub open spec fn stats_usable(blocks: Seq<BlockMeta>) -> bool {
    all_ranged(blocks) && ranges_sorted(blocks)
}

/// The first block, from block `j` on, whose greatest id is at least `id`;
/// the number of blocks where there is none.
pub open spec fn leftmost(blocks: Seq<BlockMeta>, id: int, j: int) -> int
    decreases blocks.len() - j,
{
    if j < 0 || j >= blocks.len() {
        blocks.len() as int
    } else if max_at(blocks, j) >= id {
        j
    } else {
        leftmost(blocks, id, j + 1)
    }
}

/// One more than the last block, among the first `n`, whose least id is at
/// most `id`; zero where there is none.
pub open spec fn rightmost(blocks: Seq<BlockMeta>, id: int, n: int) -> int
    decreases n,
{
    if n <= 0 {
        0
    } else if n <= blocks.len() && min_at(blocks, n - 1) <= id {
        n
    } else {
        rightmost(blocks, id, n - 1)
    }
}

/// The reference `id` is absent: the leftmost block that could hold it
/// starts above it, or there is no such block.
pub open spec fn absent(blocks: Seq<BlockMeta>, id: int) -> bool {
    leftmost(blocks, id, 0) >= blocks.len() || min_at(blocks, leftmost(blocks, id, 0)) > id
}

/// The records to read for the reference `id`, as the first and the one
/// after the last: those of the blocks from the leftmost whose greatest id
/// is at least `id` to the rightmost whose least id is at most `id`; none
/// where the reference is absent; all where the statistics cannot guide.
pub open spec fn scan_bounds(blocks: Seq<BlockMeta>, id: int) -> (int, int) {
    let counts = counts_of(blocks);
    if !stats_usable(blocks) {
        (0, count_before(counts, blocks.len() as int))
    } else if absent(blocks, id) {
        (0, 0)
    } else {
        (
            count_before(counts, leftmost(blocks, id, 0)),
            count_before(counts, rightmost(blocks, id, blocks.len() as int)),
        )
    }
}

/// In a column whose blocks all hold `b` values, but for the last, which
/// may hold fewer, the values before block `j` are `j` times `b` of them,
/// or all values if that is fewer.
pub proof fn lemma_uniform_stride(counts: Seq<nat>, b: nat, j: int)
    requires
        0 <= j <= counts.len(),
        forall|t: int| 0 <= t < counts.len() - 1 ==> counts[t] == b,
        counts.len() > 0 ==> counts.last() <= b,
    ensures
        count_before(counts, j) == if j * b <= count_before(counts, counts.len() as int) {
            j * b
        } else {
            count_before(counts, counts.len() as int)
        },
    decreases counts.len() - j,
{
    let n = counts.len() as int;
    lemma_full_blocks(counts, b, if j < n {
        j
    } else {
        n - 1
    });
    if n > 0 {
        lemma_full_blocks(counts, b, n - 1);
        assert(count_before(counts, n) == (n - 1) * b + counts.last());
        if j < n {
            assert(j * b <= (n - 1) * b) by (nonlinear_arith)
                requires
                    0 <= j <= n - 1,
                    0 <= b,
            ;
        } else {
            assert(n * b == (n - 1) * b + b) by (nonlinear_arith);
        }
    }
}

/// Before a block that is not the last, every block is full.
proof fn lemma_full_blocks(counts: Seq<nat>, b: nat, j: int)
    requires
        j < counts.len(),
        forall|t: int| 0 <= t < counts.len() - 1 ==> counts[t] == b,
    ensures
        j >= 0 ==> count_before(counts, j) == j * b,
    decreases j,
{
    if j > 0 {
        lemma_full_blocks(counts, b, j - 1);
        assert((j - 1) * b + b == j * b) by (nonlinear_arith);
    } else if j == 0 {
        assert(j * b == 0) by (nonlinear_arith)
            requires
                j == 0,
        ;
    }
}

/// A block below which every greatest id is less than `id`, and which
/// itself is not, is the leftmost.
proof fn lemma_leftmost_is(blocks: Seq<BlockMeta>, id: int, b: int, j: int)
    requires
        0 <= j <= b <= blocks.len(),
        forall|t: int| 0 <= t < b ==> max_at(blocks, t) < id,
        b < blocks.len() ==> max_at(blocks, b) >= id,
    ensures
        leftmost(blocks, id, j) == b,
    decreases b - j,
{
    if j < b {
        lemma_leftmost_is(blocks, id, b, j + 1);
    }
}

/// A block from which on every least id is above `id`, and before which
/// the block is not, ends the blocks that can hold `id`.
proof fn lemma_rightmost_is(blocks: Seq<BlockMeta>, id: int, b: int, n: int)
    requires
        0 <= b <= n <= blocks.len(),
        forall|t: int| b <= t < blocks.len() ==> min_at(blocks, t) > id,
        b > 0 ==> min_at(blocks, b - 1) <= id,
    ensures
        rightmost(blocks, id, n) == b,
    decreases n - b,
{
    if b < n {
        lemma_rightmost_is(blocks, id, b, n - 1);
    }
}

/// The leftmost block lies in the list or just past it, and before it
/// every greatest id is less than `id`.
pub proof fn lemma_leftmost(blocks: Seq<BlockMeta>, id: int, j: int)
    requires
        0 <= j <= blocks.len(),
    ensures
        j <= leftmost(blocks, id, j) <= blocks.len(),
        leftmost(blocks, id, j) < blocks.len() ==> max_at(blocks, leftmost(blocks, id, j)) >= id,
        forall|t: int| j <= t < leftmost(blocks, id, j) ==> max_at(blocks, t) < id,
    decreases blocks.len() - j,
{
    if j < blocks.len() && max_at(blocks, j) < id {
        lemma_leftmost(blocks, id, j + 1);
    }
}

/// The end of the blocks that can hold `id` lies in the list, the block
/// before it starts at or below `id`, and no block from it on does.
pub proof fn lemma_rightmost(blocks: Seq<BlockMeta>, id: int, n: int)
    requires
        0 <= n <= blocks.len(),
    ensures
        0 <= rightmost(blocks, id, n) <= n,
        rightmost(blocks, id, n) > 0 ==> min_at(blocks, rightmost(blocks, id, n) - 1) <= id,
        forall|t: int| rightmost(blocks, id, n) <= t < n ==> min_at(blocks, t) > id,
    decreases n,
{
    if n > 0 && min_at(blocks, n - 1) > id {
        lemma_rightmost(blocks, id, n - 1);
    }
}

/// Skipping by the statistics loses nothing: in a file whose statistics go
/// up from block to block, a record that lies in a block whose least and
/// greatest id have `id` between them is among the records to read.
pub proof fn lemma_skip_is_sound(blocks: Seq<BlockMeta>, id: int, i: int, j: int, k: int)
    requires
        stats_usable(blocks),
        crate::reader::located(counts_of(blocks), i, j, k),
        min_at(blocks, j) <= id <= max_at(blocks, j),
    ensures
        !absent(blocks, id),
        scan_bounds(blocks, id).0 <= i < scan_bounds(blocks, id).1,
{
    let counts = counts_of(blocks);
    let n = blocks.len() as int;
    lemma_leftmost(blocks, id, 0);
    lemma_rightmost(blocks, id, n);
    let l = leftmost(blocks, id, 0);
    let r = rightmost(blocks, id, n);
    assert(l <= j) by {
        if j < l {
            assert(max_at(blocks, j) < id);
        }
    }
    assert(min_at(blocks, l) <= min_at(blocks, j));
    assert(j < r) by {
        if r <= j {
            assert(min_at(blocks, j) > id);
        }
    }
    lemma_count_before_grows(counts, l, j);
    lemma_count_before_grows(counts, j + 1, r);
}

/// Whether the statistics of the blocks can guide a search.
pub fn stats_are_usable(blocks: &Vec<BlockMeta>) -> (usable: bool)
    ensures
        usable == stats_usable(blocks@),
{
    let mut j: usize = 0;
    let mut last: (i32, i32) = (i32::MIN, i32::MIN);
    while j < blocks.len()
        invariant
            j <= blocks@.len(),
            forall|t: int| 0 <= t < j ==> (#[trigger] blocks@[t]).range() is Some,
            forall|a: int, b: int|
                #![trigger min_at(blocks@, a), min_at(blocks@, b)]
                #![trigger max_at(blocks@, a), max_at(blocks@, b)]
                0 <= a <= b < j ==> min_at(blocks@, a) <= min_at(blocks@, b) && max_at(blocks@, a)
                    <= max_at(blocks@, b),
            j > 0 ==> last.0 == min_at(blocks@, j - 1) && last.1 == max_at(blocks@, j - 1),
            j == 0 ==> last.0 == i32::MIN && last.1 == i32::MIN,
        decreases blocks@.len() - j,
    {
        match blocks[j].stats() {
            Some((lo, hi)) => {
                if lo < last.0 || hi < last.1 {
                    assert(!(min_at(blocks@, j - 1) <= min_at(blocks@, j as int) && max_at(
                        blocks@,
                        j - 1,
                    ) <= max_at(blocks@, j as int)));
                    return false;
                }
                proof {
                    assert forall|a: int, b: int|
                        #![trigger min_at(blocks@, a), min_at(blocks@, b)]
                        #![trigger max_at(blocks@, a), max_at(blocks@, b)]
                        0 <= a <= b < j + 1 implies min_at(blocks@, a) <= min_at(blocks@, b)
                        && max_at(blocks@, a) <= max_at(blocks@, b) by {
                        if b == j && a < j {
                            assert(min_at(blocks@, a) <= min_at(blocks@, j - 1) && max_at(
                                blocks@,
                                a,
                            ) <= max_at(blocks@, j - 1));
                        }
                    }
                }
                last = (lo, hi);
            },
            None => {
                assert(blocks@[j as int].range() is None);
                return false;
            },
        }
        j += 1;
    }
    true
}

/// The leftmost block that can hold the reference `id`: the leftmost
/// whose greatest id is at least `id`, unless the reference is absent
/// because that block starts above it.
pub fn find_leftmost_block(id: i32, block_metas: &Vec<BlockMeta>) -> (found: Option<usize>)
    requires
        stats_usable(block_metas@),
    ensures
        match found {
            Some(l) => l == leftmost(block_metas@, id as int, 0) && !absent(block_metas@, id as int),
            None => absent(block_metas@, id as int),
        },
{
    let mut left: usize = 0;
    let mut right: usize = block_metas.len();
    while left < right
        invariant
            left <= right <= block_metas@.len(),
            stats_usable(block_metas@),
            forall|t: int| 0 <= t < left ==> max_at(block_metas@, t) < id,
            forall|t: int| right <= t < block_metas@.len() ==> max_at(block_metas@, t) >= id,
        decreases right - left,
    {
        let mid: usize = left + (right - left) / 2;
        assert(block_metas@[mid as int].range() is Some);
        let max_val: i32 = match block_metas[mid].stats() {
            Some((lo, hi)) => hi,
            None => 0,
        };
        if max_val >= id {
            proof {
                assert forall|t: int| mid <= t < block_metas@.len() implies max_at(
                    block_metas@,
                    t,
                ) >= id by {
                    assert(max_at(block_metas@, mid as int) <= max_at(block_metas@, t));
                }
            }
            right = mid;
        } else {
            proof {
                assert forall|t: int| 0 <= t < mid + 1 implies max_at(block_metas@, t) < id by {
                    assert(max_at(block_metas@, t) <= max_at(block_metas@, mid as int));
                }
            }
            left = mid + 1;
        }
    }
    proof {
        lemma_leftmost_is(block_metas@, id as int, right as int, 0);
    }
    if right == block_metas.len() {
        return None;
    }
    assert(block_metas@[right as int].range() is Some);
    let min_val: i32 = match block_metas[right].stats() {
        Some((lo, hi)) => lo,
        None => 0,
    };
    if min_val > id {
        return None;
    }
    Some(right)
}

/// The end of the blocks that can hold the reference `id`: one more than
/// the rightmost block whose least id is at most `id`.
pub fn find_rightmost_block(id: i32, block_metas: &Vec<BlockMeta>) -> (end: usize)
    requires
        stats_usable(block_metas@),
    ensures
        end == rightmost(block_metas@, id as int, block_metas@.len() as int),
{
    let mut left: usize = 0;
    let mut right: usize = block_metas.len();
    while left < right
        invariant
            left <= right <= block_metas@.len(),
            stats_usable(block_metas@),
            forall|t: int| 0 <= t < left ==> min_at(block_metas@, t) <= id,
            forall|t: int| right <= t < block_metas@.len() ==> min_at(block_metas@, t) > id,
        decreases right - left,
    {
        let mid: usize = left + (right - left) / 2;
        assert(block_metas@[mid as int].range() is Some);
        let min_val: i32 = match block_metas[mid].stats() {
            Some((lo, hi)) => lo,
            None => 0,
        };
        if min_val <= id {
            proof {
                assert forall|t: int| 0 <= t < mid + 1 implies min_at(block_metas@, t) <= id by {
                    assert(min_at(block_metas@, t) <= min_at(block_metas@, mid as int));
                }
            }
            left = mid + 1;
        } else {
            proof {
                assert forall|t: int| mid <= t < block_metas@.len() implies min_at(
                    block_metas@,
                    t,
                ) > id by {
                    assert(min_at(block_metas@, mid as int) <= min_at(block_metas@, t));
                }
            }
            right = mid;
        }
    }
    proof {
        lemma_rightmost_is(block_metas@, id as int, right as int, block_metas@.len() as int);
    }
    right
}

/// Number of records in the blocks before block `j`.
pub fn records_before(blocks: &Vec<BlockMeta>, j: usize) -> (n: usize)
    requires
        j <= blocks@.len(),
        count_before(counts_of(blocks@), blocks@.len() as int) <= usize::MAX,
    ensures
        n == count_before(counts_of(blocks@), j as int),
{
    let ghost counts = counts_of(blocks@);
    let mut n: usize = 0;
    let mut t: usize = 0;
    while t < j
        invariant
            t <= j <= blocks@.len(),
            counts == counts_of(blocks@),
            count_before(counts, blocks@.len() as int) <= usize::MAX,
            n == count_before(counts, t as int),
        decreases j - t,
    {
        proof {
            lemma_count_before_grows(counts, t + 1, blocks@.len() as int);
            assert(counts[t as int] == blocks@[t as int].numitems);
        }
        n = n + blocks[t].numitems as usize;
        t += 1;
    }
    n
}

/// The records to read for the reference `ref_id`: the number of the first
/// and the number after the last.
pub fn scan_range(blocks: &Vec<BlockMeta>, ref_id: i32) -> (range: (usize, usize))
    requires
        count_before(counts_of(blocks@), blocks@.len() as int) <= usize::MAX,
    ensures
        (range.0 as int, range.1 as int) == scan_bounds(blocks@, ref_id as int),
        range.0 <= range.1 <= count_before(counts_of(blocks@), blocks@.len() as int),
{
    proof {
        lemma_leftmost(blocks@, ref_id as int, 0);
        lemma_rightmost(blocks@, ref_id as int, blocks@.len() as int);
        lemma_count_before_grows(counts_of(blocks@), 0, blocks@.len() as int);
    }
    if !stats_are_usable(blocks) {
        return (0, records_before(blocks, blocks.len()));
    }
    match find_leftmost_block(ref_id, blocks) {
        None => (0, 0),
        Some(l) => {
            let r: usize = find_rightmost_block(ref_id, blocks);
            proof {
                assert(l < r) by {
                    if r <= l {
                        assert(min_at(blocks@, l as int) > ref_id);
                    }
                }
                lemma_count_before_grows(counts_of(blocks@), l as int, r as int);
                lemma_count_before_grows(counts_of(blocks@), r as int, blocks@.len() as int);
            }
            (records_before(blocks, l), records_before(blocks, r))
        },
    }
}

/// The depth of the reference `ref_id` at each of its `ref_len` bases: the
/// number of alignments, among the records that the statistics select,
/// that lie on the reference and cover the base. `coverage_arr` is a
/// buffer to work in; what it held is dropped.
///
/// The query fails where a record to read cannot be read, or where there
/// are more records to read than a depth can count.
pub fn calc_depth(reader: &Reader, ref_id: i32, coverage_arr: Vec<i32>, ref_len: usize) -> (result:
    Result<Vec<i32>, DepthError>)
    requires
        reader.wf(),
    ensures
        match result {
            Ok(coverage) => {
                let (first, end) = scan_bounds(
                    reader.file_meta.blocks_of(Fields::RefID),
                    ref_id as int,
                );
                &&& end - first <= i32::MAX
                &&& forall|i: int| first <= i < end ==> alignment_at(*reader, i) is Some
                &&& coverage@.len() == ref_len
                &&& forall|p: int|
                    0 <= p < ref_len ==> #[trigger] coverage@[p] == depth_at(
                        alignments(*reader, first, end),
                        ref_id,
                        p,
                    )
                &&& forall|p: int| 0 <= p < ref_len ==> #[trigger] coverage@[p] >= 0
            },
            Err(e) => {
                let (first, end) = scan_bounds(
                    reader.file_meta.blocks_of(Fields::RefID),
                    ref_id as int,
                );
                if end - first > i32::MAX {
                    e == DepthError::TooManyRecords
                } else {
                    exists|i: int|
                        {
                            &&& first <= i < end
                            &&& e == DepthError::Unreadable(i as usize)
                            &&& alignment_at(*reader, i) is None
                            &&& forall|k: int| first <= k < i ==> alignment_at(*reader, k) is Some
                        }
                }
            },
        },
{
    let blocks = reader.file_meta.view_blocks(&Fields::RefID);
    let (first_rec, end_rec) = scan_range(blocks, ref_id);
    if end_rec - first_rec > i32::MAX as usize {
        return Err(DepthError::TooManyRecords);
    }
    let mut coverage_arr = coverage_arr;
    coverage_arr.clear();
    let mut n: usize = 0;
    while n < ref_len
        invariant
            n <= ref_len,
            coverage_arr@.len() == n,
            forall|p: int| 0 <= p < n ==> coverage_arr@[p] == 0,
        decreases ref_len - n,
    {
        coverage_arr.push(0);
        n += 1;
    }
    let ghost reads = alignments(*reader, first_rec as int, end_rec as int);
    match process_range(reader, first_rec, end_rec, coverage_arr, ref_id) {
        Ok(line) => {
            let mut coverage = line;
            let ghost steps = coverage@;
            proof {
                assert forall|p: int| 0 <= p < ref_len implies #[trigger] sum_upto(steps, p)
                    == depth_at(reads, ref_id, p) && 0 <= depth_at(reads, ref_id, p)
                    <= i32::MAX by {
                    lemma_sums_are_running(steps, reads, ref_id, p);
                    lemma_sweep_counts(reads, ref_id, ref_len as int, p);
                }
            }
            accumulate(&mut coverage);
            proof {
                assert forall|p: int| 0 <= p < ref_len implies #[trigger] coverage@[p]
                    == depth_at(reads, ref_id, p) && coverage@[p] >= 0 by {
                    assert(coverage@[p] == sum_upto(steps, p));
                }
            }
            Ok(coverage)
        },
        Err(e) => Err(e),
    }
}

/// The number of the reference called `name`: the last place in the list
/// of references where the name stands, as far as places can be told in a
/// reference id.
pub open spec fn ref_id_of(ref_seqs: Seq<(String, i32)>, name: Seq<char>) -> Option<i32>
    decreases ref_seqs.len(),
{
    if ref_seqs.len() == 0 {
        None
    } else if ref_seqs.last().0@ == name && ref_seqs.len() - 1 <= i32::MAX {
        Some((ref_seqs.len() - 1) as i32)
    } else {
        ref_id_of(ref_seqs.drop_last(), name)
    }
}

/// The reference id of one name.
pub fn find_ref_id(ref_seqs: &Vec<(String, i32)>, name: &String) -> (id: Option<i32>)
    ensures
        id == ref_id_of(ref_seqs@, name@),
{
    let mut n: usize = ref_seqs.len();
    assert(ref_seqs@.take(n as int) =~= ref_seqs@);
    while n > 0
        invariant
            n <= ref_seqs@.len(),
            ref_id_of(ref_seqs@, name@) == ref_id_of(ref_seqs@.take(n as int), name@),
        decreases n,
    {
        let ghost here = ref_seqs@.take(n as int);
        assert(here.last() == ref_seqs@[n - 1]);
        assert(here.drop_last() =~= ref_seqs@.take(n - 1));
        if ref_seqs[n - 1].0 == *name && n - 1 <= i32::MAX as usize {
            return Some((n - 1) as i32);
        }
        n -= 1;
    }
    None
}

/// For each name, the number of the reference that bears it, if there is
/// one. Where a name stands twice in the list of references, the later
/// place counts.
pub fn get_chr_name_mapping(names: &Vec<String>, ref_seqs: &Vec<(String, i32)>) -> (mapping: Vec<
    (String, Option<i32>),
>)
    ensures
        mapping@.len() == names@.len(),
        forall|k: int|
            0 <= k < names@.len() ==> (#[trigger] mapping@[k]).0@ == names@[k]@ && mapping@[k].1
                == ref_id_of(ref_seqs@, names@[k]@),
{
    let mut mapping: Vec<(String, Option<i32>)> = Vec::new();
    let mut k: usize = 0;
    while k < names.len()
        invariant
            k <= names@.len(),
            mapping@.len() == k,
            forall|t: int|
                0 <= t < k ==> (#[trigger] mapping@[t]).0@ == names@[t]@ && mapping@[t].1
                    == ref_id_of(ref_seqs@, names@[t]@),
        decreases names@.len() - k,
    {
        let id = find_ref_id(ref_seqs, &names[k]);
        mapping.push((names[k].clone(), id));
        k += 1;
    }
    mapping
}

} // verus!
