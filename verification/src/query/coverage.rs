//! The sweep line: from alignments to the depth at each base.
//!
//! Each alignment of the reference adds one where it starts and takes one
//! away where it ends. The running sum of these steps is, at each base,
//! the number of alignments that cover the base.

use vstd::prelude::*;

verus! {

/// What the sweep reads of one record: the reference it is aligned to,
/// where on the reference it starts, and how many bases it spans.
pub struct Alignment {
    pub refid: i32,
    pub pos: i32,
    pub base_cov: u64,
}

impl Alignment {
    /// The first base that the alignment covers.
    pub open spec fn start(self) -> int {
        self.pos as int
    }

    /// The base after the last that the alignment covers.
    pub open spec fn end(self) -> int {
        self.pos + self.base_cov
    }

    /// The alignment lies on the reference `target` and covers base `p`.
    pub open spec fn covers(self, target: i32, p: int) -> bool {
        self.refid == target && self.start() <= p < self.end()
    }
}

/// A coordinate brought into the reference: below zero it becomes zero,
/// past the end it becomes the length.
pub open spec fn clip(x: int, len: int) -> int {
    if x < 0 {
        0
    } else if x > len {
        len
    } else {
        x
    }
}

/// The step that one alignment makes at base `p` of a reference of length
/// `len`: one up where its part inside the reference starts, one down
/// where that part ends.
pub open spec fn step_at(a: Alignment, target: i32, len: int, p: int) -> int {
    let s = clip(a.start(), len);
    let e = clip(a.end(), len);
    if a.refid != target || s >= e {
        0
    } else if p == s {
        1
    } else if p == e {
        -1
    } else {
        0
    }
}

/// The sum of the steps that the alignments `reads` make at base `p`.
pub open spec fn delta_at(reads: Seq<Alignment>, target: i32, len: int, p: int) -> int
    decreases reads.len(),
{
    if reads.len() == 0 {
        0
    } else {
        delta_at(reads.drop_last(), target, len, p) + step_at(reads.last(), target, len, p)
    }
}

/// The running sum of the steps up to and with base `p`.
pub open spec fn running_sum(reads: Seq<Alignment>, target: i32, len: int, p: int) -> int
    decreases p + 1,
{
    if p < 0 {
        0
    } else {
        running_sum(reads, target, len, p - 1) + delta_at(reads, target, len, p)
    }
}

/// Number of the alignments `reads` that lie on `target` and cover base `p`.
pub open spec fn depth_at(reads: Seq<Alignment>, target: i32, p: int) -> int
    decreases reads.len(),
{
    if reads.len() == 0 {
        0
    } else {
        depth_at(reads.drop_last(), target, p) + if reads.last().covers(target, p) {
            1int
        } else {
            0int
        }
    }
}

/// The alignments among `reads`, by their numbers, that lie on `target` and
/// cover base `p`.
pub open spec fn covering(reads: Seq<Alignment>, target: i32, p: int) -> Set<int> {
    Set::new(|i: int| 0 <= i < reads.len() && reads[i].covers(target, p))
}

/// The running sum of the steps of one alignment up to base `p`: one from
/// the start of its part inside the reference on, and zero again from the
/// end of that part on.
pub open spec fn pulse(a: Alignment, target: i32, len: int, p: int) -> int {
    let s = clip(a.start(), len);
    let e = clip(a.end(), len);
    if a.refid != target || s >= e {
        0
    } else {
        (if s <= p {
            1int
        } else {
            0int
        }) - (if e <= p {
            1int
        } else {
            0int
        })
    }
}

/// The running sum of the steps of one alignment is one on the bases of
/// the reference that the alignment covers and zero on the others.
proof fn lemma_one_alignment(a: Alignment, target: i32, len: int, p: int)
    requires
        -1 <= p,
    ensures
        running_sum(seq![a], target, len, p) == pulse(a, target, len, p),
        0 <= p < len ==> pulse(a, target, len, p) == if a.covers(target, p) {
            1int
        } else {
            0int
        },
    decreases p + 1,
{
    assert(seq![a].drop_last() =~= Seq::<Alignment>::empty());
    assert(seq![a].last() == a);
    assert(delta_at(Seq::<Alignment>::empty(), target, len, p) == 0);
    if p >= 0 {
        lemma_one_alignment(a, target, len, p - 1);
        assert(delta_at(seq![a], target, len, p) == step_at(a, target, len, p));
    }
}

/// The running sum over a list of alignments with one more is the running
/// sum over the list plus that of the one.
proof fn lemma_running_sum_adds(reads: Seq<Alignment>, a: Alignment, target: i32, len: int, p: int)
    requires
        -1 <= p,
    ensures
        running_sum(reads.push(a), target, len, p) == running_sum(reads, target, len, p)
            + running_sum(seq![a], target, len, p),
    decreases p + 1,
{
    if p >= 0 {
        lemma_running_sum_adds(reads, a, target, len, p - 1);
        assert(reads.push(a).drop_last() =~= reads);
        assert(seq![a].drop_last() =~= Seq::<Alignment>::empty());
        assert(delta_at(Seq::<Alignment>::empty(), target, len, p) == 0);
        assert(delta_at(seq![a], target, len, p) == step_at(a, target, len, p));
    }
}

/// The sweep is right: at each base of the reference the running sum of
/// the steps is the number of alignments that cover the base.
pub proof fn lemma_sweep_counts(reads: Seq<Alignment>, target: i32, len: int, p: int)
    requires
        0 <= p < len,
    ensures
        running_sum(reads, target, len, p) == depth_at(reads, target, p),
        0 <= depth_at(reads, target, p) <= reads.len(),
    decreases reads.len(),
{
    if reads.len() == 0 {
        assert(reads =~= Seq::<Alignment>::empty());
        lemma_empty_sum(target, len, p);
    } else {
        let head = reads.drop_last();
        lemma_sweep_counts(head, target, len, p);
        assert(head.push(reads.last()) =~= reads);
        lemma_running_sum_adds(head, reads.last(), target, len, p);
        lemma_one_alignment(reads.last(), target, len, p);
    }
}

/// Without alignments the running sum is zero.
proof fn lemma_empty_sum(target: i32, len: int, p: int)
    requires
        -1 <= p,
    ensures
        running_sum(Seq::<Alignment>::empty(), target, len, p) == 0,
    decreases p + 1,
{
    if p >= 0 {
        lemma_empty_sum(target, len, p - 1);
    }
}

/// The sum of the steps at a base is bounded by the number of alignments.
pub proof fn lemma_delta_bound(reads: Seq<Alignment>, target: i32, len: int, p: int)
    ensures
        -reads.len() <= delta_at(reads, target, len, p) <= reads.len(),
    decreases reads.len(),
{
    if reads.len() > 0 {
        lemma_delta_bound(reads.drop_last(), target, len, p);
    }
}

/// The depth at a base is the size of the set of alignments that cover it.
pub proof fn lemma_depth_is_count(reads: Seq<Alignment>, target: i32, p: int)
    ensures
        covering(reads, target, p).finite(),
        depth_at(reads, target, p) == covering(reads, target, p).len(),
    decreases reads.len(),
{
    if reads.len() == 0 {
        assert(covering(reads, target, p) =~= Set::<int>::empty());
    } else {
        let head = reads.drop_last();
        let n = head.len() as int;
        lemma_depth_is_count(head, target, p);
        if reads.last().covers(target, p) {
            assert(covering(reads, target, p) =~= covering(head, target, p).insert(n));
        } else {
            assert(covering(reads, target, p) =~= covering(head, target, p));
        }
    }
}

/// Alignments on other references do not count: the depth over a list of
/// alignments is the depth over any stretch of the list outside of which
/// no alignment lies on `target`.
pub proof fn lemma_depth_of_selected(
    reads: Seq<Alignment>,
    target: i32,
    first: int,
    end: int,
    p: int,
)
    requires
        0 <= first <= end <= reads.len(),
        forall|i: int|
            0 <= i < reads.len() && !(first <= i < end) ==> (#[trigger] reads[i]).refid != target,
    ensures
        depth_at(reads, target, p) == depth_at(reads.subrange(first, end), target, p),
    decreases reads.len(),
{
    if reads.len() == 0 {
        assert(reads.subrange(first, end) =~= reads);
    } else {
        let head = reads.drop_last();
        let n = head.len() as int;
        if end == reads.len() {
            if first == end {
                lemma_depth_of_selected(head, target, n, n, p);
                assert(head.subrange(n, n) =~= reads.subrange(first, end));
                assert(!reads.last().covers(target, p));
            } else {
                lemma_depth_of_selected(head, target, first, n, p);
                assert(reads.subrange(first, end).drop_last() =~= head.subrange(first, n));
                assert(reads.subrange(first, end).last() == reads.last());
            }
        } else {
            lemma_depth_of_selected(head, target, first, end, p);
            assert(head.subrange(first, end) =~= reads.subrange(first, end));
            assert(!reads.last().covers(target, p));
        }
    }
}

/// The sum of the values up to and with place `p`.
pub open spec fn sum_upto(values: Seq<i32>, p: int) -> int
    decreases p + 1,
{
    if p < 0 {
        0
    } else {
        sum_upto(values, p - 1) + values[p]
    }
}

/// The sums of a vector of steps are the running sums of the sweep.
pub proof fn lemma_sums_are_running(
    values: Seq<i32>,
    reads: Seq<Alignment>,
    target: i32,
    p: int,
)
    requires
        -1 <= p < values.len(),
        forall|q: int| 0 <= q < values.len() ==> values[q] == delta_at(
            reads,
            target,
            values.len() as int,
            q,
        ),
    ensures
        sum_upto(values, p) == running_sum(reads, target, values.len() as int, p),
    decreases p + 1,
{
    if p >= 0 {
        lemma_sums_are_running(values, reads, target, p - 1);
    }
}

/// Turns a vector into the vector of its running sums, in place: each
/// value becomes the sum of the values up to and with it.
pub fn accumulate(coverage: &mut Vec<i32>)
    requires
        forall|p: int|
            0 <= p < old(coverage)@.len() ==> i32::MIN <= #[trigger] sum_upto(old(coverage)@, p)
                <= i32::MAX,
    ensures
        final(coverage)@.len() == old(coverage)@.len(),
        forall|p: int|
            0 <= p < final(coverage)@.len() ==> #[trigger] final(coverage)@[p] == sum_upto(
                old(coverage)@,
                p,
            ),
{
    let ghost steps = coverage@;
    let mut acc: i32 = 0;
    let mut i: usize = 0;
    while i < coverage.len()
        invariant
            i <= coverage@.len(),
            coverage@.len() == steps.len(),
            acc == sum_upto(steps, i - 1),
            forall|p: int| 0 <= p < steps.len() ==> i32::MIN <= #[trigger] sum_upto(steps, p)
                <= i32::MAX,
            forall|p: int| 0 <= p < i ==> #[trigger] coverage@[p] == sum_upto(steps, p),
            forall|p: int| i <= p < steps.len() ==> coverage@[p] == steps[p],
        decreases coverage@.len() - i,
    {
        assert(i32::MIN <= sum_upto(steps, i as int) <= i32::MAX);
        acc = acc + coverage[i];
        coverage[i] = acc;
        i += 1;
    }
}

} // verus!
