//! The regions that a depth query asks for, and the rows that a coverage
//! vector gives for them.

use crate::query::printer::{depth_row, ConsolePrinter};
use vstd::prelude::*;

verus! {

/// A region of a reference: first and last coordinate, both inside.
pub type Region = (u32, u32);

/// The row of one coordinate: nothing where the coverage is zero or the
/// coordinate lies past the reference.
pub open spec fn row_at(chr: Seq<u8>, cov: Seq<i32>, coord: int) -> Seq<u8> {
    if 0 <= coord < cov.len() && cov[coord] > 0 && coord <= u64::MAX {
        depth_row(chr, coord as u64, cov[coord] as i64)
    } else {
        Seq::empty()
    }
}

/// The rows of the coordinates from `lo` up to, not including, `end`, by
/// ascending coordinate.
pub open spec fn region_text(chr: Seq<u8>, cov: Seq<i32>, lo: int, end: int) -> Seq<u8>
    decreases end - lo,
{
    if end <= lo {
        Seq::empty()
    } else {
        region_text(chr, cov, lo, end - 1) + row_at(chr, cov, end - 1)
    }
}

/// The rows of a list of regions, region after region in the order given.
pub open spec fn regions_text(chr: Seq<u8>, cov: Seq<i32>, regions: Seq<Region>) -> Seq<u8>
    decreases regions.len(),
{
    if regions.len() == 0 {
        Seq::empty()
    } else {
        regions_text(chr, cov, regions.drop_last()) + region_text(
            chr,
            cov,
            regions.last().0 as int,
            regions.last().1 + 1,
        )
    }
}

/// Coordinates past the end of the coverage vector give no rows.
pub proof fn lemma_region_text_past_end(chr: Seq<u8>, cov: Seq<i32>, lo: int, end: int)
    requires
        cov.len() <= end,
    ensures
        region_text(chr, cov, lo, end) == region_text(
            chr,
            cov,
            lo,
            if lo <= cov.len() {
                cov.len() as int
            } else {
                lo
            },
        ),
    decreases end - lo,
{
    if end > lo && end > cov.len() {
        lemma_region_text_past_end(chr, cov, lo, end - 1);
        assert(row_at(chr, cov, end - 1) =~= Seq::<u8>::empty());
        assert(region_text(chr, cov, lo, end - 1) + Seq::<u8>::empty() =~= region_text(
            chr,
            cov,
            lo,
            end - 1,
        ));
    }
}

/// Appends to `out` the rows of one region: one row for each coordinate
/// from `lo` to `hi` whose coverage is positive, by ascending coordinate.
pub fn write_region(
    printer: &mut ConsolePrinter,
    coverage: &Vec<i32>,
    lo: u32,
    hi: u32,
    out: &mut Vec<u8>,
)
    ensures
        final(printer).chr() == old(printer).chr(),
        final(out)@ == old(out)@ + region_text(old(printer).chr(), coverage@, lo as int, hi + 1),
{
    let ghost chr = printer.chr();
    let ghost cov = coverage@;
    let ghost start = out@;
    let len: usize = coverage.len();
    let first: usize = lo as usize;
    let end: usize = if (hi as usize) < len {
        hi as usize + 1
    } else if first <= len {
        len
    } else {
        first
    };
    proof {
        if hi >= len {
            lemma_region_text_past_end(chr, cov, lo as int, hi + 1);
        }
        assert(start + region_text(chr, cov, lo as int, lo as int) =~= start);
    }
    let mut coord: usize = first;
    while coord < end
        invariant
            first == lo,
            first <= coord,
            coord <= end || coord == first,
            end <= len || end == first,
            len == coverage@.len(),
            cov == coverage@,
            printer.chr() == chr,
            out@ == start + region_text(chr, cov, lo as int, coord as int),
        decreases end - coord,
    {
        let ghost before = out@;
        if coverage[coord] > 0 {
            printer.write_efficient(coord as u64, coverage[coord] as i64);
            let row = printer.row();
            let mut k: usize = 0;
            while k < row.len()
                invariant
                    k <= row@.len(),
                    out@ == before + row@.subrange(0, k as int),
                decreases row@.len() - k,
            {
                out.push(row[k]);
                k += 1;
                assert(before + row@.subrange(0, k as int) =~= (before + row@.subrange(
                    0,
                    k - 1,
                )).push(row@[k - 1]));
            }
            assert(row@.subrange(0, row@.len() as int) =~= row@);
            assert(row@ == row_at(chr, cov, coord as int));
            assert(out@ == before + row_at(chr, cov, coord as int));
        } else {
            assert(before + row_at(chr, cov, coord as int) =~= before);
        }
        coord += 1;
        assert(region_text(chr, cov, lo as int, coord as int) == region_text(
            chr,
            cov,
            lo as int,
            coord - 1,
        ) + row_at(chr, cov, coord - 1));
        assert(start + (region_text(chr, cov, lo as int, coord - 1) + row_at(
            chr,
            cov,
            coord - 1,
        )) =~= (start + region_text(chr, cov, lo as int, coord - 1)) + row_at(chr, cov, coord - 1));
    }
    assert(region_text(chr, cov, lo as int, coord as int) == region_text(
        chr,
        cov,
        lo as int,
        hi + 1,
    )) by {
        if hi + 1 <= lo {
            assert(region_text(chr, cov, lo as int, hi + 1) =~= Seq::<u8>::empty());
            assert(region_text(chr, cov, lo as int, lo as int) =~= Seq::<u8>::empty());
        }
    }
}

/// Appends to `out` the rows of a list of regions, region after region in
/// the order given, by ascending coordinate inside a region.
pub fn write_regions(
    printer: &mut ConsolePrinter,
    coverage: &Vec<i32>,
    regions: &Vec<Region>,
    out: &mut Vec<u8>,
)
    ensures
        final(printer).chr() == old(printer).chr(),
        final(out)@ == old(out)@ + regions_text(old(printer).chr(), coverage@, regions@),
{
    let ghost chr = printer.chr();
    let ghost start = out@;
    let mut i: usize = 0;
    assert(start + regions_text(chr, coverage@, regions@.take(0)) =~= start);
    while i < regions.len()
        invariant
            i <= regions@.len(),
            printer.chr() == chr,
            out@ == start + regions_text(chr, coverage@, regions@.take(i as int)),
        decreases regions@.len() - i,
    {
        let (lo, hi) = regions[i];
        write_region(printer, coverage, lo, hi, out);
        proof {
            let done = regions@.take(i as int);
            let next = regions@.take(i + 1);
            assert(next.drop_last() =~= done);
            assert(next.last() == regions@[i as int]);
            assert(start + (regions_text(chr, coverage@, done) + region_text(
                chr,
                coverage@,
                lo as int,
                hi + 1,
            )) =~= (start + regions_text(chr, coverage@, done)) + region_text(
                chr,
                coverage@,
                lo as int,
                hi + 1,
            ));
        }
        i += 1;
    }
    assert(regions@.take(regions@.len() as int) =~= regions@);
}

/// The regions that a query asks for, chromosome by chromosome. Where a
/// chromosome was entered twice, the later entry counts.
#[derive(Debug)]
pub struct QuerySet {
    /// The entries in the order in which they were made.
    pub entries: Vec<(String, Vec<Region>)>,
}

/// The regions of the chromosome `name` among `entries`: those of the last
/// entry that bears the name.
pub open spec fn regions_of(entries: Seq<(String, Vec<Region>)>, name: Seq<char>) -> Option<
    Seq<Region>,
>
    decreases entries.len(),
{
    if entries.len() == 0 {
        None
    } else if entries.last().0@ == name {
        Some(entries.last().1@)
    } else {
        regions_of(entries.drop_last(), name)
    }
}

/// The one region that covers a reference of `len` bases from its first to
/// its last; no region for a reference without bases.
pub open spec fn whole_region(len: i32) -> Seq<Region> {
    if len > 0 {
        seq![(0u32, (len - 1) as u32)]
    } else {
        Seq::empty()
    }
}

impl QuerySet {
    /// A query that asks for nothing.
    pub fn new() -> (queries: Self)
        ensures
            queries.entries@.len() == 0,
    {
        QuerySet { entries: Vec::new() }
    }

    /// Whether the query asks for nothing.
    pub fn is_empty(&self) -> (empty: bool)
        ensures
            empty == (self.entries@.len() == 0),
    {
        self.entries.len() == 0
    }

    /// Enters the regions of a chromosome. They take the place of what was
    /// entered for the chromosome before.
    pub fn insert(&mut self, chr: String, regions: Vec<Region>)
        ensures
            final(self).entries@ == old(self).entries@.push((chr, regions)),
            forall|name: Seq<char>|
                #[trigger] regions_of(final(self).entries@, name) == if name == chr@ {
                    Some(regions@)
                } else {
                    regions_of(old(self).entries@, name)
                },
    {
        let ghost before = self.entries@;
        self.entries.push((chr, regions));
        assert(self.entries@.drop_last() =~= before);
    }

    /// The regions entered for a chromosome, if any were.
    pub fn get(&self, chr: &String) -> (regions: Option<&Vec<Region>>)
        ensures
            match regions {
                Some(r) => regions_of(self.entries@, chr@) == Some(r@),
                None => regions_of(self.entries@, chr@) is None,
            },
    {
        let mut n: usize = self.entries.len();
        assert(self.entries@.take(n as int) =~= self.entries@);
        while n > 0
            invariant
                n <= self.entries@.len(),
                regions_of(self.entries@, chr@) == regions_of(self.entries@.take(n as int), chr@),
            decreases n,
        {
            let ghost here = self.entries@.take(n as int);
            assert(here.last() == self.entries@[n - 1]);
            assert(here.drop_last() =~= self.entries@.take(n - 1));
            if self.entries[n - 1].0 == *chr {
                return Some(&self.entries[n - 1].1);
            }
            n -= 1;
        }
        None
    }

    /// The query that asks for every reference in full: for each
    /// reference, in the order of the list, the one region from its first
    /// base to its last.
    pub fn whole_references(ref_seqs: &Vec<(String, i32)>) -> (queries: Self)
        ensures
            queries.entries@.len() == ref_seqs@.len(),
            forall|k: int|
                0 <= k < ref_seqs@.len() ==> (#[trigger] queries.entries@[k]).0@ == ref_seqs@[k].0@
                    && queries.entries@[k].1@ == whole_region(ref_seqs@[k].1),
    {
        let mut entries: Vec<(String, Vec<Region>)> = Vec::new();
        let mut k: usize = 0;
        while k < ref_seqs.len()
            invariant
                k <= ref_seqs@.len(),
                entries@.len() == k,
                forall|t: int|
                    0 <= t < k ==> (#[trigger] entries@[t]).0@ == ref_seqs@[t].0@ && entries@[t].1@
                        == whole_region(ref_seqs@[t].1),
            decreases ref_seqs@.len() - k,
        {
            let len: i32 = ref_seqs[k].1;
            let mut regions: Vec<Region> = Vec::new();
            if len > 0 {
                regions.push((0u32, (len - 1) as u32));
            }
            assert(regions@ =~= whole_region(len));
            entries.push((ref_seqs[k].0.clone(), regions));
            k += 1;
        }
        QuerySet { entries }
    }
}

/// Appends to `out` the rows of one reference: the rows of the regions
/// that the query asks for on the chromosome, and nothing where it asks
/// for none.
pub fn write_reference(
    printer: &mut ConsolePrinter,
    chr: String,
    coverage: &Vec<i32>,
    queries: &QuerySet,
    out: &mut Vec<u8>,
)
    ensures
        final(out)@ == old(out)@ + match regions_of(queries.entries@, chr@) {
            Some(regions) => regions_text(vstd::utf8::encode_utf8(chr@), coverage@, regions),
            None => Seq::empty(),
        },
{
    match queries.get(&chr) {
        Some(regions) => {
            printer.set_chr(chr);
            write_regions(printer, coverage, regions, out);
        },
        None => {
            assert(out@ + Seq::<u8>::empty() =~= out@);
        },
    }
}

} // verus!
