//! Formatting of depth rows: chromosome, coordinate and depth, separated by
//! tabs and closed by a line feed.
//!
//! A row is written from its end towards its start into a buffer that is
//! kept between rows, so that no row allocates. The name of the chromosome
//! is stored back to front to be copied in the same direction.

use vstd::prelude::*;

verus! {

/// Room that a row needs besides the name: two tabs, a line feed, twenty
/// digits of a coordinate and a sign with nineteen digits of a depth.
pub const ROW_EXTRA: usize = 43;

/// The decimal digits of `n` in ASCII, most significant first; `0` is the
/// single digit `0`.
pub open spec fn decimal(n: nat) -> Seq<u8>
    decreases n,
{
    if n < 10 {
        seq![(48 + n) as u8]
    } else {
        decimal(n / 10).push((48 + n % 10) as u8)
    }
}

/// The decimal form of a signed number: a minus sign before the digits of
/// a negative one.
pub open spec fn signed_decimal(n: int) -> Seq<u8> {
    if n < 0 {
        seq![45u8] + decimal((-n) as nat)
    } else {
        decimal(n as nat)
    }
}

/// One row of depth output.
pub open spec fn depth_row(chr: Seq<u8>, coord: u64, depth: i64) -> Seq<u8> {
    chr + seq![9u8] + decimal(coord as nat) + seq![9u8] + signed_decimal(depth as int) + seq![10u8]
}

/// A number below `10^k` has at most `k` digits, and at least one.
pub proof fn lemma_decimal_len(n: nat, k: nat)
    requires
        k >= 1,
        n < vstd::arithmetic::power::pow(10, k),
    ensures
        1 <= decimal(n).len() <= k,
    decreases k,
{
    vstd::arithmetic::power::lemma_pow1(10);
    if n >= 10 {
        if k == 1 {
            assert(false);
        } else {
            vstd::arithmetic::power::lemma_pow_adds(10, 1, (k - 1) as nat);
            assert(vstd::arithmetic::power::pow(10, k) == 10 * vstd::arithmetic::power::pow(
                10,
                (k - 1) as nat,
            ));
            lemma_decimal_len(n / 10, (k - 1) as nat);
        }
    }
}

/// Formats rows of depth output for one chromosome at a time.
pub struct ConsolePrinter {
    buffer: Vec<u8>,
    cur_chr: Vec<u8>,
    start: usize,
}

impl ConsolePrinter {
    /// The buffer has room for a row of the current chromosome, and the
    /// row lies at its end.
    #[verifier::type_invariant]
    spec fn inv(self) -> bool {
        &&& self.buffer@.len() == self.cur_chr@.len() + ROW_EXTRA
        &&& self.start <= self.buffer@.len()
    }

    /// Name of the current chromosome, as bytes.
    pub closed spec fn chr(self) -> Seq<u8> {
        self.cur_chr@.reverse()
    }

    /// The row that was formatted last; empty before the first.
    pub closed spec fn row_bytes(self) -> Seq<u8> {
        suffix(self.buffer@, self.start as int)
    }

    /// A printer with no chromosome and no row.
    pub fn new() -> (printer: Self)
        ensures
            printer.chr() == Seq::<u8>::empty(),
            printer.row_bytes() == Seq::<u8>::empty(),
    {
        let mut buffer: Vec<u8> = Vec::new();
        let mut i: usize = 0;
        while i < ROW_EXTRA
            invariant
                i <= ROW_EXTRA,
                buffer@.len() == i,
            decreases ROW_EXTRA - i,
        {
            buffer.push(0u8);
            i += 1;
        }
        let printer = ConsolePrinter { buffer, cur_chr: Vec::new(), start: ROW_EXTRA };
        assert(printer.chr() =~= Seq::<u8>::empty());
        assert(printer.row_bytes() =~= Seq::<u8>::empty());
        printer
    }

    /// Sets the chromosome of the rows to come. The name is kept back to
    /// front, and the row formatted last is dropped.
    pub fn set_chr(&mut self, chr: String)
        ensures
            final(self).chr() == vstd::utf8::encode_utf8(chr@),
            final(self).row_bytes() == Seq::<u8>::empty(),
    {
        let name = chr.as_str().as_bytes();
        let mut buffer: Vec<u8> = Vec::new();
        let mut k: usize = 0;
        while k < ROW_EXTRA
            invariant
                k <= ROW_EXTRA,
                buffer@.len() == k,
            decreases ROW_EXTRA - k,
        {
            buffer.push(0u8);
            k += 1;
        }
        let mut reversed: Vec<u8> = Vec::new();
        let mut i: usize = name.len();
        while i > 0
            invariant
                i <= name@.len(),
                reversed@.len() == name@.len() - i,
                buffer@.len() == ROW_EXTRA + reversed@.len(),
                forall|j: int| 0 <= j < reversed@.len() ==> reversed@[j] == name@[name@.len() - 1 - j],
            decreases i,
        {
            i -= 1;
            reversed.push(name[i]);
            buffer.push(0u8);
        }
        let start = buffer.len();
        proof {
            assert(reversed@.reverse() =~= name@);
        }
        *self = ConsolePrinter { buffer, cur_chr: reversed, start };
        assert(self.row_bytes() =~= Seq::<u8>::empty());
    }

    /// Formats the row for `coord` and `depth` on the current chromosome.
    /// The row is filled in from its last byte to its first.
    pub fn write_efficient(&mut self, coord: u64, depth: i64)
        ensures
            final(self).chr() == old(self).chr(),
            final(self).row_bytes() == depth_row(old(self).chr(), coord, depth),
    {
        proof {
            use_type_invariant(&*self);
        }
        let total: usize = self.buffer.len();
        let magnitude: u64 = if depth < 0 {
            ((-(depth + 1)) as u64) + 1
        } else {
            depth as u64
        };
        proof {
            lemma_pow10();
            lemma_decimal_len(coord as nat, 20);
            lemma_decimal_len(magnitude as nat, 19);
            assert(suffix(self.buffer@, total as int) =~= Seq::<u8>::empty());
        }
        let mut ptr: usize = put_byte(&mut self.buffer, total, 10u8);
        ptr = put_decimal(&mut self.buffer, ptr, magnitude);
        if depth < 0 {
            ptr = put_byte(&mut self.buffer, ptr, 45u8);
        }
        assert(suffix(self.buffer@, ptr as int) =~= signed_decimal(depth as int) + seq![10u8]);
        ptr = put_byte(&mut self.buffer, ptr, 9u8);
        ptr = put_decimal(&mut self.buffer, ptr, coord);
        ptr = put_byte(&mut self.buffer, ptr, 9u8);
        ptr = put_reversed(&mut self.buffer, ptr, &self.cur_chr);
        assert(suffix(self.buffer@, ptr as int) =~= depth_row(self.cur_chr@.reverse(), coord, depth));
        self.start = ptr;
    }

    /// The row that was formatted last, ready to be written out.
    pub fn row(&self) -> (out: &[u8])
        ensures
            out@ == self.row_bytes(),
    {
        proof {
            use_type_invariant(self);
        }
        let total: usize = self.buffer.len();
        vstd::slice::slice_subrange(self.buffer.as_slice(), self.start, total)
    }
}

/// What `buffer` holds from `from` to its end.
pub open spec fn suffix(buffer: Seq<u8>, from: int) -> Seq<u8> {
    buffer.subrange(from, buffer.len() as int)
}

/// Writes `byte` just before `end` and returns where it stands.
fn put_byte(buffer: &mut Vec<u8>, end: usize, byte: u8) -> (start: usize)
    requires
        1 <= end <= old(buffer)@.len(),
    ensures
        final(buffer)@.len() == old(buffer)@.len(),
        start == end - 1,
        suffix(final(buffer)@, start as int) == seq![byte] + suffix(old(buffer)@, end as int),
    no_unwind
{
    let start: usize = end - 1;
    buffer[start] = byte;
    assert(suffix(buffer@, start as int) =~= seq![byte] + suffix(old(buffer)@, end as int));
    start
}

/// Writes the digits of `n` into `buffer` so that they end just before
/// `end`, last digit first, and returns where they start.
fn put_decimal(buffer: &mut Vec<u8>, end: usize, n: u64) -> (start: usize)
    requires
        end <= old(buffer)@.len(),
        decimal(n as nat).len() <= end,
    ensures
        final(buffer)@.len() == old(buffer)@.len(),
        start + decimal(n as nat).len() == end,
        suffix(final(buffer)@, start as int) == decimal(n as nat) + suffix(
            old(buffer)@,
            end as int,
        ),
    no_unwind
{
    let ghost rest = suffix(buffer@, end as int);
    proof {
        lemma_decimal_split(n as nat);
    }
    let mut ptr: usize = put_byte(buffer, end, 48u8 + (n % 10) as u8);
    let mut left: u64 = n / 10;
    let ghost done: Seq<u8> = seq![(48 + n % 10) as u8];
    while left > 0
        invariant
            buffer@.len() == old(buffer)@.len(),
            ptr + done.len() == end,
            end <= buffer@.len(),
            suffix(buffer@, ptr as int) == done + rest,
            decimal(n as nat) == if left == 0 {
                done
            } else {
                decimal(left as nat) + done
            },
            decimal(n as nat).len() <= end,
        decreases left,
    {
        proof {
            lemma_decimal_split(left as nat);
        }
        let ghost digit: Seq<u8> = seq![(48 + left % 10) as u8];
        ptr = put_byte(buffer, ptr, 48u8 + (left % 10) as u8);
        proof {
            assert(digit + (done + rest) =~= (digit + done) + rest);
            if left >= 10 {
                assert((decimal((left / 10) as nat) + digit) + done =~= decimal((left / 10) as nat)
                    + (digit + done));
            }
            done = digit + done;
        }
        left = left / 10;
    }
    ptr
}

/// Writes the bytes of `reversed` into `buffer` so that they end just
/// before `end`, in the opposite order, and returns where they start.
fn put_reversed(buffer: &mut Vec<u8>, end: usize, reversed: &Vec<u8>) -> (start: usize)
    requires
        reversed@.len() <= end <= old(buffer)@.len(),
    ensures
        final(buffer)@.len() == old(buffer)@.len(),
        start + reversed@.len() == end,
        suffix(final(buffer)@, start as int) == reversed@.reverse() + suffix(
            old(buffer)@,
            end as int,
        ),
    no_unwind
{
    let ghost rest = suffix(buffer@, end as int);
    let ghost name = reversed@.reverse();
    let mut ptr: usize = end;
    let mut i: usize = 0;
    assert(name.subrange(name.len() as int, name.len() as int) + rest =~= rest);
    while i < reversed.len()
        invariant
            i <= reversed@.len(),
            buffer@.len() == old(buffer)@.len(),
            ptr + i == end,
            reversed@.len() <= end <= buffer@.len(),
            name == reversed@.reverse(),
            suffix(buffer@, ptr as int) == name.subrange(name.len() - i, name.len() as int) + rest,
        decreases reversed@.len() - i,
    {
        let ghost before = name.subrange(name.len() - i, name.len() as int);
        ptr = put_byte(buffer, ptr, reversed[i]);
        i += 1;
        proof {
            assert(seq![reversed@[i - 1]] + (before + rest) =~= (seq![reversed@[i - 1]] + before)
                + rest);
            assert(name.subrange(name.len() - i, name.len() as int) =~= seq![reversed@[i - 1]]
                + before);
        }
    }
    assert(name.subrange(0, name.len() as int) =~= name);
    ptr
}

/// The digits of a number are the digits of its tenth followed by its last
/// digit; a number below ten is its last digit alone.
proof fn lemma_decimal_split(n: nat)
    ensures
        decimal(n).len() >= 1,
        n < 10 ==> decimal(n) == seq![(48 + n % 10) as u8],
        n >= 10 ==> decimal(n) == decimal(n / 10) + seq![(48 + n % 10) as u8],
    decreases n,
{
    if n >= 10 {
        lemma_decimal_split(n / 10);
        assert(decimal(n / 10).push((48 + n % 10) as u8) =~= decimal(n / 10) + seq![
            (48 + n % 10) as u8,
        ]);
    }
}

/// Bounds on the numbers that the two integer types can hold.
proof fn lemma_pow10()
    ensures
        0xffff_ffff_ffff_ffff < vstd::arithmetic::power::pow(10, 20),
        0x8000_0000_0000_0000 < vstd::arithmetic::power::pow(10, 19),
{
    reveal_with_fuel(vstd::arithmetic::power::pow, 21);
}

} // verus!
