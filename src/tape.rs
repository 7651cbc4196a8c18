//! The infinite binary tape on which machines operate.

use vstd::prelude::*;

use core::ops::Range;

verus! {

/// The index of a cell. Every machine starts on cell `0`.
#[derive(Clone, Copy, Debug, PartialEq, Eq, Structural)]
pub struct CellId(pub i64);

/// The binary value of a cell.
#[derive(Clone, Copy, Debug, PartialEq, Eq, Structural)]
pub struct CellValue(pub bool);

/// Cells that can be written lie strictly between `-CELL_LIMIT` and
/// `CELL_LIMIT` (2^40 cells, 128 GiB of bits, to each side).
pub const CELL_LIMIT: i64 = 1099511627776;

/// One growth step adds at most this many bits (2^41), however large the tape
/// already is.
pub const GROW_CAP: u64 = 2199023255552;

/// The backing buffer never reaches beyond this bit distance (2^42) from cell 0.
pub const BUFFER_BOX: i64 = 4398046511104;

/// Bit `pos` of a bit vector stored in 64-bit words, lowest bit first.
pub open spec fn bit(data: Seq<u64>, pos: int) -> bool {
    (data[pos / 64] >> ((pos % 64) as u64)) & 1 == 1
}

/// The abstract tape: the cells of the written range, starting at cell `lo`.
pub struct TapeView {
    pub lo: int,
    pub cells: Seq<bool>,
}

impl TapeView {
    /// The end (exclusive) of the written range.
    pub open spec fn hi(self) -> int {
        self.lo + self.cells.len()
    }

    /// The value of a cell: cells outside the written range are 0.
    pub open spec fn value(self, id: int) -> bool {
        if self.lo <= id < self.hi() {
            self.cells[id - self.lo]
        } else {
            false
        }
    }

    /// The tape before anything is written.
    pub open spec fn empty() -> TapeView {
        TapeView { lo: 0, cells: Seq::empty() }
    }

    /// The tape after writing `v` to cell `id`: the written range grows to
    /// include `id`.
    pub open spec fn written(self, id: int, v: bool) -> TapeView {
        let lo = if id < self.lo { id } else { self.lo };
        let hi = if id >= self.hi() { id + 1 } else { self.hi() };
        TapeView {
            lo,
            cells: Seq::new(
                (hi - lo) as nat,
                |k: int|
                    if lo + k == id {
                        v
                    } else {
                        self.value(lo + k)
                    },
            ),
        }
    }

    /// The number of ones on the tape.
    pub open spec fn ones(self) -> nat {
        count_ones(self.cells)
    }
}

/// The number of `true` entries.
pub open spec fn count_ones(s: Seq<bool>) -> nat
    decreases s.len(),
{
    if s.len() == 0 {
        0
    } else {
        count_ones(s.drop_last()) + if s.last() {
            1nat
        } else {
            0nat
        }
    }
}

/// There are no more ones than entries.
pub proof fn lemma_count_ones_le_len(s: Seq<bool>)
    ensures
        count_ones(s) <= s.len(),
    decreases s.len(),
{
    if s.len() > 0 {
        lemma_count_ones_le_len(s.drop_last());
    }
}

/// A sequence without `true` entries has no ones.
pub proof fn lemma_count_ones_none(s: Seq<bool>)
    requires
        forall|i: int| 0 <= i < s.len() ==> !s[i],
    ensures
        count_ones(s) == 0,
    decreases s.len(),
{
    if s.len() > 0 {
        lemma_count_ones_none(s.drop_last());
    }
}

/// Setting a `false` entry to `true` adds exactly one.
pub proof fn lemma_count_ones_set(s: Seq<bool>, i: int)
    requires
        0 <= i < s.len(),
        !s[i],
    ensures
        count_ones(s.update(i, true)) == count_ones(s) + 1,
    decreases s.len(),
{
    let t = s.update(i, true);
    if i < s.len() - 1 {
        assert(t.drop_last() =~= s.drop_last().update(i, true));
        lemma_count_ones_set(s.drop_last(), i);
    } else {
        assert(t.drop_last() =~= s.drop_last());
    }
}

/// The count over a prefix one entry longer.
pub proof fn lemma_count_ones_prefix(s: Seq<bool>, j: int)
    requires
        0 <= j < s.len(),
    ensures
        count_ones(s.subrange(0, j + 1)) == count_ones(s.subrange(0, j)) + if s[j] {
            1nat
        } else {
            0nat
        },
{
    assert(s.subrange(0, j + 1).drop_last() =~= s.subrange(0, j));
}

/// Whatever was written, a cell outside the written range reads 0, and a cell
/// reads the value last written to it.
pub proof fn lemma_tape_write_read(t: TapeView, id: int, v: bool, other: int)
    ensures
        t.written(id, v).value(id) == v,
        t.written(id, v).lo <= id < t.written(id, v).hi(),
        !(t.written(id, v).lo <= other < t.written(id, v).hi()) ==> !t.written(id, v).value(other),
        other != id ==> t.written(id, v).value(other) == t.value(other),
{
}

proof fn lemma_bit_test(w: u64, b: u64)
    requires
        b < 64,
    ensures
        ((w & (1u64 << b)) != 0) == ((w >> b) & 1 == 1),
{
    assert(((w & (1u64 << b)) != 0) == ((w >> b) & 1 == 1)) by (bit_vector)
        requires
            b < 64,
    ;
}

proof fn lemma_bit_set(w: u64, b: u64, vv: u64, j: u64)
    requires
        b < 64,
        j < 64,
        vv <= 1,
    ensures
        (((w & !(1u64 << b)) | (vv << b)) >> j) & 1 == if j == b {
            vv
        } else {
            (w >> j) & 1
        },
{
    assert((((w & !(1u64 << b)) | (vv << b)) >> j) & 1 == if j == b {
        vv
    } else {
        (w >> j) & 1
    }) by (bit_vector)
        requires
            b < 64,
            j < 64,
            vv <= 1,
    ;
}

proof fn lemma_zero_word(j: u64)
    ensures
        (0u64 >> j) & 1 == 0,
{
    assert((0u64 >> j) & 1 == 0) by (bit_vector);
}

/// The infinite tape of a machine. The cells are binary, all initialized to 0.
pub struct Tape {
    /// The bits stored on the tape, as a bit vector.
    data: Vec<u64>,
    /// Cell 0 is stored at bit `offset` of `data`.
    offset: i64,
    /// Outside this range nothing was ever written. It lies inside the part
    /// backed by `data`.
    written_range: Range<CellId>,
}

impl View for Tape {
    type V = TapeView;

    closed spec fn view(&self) -> TapeView {
        let lo = self.written_range.start.0 as int;
        let hi = self.written_range.end.0 as int;
        TapeView {
            lo,
            cells: Seq::new((hi - lo) as nat, |k: int| bit(self.data@, lo + k + self.offset)),
        }
    }
}

impl Tape {
    /// The number of bits the buffer backs.
    pub closed spec fn stored_bits(&self) -> nat {
        self.data@.len() * 64
    }

    /// The bit of the buffer that holds cell 0.
    pub closed spec fn origin(&self) -> int {
        self.offset as int
    }

    /// The bit distance from cell 0 to the left end of the buffer.
    closed spec fn left(&self) -> int {
        -self.offset
    }

    /// The bit distance from cell 0 to the right end (exclusive) of the buffer.
    closed spec fn right(&self) -> int {
        self.data@.len() * 64 - self.offset
    }

    /// The internal invariant: the written range holds cell 0 or borders on
    /// it, lies inside the buffer, the buffer stays in its box, and every bit
    /// of the buffer outside the written range is 0.
    pub closed spec fn wf(&self) -> bool {
        let lo = self.written_range.start.0 as int;
        let hi = self.written_range.end.0 as int;
        &&& 0 <= self.offset
        &&& -BUFFER_BOX <= self.left() <= lo
        &&& lo <= 0 <= hi
        &&& hi <= self.right() <= BUFFER_BOX
        &&& forall|p: int|
            0 <= p < self.data@.len() * 64 && !(lo <= p - self.offset < hi) ==> !#[trigger] bit(
                self.data@,
                p,
            )
    }

    /// Creates a new, empty tape.
    pub fn new() -> (r: Tape)
        ensures
            r.wf(),
            r@ == TapeView::empty(),
            r.stored_bits() == 64,
            r.origin() == 32,
    {
        let mut data: Vec<u64> = Vec::new();
        data.push(0);
        let r = Tape {
            data,
            offset: 32,
            written_range: Range { start: CellId(0), end: CellId(0) },
        };
        assert forall|p: int| 0 <= p < r.data@.len() * 64 implies !#[trigger] bit(r.data@, p) by {
            lemma_zero_word((p % 64) as u64);
        }
        assert(r@.cells =~= Seq::<bool>::empty());
        r
    }

    /// Clears the tape (sets all cells to 0) without deallocating memory: the
    /// buffer keeps its size, and cell 0 moves back to its middle.
    pub fn clear(&mut self)
        requires
            old(self).wf(),
        ensures
            final(self).wf(),
            final(self)@ == TapeView::empty(),
            final(self).stored_bits() == old(self).stored_bits(),
            final(self).origin() == final(self).stored_bits() / 2,
    {
        let len = self.data.len();
        let mut i: usize = 0;
        while i < len
            invariant
                len == self.data@.len(),
                len * 64 <= 2 * BUFFER_BOX,
                i <= len,
                forall|j: int| 0 <= j < i ==> self.data@[j] == 0,
            decreases len - i,
        {
            self.data.set(i, 0);
            i = i + 1;
        }
        self.offset = (len as u64 * 32) as i64;
        self.written_range = Range { start: CellId(0), end: CellId(0) };
        assert forall|p: int| 0 <= p < self.data@.len() * 64 implies !#[trigger] bit(
            self.data@,
            p,
        ) by {
            lemma_zero_word((p % 64) as u64);
        }
        assert(self@.cells =~= Seq::<bool>::empty());
    }

    /// The range in which cells have been written: not every cell in it was
    /// written, but every cell outside it is 0.
    pub fn written_range(&self) -> (r: Range<CellId>)
        requires
            self.wf(),
        ensures
            r.start.0 == self@.lo,
            r.end.0 == self@.hi(),
    {
        Range { start: self.written_range.start, end: self.written_range.end }
    }

    /// Returns the value of the given cell.
    pub fn get(&self, id: CellId) -> (r: CellValue)
        requires
            self.wf(),
        ensures
            r.0 == self@.value(id.0 as int),
    {
        // Outside the written range every cell is known to be 0.
        if id.0 < self.written_range.start.0 || id.0 >= self.written_range.end.0 {
            return CellValue(false);
        }
        let (bucket, bit_in_bucket) = self.lookup_bucket(id);
        proof {
            lemma_bit_test(self.data@[bucket as int], bit_in_bucket as u64);
        }
        CellValue((self.data[bucket] & (1u64 << bit_in_bucket as u64)) != 0)
    }

    /// The word and the bit within it that store cell `id`.
    fn lookup_bucket(&self, id: CellId) -> (r: (usize, usize))
        requires
            self.left() <= id.0 < self.right(),
            0 <= self.offset <= BUFFER_BOX,
            self.data@.len() * 64 <= 2 * BUFFER_BOX,
        ensures
            r.0 == (id.0 + self.offset) / 64,
            r.1 == (id.0 + self.offset) % 64,
            r.0 < self.data@.len(),
    {
        let pos = (self.offset + id.0) as u64;
        let len = self.data.len();
        assert(pos / 64 < len) by (nonlinear_arith)
            requires
                pos < len * 64,
        ;
        ((pos / 64) as usize, (pos % 64) as usize)
    }

    /// The number of bits the buffer holds.
    pub fn num_stored_bits(&self) -> (r: u64)
        requires
            self.wf(),
        ensures
            r == self.stored_bits(),
    {
        self.data.len() as u64 * 64
    }

    /// Writes a value into the given cell.
    pub fn write(&mut self, id: CellId, value: CellValue)
        requires
            old(self).wf(),
            -CELL_LIMIT < id.0 < CELL_LIMIT,
        ensures
            final(self).wf(),
            final(self)@ == old(self)@.written(id.0 as int, value.0),
            final(self).stored_bits() >= old(self).stored_bits(),
    {
        let ghost before = self@;
        let lo = self.written_range.start.0;
        let hi = self.written_range.end.0;
        let ghost mut mid = self@;
        if id.0 < lo || id.0 >= hi {
            // Only an id outside the written range can lie outside the buffer.
            let pos = self.offset + id.0;
            if pos < 0 || pos as u64 >= self.num_stored_bits() {
                self.grow(id);
            }
            proof {
                mid = self@;
            }
            if id.0 < lo {
                self.written_range.start = id;
            } else {
                self.written_range.end = CellId(id.0 + 1);
            }
            assert forall|p: int|
                0 <= p < self.data@.len() * 64 && !(self.written_range.start.0 <= p - self.offset
                    < self.written_range.end.0) implies !#[trigger] bit(self.data@, p) by {}
        }
        let ghost lo2 = self.written_range.start.0 as int;
        let ghost hi2 = self.written_range.end.0 as int;
        assert forall|x: int| lo2 <= x < hi2 implies #[trigger] bit(self.data@, x + self.offset)
            == before.value(x) by {
            if lo <= x < hi {
                assert(mid.cells[x - lo] == before.cells[x - lo]);
            } else {
                assert(!bit(self.data@, x + self.offset));
            }
        }
        // Clear the bit, then set it again if `value` is set.
        let (bucket, bit_in_bucket) = self.lookup_bucket(id);
        let vv: u64 = if value.0 {
            1
        } else {
            0
        };
        let ghost old_data = self.data@;
        let w = self.data[bucket];
        self.data.set(bucket, (w & !(1u64 << bit_in_bucket as u64)) | (vv << bit_in_bucket as u64));
        proof {
            let q = id.0 + self.offset;
            assert forall|p: int| 0 <= p < self.data@.len() * 64 implies #[trigger] bit(self.data@, p)
                == if p == q {
                value.0
            } else {
                bit(old_data, p)
            } by {
                lemma_bit_set(w, bit_in_bucket as u64, vv, (p % 64) as u64);
                if p / 64 != bucket {
                    assert(self.data@[p / 64] == old_data[p / 64]);
                }
            }
        }
        assert forall|k: int| 0 <= k < self@.cells.len() implies self@.cells[k]
            == before.written(id.0 as int, value.0).cells[k] by {
            let x = lo2 + k;
            assert(bit(self.data@, x + self.offset) == if x == id.0 {
                value.0
            } else {
                bit(old_data, x + self.offset)
            });
        }
        assert(self@.cells =~= before.written(id.0 as int, value.0).cells);
    }

    /// Grows the buffer so that it backs cell `id`, at least doubling it (up
    /// to `GROW_CAP` bits at once). The tape's contents stay the same.
    fn grow(&mut self, id: CellId)
        requires
            old(self).wf(),
            -CELL_LIMIT < id.0 < CELL_LIMIT,
            id.0 < old(self).left() || id.0 >= old(self).right(),
        ensures
            final(self).wf(),
            final(self)@ == old(self)@,
            final(self).written_range == old(self).written_range,
            final(self).left() <= id.0 < final(self).right(),
            final(self).stored_bits() > old(self).stored_bits() + (if old(self).stored_bits()
                < GROW_CAP {
                old(self).stored_bits()
            } else {
                GROW_CAP as nat
            }),
    {
        let ghost before = self@;
        let ghost old_data = self.data@;
        let old_offset = self.offset;
        let pos = self.offset + id.0;
        let stored_bits = self.num_stored_bits();
        let need: u64 = if pos < 0 {
            (-pos) as u64
        } else {
            pos as u64 - stored_bits
        };
        // At least double the capacity to avoid repeated reallocation.
        let mut grow_bits = if need > stored_bits {
            need
        } else {
            stored_bits
        };
        if grow_bits > GROW_CAP {
            grow_bits = GROW_CAP;
        }
        // Add one bucket to make up for rounding down.
        let grow_buckets: u64 = grow_bits / 64 + 1;
        let old_len = self.data.len();
        let mut new_data: Vec<u64> = Vec::new();
        if pos < 0 {
            let mut i: u64 = 0;
            while i < grow_buckets
                invariant
                    i <= grow_buckets,
                    new_data@.len() == i,
                    forall|j: int| 0 <= j < i ==> new_data@[j] == 0,
                decreases grow_buckets - i,
            {
                new_data.push(0);
                i = i + 1;
            }
        }
        let base = new_data.len();
        let mut i: usize = 0;
        while i < old_len
            invariant
                old_len == self.data@.len(),
                self.data@ == old_data,
                base == (if pos < 0 {
                    grow_buckets as int
                } else {
                    0
                }),
                i <= old_len,
                new_data@.len() == base + i,
                forall|j: int| 0 <= j < base ==> new_data@[j] == 0,
                forall|j: int| 0 <= j < i ==> new_data@[base + j] == old_data[j],
            decreases old_len - i,
        {
            new_data.push(self.data[i]);
            i = i + 1;
        }
        if pos >= 0 {
            let mut i: u64 = 0;
            while i < grow_buckets
                invariant
                    base == 0,
                    old_len == old_data.len(),
                    i <= grow_buckets,
                    new_data@.len() == old_len + i,
                    forall|j: int| 0 <= j < old_len ==> new_data@[j] == old_data[j],
                    forall|j: int| old_len <= j < old_len + i ==> new_data@[j] == 0,
                decreases grow_buckets - i,
            {
                new_data.push(0);
                i = i + 1;
            }
        }
        self.data = new_data;
        if pos < 0 {
            self.offset = self.offset + (grow_buckets * 64) as i64;
        }
        proof {
            let shift: int = if pos < 0 {
                grow_buckets as int * 64
            } else {
                0
            };
            assert(self.offset == old_offset + shift);
            // Every bit moves by `shift`; the new buckets are zero.
            assert forall|p: int| 0 <= p < self.data@.len() * 64 implies #[trigger] bit(
                self.data@,
                p,
            ) == if shift <= p < shift + old_len * 64 {
                bit(old_data, p - shift)
            } else {
                false
            } by {
                let w = p / 64;
                if shift <= p < shift + old_len * 64 {
                    assert((p - shift) / 64 == w - base);
                    assert((p - shift) % 64 == p % 64);
                } else {
                    assert(self.data@[w] == 0);
                    lemma_zero_word((p % 64) as u64);
                }
            }
            assert forall|k: int| 0 <= k < self@.cells.len() implies self@.cells[k]
                == before.cells[k] by {
                let p = self@.lo + k + self.offset;
                assert(bit(self.data@, p) == bit(old_data, p - shift));
            }
            assert(self@.cells =~= before.cells);
        }
    }
}

} // verus!
