use crate::address::DataAddress;
use crate::error::StoreError;
use crate::mapped::{zero_extended, MappedFile};
use vstd::bytes::{
    lemma_auto_spec_u64_to_from_le_bytes, spec_u64_from_le_bytes, spec_u64_to_le_bytes,
    u64_from_le_bytes, u64_to_le_bytes,
};
use vstd::prelude::*;

verus! {

/// Bytes of the record count at the head of the free-list file.
pub const COUNTER_SIZE: usize = 8;

/// Bytes of one slot: an offset and a length, each eight bytes.
pub const SLOT_SIZE: usize = 16;

/// Bytes of a free-list file that holds the counter and the sentinel slot.
pub const INIT_SIZE: usize = 24;

/// The little-endian `u64` stored at byte `at` of `img`.
pub open spec fn u64_at(img: Seq<u8>, at: int) -> int {
    spec_u64_from_le_bytes(img.subrange(at, at + 8)) as int
}

/// Where the offset of slot `row` is stored.
pub open spec fn offset_pos(row: int) -> int {
    8 + 16 * row
}

/// Where the length of slot `row` is stored.
pub open spec fn len_pos(row: int) -> int {
    16 + 16 * row
}

/// The span that slot `row` of the file image `img` holds, as (offset, length).
pub open spec fn slot(img: Seq<u8>, row: int) -> (int, int) {
    (u64_at(img, offset_pos(row)), u64_at(img, len_pos(row)))
}

/// The highest slot index that the image holds in full.
pub open spec fn top_row(img: Seq<u8>) -> int {
    (img.len() - 24) / 16
}

/// The image is a counter followed by a whole number of slots, the sentinel
/// slot among them.
pub open spec fn well_shaped(img: Seq<u8>) -> bool {
    &&& img.len() >= 24
    &&& (img.len() - 8) % 16 == 0
    &&& img.len() <= isize::MAX
}

/// The length that a free-list file of `n` bytes is brought to when opened:
/// at least the counter and the sentinel, rounded up to a whole slot.
pub open spec fn shaped_len(n: int) -> int {
    if n < 24 {
        24
    } else {
        8 + 16 * ((n - 8 + 15) / 16)
    }
}

/// A span that avoids offset 0 and ends inside a data file of `limit` bytes.
pub open spec fn span_ok(span: (int, int), limit: int) -> bool {
    1 <= span.0 && span.0 + span.1 <= limit
}

/// The recovered record count of `img`, scanning up from `row`: the slots
/// from `row` on that hold spans inside the data file, up to the first that
/// does not (a zeroed slot marks the end).
pub open spec fn recover_from(img: Seq<u8>, limit: int, row: int) -> int
    decreases top_row(img) + 1 - row,
{
    if row < 1 || row > top_row(img) || !span_ok(slot(img, row), limit) {
        row - 1
    } else {
        recover_from(img, limit, row + 1)
    }
}

/// The free spans that opening a (well-shaped) image recovers, row 1 first.
pub open spec fn recovered_rows(img: Seq<u8>, limit: int) -> Seq<(int, int)> {
    Seq::new(recover_from(img, limit, 1) as nat, |k: int| slot(img, k + 1))
}

/// The free spans after the first `len` bytes of the span at row `k`
/// (counted from 0) were reused: a used-up last span is retired, any other
/// span shrinks from its front.
pub open spec fn after_reuse(spans: Seq<(int, int)>, k: int, len: int) -> Seq<(int, int)> {
    if spans[k].1 == len && k == spans.len() - 1 {
        spans.drop_last()
    } else {
        spans.update(k, (spans[k].0 + len, spans[k].1 - len))
    }
}

/// The row of a free span that can take a requested length, and where it
/// starts.
pub struct FragmentGetResult {
    pub fragment_id: u64,
    pub string_addr: u64,
}

/// The free-list allocator: a counter and an array of free spans, kept in a
/// mapped file of their own. Slot 0 is a sentinel that is never assigned.
pub struct Fragment {
    file: MappedFile,
    record_count: u64,
}


/// Writing the encoding of `x` at `at` puts `x` there and leaves every other
/// eight-byte field that does not overlap it as it was.
proof fn lemma_put_u64(img: Seq<u8>, at: int, x: u64)
    requires
        0 <= at,
        at + 8 <= img.len(),
    ensures
        u64_at(img.update_subrange_with(at, spec_u64_to_le_bytes(x)), at) == x,
        img.update_subrange_with(at, spec_u64_to_le_bytes(x)).len() == img.len(),
        forall|p: int|
            0 <= p && p + 8 <= img.len() && (p + 8 <= at || at + 8 <= p) ==> #[trigger] u64_at(
                img.update_subrange_with(at, spec_u64_to_le_bytes(x)),
                p,
            ) == u64_at(img, p),
{
    lemma_auto_spec_u64_to_from_le_bytes();
    let b = spec_u64_to_le_bytes(x);
    let img2 = img.update_subrange_with(at, b);
    assert(img2.subrange(at, at + 8) =~= b);
    assert forall|p: int|
        0 <= p && p + 8 <= img.len() && (p + 8 <= at || at + 8 <= p) implies #[trigger] u64_at(
        img2,
        p,
    ) == u64_at(img, p) by {
        assert(img2.subrange(p, p + 8) =~= img.subrange(p, p + 8));
    }
}

/// Growing with zeros leaves the fields of the old bytes as they were.
proof fn lemma_extend_keeps(img: Seq<u8>, n: int)
    ensures
        forall|p: int|
            0 <= p && p + 8 <= img.len() ==> #[trigger] u64_at(zero_extended(img, n), p) == u64_at(
                img,
                p,
            ),
{
    assert forall|p: int| 0 <= p && p + 8 <= img.len() implies #[trigger] u64_at(
        zero_extended(img, n),
        p,
    ) == u64_at(img, p) by {
        assert(zero_extended(img, n).subrange(p, p + 8) =~= img.subrange(p, p + 8));
    }
}

/// A fragment's recovered count, scanning from `row` on, is its count as long
/// as the rows from `row` to the count hold spans inside the data file.
proof fn lemma_recover_count(img: Seq<u8>, limit: int, count: int, row: int)
    requires
        1 <= row <= count + 1,
        count <= top_row(img),
        count + 1 <= top_row(img) ==> slot(img, count + 1).0 == 0,
        forall|j: int| row <= j <= count ==> span_ok(#[trigger] slot(img, j), limit),
    ensures
        recover_from(img, limit, row) == count,
    decreases count + 1 - row,
{
    if row <= count {
        lemma_recover_count(img, limit, count, row + 1);
    }
}


/// Reopening recovers the free list: the file of a well-formed free list
/// whose spans lie inside the data file, with any value at all in its stored
/// counter (a stale or deliberately wrong one), opens again with the same
/// rows in use, holding the same spans.
pub proof fn lemma_reopen_recovers(f: &Fragment, img: Seq<u8>, limit: int)
    requires
        f.wf(),
        f.spans_within(limit),
        img.len() == f.image().len(),
        forall|i: int| 8 <= i < img.len() ==> img[i] == f.image()[i],
    ensures
        recovered_rows(zero_extended(img, shaped_len(img.len() as int)), limit) == f.rows(),
{
    let n = img.len() as int;
    assert(shaped_len(n) == n) by (nonlinear_arith)
        requires
            n >= 24,
            (n - 8) % 16 == 0,
    ;
    assert(zero_extended(img, n) == img);
    assert forall|j: int| 0 <= j <= top_row(img) implies #[trigger] slot(img, j) == slot(
        f.image(),
        j,
    ) by {
        assert(img.subrange(offset_pos(j), offset_pos(j) + 8) =~= f.image().subrange(
            offset_pos(j),
            offset_pos(j) + 8,
        ));
        assert(img.subrange(len_pos(j), len_pos(j) + 8) =~= f.image().subrange(
            len_pos(j),
            len_pos(j) + 8,
        ));
    }
    let count = f.rows().len() as int;
    assert forall|j: int| 1 <= j <= count implies span_ok(#[trigger] slot(img, j), limit) by {
        assert(f.rows()[j - 1] == slot(f.image(), j));
    }
    if count + 1 <= top_row(img) {
        assert(slot(img, count + 1) == slot(f.image(), count + 1));
    }
    lemma_recover_count(img, limit, count, 1);
    assert(recovered_rows(img, limit) =~= f.rows());
}

impl Fragment {
    /// The bytes of the free-list file.
    pub closed spec fn image(&self) -> Seq<u8> {
        self.file@
    }

    /// The free spans, row 1 first, as (offset, length).
    pub closed spec fn rows(&self) -> Seq<(int, int)> {
        Seq::new(self.record_count as nat, |k: int| slot(self.file@, k + 1))
    }

    /// The stored counter matches the rows in use, and the slot after the
    /// last row in use, if the file holds it, has offset zero.
    pub closed spec fn wf(&self) -> bool {
        let img = self.file@;
        &&& self.file.wf()
        &&& well_shaped(img)
        &&& u64_at(img, 0) == self.record_count
        &&& self.record_count <= top_row(img)
        &&& self.record_count + 1 <= top_row(img) ==> slot(img, self.record_count + 1).0 == 0
    }

    /// Every row in use holds a span that avoids offset 0 and ends inside a
    /// data file of `limit` bytes.
    pub open spec fn spans_within(&self, limit: int) -> bool {
        forall|k: int| 0 <= k < self.rows().len() ==> span_ok(#[trigger] self.rows()[k], limit)
    }


    /// The little-endian `u64` at byte `at` of the file.
    fn read_u64(&self, at: usize) -> (r: u64)
        requires
            self.file.wf(),
            at + 8 <= self.image().len(),
        ensures
            r == u64_at(self.image(), at as int),
    {
        let b = self.file.read(at, 8);
        u64_from_le_bytes(b)
    }

    /// Stores `x` at byte `at` of the file, little-endian.
    fn put_u64(&mut self, at: usize, x: u64)
        requires
            old(self).file.wf(),
            at + 8 <= old(self).image().len(),
        ensures
            final(self).file.wf(),
            final(self).record_count == old(self).record_count,
            final(self).image() == old(self).image().update_subrange_with(
                at as int,
                spec_u64_to_le_bytes(x),
            ),
    {
        proof {
            lemma_auto_spec_u64_to_from_le_bytes();
        }
        let b = u64_to_le_bytes(x);
        self.file.write(at, b.as_slice());
    }

    /// The newest row whose span is at least `len` bytes long, scanning from
    /// the last row in use down to row 1, with the offset where that span
    /// starts; `None` when no row in use is long enough.
    pub fn search_blank(&self, len: u64) -> (r: Option<FragmentGetResult>)
        requires
            self.wf(),
        ensures
            match r {
                Some(g) => {
                    &&& 1 <= g.fragment_id <= self.rows().len()
                    &&& self.rows()[g.fragment_id - 1].1 >= len
                    &&& g.string_addr == self.rows()[g.fragment_id - 1].0
                    &&& forall|k: int|
                        g.fragment_id <= k < self.rows().len() ==> #[trigger] self.rows()[k].1
                            < len
                },
                None => forall|k: int|
                    0 <= k < self.rows().len() ==> #[trigger] self.rows()[k].1 < len,
            },
    {
        let mut row: u64 = self.record_count;
        while row > 0
            invariant
                self.wf(),
                row <= self.record_count,
                forall|k: int| row <= k < self.rows().len() ==> #[trigger] self.rows()[k].1 < len,
            decreases row,
        {
            let at = COUNTER_SIZE + SLOT_SIZE * (row as usize);
            let span_len = self.read_u64(at + 8);
            if span_len >= len {
                let span_offset = self.read_u64(at);
                return Some(FragmentGetResult { fragment_id: row, string_addr: span_offset });
            }
            row = row - 1;
        }
        None
    }


    /// The highest slot index that the file holds.
    fn top(&self) -> (r: usize)
        requires
            self.image().len() >= 24,
        ensures
            r == top_row(self.image()),
    {
        (self.file.len() - INIT_SIZE) / SLOT_SIZE
    }

    /// Shrinks the span of row `row` from its front by `len` bytes, after
    /// they were handed out. A span of the last row in use that is used up
    /// retires that row (its slot is cleared); one of another row stays in
    /// place with length zero, where no search finds it again.
    pub fn release(&mut self, row: u64, len: u64)
        requires
            old(self).wf(),
            1 <= row <= old(self).rows().len(),
            len <= old(self).rows()[row - 1].1,
            old(self).rows()[row - 1].0 + old(self).rows()[row - 1].1 <= u64::MAX,
        ensures
            final(self).wf(),
            final(self).rows() == after_reuse(old(self).rows(), row - 1, len as int),
    {
        let ghost img0 = self.image();
        let at = COUNTER_SIZE + SLOT_SIZE * (row as usize);
        let span_offset = self.read_u64(at);
        let span_len = self.read_u64(at + 8);
        if span_len == len && row == self.record_count {
            self.put_u64(at, 0);
            proof {
                lemma_put_u64(img0, at as int, 0);
            }
            let ghost img1 = self.image();
            self.put_u64(at + 8, 0);
            proof {
                lemma_put_u64(img1, at + 8, 0);
            }
            let ghost img2 = self.image();
            self.record_count = self.record_count - 1;
            self.put_u64(0, self.record_count);
            proof {
                lemma_put_u64(img2, 0, self.record_count);
                assert(self.rows() =~= old(self).rows().drop_last());
            }
        } else {
            self.put_u64(at, span_offset + len);
            proof {
                lemma_put_u64(img0, at as int, (span_offset + len) as u64);
            }
            let ghost img1 = self.image();
            self.put_u64(at + 8, span_len - len);
            proof {
                lemma_put_u64(img1, at + 8, (span_len - len) as u64);
                assert(self.rows() =~= old(self).rows().update(
                    row - 1,
                    (span_offset + len, span_len - len),
                ));
            }
        }
    }

    /// Records `span` as a new free row after the last one in use, growing
    /// the file by a slot when it holds none there, and returns the new row.
    /// The slot is written before the counter: a crash in between leaves a
    /// stale counter, and the slot is found again when the file is reopened.
    pub fn insert(&mut self, span: &DataAddress) -> (r: Result<u64, StoreError>)
        requires
            old(self).wf(),
            span.offset >= 1,
        ensures
            match r {
                Ok(row) => {
                    &&& final(self).wf()
                    &&& row == old(self).rows().len() + 1
                    &&& top_row(final(self).image()) >= row
                    &&& final(self).image().len() >= 8 + 16 * (row + 1)
                    &&& final(self).rows() == old(self).rows().push(
                        (span.offset as int, span.len as int),
                    )
                },
                Err(StoreError::TooLarge) => {
                    &&& old(self).rows().len() + 1 > top_row(old(self).image())
                    &&& 8 + 16 * (old(self).rows().len() + 2) > isize::MAX
                    &&& *final(self) == *old(self)
                },
                Err(StoreError::Io(_)) => {
                    &&& old(self).rows().len() + 1 > top_row(old(self).image())
                    &&& 8 + 16 * (old(self).rows().len() + 2) <= isize::MAX
                    &&& final(self).rows() == old(self).rows()
                },
                Err(_) => false,
            },
    {
        let ghost img0 = self.image();
        let count = self.record_count as usize;
        let top = self.top();
        if count + 1 > top {
            if count + 2 > (isize::MAX as usize - COUNTER_SIZE) / SLOT_SIZE {
                return Err(StoreError::TooLarge);
            }
            assert(16 * (count + 2) <= isize::MAX - 8) by (nonlinear_arith)
                requires
                    count + 2 <= (isize::MAX - 8) / 16,
            ;
            let new_len = COUNTER_SIZE + SLOT_SIZE * (count + 2);
            match self.file.grow(new_len) {
                Ok(()) => {},
                Err(e) => {
                    return Err(StoreError::Io(e));
                },
            }
            proof {
                lemma_extend_keeps(img0, new_len as int);
                let img = self.image();
                assert(top_row(img) == count + 1) by (nonlinear_arith)
                    requires
                        img.len() == 8 + 16 * (count + 2),
                ;
            }
        }
        let ghost img1 = self.image();
        assert(top_row(img1) >= count + 1);
        let row = count + 1;
        let at = COUNTER_SIZE + SLOT_SIZE * row;
        self.put_u64(at, span.offset as u64);
        proof {
            lemma_put_u64(img1, at as int, span.offset as u64);
        }
        let ghost img2 = self.image();
        self.put_u64(at + 8, span.len);
        proof {
            lemma_put_u64(img2, at + 8, span.len);
        }
        let ghost img3 = self.image();
        if row + 1 <= self.top() {
            self.put_u64(at + SLOT_SIZE, 0);
            proof {
                lemma_put_u64(img3, at + 16, 0);
            }
        }
        let ghost img4 = self.image();
        self.record_count = row as u64;
        self.put_u64(0, row as u64);
        proof {
            lemma_put_u64(img4, 0, row as u64);
            assert(self.rows() =~= old(self).rows().push((span.offset as int, span.len as int)));
        }
        Ok(row as u64)
    }


    /// Opens the free list kept in `file`, for a data file of `limit` bytes.
    /// The file is first brought to a whole number of slots, at least the
    /// counter and the sentinel (the added bytes are zero). The stored counter
    /// is not trusted: the rows in use are recovered by scanning up from row 1
    /// over the slots that hold spans inside the data file, up to the first
    /// that does not, such as a cleared slot. The recovered count is then
    /// stored, and the slot after the last row in use is cleared.
    ///
    /// The scan goes up from row 1 rather than down from the last slot: the
    /// allocator clears a retired slot and the slot after the last row in
    /// use, so the first cleared slot marks the end of the rows in use, and a
    /// stored counter that is stale, or larger than the rows written, is
    /// corrected. A slot whose span leaves the data file also ends the scan,
    /// so that every recovered row can be reused safely.
    pub fn new(file: MappedFile, limit: u64) -> (r: Result<Fragment, StoreError>)
        requires
            file.wf(),
            limit <= isize::MAX,
        ensures
            match r {
                Ok(f) => {
                    &&& f.wf()
                    &&& f.spans_within(limit as int)
                    &&& f.image().len() == shaped_len(file@.len() as int)
                    &&& f.rows() == recovered_rows(
                        zero_extended(file@, shaped_len(file@.len() as int)),
                        limit as int,
                    )
                },
                Err(StoreError::TooLarge) => shaped_len(file@.len() as int) > isize::MAX,
                Err(StoreError::Io(_)) => {
                    &&& shaped_len(file@.len() as int) != file@.len()
                    &&& shaped_len(file@.len() as int) <= isize::MAX
                },
                Err(_) => false,
            },
    {
        let mut file = file;
        let n = file.len();
        let target = if n < INIT_SIZE {
            INIT_SIZE
        } else {
            COUNTER_SIZE + SLOT_SIZE * ((n - COUNTER_SIZE + 15) / SLOT_SIZE)
        };
        if target > isize::MAX as usize {
            return Err(StoreError::TooLarge);
        }
        let ghost shaped = zero_extended(file@, target as int);
        if target != n {
            assert(n <= target) by (nonlinear_arith)
                requires
                    n >= 24 ==> target == 8 + 16 * ((n - 8 + 15) / 16),
                    n < 24 ==> target == 24,
            ;
            match file.grow(target) {
                Ok(()) => {},
                Err(e) => {
                    return Err(StoreError::Io(e));
                },
            }
        } else {
            assert(shaped =~= file@);
        }
        assert(well_shaped(shaped)) by (nonlinear_arith)
            requires
                shaped.len() == target,
                target <= isize::MAX,
                n >= 24 ==> target == 8 + 16 * ((n - 8 + 15) / 16),
                n < 24 ==> target == 24,
        ;
        let mut f = Fragment { file, record_count: 0 };
        let top = f.top();
        let mut row: usize = 1;
        let mut done = false;
        while !done
            invariant
                f.file.wf(),
                f.image() == shaped,
                well_shaped(shaped),
                top == top_row(shaped),
                1 <= row <= top + 1,
                recover_from(shaped, limit as int, 1) == recover_from(shaped, limit as int, row as int),
                done ==> recover_from(shaped, limit as int, row as int) == row - 1,
                forall|j: int| 1 <= j < row ==> span_ok(#[trigger] slot(shaped, j), limit as int),
            decreases top + 1 - row + (if done { 0int } else { 1int }),
        {
            if row > top {
                done = true;
            } else {
                let at = COUNTER_SIZE + SLOT_SIZE * row;
                let span_offset = f.read_u64(at);
                let span_len = f.read_u64(at + 8);
                if span_offset >= 1 && span_offset <= limit && span_len <= limit - span_offset {
                    row = row + 1;
                } else {
                    done = true;
                }
            }
        }
        let count = row - 1;
        if count + 1 <= top {
            f.put_u64(COUNTER_SIZE + SLOT_SIZE * (count + 1), 0);
            proof {
                lemma_put_u64(shaped, 8 + 16 * (count + 1), 0);
            }
        }
        let ghost img1 = f.image();
        f.record_count = count as u64;
        f.put_u64(0, count as u64);
        proof {
            lemma_put_u64(img1, 0, count as u64);
            assert(f.rows() =~= recovered_rows(shaped, limit as int));
            assert forall|k: int| 0 <= k < f.rows().len() implies span_ok(
                #[trigger] f.rows()[k],
                limit as int,
            ) by {
                assert(f.rows()[k] == slot(shaped, k + 1));
            }
        }
        Ok(f)
    }

    /// The span of row `row`, as (offset, length).
    pub fn span(&self, row: u64) -> (r: (u64, u64))
        requires
            self.wf(),
            1 <= row <= self.rows().len(),
        ensures
            r.0 == self.rows()[row - 1].0,
            r.1 == self.rows()[row - 1].1,
    {
        let at = COUNTER_SIZE + SLOT_SIZE * (row as usize);
        (self.read_u64(at), self.read_u64(at + 8))
    }

    /// Gives back the free-list file.
    pub fn into_file(self) -> (r: MappedFile)
        ensures
            r@ == self.image(),
            self.wf() ==> r.wf(),
    {
        self.file
    }

    /// The number of rows in use.
    pub fn record_count(&self) -> (r: u64)
        ensures
            r == self.rows().len(),
    {
        self.record_count
    }
}

} // verus!
