use crate::address::DataAddress;
use crate::error::StoreError;
use crate::fragment::{
    after_reuse, lemma_reopen_recovers, recovered_rows, shaped_len, span_ok, top_row, Fragment,
};
use crate::mapped::{zero_extended, MappedFile};
use vstd::prelude::*;

verus! {

/// The row, counted from 0, of the newest span in `spans` that is at least
/// `len` bytes long, or -1 when there is none.
pub open spec fn newest_fit(spans: Seq<(int, int)>, len: int) -> int
    decreases spans.len(),
{
    if spans.len() == 0 {
        -1
    } else if spans.last().1 >= len {
        spans.len() - 1
    } else {
        newest_fit(spans.drop_last(), len)
    }
}

/// `n` zero bytes.
pub open spec fn zeros(n: int) -> Seq<u8> {
    Seq::new(n as nat, |i: int| 0u8)
}

proof fn lemma_newest_fit(spans: Seq<(int, int)>, len: int, k: int)
    requires
        -1 <= k < spans.len(),
        k >= 0 ==> spans[k].1 >= len,
        forall|j: int| k < j < spans.len() ==> #[trigger] spans[j].1 < len,
    ensures
        newest_fit(spans, len) == k,
    decreases spans.len(),
{
    if spans.len() > 0 && k < spans.len() - 1 {
        lemma_newest_fit(spans.drop_last(), len, k);
    }
}

/// What a successful insertion of `target` at span `a` did to the store:
/// the newest free span long enough was reused from its front, or, if none
/// was, the bytes went to the end of the data file.
pub open spec fn inserted(
    before: VariousDataFile,
    after: VariousDataFile,
    target: Seq<u8>,
    a: DataAddress,
) -> bool {
    let k = newest_fit(before.free_spans(), target.len() as int);
    &&& target.len() > 0
    &&& a.len == target.len()
    &&& if k >= 0 {
        &&& a.offset == before.free_spans()[k].0
        &&& after.contents() == before.contents().update_subrange_with(a.offset as int, target)
        &&& after.free_spans() == after_reuse(before.free_spans(), k, target.len() as int)
    } else {
        &&& a.offset == before.contents().len()
        &&& after.contents() == before.contents() + target
        &&& after.free_spans() == before.free_spans()
    }
}

/// What a successful removal of the record at `addr` did to the store: its
/// bytes are zero and its span is the newest free span.
pub open spec fn removed(before: VariousDataFile, after: VariousDataFile, addr: DataAddress) -> bool {
    &&& after.contents() == before.contents().update_subrange_with(
        addr.offset as int,
        zeros(addr.len as int),
    )
    &&& after.free_spans() == before.free_spans().push((addr.offset as int, addr.len as int))
}


/// The row that `newest_fit` picks is in range and long enough.
proof fn lemma_newest_fit_props(spans: Seq<(int, int)>, len: int)
    ensures
        -1 <= newest_fit(spans, len) < spans.len(),
        newest_fit(spans, len) >= 0 ==> spans[newest_fit(spans, len)].1 >= len,
    decreases spans.len(),
{
    if spans.len() > 0 && spans.last().1 < len {
        lemma_newest_fit_props(spans.drop_last(), len);
    }
}

/// Reading back what was inserted: the span that an insertion returns lies
/// inside the data file and holds exactly the inserted bytes.
pub proof fn lemma_round_trip(
    before: VariousDataFile,
    after: VariousDataFile,
    target: Seq<u8>,
    a: DataAddress,
)
    requires
        before.wf(),
        inserted(before, after, target, a),
    ensures
        a.lies_within(after.contents().len() as int),
        after.contents().subrange(a.offset as int, a.offset + a.len) == target,
{
    let spans = before.free_spans();
    lemma_newest_fit_props(spans, target.len() as int);
    let k = newest_fit(spans, target.len() as int);
    if k >= 0 {
        assert(span_ok(spans[k], before.contents().len() as int));
        assert(after.contents().subrange(a.offset as int, a.offset + a.len) =~= target);
    } else {
        assert(after.contents().subrange(a.offset as int, a.offset + a.len) =~= target);
    }
}

/// Reuse after removal: a payload no longer than a record that was just
/// removed goes where that record was, since its span is the newest free
/// span, and the bytes there are the payload.
pub proof fn lemma_reuse_after_remove(
    s0: VariousDataFile,
    s1: VariousDataFile,
    s2: VariousDataFile,
    addr: DataAddress,
    target: Seq<u8>,
    a: DataAddress,
)
    requires
        s1.wf(),
        removed(s0, s1, addr),
        inserted(s1, s2, target, a),
        target.len() <= addr.len,
    ensures
        a.offset == addr.offset,
        s2.contents().subrange(a.offset as int, a.offset + target.len()) == target,
{
    let spans = s1.free_spans();
    lemma_newest_fit(spans, target.len() as int, spans.len() - 1);
    lemma_round_trip(s1, s2, target, a);
}

/// Append fallback: when no free span is long enough for the payload (as on
/// a store with no free spans), it goes at the former end of the data file.
pub proof fn lemma_append_fallback(
    before: VariousDataFile,
    after: VariousDataFile,
    target: Seq<u8>,
    a: DataAddress,
)
    requires
        inserted(before, after, target, a),
        forall|k: int|
            0 <= k < before.free_spans().len() ==> #[trigger] before.free_spans()[k].1
                < target.len(),
    ensures
        a.offset == before.contents().len(),
        after.contents() == before.contents() + target,
{
    lemma_newest_fit(before.free_spans(), target.len() as int, -1);
}

/// A store opened on new, empty files has no free spans.
pub proof fn lemma_fresh_store_has_no_free_spans(limit: int)
    ensures
        recovered_rows(zero_extended(Seq::empty(), shaped_len(0)), limit).len() == 0,
{
    let img = zero_extended(Seq::<u8>::empty(), shaped_len(0));
    assert(img.len() == 24);
    assert(top_row(img) == 0);
}

/// Reopening a store gives it back: the files of a well-formed store, with
/// any value at all in the free list's stored counter, open to the same data
/// and the same free spans.
pub proof fn lemma_reopen(s: VariousDataFile, data_img: Seq<u8>, list_img: Seq<u8>)
    requires
        s.wf(),
        data_img == s.contents(),
        list_img.len() == s.free_list_image().len(),
        forall|i: int| 8 <= i < list_img.len() ==> list_img[i] == s.free_list_image()[i],
    ensures
        zero_extended(data_img, 1) == s.contents(),
        recovered_rows(
            zero_extended(list_img, shaped_len(list_img.len() as int)),
            s.contents().len() as int,
        ) == s.free_spans(),
{
    lemma_reopen_recovers(&s.fragment, list_img, s.contents().len() as int);
}

/// Using up a span: when it is the last row, the row retires and the count
/// drops by one; any other row stays, with length zero, and no search for a
/// positive length picks it again.
pub proof fn lemma_used_up_row(spans: Seq<(int, int)>, k: int, len: int)
    requires
        0 <= k < spans.len(),
        spans[k].1 == len,
    ensures
        k == spans.len() - 1 ==> after_reuse(spans, k, len).len() == spans.len() - 1,
        k < spans.len() - 1 ==> {
            &&& after_reuse(spans, k, len).len() == spans.len()
            &&& after_reuse(spans, k, len)[k].1 == 0
            &&& forall|want: int| want >= 1 ==> #[trigger] newest_fit(after_reuse(spans, k, len), want) != k
        },
{
    assert forall|want: int| want >= 1 implies #[trigger] newest_fit(after_reuse(spans, k, len), want) != k by {
        lemma_newest_fit_props(after_reuse(spans, k, len), want);
    }
}

/// A stored record: its span in the data file, and the store that holds it.
pub struct Data<'a> {
    address: DataAddress,
    data: &'a VariousDataFile,
}

impl<'a> Data<'a> {
    /// The span of the record.
    pub closed spec fn spec_address(&self) -> DataAddress {
        self.address
    }

    /// The store that holds the record.
    pub closed spec fn store(&self) -> &'a VariousDataFile {
        self.data
    }

    /// The bytes of the record.
    pub fn bytes(&self) -> (r: &[u8])
        requires
            self.store().wf(),
            self.spec_address().fits_within(self.store().contents().len() as int),
        ensures
            r@ == self.store().contents().subrange(
                self.spec_address().offset as int,
                self.spec_address().offset + self.spec_address().len,
            ),
    {
        self.data.bytes(&self.address)
    }

    /// The span of the record.
    pub fn address(&self) -> (r: &DataAddress)
        ensures
            *r == self.spec_address(),
    {
        &self.address
    }
}

/// A store of byte spans in a mapped data file, with a free list of the
/// spans that were removed, in a mapped file of its own.
pub struct VariousDataFile {
    file: MappedFile,
    fragment: Fragment,
}

impl VariousDataFile {
    /// The bytes of the data file.
    pub closed spec fn contents(&self) -> Seq<u8> {
        self.file@
    }

    /// The bytes of the free-list file.
    pub closed spec fn free_list_image(&self) -> Seq<u8> {
        self.fragment.image()
    }

    /// The free spans, oldest row first, as (offset, length).
    pub closed spec fn free_spans(&self) -> Seq<(int, int)> {
        self.fragment.rows()
    }

    /// The data file holds at least the reserved byte at offset 0, the free
    /// list is well formed, and every free span lies inside the data file.
    pub closed spec fn wf(&self) -> bool {
        &&& self.file.wf()
        &&& 1 <= self.file@.len() <= isize::MAX
        &&& self.fragment.wf()
        &&& self.fragment.spans_within(self.file@.len() as int)
    }

    /// Opens a store over the data file `data` and its free-list file
    /// `free_list`, each given with the bytes it holds. An empty data file is
    /// grown to one byte, so that no record starts at offset 0. The free list
    /// is recovered as `Fragment::new` describes, against the data file's
    /// length.
    pub fn new(data: MappedFile, free_list: MappedFile) -> (r: Result<VariousDataFile, StoreError>)
        requires
            data.wf(),
            free_list.wf(),
        ensures
            match r {
                Ok(s) => {
                    &&& s.wf()
                    &&& s.contents() == zero_extended(data@, 1)
                    &&& s.free_list_image().len() == shaped_len(free_list@.len() as int)
                    &&& s.free_spans() == recovered_rows(
                        zero_extended(free_list@, shaped_len(free_list@.len() as int)),
                        s.contents().len() as int,
                    )
                },
                Err(StoreError::TooLarge) => shaped_len(free_list@.len() as int) > isize::MAX,
                Err(StoreError::Io(_)) => data@.len() == 0 || (shaped_len(free_list@.len() as int)
                    != free_list@.len() && shaped_len(free_list@.len() as int) <= isize::MAX),
                Err(StoreError::EmptyPayload) => false,
            },
    {
        let mut data = data;
        if data.len() == 0 {
            match data.grow(1) {
                Ok(()) => {},
                Err(e) => {
                    return Err(StoreError::Io(e));
                },
            }
        } else {
            assert(zero_extended(data@, 1) == data@);
        }
        let limit = data.len() as u64;
        match Fragment::new(free_list, limit) {
            Ok(fragment) => Ok(VariousDataFile { file: data, fragment }),
            Err(e) => Err(e),
        }
    }

    /// The bytes of the span `word`.
    pub fn bytes(&self, word: &DataAddress) -> (r: &[u8])
        requires
            self.wf(),
            word.fits_within(self.contents().len() as int),
        ensures
            r@ == self.contents().subrange(word.offset as int, word.offset + word.len),
    {
        self.file.read(word.offset as usize, word.len as usize)
    }

    /// The length of the data file in bytes.
    pub fn len(&self) -> (r: u64)
        requires
            self.wf(),
        ensures
            r == self.contents().len(),
    {
        self.file.len() as u64
    }

    /// Stores `target` and returns the record. The newest free span that is
    /// long enough is reused from its front; when there is none, the bytes
    /// are appended at the end of the data file. An empty payload is refused.
    /// Reuse never fails; after an `Io` error from appending, the store must
    /// not be used again, since its mapping may be gone.
    pub fn insert(&mut self, target: &[u8]) -> (r: Result<Data<'_>, StoreError>)
        requires
            old(self).wf(),
        ensures
            match r {
                Ok(d) => {
                    &&& final(self).wf()
                    &&& *d.store() == *final(self)
                    &&& inserted(*old(self), *final(self), target@, d.spec_address())
                },
                Err(StoreError::EmptyPayload) => target@.len() == 0 && *final(self) == *old(self),
                Err(StoreError::TooLarge) => {
                    &&& target@.len() > 0
                    &&& newest_fit(old(self).free_spans(), target@.len() as int) == -1
                    &&& old(self).contents().len() + target@.len() > isize::MAX
                    &&& *final(self) == *old(self)
                },
                Err(StoreError::Io(_)) => {
                    &&& target@.len() > 0
                    &&& newest_fit(old(self).free_spans(), target@.len() as int) == -1
                    &&& old(self).contents().len() + target@.len() <= isize::MAX
                    &&& final(self).contents() == old(self).contents()
                    &&& final(self).free_spans() == old(self).free_spans()
                },
            },
    {
        let len = target.len();
        if len == 0 {
            return Err(StoreError::EmptyPayload);
        }
        let ghost spans = self.fragment.rows();
        match self.fragment.search_blank(len as u64) {
            Some(g) => {
                proof {
                    lemma_newest_fit(spans, len as int, g.fragment_id - 1);
                }
                self.file.write(g.string_addr as usize, target);
                self.fragment.release(g.fragment_id, len as u64);
                proof {
                    let lim = self.file@.len() as int;
                    assert forall|k: int| 0 <= k < self.fragment.rows().len() implies span_ok(
                        #[trigger] self.fragment.rows()[k],
                        lim,
                    ) by {
                        assert(span_ok(spans[g.fragment_id - 1], lim));
                        assert(k < spans.len() ==> span_ok(spans[k], lim));
                    }
                }
                Ok(
                    Data {
                        address: DataAddress { offset: g.string_addr as i64, len: len as u64 },
                        data: &*self,
                    },
                )
            },
            None => {
                proof {
                    lemma_newest_fit(spans, len as int, -1);
                }
                if len > isize::MAX as usize || self.file.len() > isize::MAX as usize - len {
                    return Err(StoreError::TooLarge);
                }
                match self.file.append(target) {
                    Ok(at) => {
                        proof {
                            let lim = self.file@.len() as int;
                            assert forall|k: int| 0 <= k < spans.len() implies span_ok(
                                #[trigger] self.fragment.rows()[k],
                                lim,
                            ) by {
                                assert(span_ok(spans[k], old(self).file@.len() as int));
                            }
                        }
                        Ok(
                            Data {
                                address: DataAddress { offset: at as i64, len: len as u64 },
                                data: &*self,
                            },
                        )
                    },
                    Err(e) => Err(StoreError::Io(e)),
                }
            },
        }
    }

    /// Frees the record at `ystr`: its bytes are overwritten with zeros and
    /// its span is recorded as a new free row, after all others. Free spans
    /// are never merged. Removal fails only when the free-list file must grow
    /// by a slot; after an `Io` error the store must not be used again, since
    /// its mapping may be gone.
    pub fn remove(&mut self, ystr: &DataAddress) -> (r: Result<(), StoreError>)
        requires
            old(self).wf(),
            ystr.lies_within(old(self).contents().len() as int),
        ensures
            match r {
                Ok(()) => final(self).wf() && removed(*old(self), *final(self), *ystr),
                Err(StoreError::TooLarge) => {
                    &&& old(self).free_spans().len() + 1 > top_row(old(self).free_list_image())
                    &&& 8 + 16 * (old(self).free_spans().len() + 2) > isize::MAX
                    &&& final(self).free_spans() == old(self).free_spans()
                },
                Err(StoreError::Io(_)) => {
                    &&& old(self).free_spans().len() + 1 > top_row(old(self).free_list_image())
                    &&& 8 + 16 * (old(self).free_spans().len() + 2) <= isize::MAX
                    &&& final(self).free_spans() == old(self).free_spans()
                },
                Err(StoreError::EmptyPayload) => false,
            },
    {
        let n = ystr.len as usize;
        let mut blank: Vec<u8> = Vec::new();
        while blank.len() < n
            invariant
                blank@ == zeros(blank@.len() as int),
                blank@.len() <= n,
            decreases n - blank@.len(),
        {
            blank.push(0u8);
            assert(blank@ =~= zeros(blank@.len() as int));
        }
        self.file.write(ystr.offset as usize, blank.as_slice());
        let ghost spans = self.fragment.rows();
        match self.fragment.insert(ystr) {
            Ok(_) => {
                proof {
                    let lim = self.file@.len() as int;
                    assert forall|k: int| 0 <= k < self.fragment.rows().len() implies span_ok(
                        #[trigger] self.fragment.rows()[k],
                        lim,
                    ) by {
                        if k < spans.len() {
                            assert(span_ok(spans[k], lim));
                        }
                    }
                }
                Ok(())
            },
            Err(e) => Err(e),
        }
    }

    /// The free span of row `row` (counted from 1, oldest first).
    pub fn free_span(&self, row: u64) -> (r: DataAddress)
        requires
            self.wf(),
            1 <= row <= self.free_spans().len(),
        ensures
            r.offset == self.free_spans()[row - 1].0,
            r.len == self.free_spans()[row - 1].1,
    {
        proof {
            assert(span_ok(self.fragment.rows()[row - 1], self.file@.len() as int));
        }
        let (offset, len) = self.fragment.span(row);
        DataAddress { offset: offset as i64, len }
    }

    /// Gives back the data file and the free-list file, for instance to open
    /// the store again from them.
    pub fn into_files(self) -> (r: (MappedFile, MappedFile))
        ensures
            r.0@ == self.contents(),
            r.1@ == self.free_list_image(),
            self.wf() ==> r.0.wf() && r.1.wf(),
    {
        let VariousDataFile { file, fragment } = self;
        (file, fragment.into_file())
    }

    /// The number of free spans on record.
    pub fn free_count(&self) -> (r: u64)
        requires
            self.wf(),
        ensures
            r == self.free_spans().len(),
    {
        self.fragment.record_count()
    }
}

} // verus!
