use file_mmap::FileMmap;
use vstd::prelude::*;

verus! {

#[verifier::external_type_specification]
#[verifier::external_body]
pub struct ExFileMmap(FileMmap);

#[verifier::external_type_specification]
#[verifier::external_body]
pub struct ExIoError(std::io::Error);

/// The bytes of the file that a mapping stands for, in order.
pub uninterp spec fn mapped_bytes(m: FileMmap) -> Seq<u8>;

/// `s` extended with zero bytes up to length `n` (or `s` itself when it is
/// already that long).
pub open spec fn zero_extended(s: Seq<u8>, n: int) -> Seq<u8> {
    if n <= s.len() {
        s
    } else {
        s + Seq::new((n - s.len()) as nat, |i: int| 0u8)
    }
}

/// Relies on `FileMmap::set_len`: the file is set to `len` bytes with
/// `File::set_len`, which fills the added bytes with zeros, and mapped again.
#[verifier::external_body]
pub(crate) fn map_grow(m: &mut FileMmap, len: u64) -> (r: Result<(), std::io::Error>)
    requires
        mapped_bytes(*old(m)).len() <= len,
    ensures
        r is Ok ==> mapped_bytes(*final(m)) == zero_extended(mapped_bytes(*old(m)), len as int),
{
    m.set_len(len)
}

/// Relies on `FileMmap::write`: the bytes are copied into the mapping at
/// `addr`, through a slice of exactly their length, so the copy cannot run
/// short.
#[verifier::external_body]
pub(crate) fn map_write(m: &mut FileMmap, addr: u64, bytes: &[u8]) -> (r: Result<(), std::io::Error>)
    requires
        addr + bytes@.len() <= mapped_bytes(*old(m)).len(),
        addr + bytes@.len() <= isize::MAX,
    ensures
        r is Ok,
        mapped_bytes(*final(m)) == mapped_bytes(*old(m)).update_subrange_with(addr as int, bytes@),
{
    m.write(addr as isize, bytes)
}

/// Relies on `FileMmap::append`: the file grows by the bytes, which are
/// written at its former end, and that former end is returned.
#[verifier::external_body]
pub(crate) fn map_append(m: &mut FileMmap, bytes: &[u8]) -> (r: Result<u64, std::io::Error>)
    requires
        mapped_bytes(*old(m)).len() + bytes@.len() <= isize::MAX,
    ensures
        r is Ok ==> r->Ok_0 == mapped_bytes(*old(m)).len() && mapped_bytes(*final(m))
            == mapped_bytes(*old(m)) + bytes@,
{
    m.append(bytes)
}


/// Writes `src` over `dst` starting at index `at`.
fn copy_into(dst: &mut Vec<u8>, at: usize, src: &[u8])
    requires
        at + src@.len() <= old(dst)@.len() <= isize::MAX,
    ensures
        final(dst)@ == old(dst)@.update_subrange_with(at as int, src@),
{
    let mut k: usize = 0;
    while k < src.len()
        invariant
            k <= src@.len(),
            at + src@.len() <= dst@.len() <= isize::MAX,
            dst@.len() == old(dst)@.len(),
            forall|i: int|
                0 <= i < dst@.len() ==> dst@[i] == (if at <= i < at + k {
                    src@[i - at]
                } else {
                    old(dst)@[i]
                }),
        decreases src@.len() - k,
    {
        dst[at + k] = src[k];
        k = k + 1;
    }
    assert(dst@ =~= old(dst)@.update_subrange_with(at as int, src@));
}

/// A mapped file together with a copy of its bytes in memory, kept equal to
/// them by every change made through it. Reads are served from the copy.
pub struct MappedFile {
    map: FileMmap,
    image: Vec<u8>,
}

impl View for MappedFile {
    type V = Seq<u8>;

    closed spec fn view(&self) -> Seq<u8> {
        self.image@
    }
}

impl MappedFile {
    /// The copy in memory is the file's content, and every position of it
    /// can be addressed.
    pub closed spec fn wf(&self) -> bool {
        &&& mapped_bytes(self.map) == self.image@
        &&& self.image@.len() <= isize::MAX
    }

    /// Pairs a mapping with the bytes that its file held when it was opened.
    pub fn open(map: FileMmap, image: Vec<u8>) -> (r: MappedFile)
        requires
            mapped_bytes(map) == image@,
            image@.len() <= isize::MAX,
        ensures
            r.wf(),
            r@ == image@,
    {
        MappedFile { map, image }
    }

    /// The length of the file in bytes.
    pub fn len(&self) -> (r: usize)
        ensures
            r == self@.len(),
            self.wf() ==> r <= isize::MAX,
    {
        self.image.len()
    }

    /// The `n` bytes of the file that start at `at`.
    pub fn read(&self, at: usize, n: usize) -> (r: &[u8])
        requires
            self.wf(),
            at + n <= self@.len(),
        ensures
            r@ == self@.subrange(at as int, at + n),
    {
        vstd::slice::slice_subrange(self.image.as_slice(), at, at + n)
    }

    /// A copy of the bytes of the file.
    pub fn to_vec(&self) -> (r: Vec<u8>)
        ensures
            r@ == self@,
    {
        self.image.clone()
    }

    /// Overwrites the bytes that start at `at` with `bytes`.
    pub fn write(&mut self, at: usize, bytes: &[u8])
        requires
            old(self).wf(),
            at + bytes@.len() <= old(self)@.len(),
        ensures
            final(self).wf(),
            final(self)@ == old(self)@.update_subrange_with(at as int, bytes@),
    {
        let _ = map_write(&mut self.map, at as u64, bytes);
        copy_into(&mut self.image, at, bytes);
    }

    /// Grows the file to `n` bytes; the new bytes are zero. After an error the
    /// mapping may be gone, and the file must not be used again.
    pub fn grow(&mut self, n: usize) -> (r: Result<(), std::io::Error>)
        requires
            old(self).wf(),
            old(self)@.len() <= n <= isize::MAX,
        ensures
            r is Ok ==> final(self).wf() && final(self)@ == zero_extended(old(self)@, n as int),
            r is Err ==> final(self)@ == old(self)@,
    {
        match map_grow(&mut self.map, n as u64) {
            Ok(()) => {
                let mut k: usize = self.image.len();
                while k < n
                    invariant
                        self.image@.len() == k <= n,
                        self.image@ == zero_extended(old(self)@, k as int),
                        old(self)@.len() <= k,
                        mapped_bytes(self.map) == zero_extended(old(self)@, n as int),
                    decreases n - k,
                {
                    self.image.push(0u8);
                    k = k + 1;
                    assert(self.image@ =~= zero_extended(old(self)@, k as int));
                }
                Ok(())
            },
            Err(e) => Err(e),
        }
    }

    /// Adds `bytes` at the end of the file and returns where they start. After
    /// an error the mapping may be gone, and the file must not be used again.
    pub fn append(&mut self, bytes: &[u8]) -> (r: Result<u64, std::io::Error>)
        requires
            old(self).wf(),
            old(self)@.len() + bytes@.len() <= isize::MAX,
        ensures
            r is Ok ==> final(self).wf() && r->Ok_0 == old(self)@.len() && final(self)@ == old(
                self,
            )@ + bytes@,
            r is Err ==> final(self)@ == old(self)@,
    {
        match map_append(&mut self.map, bytes) {
            Ok(at) => {
                let mut k: usize = 0;
                while k < bytes.len()
                    invariant
                        k <= bytes@.len(),
                        self.image@ == old(self)@ + bytes@.subrange(0, k as int),
                        mapped_bytes(self.map) == old(self)@ + bytes@,
                    decreases bytes@.len() - k,
                {
                    self.image.push(bytes[k]);
                    k = k + 1;
                    assert(self.image@ =~= old(self)@ + bytes@.subrange(0, k as int));
                }
                assert(bytes@.subrange(0, bytes@.len() as int) =~= bytes@);
                Ok(at)
            },
            Err(e) => Err(e),
        }
    }
}

} // verus!
