use vstd::prelude::*;

verus! {

/// A span of the data file: `len` bytes starting at byte `offset`.
#[derive(Clone, Copy, Debug, Default, PartialEq, Eq, Structural)]
pub struct DataAddress {
    pub offset: i64,
    pub len: u64,
}

impl DataAddress {
    /// Builds the span of `len` bytes that starts at `offset`.
    pub fn new(offset: i64, len: u64) -> (r: DataAddress)
        ensures
            r.offset == offset,
            r.len == len,
    {
        DataAddress { offset, len }
    }

    /// The first byte of the span.
    pub fn offset(&self) -> (r: i64)
        ensures
            r == self.offset,
    {
        self.offset
    }

    /// The number of bytes in the span.
    pub fn len(&self) -> (r: u64)
        ensures
            r == self.len,
    {
        self.len
    }

    /// The span lies inside a file of `file_len` bytes.
    pub open spec fn fits_within(self, file_len: int) -> bool {
        0 <= self.offset && self.offset + self.len <= file_len
    }

    /// The span lies inside a file of `file_len` bytes and avoids the
    /// reserved byte at offset 0.
    pub open spec fn lies_within(self, file_len: int) -> bool {
        1 <= self.offset && self.offset + self.len <= file_len
    }
}

} // verus!
