use vstd::prelude::*;

verus! {

/// Why a call on the store did not take effect.
#[derive(Debug)]
pub enum StoreError {
    /// The mapped file could not be opened, grown or written.
    Io(std::io::Error),
    /// An empty payload was offered for insertion.
    EmptyPayload,
    /// The file would have to grow past the largest size that can be addressed.
    TooLarge,
}

} // verus!
