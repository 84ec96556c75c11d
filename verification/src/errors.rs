use vstd::prelude::*;

verus! {

/// The error taxonomy of the engine core.
///
/// `CorruptRecord` reports a decode that found inconsistent lengths or a
/// short buffer; `PageFull` reports a hint page write that would overflow
/// the fixed block; `NotFound` is the normal outcome of `get` on an absent
/// key; `KeyTooLarge` rejects a put or delete whose encoded record cannot
/// fit the machine's address space. Disk failures never arise here: the
/// core works on in-memory bytes, and the embedding program surfaces its
/// own I/O errors before the core is reached.
#[derive(Clone, Copy, Debug, PartialEq, Eq, Structural)]
pub enum CaskError {
    CorruptRecord,
    PageFull,
    NotFound,
    KeyTooLarge,
}

} // verus!
