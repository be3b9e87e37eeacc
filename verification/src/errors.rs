//! The error kinds that construction, loading and querying surface.

use vstd::prelude::*;

verus! {

/// Everything that can go wrong inside the index core.
///
/// * `MalformedBatch`: an input batch's text and row-id columns have
///   different lengths; the build is aborted immediately.
/// * `InvalidConfig`: the configured n-gram length is zero; rejected at
///   build start, before any data is ingested.
/// * `CorruptIndex`: an on-disk structure failed validation, either at
///   load time (header or dictionary cannot be parsed, dictionary not in
///   ascending order, a block locator out of bounds) or at query time
///   (a posting block's row ids not in ascending order).
#[derive(Clone, Copy, Debug, PartialEq, Eq, Structural)]
pub enum IndexError {
    MalformedBatch,
    InvalidConfig,
    CorruptIndex,
}

} // verus!
