//! The storage rule for retired closures: small captures are kept inline, larger ones boxed.

use vstd::prelude::*;

verus! {

/// Bytes of inline storage for a closure's captures: three machine words.
pub const INLINE_BYTES: usize = 24;

/// Largest alignment the inline storage provides: one machine word.
pub const INLINE_ALIGN: usize = 8;

/// Whether captures of `size` bytes aligned to `align` bytes are stored inline, without a heap
/// allocation.
pub fn fits_inline(size: usize, align: usize) -> (r: bool)
    ensures
        r == (size <= INLINE_BYTES && align <= INLINE_ALIGN),
{
    size <= INLINE_BYTES && align <= INLINE_ALIGN
}

} // verus!
