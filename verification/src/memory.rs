//! Copying bytes between buffers.
use vstd::prelude::*;

verus! {

/// Copies `src` to the front of `dst`.
pub fn copy_memory(src: &[u8], dst: &mut [u8])
    requires
        old(dst)@.len() >= src@.len(),
    ensures
        final(dst)@.len() == old(dst)@.len(),
        final(dst)@ == src@ + old(dst)@.subrange(src@.len() as int, old(dst)@.len() as int),
{
    let len_src = src.len();
    let mut i: usize = 0;
    while i < len_src
        invariant
            i <= len_src,
            len_src == src@.len(),
            old(dst)@.len() >= src@.len(),
            dst@.len() == old(dst)@.len(),
            forall|k: int| 0 <= k < i ==> dst@[k] == src@[k],
            forall|k: int| i <= k < dst@.len() ==> dst@[k] == old(dst)@[k],
        decreases len_src - i,
    {
        dst[i] = src[i];
        i = i + 1;
    }
    assert(dst@ =~= src@ + old(dst)@.subrange(src@.len() as int, old(dst)@.len() as int));
}

} // verus!
