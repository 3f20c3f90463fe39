//! Measuring an index that grows entry by entry: how many bytes its
//! entries take, and how many pages those bytes fill.

use crate::link::LINK_LENGTH;
use crate::page::PAGE_SIZE;
use crate::util::sized::SizeMeasurable;
use vstd::prelude::*;

verus! {

/// The number of pages that `size` bytes fill or begin.
pub open spec fn pages_for(size: nat) -> nat {
    if size == 0 {
        0
    } else {
        ((size + PAGE_SIZE - 1) / (PAGE_SIZE as int)) as nat
    }
}

/// The pages that `size` bytes fill or begin hold them, and one page less
/// would not.
pub proof fn lemma_pages_for(size: nat)
    ensures
        pages_for(size) * PAGE_SIZE >= size,
        size > 0 ==> (pages_for(size) - 1) * PAGE_SIZE < size,
{
}

/// Returns the number of pages that `size` bytes fill or begin.
pub fn page_count(size: usize) -> (r: usize)
    ensures
        r == pages_for(size as nat),
{
    if size % PAGE_SIZE == 0 {
        size / PAGE_SIZE
    } else {
        size / PAGE_SIZE + 1
    }
}

/// The bytes that an entry with the key adds to the measure of an index:
/// those of the key and the 12 of the link.
pub open spec fn entry_measure<T: SizeMeasurable>(key: &T) -> nat {
    key.size() + LINK_LENGTH as nat
}

/// Returns the measure of an index of `size` bytes after an entry with
/// the key went in, or `None` if the machine cannot hold the number.
pub fn size_with_entry<T: SizeMeasurable>(size: usize, key: &T) -> (r: Option<usize>)
    requires
        key.size() <= usize::MAX,
    ensures
        r == if size + entry_measure(key) <= usize::MAX {
            Some((size + entry_measure(key)) as usize)
        } else {
            None::<usize>
        },
{
    let key_size: usize = key.aligned_size();
    if key_size > usize::MAX - LINK_LENGTH {
        return None;
    }
    size.checked_add(key_size + LINK_LENGTH)
}

} // verus!
