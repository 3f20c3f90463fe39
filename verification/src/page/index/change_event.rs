//! The change events that an in-memory B-tree emits for its nodes.

use crate::page::index::IndexValue;
use vstd::prelude::*;

verus! {

/// One edit of a B-tree. `max_value` holds the greatest key of the node
/// that the edit happens in, which is how the node is found.
#[derive(Clone, Debug)]
pub enum ChangeEvent<T> {
    /// `value` was put into the node at the logical position `index`.
    InsertAt { max_value: IndexValue<T>, value: IndexValue<T>, index: usize },
    /// `value` was taken out of the node at the logical position `index`.
    RemoveAt { max_value: IndexValue<T>, value: IndexValue<T>, index: usize },
    /// The node was split: its entries from `split_index` on went to a new
    /// node.
    SplitNode { max_value: IndexValue<T>, split_index: usize },
    /// A node was created.
    CreateNode { max_value: IndexValue<T> },
    /// The node was removed.
    RemoveNode { max_value: IndexValue<T> },
}

impl<T: View> View for ChangeEvent<T> {
    type V = ChangeEvent<T::V>;

    open spec fn view(&self) -> ChangeEvent<T::V> {
        match *self {
            ChangeEvent::InsertAt { max_value, value, index } => ChangeEvent::InsertAt {
                max_value: max_value@,
                value: value@,
                index,
            },
            ChangeEvent::RemoveAt { max_value, value, index } => ChangeEvent::RemoveAt {
                max_value: max_value@,
                value: value@,
                index,
            },
            ChangeEvent::SplitNode { max_value, split_index } => ChangeEvent::SplitNode {
                max_value: max_value@,
                split_index,
            },
            ChangeEvent::CreateNode { max_value } => ChangeEvent::CreateNode {
                max_value: max_value@,
            },
            ChangeEvent::RemoveNode { max_value } => ChangeEvent::RemoveNode {
                max_value: max_value@,
            },
        }
    }
}

} // verus!
