//! Size measurement and the archive codec.

pub mod aligned;
pub mod archive;
pub mod items;
pub mod key;
pub mod persistable;
pub mod sized;
pub mod text;
pub mod tree_index;
pub mod vector;
pub mod whole_keys;

pub use aligned::align_vec;
pub use key::{FixedKey, IndexKey};
pub use persistable::Persistable;
pub use sized::{
    align, align8, struct_aligned_size, DefaultSizeMeasurable, SizeMeasurable,
    VariableSizeMeasurable,
};
