//! Compact, immutable containers that pack many short strings (or a small
//! homogeneous array) into a single contiguous heap allocation.
mod text;
mod thin_buffer;

pub mod small_array_box;
pub mod strings;
pub mod strings_no_index;
pub mod two_strs;
pub mod wire;

pub use small_array_box::SmallArrayBox;
pub use strings::Strings;
pub use strings::StringsIter;
pub use strings_no_index::StringsNoIndex;
pub use strings_no_index::StringsNoIndexIter;
pub use two_strs::TwoStrs;
