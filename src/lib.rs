pub mod base;
pub mod iter;
pub mod map;
pub mod opt_map;
pub mod set;
pub mod vec;
pub mod word;

pub use base::EnumIndex;
pub use base::EnumSize;
pub use base::Enumoid;
pub use iter::EnumSliceIter;
pub use map::EnumMap;
pub use opt_map::EnumOptionMap;
pub use opt_map::EnumOptionMapIter;
pub use set::EnumSet;
pub use set::EnumSetIndexIter;
pub use set::EnumSetIter;
pub use vec::EnumVec;
