//! An interpreter for block-formed programs whose variables are dense
//! numbers, with a heap that a copying collector keeps.
pub mod collection;
pub mod explicit;
pub mod heap;
pub mod machine;
pub mod numify;
pub mod ops;
pub mod program;
pub mod relocation;
pub mod thinned;
pub mod value;
