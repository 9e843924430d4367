//! Layout inputs: typed values resolved from computed styles.
pub mod block;
pub mod boxgen;
pub mod boxtree;
pub mod fragment;
pub mod table;
pub mod value;
