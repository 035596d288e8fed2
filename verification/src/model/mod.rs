//! The networks of a model.
pub mod blocks;
pub mod blockwise;
pub mod joint;
pub mod streams;
