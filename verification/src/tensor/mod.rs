//! Tensors: shapes and row-major indexing, dense tensors, strided views, and the
//! plans by which work on them is scheduled.
pub mod adapter;
pub mod contents;
pub mod cpu;
pub mod cpu_kernels;
pub mod cpu_layout;
pub mod cpu_ops;
pub mod dense;
pub mod dense_ops;
pub mod dispatch;
pub mod elements;
pub mod numbers;
pub mod ops;
pub mod schedule;
pub mod shape;
pub mod view;
pub mod whole;
