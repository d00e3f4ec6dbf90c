//! Verified core of a GPU memory monitor for AMD integrated GPUs.

pub mod display;
pub mod gpu;
pub mod procs;
pub mod text;
