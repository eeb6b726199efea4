//! A small Raspberry Pi kernel's logic: a size-class buddy allocator and the
//! decisions of its interactive shell.

pub mod pow2;
pub mod bins;
pub mod allocator;
pub mod shell;
pub mod kernel;
