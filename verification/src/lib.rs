//! A static linker for RISC-V 64-bit little-endian ELF objects: relocatable
//! objects and `ar` archives in, one statically linked executable image out.
//!
//! Every pass works on values held by a [`linker::context::Context`]; entities
//! refer to each other by index, never by pointer.
#![allow(non_snake_case)]
#![allow(non_upper_case_globals)]
#![allow(unused_imports)]

pub mod utils;
pub mod linker;
