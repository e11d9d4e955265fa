//! The linker proper: codec, model of the inputs, passes, layout and writer.

pub mod abi;
pub mod error;
pub mod elf;
pub mod file;
pub mod archive;
pub mod symbol;
pub mod inputsections;
pub mod mergedsection;
pub mod objectfile;
pub mod output;
pub mod gotsection;
pub mod context;
pub mod liveness;
pub mod passes;
pub mod pieces;
pub mod commons;
pub mod chunker;
pub mod layout;
pub mod relocation;
pub mod writer;
pub mod stages;
pub mod link;
pub mod args;
pub mod idempotence;
