//! What can end a link.
use vstd::prelude::*;

verus! {

/// Every error ends the link; none is recovered from.
#[derive(Debug, Clone, Copy, PartialEq, Eq, Structural)]
pub enum LinkError {
    /// An input could not be read or the output could not be written.
    Io,
    /// Bad magic, short header, wrong class or byte order, corrupted archive
    /// header, a section that lies outside its file.
    Format,
    /// The machine type of an input differs from the emulation linked for.
    Compatibility,
    /// A `-l` library that no search path holds.
    MissingLibrary,
    /// A local common symbol, a symbol value outside every fragment of its
    /// mergeable section, a low-part relocation without its high part.
    Resolution,
    /// Unknown option, option without its argument, unsupported emulation.
    Cli,
    /// An address, offset or size that 64 bits (or the machine's `usize`)
    /// cannot hold.
    TooLarge,
}

} // verus!
