//! Reader for the structural metadata of a managed (CLR-targeting)
//! executable image: locates the CLI header inside the container, decodes
//! the metadata root and the compressed table stream, and resolves the
//! entry-point method's name through the string heap.

use vstd::prelude::*;

pub mod bytes;
pub mod header;
pub mod image;
pub mod mapper;
pub mod resolve;
pub mod tables;

verus! {

/// Everything that can go wrong while inspecting an image. Decoding fails
/// fast: the first malformed field aborts the whole inspection.
#[derive(Debug, Clone, Copy, PartialEq, Eq, Structural)]
pub enum InspectError {
    /// The container-level parse failed, or the image has no optional
    /// header or no CLR runtime directory.
    Container,
    /// The machine field is not the 32-bit x86 code this reader supports.
    NotManaged,
    /// A virtual address falls inside no section's mapped range.
    Unmapped(u32),
    /// A read would run past the end of the buffer.
    Truncated,
    /// The metadata root signature is not the required magic.
    BadSignature,
    /// A required stream (`#~` or `#Strings`) is absent.
    MissingStream,
    /// A table id with no known row width carries a nonzero row count.
    UnsupportedTable(u32),
    /// The entry-point token names no decodable method.
    BadToken(u32),
}

} // verus!
