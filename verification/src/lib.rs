//! Read-only loader and query engine for the triples and dictionary core of
//! the HDT binary RDF format: a plain-front-coded string dictionary with
//! id/string translation, and bitmap-encoded triples with scan and
//! single-position queries backed by rank/select bit vectors and a wavelet
//! matrix.
use vstd::prelude::*;

pub mod vbyte;
pub mod crc;
pub mod bits;
pub mod wire;
pub mod sequence;
pub mod dict_sect_pfc;
pub mod adjlist;
pub mod wavelet;
pub mod triples;

verus! {

/// Typed failures surfaced while decoding a section from a byte buffer.
#[derive(Clone, Copy, Debug, PartialEq, Eq, Structural)]
pub enum ReadError {
    /// The buffer ended before the structure was complete.
    UnexpectedEnd,
    /// A section type tag announced a section kind that is not supported.
    UnsupportedSectionType,
    /// A section format URI was not recognised.
    UnknownFormat,
    /// A variable-length integer ran past the available bytes.
    MalformedVByte,
    /// A stored checksum disagreed with the checksum of the bytes read.
    ChecksumMismatch,
    /// The triples order property was absent or outside the known range.
    InvalidOrder,
    /// A triple with a zero coordinate surfaced during iteration.
    MalformedTriple,
}

} // verus!
