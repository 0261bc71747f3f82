//! Parsing of H.264/AVC (Annex B) elementary streams: a bit-level reader
//! with inline emulation-prevention stripping and Exp-Golomb decoding,
//! and NAL unit framing.

use vstd::prelude::*;

pub mod bits;
pub mod bitreader;
pub mod nalunit;

pub mod pps;

verus! {

/// Which part of the parser raised an error.
#[derive(Debug, Clone, Copy, PartialEq, Eq, Structural)]
pub enum ParserUnit {
    Bits(),
    Nal(),
    Pps(),
    Sps(),
}

/// A syntactic violation or an unimplemented construct, tagged with the
/// unit that raised it. Callers match on the surrounding `ParserError`
/// kind; the description is for human diagnostics only.
#[derive(Debug)]
pub struct ParserUnitError {
    unit: ParserUnit,
    description: &'static str,
}

/// A failure raised by the bit reader itself (an overflow or a request
/// for more bits than the result type holds).
#[derive(Debug)]
pub struct BitReaderError {
    description: &'static str,
}

/// The error taxonomy of the parser. Every failure propagates to the
/// caller as one of these kinds.
#[derive(Debug)]
pub enum ParserError {
    BitReaderError(BitReaderError),
    BitReaderEndOfStream(),
    InvalidStream(ParserUnitError),
    NotImplemented(ParserUnitError),
}

impl ParserUnitError {
    /// The unit that raised this error.
    pub closed spec fn spec_unit(self) -> ParserUnit {
        self.unit
    }

    /// Builds an error record for the given unit.
    pub fn new(unit: ParserUnit, description: &'static str) -> (r: ParserUnitError)
        ensures
            r.spec_unit() == unit,
    {
        ParserUnitError { unit, description }
    }
}

impl BitReaderError {
    /// Builds a bit-reader error record.
    pub fn new(description: &'static str) -> (r: BitReaderError) {
        BitReaderError { description }
    }
}

} // verus!
