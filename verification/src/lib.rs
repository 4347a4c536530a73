mod midi;
mod parse;
mod quantize;

pub use midi::build;
pub use parse::parse;
pub use quantize::solve;

use vstd::prelude::*;

verus! {

/// A parsed request: a tempo in beats per minute and the raw key-press
/// timestamps, in milliseconds, in document order.
#[derive(Debug)]
pub struct Input {
    pub bpm: u32,
    pub keys: Vec<u32>,
}

/// The quantized rhythm: the tempo carried through, and the beat indices,
/// strictly increasing with no duplicates.
#[derive(Debug)]
pub struct Output {
    pub bpm: u32,
    pub beat: Vec<u32>,
}

/// Why a request text was rejected.
#[derive(Debug, Clone, Copy, PartialEq, Eq, Structural)]
pub enum ParseError {
    /// The first token is absent or is not the protocol magic string.
    BadMagic,
    /// The `bpm` keyword or the tempo token is missing or unparsable.
    BadBpm,
    /// A timestamp token is not an unsigned base-10 integer.
    BadKey,
}

/// Why serializing the byte stream failed.
#[derive(Debug)]
pub enum OutputError {
    /// The byte sink refused the encoded stream.
    IOError(std::io::Error),
}

} // verus!
