use vstd::prelude::*;

verus! {

/// Errors reported by the encoders.
#[derive(Debug, Clone, PartialEq, Eq)]
pub enum Error {
    /// The payload cannot be encoded by the requested symbology.
    InvalidData(String),
    /// An option value is not understood.
    InvalidOption(String),
    /// A substrate encoder (Data Matrix / QR layout) reported a failure.
    Backend(String),
}

/// `r` is `Ok` holding `v`, or `Err(InvalidData)` holding the message `m`,
/// as the model `s` says.
pub open spec fn string_result(r: Result<String, Error>, s: Result<Seq<char>, Seq<char>>) -> bool {
    match (r, s) {
        (Ok(v), Ok(w)) => v@ == w,
        (Err(Error::InvalidData(m)), Err(w)) => m@ == w,
        _ => false,
    }
}

} // verus!
