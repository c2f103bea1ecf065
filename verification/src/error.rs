use vstd::prelude::*;

verus! {

/// A producer failure, carrying an underlying cause as a numeric code.
/// This is the only error the adapter knows: it is never produced by the
/// adapter itself, only passed through verbatim from the producer's
/// terminal result to the poll that completes the stream.
#[derive(Clone, Copy, PartialEq, Eq, Structural, Debug)]
pub struct StreamError {
    pub code: u64,
}

} // verus!
