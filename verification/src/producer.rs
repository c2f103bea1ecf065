use vstd::prelude::*;

use crate::error::StreamError;

verus! {

/// The producer callback, expressed as an explicit resumable generator:
/// the byte chunks it hands to the sink, one `write` call per chunk
/// (re-issuing the remainder after a short write until the chunk is fully
/// accepted), followed by its terminal result. An empty chunk stands for
/// a `write` of an empty sequence, which delivers nothing.
pub struct ChunkProducer {
    pub chunks: Vec<Vec<u8>>,
    pub result: Result<(), StreamError>,
}

impl ChunkProducer {
    /// The chunks as mathematical sequences.
    pub open spec fn chunk_views(&self) -> Seq<Seq<u8>> {
        self.chunks@.map_values(|c: Vec<u8>| c@)
    }

    /// Everything this producer would write to an unbounded sink, in order.
    pub open spec fn output(&self) -> Seq<u8> {
        concat_all(self.chunk_views())
    }

    pub fn new(chunks: Vec<Vec<u8>>, result: Result<(), StreamError>) -> (r: ChunkProducer)
        ensures
            r.chunks == chunks,
            r.result == result,
    {
        ChunkProducer { chunks, result }
    }
}

/// The concatenation of `cs[i]`, `cs[i + 1]`, ... to the end.
pub open spec fn concat_from(cs: Seq<Seq<u8>>, i: int) -> Seq<u8>
    decreases cs.len() - i,
{
    if i < 0 || i >= cs.len() {
        Seq::empty()
    } else {
        cs[i] + concat_from(cs, i + 1)
    }
}

/// The concatenation of `cs[0]`, ..., `cs[i - 1]`.
pub open spec fn concat_upto(cs: Seq<Seq<u8>>, i: int) -> Seq<u8>
    decreases i,
{
    if i <= 0 {
        Seq::empty()
    } else {
        concat_upto(cs, i - 1) + cs[i - 1]
    }
}

/// The concatenation of all of `cs`, in order.
pub open spec fn concat_all(cs: Seq<Seq<u8>>) -> Seq<u8> {
    concat_from(cs, 0)
}

/// Splitting the concatenation at any chunk boundary loses nothing:
/// the whole is the part before the boundary followed by the part after.
pub proof fn lemma_concat_split(cs: Seq<Seq<u8>>, i: int)
    requires
        0 <= i <= cs.len(),
    ensures
        concat_all(cs) == concat_upto(cs, i) + concat_from(cs, i),
    decreases i,
{
    if i == 0 {
        assert(concat_upto(cs, 0) + concat_from(cs, 0) =~= concat_from(cs, 0));
    } else {
        lemma_concat_split(cs, i - 1);
        assert(concat_from(cs, i - 1) == cs[i - 1] + concat_from(cs, i));
        assert(concat_upto(cs, i - 1) + (cs[i - 1] + concat_from(cs, i))
            =~= (concat_upto(cs, i - 1) + cs[i - 1]) + concat_from(cs, i));
    }
}

} // verus!
