use vstd::prelude::*;
use vstd::math::min;
use vstd::slice::slice_index_get;

use crate::error::StreamError;

verus! {

/// The destination of one poll: a bounded byte sink with a fixed capacity
/// and an append cursor. The write side may append at most
/// `capacity() - filled().len()` bytes to it; what does not fit is left
/// for a later poll (a short write).
pub struct DestBuf {
    data: Vec<u8>,
    cap: usize,
}

impl DestBuf {
    /// The bytes appended so far, in order.
    pub closed spec fn filled(&self) -> Seq<u8> {
        self.data@
    }

    /// The fixed capacity the buffer was created with.
    pub closed spec fn capacity(&self) -> int {
        self.cap as int
    }

    /// How many more bytes the buffer can accept.
    pub open spec fn remaining_spec(&self) -> int {
        self.capacity() - self.filled().len()
    }

    pub open spec fn wf(&self) -> bool {
        self.filled().len() <= self.capacity()
    }

    /// An empty destination buffer of the given capacity.
    pub fn new(cap: usize) -> (r: DestBuf)
        ensures
            r.wf(),
            r.capacity() == cap,
            r.filled() == Seq::<u8>::empty(),
    {
        DestBuf { data: Vec::new(), cap }
    }

    /// Remaining capacity, as the write side sees it.
    pub fn remaining(&self) -> (r: usize)
        requires
            self.wf(),
        ensures
            r == self.remaining_spec(),
    {
        self.cap - self.data.len()
    }

    /// The bytes delivered into this buffer.
    pub fn filled_bytes(&self) -> (r: &Vec<u8>)
        ensures
            r@ == self.filled(),
    {
        &self.data
    }

    /// Hand out the delivered bytes, consuming the buffer.
    pub fn take_filled(self) -> (r: Vec<u8>)
        ensures
            r@ == self.filled(),
    {
        self.data
    }

    /// The write side's copy step: append `min(remaining, bytes.len())`
    /// bytes of `bytes` and report how many were accepted. An empty input
    /// is accepted as zero bytes and consumes no capacity.
    pub fn write(&mut self, bytes: &[u8]) -> (n: usize)
        requires
            old(self).wf(),
        ensures
            final(self).wf(),
            final(self).capacity() == old(self).capacity(),
            n == min(old(self).remaining_spec(), bytes@.len() as int),
            final(self).filled() == old(self).filled() + bytes@.take(n as int),
            bytes@.len() == 0 ==> n == 0 && final(self).filled() == old(self).filled(),
    {
        let mut i: usize = 0;
        proof {
            assert(old(self).data@ + bytes@.take(0) =~= old(self).data@);
        }
        while i < bytes.len() && self.data.len() < self.cap
            invariant
                self.wf(),
                self.cap == old(self).cap,
                i <= bytes@.len(),
                i <= old(self).remaining_spec(),
                self.data@ == old(self).data@ + bytes@.take(i as int),
            decreases bytes@.len() - i,
        {
            let b = *slice_index_get(bytes, i);
            self.data.push(b);
            i = i + 1;
            proof {
                assert(old(self).data@ + bytes@.take(i as int)
                    =~= (old(self).data@ + bytes@.take(i - 1)).push(bytes@[i - 1]));
            }
        }
        proof {
            assert(self.data@ =~= old(self).data@ + bytes@.take(i as int));
            if bytes@.len() == 0 {
                assert(self.data@ =~= old(self).data@);
            }
        }
        i
    }

    /// The write side's no-op flush: the adapter holds no bytes of its
    /// own, so there is never anything to push out.
    pub fn flush(&mut self) -> (r: Result<(), StreamError>)
        ensures
            *final(self) == *old(self),
            r == Ok::<(), StreamError>(()),
    {
        Ok(())
    }
}

} // verus!
