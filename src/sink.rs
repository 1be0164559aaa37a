//! Byte sinks that the encoder streams into.

use vstd::prelude::*;
use crate::text::push_all;

verus! {

/// Why a sink refused bytes.
#[derive(Clone, Copy, Debug, PartialEq, Eq, Structural)]
pub enum SinkError {
    /// The sink's capacity is used up.
    Full,
    /// The sink was closed by its owner.
    Closed,
}

/// A destination for encoded bytes.
pub trait Sink {
    /// Everything the sink has taken so far.
    spec fn written(&self) -> Seq<u8>;

    /// The sink takes every write.
    spec fn never_fails(&self) -> bool;

    /// Writes all of `buf`. On failure a prefix of `buf` may have been taken.
    fn write_all(&mut self, buf: &[u8]) -> (r: Result<(), SinkError>)
        ensures
            r is Ok ==> final(self).written() == old(self).written() + buf@,
            r is Err ==> exists|k: int|
                0 <= k <= buf@.len() && final(self).written() == old(self).written() + #[trigger] buf@.take(k),
            old(self).never_fails() ==> r is Ok && final(self).never_fails(),
    ;
}

/// An in-memory sink that grows as needed.
pub struct VecSink {
    pub buf: Vec<u8>,
}

impl VecSink {
    pub fn new() -> (r: VecSink)
        ensures
            r.buf@ == Seq::<u8>::empty(),
    {
        VecSink { buf: Vec::new() }
    }
}

impl Sink for VecSink {
    open spec fn written(&self) -> Seq<u8> {
        self.buf@
    }

    open spec fn never_fails(&self) -> bool {
        true
    }

    fn write_all(&mut self, buf: &[u8]) -> (r: Result<(), SinkError>) {
        push_all(&mut self.buf, buf);
        Ok(())
    }
}

/// An in-memory sink that holds at most `capacity` bytes. A write that does
/// not fit takes what fits and fails with `SinkError::Full`.
pub struct BoundedSink {
    buf: Vec<u8>,
    capacity: usize,
}

impl BoundedSink {
    pub closed spec fn spec_capacity(&self) -> nat {
        self.capacity as nat
    }

    pub fn new(capacity: usize) -> (r: BoundedSink)
        ensures
            r.written() == Seq::<u8>::empty(),
            r.spec_capacity() == capacity,
    {
        BoundedSink { buf: Vec::new(), capacity }
    }

    /// The bytes taken so far.
    pub fn contents(&self) -> (r: &Vec<u8>)
        ensures
            r@ == self.written(),
    {
        &self.buf
    }
}

impl Sink for BoundedSink {
    closed spec fn written(&self) -> Seq<u8> {
        self.buf@
    }

    open spec fn never_fails(&self) -> bool {
        false
    }

    fn write_all(&mut self, buf: &[u8]) -> (r: Result<(), SinkError>) {
        let mut i: usize = 0;
        while i < buf.len()
            invariant
                0 <= i <= buf@.len(),
                self.capacity == old(self).capacity,
                self.buf@ == old(self).buf@ + buf@.take(i as int),
            decreases buf@.len() - i,
        {
            if self.buf.len() >= self.capacity {
                return Err(SinkError::Full);
            }
            self.buf.push(buf[i]);
            i = i + 1;
            assert(self.buf@ =~= old(self).buf@ + buf@.take(i as int));
        }
        assert(buf@.take(i as int) =~= buf@);
        Ok(())
    }
}

} // verus!
