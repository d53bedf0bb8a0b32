//! Byte sinks that encoded integers are appended to.

use vstd::prelude::*;

verus! {

/// A growable sink of bytes.
pub trait ExtendFromSlice {
    /// The bytes written so far.
    spec fn bytes(&self) -> Seq<u8>;

    /// Appends `slice`.
    fn extend_from_slice(&mut self, slice: &[u8])
        ensures
            final(self).bytes() == old(self).bytes() + slice@,
    ;
}

/// A sink of bytes that may run out of room.
pub trait TryExtendFromSlice {
    /// The bytes written so far.
    spec fn bytes(&self) -> Seq<u8>;

    /// The number of bytes that can still be written.
    spec fn room(&self) -> nat;

    /// Appends `slice` if all of it fits, and writes nothing otherwise.
    fn try_extend_from_slice(&mut self, slice: &[u8]) -> (r: Result<(), ()>)
        ensures
            r is Ok <==> slice@.len() <= old(self).room(),
            r is Ok ==> final(self).bytes() == old(self).bytes() + slice@ && final(self).room()
                == old(self).room() - slice@.len(),
            r is Err ==> final(self).bytes() == old(self).bytes() && final(self).room() == old(
                self,
            ).room(),
    ;
}

impl ExtendFromSlice for Vec<u8> {
    open spec fn bytes(&self) -> Seq<u8> {
        self@
    }

    fn extend_from_slice(&mut self, slice: &[u8]) {
        let mut i: usize = 0;
        while i < slice.len()
            invariant
                i <= slice.len(),
                self@ == old(self)@ + slice@.subrange(0, i as int),
            decreases slice.len() - i,
        {
            self.push(slice[i]);
            i += 1;
            assert(self@ =~= old(self)@ + slice@.subrange(0, i as int));
        }
        assert(slice@.subrange(0, i as int) =~= slice@);
    }
}

/// A byte buffer that holds at most as many bytes as it was created for.
pub struct BoundedBuf {
    data: Vec<u8>,
    limit: usize,
}

impl BoundedBuf {
    /// The bytes in the buffer.
    pub closed spec fn view(&self) -> Seq<u8> {
        self.data@
    }

    /// The most bytes the buffer holds.
    pub closed spec fn limit(&self) -> nat {
        self.limit as nat
    }

    /// The buffer never holds more than its limit.
    pub closed spec fn wf(&self) -> bool {
        self.data@.len() <= self.limit
    }

    /// An empty buffer for up to `limit` bytes.
    pub fn new(limit: usize) -> (r: Self)
        ensures
            r.wf(),
            r@ == Seq::<u8>::empty(),
            r.limit() == limit,
    {
        BoundedBuf { data: Vec::new(), limit }
    }

    /// The number of bytes in the buffer.
    pub fn len(&self) -> (r: usize)
        requires
            self.wf(),
        ensures
            r == self@.len(),
    {
        self.data.len()
    }

    /// The bytes in the buffer.
    pub fn as_slice(&self) -> (r: &[u8])
        ensures
            r@ == self@,
    {
        self.data.as_slice()
    }
}

impl TryExtendFromSlice for BoundedBuf {
    open spec fn bytes(&self) -> Seq<u8> {
        self@
    }

    open spec fn room(&self) -> nat {
        if self.wf() {
            (self.limit() - self@.len()) as nat
        } else {
            0
        }
    }

    fn try_extend_from_slice(&mut self, slice: &[u8]) -> (r: Result<(), ()>) {
        let room: usize = if self.data.len() <= self.limit {
            self.limit - self.data.len()
        } else {
            0
        };
        if slice.len() > room {
            return Err(());
        }
        ExtendFromSlice::extend_from_slice(&mut self.data, slice);
        Ok(())
    }
}

} // verus!
