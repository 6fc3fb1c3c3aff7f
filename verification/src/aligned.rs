//! A byte buffer for staging data before a scan.
use vstd::prelude::*;

verus! {

/// A growable byte buffer.
pub struct AlignedBuffer {
    data: Vec<u8>,
}

impl AlignedBuffer {
    /// The bytes held.
    pub closed spec fn view_bytes(&self) -> Seq<u8> {
        self.data@
    }

    /// Creates an empty buffer with room for `capacity` bytes.
    pub fn new(capacity: usize) -> (b: Self)
        ensures
            b.view_bytes() == Seq::<u8>::empty(),
    {
        Self { data: Vec::with_capacity(capacity) }
    }

    /// The bytes held, as a slice.
    pub fn as_slice(&self) -> (s: &[u8])
        ensures
            s@ == self.view_bytes(),
    {
        self.data.as_slice()
    }

    /// The underlying vector, for in-place changes.
    pub fn as_mut_vec(&mut self) -> (v: &mut Vec<u8>)
        ensures
            (*v)@ == old(self).view_bytes(),
            final(self).view_bytes() == (*final(v))@,
    {
        &mut self.data
    }

    /// Removes every byte.
    pub fn clear(&mut self)
        ensures
            final(self).view_bytes() == Seq::<u8>::empty(),
    {
        self.data.clear();
    }

    /// Appends the bytes of `src`.
    pub fn extend_from_slice(&mut self, src: &[u8])
        ensures
            final(self).view_bytes() == old(self).view_bytes() + src@,
    {
        self.data.extend_from_slice(src);
        assert(self.data@ =~= old(self).data@ + src@);
    }
}

} // verus!
