use vstd::math::min;
use vstd::prelude::*;
use vstd::slice::slice_index_get;

verus! {

/// Contiguous byte storage with a bounded capacity, the sink behind a
/// stream queue: `append` takes as many bytes as fit, `data` exposes the
/// currently available window, `consume` discards a prefix of it.
pub struct ByteStore {
    bytes: Vec<u8>,
    capacity: usize,
}

impl View for ByteStore {
    type V = Seq<u8>;

    closed spec fn view(&self) -> Seq<u8> {
        self.bytes@
    }
}

impl ByteStore {
    /// Greatest number of bytes the store will hold at once.
    pub closed spec fn spec_capacity(self) -> int {
        self.capacity as int
    }

    pub open spec fn wf(self) -> bool {
        self@.len() <= self.spec_capacity() && self.spec_capacity() <= usize::MAX
    }

    pub fn with_capacity(capacity: usize) -> (r: ByteStore)
        ensures
            r@ == Seq::<u8>::empty(),
            r.spec_capacity() == capacity,
            r.wf(),
    {
        ByteStore { bytes: Vec::new(), capacity }
    }

    /// Number of bytes currently in the available window.
    pub fn available_data(&self) -> (r: usize)
        ensures
            r == self@.len(),
    {
        self.bytes.len()
    }

    /// Number of bytes the store can still accept.
    pub fn available_space(&self) -> (r: usize)
        requires
            self.wf(),
        ensures
            r == self.spec_capacity() - self@.len(),
    {
        self.capacity - self.bytes.len()
    }

    /// The available window, as a contiguous slice.
    pub fn data(&self) -> (r: &[u8])
        ensures
            r@ == self@,
    {
        self.bytes.as_slice()
    }

    /// Appends as many of the given bytes as capacity allows and returns
    /// how many were taken.
    pub fn append(&mut self, buf: &[u8]) -> (written: usize)
        requires
            old(self).wf(),
        ensures
            final(self).wf(),
            final(self).spec_capacity() == old(self).spec_capacity(),
            written == min(buf@.len() as int, old(self).spec_capacity() - old(self)@.len()),
            final(self)@ == old(self)@ + buf@.subrange(0, written as int),
    {
        let space = self.capacity - self.bytes.len();
        let n = if buf.len() < space {
            buf.len()
        } else {
            space
        };
        let mut i: usize = 0;
        while i < n
            invariant
                i <= n,
                n <= buf@.len(),
                self.bytes@ == old(self)@ + buf@.subrange(0, i as int),
                self.capacity == old(self).spec_capacity(),
            decreases n - i,
        {
            let b = *slice_index_get(buf, i);
            self.bytes.push(b);
            i = i + 1;
            proof {
                assert(self.bytes@ =~= old(self)@ + buf@.subrange(0, i as int));
            }
        }
        n
    }

    /// Discards the first `count` bytes of the available window, or the
    /// whole window if fewer are present.
    pub fn consume(&mut self, count: usize)
        requires
            old(self).wf(),
        ensures
            final(self).wf(),
            final(self).spec_capacity() == old(self).spec_capacity(),
            final(self)@ == old(self)@.skip(min(count as int, old(self)@.len() as int)),
    {
        let k = if count < self.bytes.len() {
            count
        } else {
            self.bytes.len()
        };
        let mut i: usize = 0;
        while i < k
            invariant
                i <= k,
                k <= old(self)@.len(),
                self.bytes@ == old(self)@.skip(i as int),
                self.capacity == old(self).spec_capacity(),
            decreases k - i,
        {
            self.bytes.remove(0);
            i = i + 1;
            proof {
                assert(self.bytes@ =~= old(self)@.skip(i as int));
            }
        }
    }

    /// Empties the available window, keeping the capacity.
    pub fn reset(&mut self)
        ensures
            final(self)@ == Seq::<u8>::empty(),
            final(self).spec_capacity() == old(self).spec_capacity(),
            final(self).wf(),
    {
        self.bytes.clear();
    }
}

} // verus!
