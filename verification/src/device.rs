//! Device buffers: contiguous blocks of elements that stand for GPU memory,
//! with host-to-device and device-to-host copies.

use vstd::prelude::*;

verus! {

/// A contiguous buffer of `T` standing for device memory.
#[derive(Clone, Debug, PartialEq)]
pub struct DeviceBuffer<T: Clone + Default + Copy> {
    data: Vec<T>,
    /// Element count, fixed at allocation (copies keep the length); it
    /// gives the derived `Debug` form its `len: N` entry.
    len: usize,
    capacity: usize,
}

impl<T: Clone + Default + Copy> View for DeviceBuffer<T> {
    type V = Seq<T>;

    closed spec fn view(&self) -> Seq<T> {
        self.data@
    }
}

impl<T: Clone + Default + Copy> DeviceBuffer<T> {
    /// The element count recorded at allocation: the length the contents
    /// are given then, which no operation changes.
    pub closed spec fn spec_len(&self) -> nat {
        self.len as nat
    }

    /// Number of elements the buffer was allocated with.
    pub closed spec fn spec_capacity(&self) -> nat {
        self.capacity as nat
    }

    /// Allocates `elements` elements, each the value `T::default()` returns.
    pub fn allocate(elements: usize) -> (b: Self)
        ensures
            b@.len() == elements,
            b.spec_len() == elements,
            b.spec_capacity() == elements,
            forall|i: int|
                0 <= i < elements ==> call_ensures(T::default, (), #[trigger] b@[i]),
    {
        let d = T::default();
        let mut data: Vec<T> = Vec::with_capacity(elements);
        let mut i: usize = 0;
        while i < elements
            invariant
                0 <= i <= elements,
                data@.len() == i,
                call_ensures(T::default, (), d),
                forall|j: int| 0 <= j < i ==> #[trigger] data@[j] == d,
            decreases elements - i,
        {
            data.push(d);
            i += 1;
        }
        DeviceBuffer { data, len: elements, capacity: elements }
    }

    /// Allocates a buffer holding a copy of `host_slice` (host to device).
    pub fn from_host(host_slice: &[T]) -> (b: Self)
        ensures
            b@ == host_slice@,
            b.spec_len() == host_slice@.len(),
            b.spec_capacity() == host_slice@.len(),
    {
        DeviceBuffer {
            data: vstd::slice::slice_to_vec(host_slice),
            len: host_slice.len(),
            capacity: host_slice.len(),
        }
    }

    /// Overwrites the contents with `host_slice`, which has the same length.
    pub fn copy_from_host(&mut self, host_slice: &[T])
        requires
            old(self)@.len() == host_slice@.len(),
        ensures
            final(self)@ == host_slice@,
            final(self).spec_len() == old(self).spec_len(),
            final(self).spec_capacity() == old(self).spec_capacity(),
    {
        let mut i: usize = 0;
        while i < host_slice.len()
            invariant
                0 <= i <= host_slice@.len(),
                self.data@.len() == host_slice@.len(),
                self.capacity == old(self).capacity,
                self.len == old(self).len,
                forall|j: int| 0 <= j < i ==> #[trigger] self.data@[j] == host_slice@[j],
            decreases host_slice@.len() - i,
        {
            self.data.set(i, host_slice[i]);
            i += 1;
        }
        assert(self.data@ =~= host_slice@);
    }

    /// Copies the contents into `host_slice`, which has the same length
    /// (device to host).
    pub fn copy_to_host(&self, host_slice: &mut [T])
        requires
            self@.len() == old(host_slice)@.len(),
        ensures
            final(host_slice)@ == self@,
    {
        let n = self.data.len();
        let mut i: usize = 0;
        while i < n
            invariant
                0 <= i <= n,
                n == self.data@.len(),
                host_slice@.len() == n,
                forall|j: int| 0 <= j < i ==> #[trigger] host_slice@[j] == self.data@[j],
            decreases n - i,
        {
            host_slice[i] = self.data[i];
            i += 1;
        }
        assert(host_slice@ =~= self.data@);
    }

    /// The contents.
    pub fn as_slice(&self) -> (s: &[T])
        ensures
            s@ == self@,
    {
        self.data.as_slice()
    }

    /// The contents, for writing in place.
    pub fn as_mut_slice(&mut self) -> (s: &mut [T])
        ensures
            s@ == old(self)@,
            final(s)@ == final(self)@,
            final(self).spec_len() == old(self).spec_len(),
            final(self).spec_capacity() == old(self).spec_capacity(),
    {
        self.data.as_mut_slice()
    }

    /// Number of elements.
    pub fn len(&self) -> (n: usize)
        ensures
            n == self@.len(),
    {
        self.data.len()
    }

    /// Whether the buffer holds no element.
    pub fn is_empty(&self) -> (b: bool)
        ensures
            b == (self@.len() == 0),
    {
        self.data.len() == 0
    }

    /// Number of elements the buffer was allocated with.
    pub fn capacity(&self) -> (c: usize)
        ensures
            c == self.spec_capacity(),
    {
        self.capacity
    }
}

} // verus!
