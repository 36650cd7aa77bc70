//! Shared, immutable byte buffers with zero-copy sub-regions.
use std::sync::Arc;
use vstd::prelude::*;

verus! {

/// An immutable run of bytes, held as a window into storage that may be
/// shared with other buffers.
pub struct Buffer {
    storage: Arc<Vec<u8>>,
    offset: usize,
    size: usize,
}

impl View for Buffer {
    type V = Seq<u8>;

    /// The bytes this buffer presents.
    closed spec fn view(&self) -> Seq<u8> {
        self.storage@.subrange(self.offset as int, self.offset + self.size)
    }
}

/// Relies on `Arc::ptr_eq`: two pointers to one allocation see one value.
#[verifier::external_body]
fn same_allocation(a: &Arc<Vec<u8>>, b: &Arc<Vec<u8>>) -> (r: bool)
    ensures
        r ==> **a == **b,
{
    Arc::ptr_eq(a, b)
}

/// Relies on `Arc::clone`: the result points at the same allocation, so it
/// holds the same value.
#[verifier::external_body]
fn share(a: &Arc<Vec<u8>>) -> (r: Arc<Vec<u8>>)
    ensures
        *r == **a,
{
    Arc::clone(a)
}

impl Buffer {
    #[verifier::type_invariant]
    spec fn inv(self) -> bool {
        &&& self.offset + self.size <= self.storage@.len()
        &&& self.storage@.len() <= usize::MAX
    }

    /// An empty buffer.
    pub fn new() -> (r: Buffer)
        ensures
            r@ == Seq::<u8>::empty(),
    {
        let r = Buffer { storage: Arc::new(Vec::new()), offset: 0, size: 0 };
        assert(r@ =~= Seq::<u8>::empty());
        r
    }

    /// A buffer that takes ownership of `data`.
    pub fn from_vec(data: Vec<u8>) -> (r: Buffer)
        ensures
            r@ == data@,
    {
        let size = data.len();
        let r = Buffer { storage: Arc::new(data), offset: 0, size };
        assert(r.storage@ == data@);
        assert(r@ =~= data@);
        r
    }

    /// The number of bytes in the buffer.
    pub fn get_size(&self) -> (r: usize)
        ensures
            r == self@.len(),
    {
        proof { use_type_invariant(self); }
        self.size
    }

    /// The bytes of the buffer, borrowed.
    pub fn as_slice(&self) -> (r: &[u8])
        ensures
            r@ == self@,
    {
        proof { use_type_invariant(self); }
        let all: &Vec<u8> = &*self.storage;
        vstd::slice::slice_subrange(all.as_slice(), self.offset, self.offset + self.size)
    }

    /// A buffer over `size` bytes of this one from `offset` on, sharing its
    /// storage: no byte is copied.
    pub fn copy_region(&self, offset: usize, size: usize) -> (r: Buffer)
        requires
            offset + size <= self@.len(),
        ensures
            r@ == self@.subrange(offset as int, offset + size),
            r.backing() == self.backing(),
    {
        proof { use_type_invariant(self); }
        let r = Buffer { storage: share(&self.storage), offset: self.offset + offset, size };
        assert(r@ =~= self@.subrange(offset as int, offset + size));
        r
    }

    /// The whole storage that this buffer is a window into.
    pub closed spec fn backing(&self) -> Seq<u8> {
        self.storage@
    }

    /// A buffer of `size` zero bytes.
    pub fn new_with_size(size: usize) -> (r: Buffer)
        ensures
            r@ == Seq::new(size as nat, |k: int| 0u8),
    {
        let mut data: Vec<u8> = Vec::with_capacity(size);
        let mut i: usize = 0;
        while i < size
            invariant
                i <= size,
                data@ == Seq::new(i as nat, |k: int| 0u8),
            decreases size - i,
        {
            data.push(0u8);
            i = i + 1;
            assert(data@ =~= Seq::new(i as nat, |k: int| 0u8));
        }
        Buffer::from_vec(data)
    }

    /// Whether this buffer and `other` are windows into the same storage.
    pub fn shares_storage(&self, other: &Buffer) -> (r: bool)
        ensures
            r ==> self.backing() == other.backing(),
    {
        same_allocation(&self.storage, &other.storage)
    }
}

impl Clone for Buffer {
    /// Another handle on the same bytes, sharing their storage.
    fn clone(&self) -> (r: Buffer)
        ensures
            r@ == self@,
            r.backing() == self.backing(),
    {
        proof { use_type_invariant(self); }
        Buffer { storage: share(&self.storage), offset: self.offset, size: self.size }
    }
}

} // verus!
