//! Shared, immutable views of byte buffers.
use vstd::prelude::*;
use vstd::slice::slice_subrange;
use std::rc::Rc;

verus! {

/// `Rc::clone` on a shared buffer: the new handle points at the allocation
/// that `p` points at, so both hold the same bytes.
#[verifier::external_body]
fn share(p: &Rc<Vec<u8>>) -> (r: Rc<Vec<u8>>)
    ensures
        r == *p,
{
    Rc::clone(p)
}

/// A view of a contiguous range of a shared byte buffer. Handles are cheap to
/// copy and never change the bytes they show.
#[derive(Debug)]
pub struct BytePtr {
    data: Rc<Vec<u8>>,
    start: usize,
    len: usize,
}

impl View for BytePtr {
    type V = Seq<u8>;

    /// The bytes that the handle shows.
    closed spec fn view(&self) -> Seq<u8> {
        self.data@.subrange(self.start as int, self.start + self.len)
    }
}

impl BytePtr {
    #[verifier::type_invariant]
    spec fn in_bounds(&self) -> bool {
        self.start + self.len <= self.data@.len()
    }

    /// A view of all of `v`.
    pub fn new(v: Vec<u8>) -> (r: BytePtr)
        ensures
            r@ == v@,
    {
        let len = v.len();
        let r = BytePtr { data: Rc::new(v), start: 0, len };
        assert(r@ =~= v@);
        r
    }

    /// The number of bytes in view.
    pub fn len(&self) -> (n: usize)
        ensures
            n == self@.len(),
    {
        proof {
            use_type_invariant(self);
        }
        self.len
    }

    /// The byte at index `i` of the view.
    pub fn get(&self, i: usize) -> (b: u8)
        requires
            i < self@.len(),
        ensures
            b == self@[i as int],
    {
        proof {
            use_type_invariant(self);
        }
        let _total = self.data.len();
        self.data[self.start + i]
    }

    /// Another handle on the same bytes.
    pub fn all(&self) -> (r: BytePtr)
        ensures
            r@ == self@,
    {
        proof {
            use_type_invariant(self);
        }
        BytePtr { data: share(&self.data), start: self.start, len: self.len }
    }

    /// The view without its first `n` bytes.
    pub fn start_from(&self, n: usize) -> (r: BytePtr)
        requires
            n <= self@.len(),
        ensures
            r@ == self@.skip(n as int),
    {
        proof {
            use_type_invariant(self);
        }
        let _total = self.data.len();
        let r = BytePtr { data: share(&self.data), start: self.start + n, len: self.len - n };
        assert(r@ =~= self@.skip(n as int));
        r
    }

    /// The `len` bytes that start at index `off` of the view.
    pub fn range(&self, off: usize, len: usize) -> (r: BytePtr)
        requires
            off + len <= self@.len(),
        ensures
            r@ == self@.subrange(off as int, off + len),
    {
        proof {
            use_type_invariant(self);
        }
        let _total = self.data.len();
        let r = BytePtr { data: share(&self.data), start: self.start + off, len };
        assert(r@ =~= self@.subrange(off as int, off + len));
        r
    }

    /// The bytes in view, as a slice.
    pub fn slice_all(&self) -> (s: &[u8])
        ensures
            s@ == self@,
    {
        proof {
            use_type_invariant(self);
        }
        let _total = self.data.len();
        slice_subrange(self.data.as_slice(), self.start, self.start + self.len)
    }

    /// The `len` bytes that start at index `off` of the view, as a slice.
    pub fn slice_range(&self, off: usize, len: usize) -> (s: &[u8])
        requires
            off + len <= self@.len(),
        ensures
            s@ == self@.subrange(off as int, off + len),
    {
        proof {
            use_type_invariant(self);
        }
        let _total = self.data.len();
        let s = slice_subrange(self.data.as_slice(), self.start + off, self.start + off + len);
        assert(s@ =~= self@.subrange(off as int, off + len));
        s
    }

    /// The view without its first `n` bytes, as a slice.
    pub fn slice_start_from(&self, n: usize) -> (s: &[u8])
        requires
            n <= self@.len(),
        ensures
            s@ == self@.skip(n as int),
    {
        proof {
            use_type_invariant(self);
        }
        let _total = self.data.len();
        let s = slice_subrange(self.data.as_slice(), self.start + n, self.start + self.len);
        assert(s@ =~= self@.skip(n as int));
        s
    }
}

} // verus!
