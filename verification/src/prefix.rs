//! Compressed path prefixes stored on inner nodes.
use vstd::prelude::*;

verus! {

/// Prefixes up to this many bytes are stored inline, longer ones on the heap.
pub const INLINE_PREFIX_CAP: usize = 22;

/// The bytes that path compression skipped above an inner node's children.
pub enum Prefix {
    Inline { len: u8, data: [u8; INLINE_PREFIX_CAP] },
    Heap(Vec<u8>),
}

impl View for Prefix {
    type V = Seq<u8>;

    open spec fn view(&self) -> Seq<u8> {
        match self {
            Prefix::Inline { len, data } => data@.subrange(0, *len as int),
            Prefix::Heap(bytes) => bytes@,
        }
    }
}

impl Prefix {
    /// An inline prefix never claims more bytes than it holds.
    pub open spec fn wf(&self) -> bool {
        match self {
            Prefix::Inline { len, data } => *len as usize <= INLINE_PREFIX_CAP,
            Prefix::Heap(_) => true,
        }
    }

    /// The empty prefix.
    pub fn empty() -> (r: Self)
        ensures
            r.wf(),
            r is Inline,
            r@ =~= Seq::<u8>::empty(),
    {
        Prefix::Inline { len: 0, data: [0u8; 22] }
    }

    /// A prefix holding a copy of `s`, inline when it fits.
    pub fn from_slice(s: &[u8]) -> (r: Self)
        ensures
            r.wf(),
            r@ =~= s@,
            r is Inline <==> s@.len() <= INLINE_PREFIX_CAP,
    {
        if s.len() <= INLINE_PREFIX_CAP {
            let mut data = [0u8; 22];
            let mut i: usize = 0;
            while i < s.len()
                invariant
                    s.len() <= INLINE_PREFIX_CAP,
                    i <= s.len(),
                    data@.len() == INLINE_PREFIX_CAP,
                    data@.subrange(0, i as int) =~= s@.subrange(0, i as int),
                decreases s.len() - i,
            {
                data[i] = s[i];
                i += 1;
            }
            Prefix::Inline { len: s.len() as u8, data }
        } else {
            Prefix::Heap(vstd::slice::slice_to_vec(s))
        }
    }

    /// The prefix bytes.
    pub fn as_slice(&self) -> (r: &[u8])
        requires
            self.wf(),
        ensures
            r@ == self@,
    {
        match self {
            Prefix::Inline { len, data } => {
                let (head, _) = data.as_slice().split_at(*len as usize);
                head
            },
            Prefix::Heap(bytes) => bytes.as_slice(),
        }
    }
}

} // verus!
