use vstd::prelude::*;

verus! {

/// The element count that a kernel reads: either one that the caller supplies, or
/// one that the primitive holds itself, set to the length of the data.
pub enum CountBuffer {
    /// A count supplied by the caller; kernels are then launched indirectly.
    Binding(u32),
    /// A count held by the primitive: the fallback, which is the data's length.
    Buffer(u32),
}

impl CountBuffer {
    /// The count that the kernels read.
    pub open spec fn count(&self) -> u32 {
        match self {
            CountBuffer::Binding(c) => *c,
            CountBuffer::Buffer(c) => *c,
        }
    }

    /// Whether the count came from the caller.
    pub open spec fn is_bound(&self) -> bool {
        self is Binding
    }

    /// Binds the caller's count where there is one, else holds `fallback_count`.
    pub fn new(binding: Option<u32>, fallback_count: u32) -> (r: Self)
        ensures
            r == (match binding {
                Some(c) => CountBuffer::Binding(c),
                None => CountBuffer::Buffer(fallback_count),
            }),
    {
        match binding {
            Some(c) => CountBuffer::Binding(c),
            None => CountBuffer::Buffer(fallback_count),
        }
    }

    /// The count as the kernels see it.
    pub fn uniform(&self) -> (r: u32)
        ensures
            r == self.count(),
    {
        match self {
            CountBuffer::Binding(c) => *c,
            CountBuffer::Buffer(c) => *c,
        }
    }

    /// Whether the kernels that read this count are launched indirectly.
    pub fn dispatch_indirect(&self) -> (r: bool)
        ensures
            r == self.is_bound(),
    {
        match self {
            CountBuffer::Binding(_) => true,
            CountBuffer::Buffer(_) => false,
        }
    }
}

} // verus!
