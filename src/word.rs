use vstd::prelude::*;

verus! {

/// An element type that the kernels treat as a 32-bit word: scans add words with
/// wrapping, run discovery compares words bit for bit.
pub trait Word: Copy + Sized {
    /// The element's 32-bit pattern.
    spec fn word(self) -> u32;

    /// The element whose 32-bit pattern is `w`.
    spec fn from_word_spec(w: u32) -> Self;

    fn to_word(&self) -> (r: u32)
        ensures
            r == self.word(),
    ;

    fn from_word(w: u32) -> (r: Self)
        ensures
            r == Self::from_word_spec(w),
            r.word() == w,
    ;

    /// Distinct elements have distinct patterns.
    proof fn lemma_word_injective(a: Self, b: Self)
        ensures
            a.word() == b.word() <==> a == b,
    ;
}

impl Word for u32 {
    open spec fn word(self) -> u32 {
        self
    }

    open spec fn from_word_spec(w: u32) -> u32 {
        w
    }

    fn to_word(&self) -> (r: u32) {
        *self
    }

    fn from_word(w: u32) -> (r: u32) {
        w
    }

    proof fn lemma_word_injective(a: u32, b: u32) {
    }
}

impl Word for i32 {
    /// Two's complement.
    open spec fn word(self) -> u32 {
        self as u32
    }

    open spec fn from_word_spec(w: u32) -> i32 {
        w as i32
    }

    fn to_word(&self) -> (r: u32) {
        *self as u32
    }

    fn from_word(w: u32) -> (r: i32) {
        assert((w as i32) as u32 == w) by (bit_vector);
        w as i32
    }

    proof fn lemma_word_injective(a: i32, b: i32) {
        assert((a as u32 == b as u32) <==> a == b) by (bit_vector);
    }
}

/// The words of a sequence of elements.
pub open spec fn words<T: Word>(s: Seq<T>) -> Seq<u32> {
    s.map_values(|x: T| x.word())
}

} // verus!
