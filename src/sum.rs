use vstd::arithmetic::div_mod::{lemma_add_mod_noop, lemma_small_mod};
use vstd::prelude::*;

verus! {

/// The number of distinct values of a 32-bit word.
pub open spec fn word_range() -> int {
    0x1_0000_0000
}

/// The integer sum of a sequence of words.
pub open spec fn sum(s: Seq<u32>) -> int
    decreases s.len(),
{
    if s.len() == 0 {
        0
    } else {
        sum(s.drop_last()) + s.last()
    }
}

/// An integer reduced to a 32-bit word, as 32-bit addition wraps.
pub open spec fn wrap(x: int) -> u32 {
    (x % word_range()) as u32
}

/// Element `i` is the wrapped sum of elements `0..=i`.
pub open spec fn inclusive_scan(s: Seq<u32>) -> Seq<u32> {
    Seq::new(s.len(), |i: int| wrap(sum(s.take(i + 1))))
}

/// Element `i` is the wrapped sum of elements `0..i`.
pub open spec fn exclusive_scan(s: Seq<u32>) -> Seq<u32> {
    Seq::new(s.len(), |i: int| wrap(sum(s.take(i))))
}

pub proof fn lemma_sum_take_next(s: Seq<u32>, i: int)
    requires
        0 <= i < s.len(),
    ensures
        sum(s.take(i + 1)) == sum(s.take(i)) + s[i],
{
    assert(s.take(i + 1).drop_last() =~= s.take(i));
}

pub proof fn lemma_sum_nonneg(s: Seq<u32>)
    ensures
        sum(s) >= 0,
    decreases s.len(),
{
    if s.len() > 0 {
        lemma_sum_nonneg(s.drop_last());
    }
}

/// The sum over a concatenation is the sum of the sums.
pub proof fn lemma_sum_concat(a: Seq<u32>, b: Seq<u32>)
    ensures
        sum(a + b) == sum(a) + sum(b),
    decreases b.len(),
{
    if b.len() > 0 {
        assert((a + b).drop_last() =~= a + b.drop_last());
        lemma_sum_concat(a, b.drop_last());
    } else {
        assert(a + b =~= a);
    }
}

/// Wrapping addition of a word to a wrapped sum gives the wrapped larger sum.
pub proof fn lemma_wrap_add(x: int, v: u32)
    requires
        x >= 0,
    ensures
        vstd::wrapping::u32_specs::wrapping_add(wrap(x), v) == wrap(x + v),
{
    let m = word_range();
    lemma_add_mod_noop(x, v as int, m);
    lemma_small_mod(v as nat, m as nat);
    let a = x % m;
    assert(0 <= a < m);
    if a + v >= m {
        lemma_small_mod((a + v - m) as nat, m as nat);
        vstd::arithmetic::div_mod::lemma_mod_sub_multiples_vanish(a + v, m);
    } else {
        lemma_small_mod((a + v) as nat, m as nat);
    }
}

/// A wrapped sum that is below the word range is the sum itself.
pub proof fn lemma_wrap_small(x: int)
    requires
        0 <= x < word_range(),
    ensures
        wrap(x) == x,
{
    lemma_small_mod(x as nat, word_range() as nat);
}

} // verus!
