use vstd::arithmetic::div_mod::{lemma_div_multiples_vanish_fancy, lemma_fundamental_div_mod};
use vstd::prelude::*;

verus! {

/// An indirect-dispatch record: the number of workgroups to launch along each axis.
#[derive(Clone, Copy, PartialEq, Eq, Structural, Debug)]
pub struct DispatchWorkgroups {
    pub count_x: u32,
    pub count_y: u32,
    pub count_z: u32,
}

/// `n / s`, rounded up.
pub open spec fn div_ceil(n: int, s: int) -> int {
    (n + s - 1) / s
}

pub proof fn lemma_div_ceil(n: int, s: int)
    requires
        0 <= n,
        0 < s,
    ensures
        n % s == 0 ==> div_ceil(n, s) == n / s,
        n % s != 0 ==> div_ceil(n, s) == n / s + 1,
        div_ceil(n, s) * s >= n,
        div_ceil(n, s) <= n,
{
    let q = n / s;
    let r = n % s;
    lemma_fundamental_div_mod(n, s);
    if r == 0 {
        assert(n + s - 1 == s * q + (s - 1));
        lemma_div_multiples_vanish_fancy(q, s - 1, s);
    } else {
        assert(n + s - 1 == s * (q + 1) + (r - 1)) by (nonlinear_arith)
            requires
                n == s * q + r,
        ;
        lemma_div_multiples_vanish_fancy(q + 1, r - 1, s);
    }
    assert(div_ceil(n, s) * s >= n) by (nonlinear_arith)
        requires
            n == s * q + r,
            0 <= r < s,
            r == 0 ==> div_ceil(n, s) == q,
            r != 0 ==> div_ceil(n, s) == q + 1,
    ;
    assert(div_ceil(n, s) <= n) by (nonlinear_arith)
        requires
            n == s * q + r,
            0 <= r < s,
            0 <= q,
            1 <= s,
            r == 0 ==> div_ceil(n, s) == q,
            r != 0 ==> div_ceil(n, s) == q + 1,
    ;
}

/// The number of workgroups that cover `count` elements at `segment_size` elements each.
pub fn workgroup_count(count: u32, segment_size: u32) -> (r: u32)
    requires
        segment_size > 0,
    ensures
        r == div_ceil(count as int, segment_size as int),
{
    let q = count / segment_size;
    proof {
        lemma_div_ceil(count as int, segment_size as int);
    }
    if count % segment_size == 0 {
        q
    } else {
        q + 1
    }
}

/// A record that launches `x` workgroups along the first axis.
pub open spec fn linear_dispatch(x: u32) -> DispatchWorkgroups {
    DispatchWorkgroups { count_x: x, count_y: 1, count_z: 1 }
}

/// The single-thread kernel that turns an element count held on the device into the
/// record of an indirect dispatch.
pub struct GenerateDispatch {}

impl GenerateDispatch {
    pub fn init() -> (r: Self) {
        GenerateDispatch {}
    }

    /// Writes `(⌈count / group_size⌉, 1, 1)` into `dispatch`.
    pub fn encode(&self, group_size: u32, count: u32, dispatch: &mut DispatchWorkgroups)
        requires
            group_size > 0,
        ensures
            *final(dispatch) == linear_dispatch(div_ceil(count as int, group_size as int) as u32),
    {
        *dispatch = DispatchWorkgroups { count_x: workgroup_count(count, group_size), count_y: 1, count_z: 1 };
    }
}

} // verus!
