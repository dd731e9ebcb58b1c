use crate::sum::{lemma_sum_take_next, sum};
use vstd::prelude::*;

verus! {

/// Element `i` starts a run: it is the first element, or differs from the one before.
pub open spec fn is_run_start(w: Seq<u32>, i: int) -> bool {
    i == 0 || w[i] != w[i - 1]
}

/// One for each element that starts a run, zero for the others.
pub open spec fn run_marks(w: Seq<u32>) -> Seq<u32> {
    Seq::new(w.len(), |i: int| if is_run_start(w, i) { 1u32 } else { 0u32 })
}

/// The one-based index of the run that holds element `i`.
pub open spec fn run_number(w: Seq<u32>, i: int) -> int {
    sum(run_marks(w).take(i + 1))
}

/// The number of runs.
pub open spec fn run_total(w: Seq<u32>) -> int {
    sum(run_marks(w))
}

/// The run number grows by one at each run start and stays the same elsewhere.
pub proof fn lemma_run_number_step(w: Seq<u32>, i: int)
    requires
        0 < i < w.len(),
    ensures
        run_number(w, i) == run_number(w, i - 1) + (if is_run_start(w, i) { 1int } else { 0int }),
{
    lemma_sum_take_next(run_marks(w), i);
}

/// Run numbers never decrease.
pub proof fn lemma_run_number_mono(w: Seq<u32>, i: int, j: int)
    requires
        0 <= i <= j < w.len(),
    ensures
        run_number(w, i) <= run_number(w, j),
    decreases j - i,
{
    if i < j {
        lemma_run_number_mono(w, i, j - 1);
        lemma_run_number_step(w, j);
    }
}

/// Run numbers count from one and never pass the number of elements seen, nor
/// the number of runs.
pub proof fn lemma_run_number_bounds(w: Seq<u32>, i: int)
    requires
        0 <= i < w.len(),
    ensures
        1 <= run_number(w, i) <= i + 1,
        run_number(w, i) <= run_total(w),
    decreases i,
{
    if i == 0 {
        lemma_sum_take_next(run_marks(w), 0);
        assert(run_marks(w).take(0) =~= Seq::<u32>::empty());
    } else {
        lemma_run_number_bounds(w, i - 1);
        lemma_run_number_step(w, i);
    }
    lemma_run_number_mono(w, i, w.len() - 1);
    assert(run_marks(w).take(w.len() as int) =~= run_marks(w));
}

/// A run start has a higher number than every element before it.
pub proof fn lemma_run_start_number(w: Seq<u32>, i: int, j: int)
    requires
        0 <= i < j < w.len(),
        is_run_start(w, j),
    ensures
        run_number(w, i) < run_number(w, j),
{
    lemma_run_number_mono(w, i, j - 1);
    lemma_run_number_step(w, j);
}

/// The first element of the run that holds element `i`.
pub open spec fn run_head(w: Seq<u32>, i: int) -> int
    decreases i,
{
    if i <= 0 || is_run_start(w, i) {
        i
    } else {
        run_head(w, i - 1)
    }
}

/// The head of `i`'s run starts a run, is at or before `i`, has `i`'s run number and
/// `i`'s bits.
pub proof fn lemma_run_head(w: Seq<u32>, i: int)
    requires
        0 <= i < w.len(),
    ensures
        0 <= run_head(w, i) <= i,
        is_run_start(w, run_head(w, i)),
        run_number(w, run_head(w, i)) == run_number(w, i),
        w[run_head(w, i)] == w[i],
    decreases i,
{
    if i > 0 && !is_run_start(w, i) {
        lemma_run_head(w, i - 1);
        lemma_run_number_step(w, i);
    }
}

/// Each run number up to that of element `m` belongs to some run start at or before `m`.
pub proof fn lemma_run_start_exists(w: Seq<u32>, m: int, r: int)
    requires
        0 <= m < w.len(),
        1 <= r <= run_number(w, m),
    ensures
        exists|j: int| 0 <= j <= m && is_run_start(w, j) && #[trigger] run_number(w, j) == r,
    decreases m,
{
    if m == 0 {
        lemma_run_number_bounds(w, 0);
        assert(is_run_start(w, 0) && run_number(w, 0) == r);
    } else {
        lemma_run_number_step(w, m);
        if r <= run_number(w, m - 1) {
            lemma_run_start_exists(w, m - 1, r);
            let j = choose|j: int| 0 <= j <= m - 1 && is_run_start(w, j) && #[trigger] run_number(w, j) == r;
            assert(0 <= j <= m && is_run_start(w, j) && run_number(w, j) == r);
        } else {
            assert(is_run_start(w, m) && run_number(w, m) == r);
        }
    }
}

/// Where each run start is recorded at its run's slot.
#[verifier::opaque]
pub open spec fn records_run_starts(w: Seq<u32>, run_starts: Seq<u32>) -> bool {
    forall|i: int| 0 <= i < w.len() && is_run_start(w, i) ==> run_starts[#[trigger] run_number(w, i) - 1] == i
}

proof fn lemma_starts_increase(w: Seq<u32>, run_starts: Seq<u32>, r: int, r2: int)
    requires
        w.len() > 0,
        records_run_starts(w, run_starts),
        0 <= r < r2 < run_total(w),
    ensures
        run_starts[r] < run_starts[r2],
{
    reveal(records_run_starts);
    let n = w.len() as int;
    lemma_run_number_bounds(w, n - 1);
    assert(run_marks(w).take(n) =~= run_marks(w));
    lemma_run_start_exists(w, n - 1, r + 1);
    lemma_run_start_exists(w, n - 1, r2 + 1);
    let j1 = choose|j: int| 0 <= j <= n - 1 && is_run_start(w, j) && #[trigger] run_number(w, j) == r + 1;
    let j2 = choose|j: int| 0 <= j <= n - 1 && is_run_start(w, j) && #[trigger] run_number(w, j) == r2 + 1;
    if j2 <= j1 {
        lemma_run_number_mono(w, j2, j1);
    }
}

proof fn lemma_element_in_run(w: Seq<u32>, run_starts: Seq<u32>, i: int)
    requires
        records_run_starts(w, run_starts),
        0 <= i < w.len(),
    ensures
        run_starts[run_number(w, i) - 1] <= i,
        w[i] == w[run_starts[run_number(w, i) - 1] as int],
        run_number(w, i) < run_total(w) ==> i < run_starts[run_number(w, i)],
{
    reveal(records_run_starts);
    let n = w.len() as int;
    lemma_run_head(w, i);
    let h = run_head(w, i);
    assert(run_starts[run_number(w, h) - 1] == h);
    lemma_run_number_bounds(w, i);
    if run_number(w, i) < run_total(w) {
        lemma_run_number_bounds(w, n - 1);
        assert(run_marks(w).take(n) =~= run_marks(w));
        lemma_run_start_exists(w, n - 1, run_number(w, i) + 1);
        let j = choose|j: int| 0 <= j <= n - 1 && is_run_start(w, j) && #[trigger] run_number(w, j) == run_number(w, i) + 1;
        if j <= i {
            lemma_run_number_mono(w, j, i);
        }
        assert(run_starts[run_number(w, j) - 1] == j);
    }
}

/// What run discovery reports covers the elements exactly: the first run starts at
/// zero, run starts strictly increase, every element lies between the start of its
/// run and the start of the next, and has the bits of its run's first element.
pub proof fn lemma_runs_cover(w: Seq<u32>, run_starts: Seq<u32>)
    requires
        w.len() > 0,
        records_run_starts(w, run_starts),
    ensures
        run_starts[0] == 0,
        forall|r1: int, r2: int| 0 <= r1 < r2 < run_total(w) ==> #[trigger] run_starts[r1] < #[trigger] run_starts[r2],
        forall|i: int| 0 <= i < w.len() ==> run_starts[#[trigger] run_number(w, i) - 1] <= i,
        forall|i: int| 0 <= i < w.len() && run_number(w, i) < run_total(w) ==> i < run_starts[#[trigger] run_number(w, i)],
        forall|i: int| 0 <= i < w.len() ==> #[trigger] w[i] == w[run_starts[run_number(w, i) - 1] as int],
{
    lemma_run_number_bounds(w, 0);
    reveal(records_run_starts);
    assert(run_starts[run_number(w, 0) - 1] == 0);
    assert forall|r1: int, r2: int| 0 <= r1 < r2 < run_total(w) implies #[trigger] run_starts[r1] < #[trigger] run_starts[r2] by {
        lemma_starts_increase(w, run_starts, r1, r2);
    }
    assert forall|i: int| 0 <= i < w.len() implies run_starts[#[trigger] run_number(w, i) - 1] <= i
        && (run_number(w, i) < run_total(w) ==> i < run_starts[run_number(w, i)]) by {
        lemma_element_in_run(w, run_starts, i);
    }
    assert forall|i: int| 0 <= i < w.len() implies #[trigger] w[i] == w[run_starts[run_number(w, i) - 1] as int] by {
        lemma_element_in_run(w, run_starts, i);
    }
}

/// Two recordings of the run starts of the same elements agree on every run.
pub proof fn lemma_run_starts_agree(w: Seq<u32>, starts1: Seq<u32>, starts2: Seq<u32>)
    requires
        records_run_starts(w, starts1),
        records_run_starts(w, starts2),
    ensures
        forall|r: int| 0 <= r < run_total(w) ==> #[trigger] starts1[r] == starts2[r],
{
    reveal(records_run_starts);
    let n = w.len() as int;
    assert forall|r: int| 0 <= r < run_total(w) implies #[trigger] starts1[r] == starts2[r] by {
        if n == 0 {
            assert(run_marks(w) =~= Seq::<u32>::empty());
        } else {
            lemma_run_number_bounds(w, n - 1);
            assert(run_marks(w).take(n) =~= run_marks(w));
            lemma_run_start_exists(w, n - 1, r + 1);
            let j = choose|j: int| 0 <= j <= n - 1 && is_run_start(w, j) && #[trigger] run_number(w, j) == r + 1;
            assert(starts1[run_number(w, j) - 1] == j);
        }
    }
}

} // verus!
