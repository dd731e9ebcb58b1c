use crate::permutation::{inverse, is_permutation, lemma_compose, lemma_inverse, lemma_permutation_onto, reaches};
use vstd::prelude::*;
use vstd::relations::injective_on;
use vstd::set_lib::{lemma_int_range, lemma_len_subset, lemma_map_size, set_int_range};

verus! {

/// Digit `p` (an 8-bit slice, the lowest being digit 0) of a key.
pub open spec fn radix_digit(key: u32, p: int) -> int {
    ((key >> ((8 * p) as u32)) & 0xff) as int
}

/// The value of the lowest `q` digits of a key.
pub open spec fn low_key(key: u32, q: int) -> int {
    if q <= 0 {
        0
    } else if q == 1 {
        (key & 0xff) as int
    } else if q == 2 {
        (key & 0xffff) as int
    } else if q == 3 {
        (key & 0xff_ffff) as int
    } else {
        key as int
    }
}

/// The place value of digit `q`.
pub open spec fn digit_weight(q: int) -> int {
    if q <= 0 {
        1
    } else if q == 1 {
        0x100
    } else if q == 2 {
        0x1_0000
    } else {
        0x100_0000
    }
}

/// How many of `keys[0..i]` have `d` as their digit `p`.
pub open spec fn digit_count(keys: Seq<u32>, p: int, d: int, i: int) -> nat
    decreases i,
{
    if i <= 0 {
        0
    } else {
        digit_count(keys, p, d, i - 1) + (if radix_digit(keys[i - 1], p) == d { 1nat } else { 0nat })
    }
}

/// How many of `keys[0..n]` have a digit `p` below `d`: the first output slot of
/// digit `d` in a pass over digit `p`.
pub open spec fn digit_offset(keys: Seq<u32>, p: int, d: int, n: int) -> nat
    decreases d,
{
    if d <= 0 {
        0
    } else {
        digit_offset(keys, p, d - 1, n) + digit_count(keys, p, d - 1, n)
    }
}

/// Where a stable pass over digit `p` puts `keys[i]`, of the first `n` keys.
pub open spec fn scatter_destination(keys: Seq<u32>, p: int, n: int, i: int) -> int {
    (digit_offset(keys, p, radix_digit(keys[i], p), n) + digit_count(keys, p, radix_digit(keys[i], p), i)) as int
}

/// `keys_out` lists `keys_in` in the order `perm`, ordered by the value of the lowest
/// `q` digits, with equal values kept in their input order.
pub open spec fn sorted_by_low_digits(keys_in: Seq<u32>, keys_out: Seq<u32>, perm: Seq<int>, q: int) -> bool {
    &&& is_permutation(perm, keys_in.len() as int)
    &&& keys_out.len() == keys_in.len()
    &&& forall|k: int| 0 <= k < keys_out.len() ==> #[trigger] keys_out[k] == keys_in[perm[k]]
    &&& forall|k1: int, k2: int|
        0 <= k1 < k2 < keys_out.len() ==> low_key(keys_in[#[trigger] perm[k1]], q) < low_key(keys_in[#[trigger] perm[k2]], q)
            || (low_key(keys_in[perm[k1]], q) == low_key(keys_in[perm[k2]], q) && perm[k1] < perm[k2])
}

/// `keys_out` lists `keys_in` in the order `perm`, ordered by digit `p` alone, with
/// equal digits kept in their input order: one pass of the sort.
pub open spec fn sorted_by_digit(keys_in: Seq<u32>, keys_out: Seq<u32>, perm: Seq<int>, p: int) -> bool {
    &&& is_permutation(perm, keys_in.len() as int)
    &&& keys_out.len() == keys_in.len()
    &&& forall|k: int| 0 <= k < keys_out.len() ==> #[trigger] keys_out[k] == keys_in[perm[k]]
    &&& forall|k1: int, k2: int|
        0 <= k1 < k2 < keys_out.len() ==> radix_digit(keys_in[#[trigger] perm[k1]], p) < radix_digit(keys_in[#[trigger] perm[k2]], p)
            || (radix_digit(keys_in[perm[k1]], p) == radix_digit(keys_in[perm[k2]], p) && perm[k1] < perm[k2])
}

/// Values that follow their keys: `values_out[k]` is `values_in[perm[k]]`.
pub open spec fn follows<V>(values_in: Seq<V>, values_out: Seq<V>, perm: Seq<int>) -> bool {
    &&& values_out.len() == values_in.len()
    &&& forall|k: int| 0 <= k < values_out.len() ==> #[trigger] values_out[k] == values_in[perm[k]]
}

pub proof fn lemma_digit_bound(key: u32, p: int)
    ensures
        0 <= radix_digit(key, p) < 256,
{
    let s = (8 * p) as u32;
    assert((key >> s) & 0xff < 256) by (bit_vector);
}

/// Splitting off digit `q` from the lowest `q + 1` digits.
pub proof fn lemma_low_key_step(key: u32, q: int)
    requires
        0 <= q < 4,
    ensures
        low_key(key, q + 1) == radix_digit(key, q) * digit_weight(q) + low_key(key, q),
        0 <= low_key(key, q) < digit_weight(q),
        0 <= radix_digit(key, q) < 256,
{
    lemma_digit_bound(key, q);
    if q == 0 {
        assert(key & 0xff == ((key >> 0u32) & 0xff)) by (bit_vector);
    } else if q == 1 {
        assert(key & 0xffff == ((key >> 8u32) & 0xff) * 0x100 + (key & 0xff)) by (bit_vector);
        assert(key & 0xff < 0x100) by (bit_vector);
    } else if q == 2 {
        assert(key & 0xff_ffff == ((key >> 16u32) & 0xff) * 0x1_0000 + (key & 0xffff)) by (bit_vector);
        assert(key & 0xffff < 0x1_0000) by (bit_vector);
    } else {
        assert(key == ((key >> 24u32) & 0xff) * 0x100_0000 + (key & 0xff_ffff)) by (bit_vector);
        assert(key & 0xff_ffff < 0x100_0000) by (bit_vector);
    }
}

/// Comparing the lowest `q + 1` digits is comparing digit `q`, then the lowest `q`.
pub proof fn lemma_low_key_order(a: u32, b: u32, q: int)
    requires
        0 <= q < 4,
    ensures
        low_key(a, q + 1) < low_key(b, q + 1) <==> (radix_digit(a, q) < radix_digit(b, q) || (
        radix_digit(a, q) == radix_digit(b, q) && low_key(a, q) < low_key(b, q))),
        low_key(a, q + 1) == low_key(b, q + 1) <==> (radix_digit(a, q) == radix_digit(b, q)
            && low_key(a, q) == low_key(b, q)),
{
    lemma_low_key_step(a, q);
    lemma_low_key_step(b, q);
    let w = digit_weight(q);
    let da = radix_digit(a, q);
    let db = radix_digit(b, q);
    let la = low_key(a, q);
    let lb = low_key(b, q);
    assert(w > 0);
    assert(da < db ==> da * w + la < db * w + lb) by (nonlinear_arith)
        requires
            0 <= la < w,
            0 <= lb < w,
    ;
    assert(da > db ==> da * w + la > db * w + lb) by (nonlinear_arith)
        requires
            0 <= la < w,
            0 <= lb < w,
    ;
}

/// The lowest two digits are the whole key when it is below 2^16.
pub proof fn lemma_low_key_half(key: u32)
    requires
        key < 0x1_0000,
    ensures
        low_key(key, 2) == key as int,
{
    assert(key < 0x1_0000 ==> key & 0xffff == key) by (bit_vector);
}

pub proof fn lemma_digit_count_bounds(keys: Seq<u32>, p: int, d: int, i: int, j: int)
    requires
        0 <= i <= j,
    ensures
        digit_count(keys, p, d, i) <= digit_count(keys, p, d, j),
        digit_count(keys, p, d, j) - digit_count(keys, p, d, i) <= j - i,
    decreases j - i,
{
    if i < j {
        lemma_digit_count_bounds(keys, p, d, i, j - 1);
    }
}

pub proof fn lemma_digit_count_own(keys: Seq<u32>, p: int, i: int, j: int)
    requires
        0 <= i < j,
    ensures
        digit_count(keys, p, radix_digit(keys[i], p), i) < digit_count(keys, p, radix_digit(keys[i], p), j),
{
    lemma_digit_count_bounds(keys, p, radix_digit(keys[i], p), i + 1, j);
}

pub proof fn lemma_digit_offset_mono(keys: Seq<u32>, p: int, d1: int, d2: int, n: int)
    requires
        d1 <= d2,
    ensures
        digit_offset(keys, p, d1, n) <= digit_offset(keys, p, d2, n),
    decreases d2 - d1,
{
    if d1 < d2 {
        lemma_digit_offset_mono(keys, p, d1, d2 - 1, n);
    }
}

/// One more key adds one to the offset of each digit above its own.
pub proof fn lemma_digit_offset_next(keys: Seq<u32>, p: int, d: int, i: int)
    requires
        0 <= i,
        0 <= d,
    ensures
        digit_offset(keys, p, d, i + 1) == digit_offset(keys, p, d, i) + (if radix_digit(keys[i], p) < d { 1int } else { 0int }),
    decreases d,
{
    if d > 0 {
        lemma_digit_offset_next(keys, p, d - 1, i);
    }
}

pub proof fn lemma_digit_offset_none(keys: Seq<u32>, p: int, d: int)
    ensures
        digit_offset(keys, p, d, 0) == 0,
    decreases d,
{
    if d > 0 {
        lemma_digit_offset_none(keys, p, d - 1);
    }
}

/// Every key has a digit below 256.
pub proof fn lemma_digit_offset_all(keys: Seq<u32>, p: int, n: int)
    requires
        0 <= n <= keys.len(),
    ensures
        digit_offset(keys, p, 256, n) == n,
    decreases n,
{
    if n > 0 {
        lemma_digit_offset_all(keys, p, n - 1);
        lemma_digit_offset_next(keys, p, 256, n - 1);
        lemma_digit_bound(keys[n - 1], p);
    } else {
        lemma_digit_offset_none(keys, p, 256);
    }
}

/// Digit order, then input order, decides the order of destinations.
pub proof fn lemma_destination_order(keys: Seq<u32>, p: int, n: int, i: int, k: int)
    requires
        0 <= i < n,
        0 <= k < n,
        n <= keys.len(),
        radix_digit(keys[i], p) < radix_digit(keys[k], p) || (radix_digit(keys[i], p) == radix_digit(keys[k], p) && i < k),
    ensures
        scatter_destination(keys, p, n, i) < scatter_destination(keys, p, n, k),
{
    let di = radix_digit(keys[i], p);
    let dk = radix_digit(keys[k], p);
    if di < dk {
        lemma_digit_count_own(keys, p, i, n);
        lemma_digit_offset_mono(keys, p, di + 1, dk, n);
    } else {
        lemma_digit_count_own(keys, p, i, k);
    }
}

/// Destinations stay below `n`.
pub proof fn lemma_destination_bound(keys: Seq<u32>, p: int, n: int, i: int)
    requires
        0 <= i < n <= keys.len(),
    ensures
        0 <= scatter_destination(keys, p, n, i) < n,
{
    let di = radix_digit(keys[i], p);
    lemma_digit_bound(keys[i], p);
    lemma_digit_count_own(keys, p, i, n);
    lemma_digit_offset_mono(keys, p, di + 1, 256, n);
    lemma_digit_offset_all(keys, p, n);
}

/// The destinations of the first `n` keys are a permutation of `0..n`.
pub proof fn lemma_destinations_permute(keys: Seq<u32>, p: int, n: int)
    requires
        0 <= n <= keys.len(),
    ensures
        is_permutation(Seq::new(n as nat, |i: int| scatter_destination(keys, p, n, i)), n),
{
    let dest = Seq::new(n as nat, |i: int| scatter_destination(keys, p, n, i));
    assert forall|i: int| 0 <= i < n implies 0 <= #[trigger] dest[i] < n by {
        lemma_destination_bound(keys, p, n, i);
    }
    assert forall|i: int, k: int| 0 <= i < n && 0 <= k < n && i != k implies #[trigger] dest[i] != #[trigger] dest[k] by {
        let di = radix_digit(keys[i], p);
        let dk = radix_digit(keys[k], p);
        if di < dk || (di == dk && i < k) {
            lemma_destination_order(keys, p, n, i, k);
        } else {
            lemma_destination_order(keys, p, n, k, i);
        }
    }
}

/// A pass over digit `q` after a sort by the lowest `q` digits sorts by the lowest
/// `q + 1` digits, with ties still in input order.
pub proof fn lemma_pass_extends(keys_in: Seq<u32>, mid: Seq<u32>, keys_out: Seq<u32>, perm: Seq<int>, step: Seq<int>, q: int)
    requires
        0 <= q < 4,
        sorted_by_low_digits(keys_in, mid, perm, q),
        sorted_by_digit(mid, keys_out, step, q),
    ensures
        sorted_by_low_digits(keys_in, keys_out, Seq::new(keys_in.len(), |k: int| perm[step[k]]), q + 1),
{
    let n = keys_in.len() as int;
    let c = Seq::new(keys_in.len(), |k: int| perm[step[k]]);
    lemma_compose(perm, step, n);
    assert forall|k: int| 0 <= k < n implies #[trigger] keys_out[k] == keys_in[c[k]] by {
        assert(keys_out[k] == mid[step[k]]);
        assert(0 <= step[k] < n);
        assert(mid[step[k]] == keys_in[perm[step[k]]]);
    }
    assert forall|k1: int, k2: int| 0 <= k1 < k2 < n implies low_key(keys_in[#[trigger] c[k1]], q + 1) < low_key(keys_in[#[trigger] c[k2]], q + 1)
        || (low_key(keys_in[c[k1]], q + 1) == low_key(keys_in[c[k2]], q + 1) && c[k1] < c[k2]) by {
        let s1 = step[k1];
        let s2 = step[k2];
        assert(0 <= s1 < n && 0 <= s2 < n && s1 != s2);
        assert(mid[s1] == keys_in[perm[s1]]);
        assert(mid[s2] == keys_in[perm[s2]]);
        let a = keys_in[c[k1]];
        let b = keys_in[c[k2]];
        lemma_low_key_order(a, b, q);
        if radix_digit(mid[s1], q) == radix_digit(mid[s2], q) {
            assert(s1 < s2);
            assert(low_key(keys_in[perm[s1]], q) < low_key(keys_in[perm[s2]], q)
                || (low_key(keys_in[perm[s1]], q) == low_key(keys_in[perm[s2]], q) && perm[s1] < perm[s2]));
        }
    }
}

/// Before any pass, the keys are sorted by their lowest zero digits.
pub proof fn lemma_no_digits(keys: Seq<u32>)
    ensures
        sorted_by_low_digits(keys, keys, Seq::new(keys.len(), |k: int| k), 0),
{
    crate::permutation::lemma_identity(keys.len() as int);
}

/// The destinations of the first `n` keys in a pass over digit `p`.
pub open spec fn destinations(keys: Seq<u32>, p: int, n: int) -> Seq<int> {
    Seq::new(n as nat, |i: int| scatter_destination(keys, p, n, i))
}

/// Keys placed at their destinations are sorted by digit `p`, ties in input order.
pub proof fn lemma_scatter_sorts(keys: Seq<u32>, out: Seq<u32>, p: int, n: int)
    requires
        0 <= n <= keys.len(),
        n <= out.len(),
        forall|i: int| 0 <= i < n ==> out[#[trigger] scatter_destination(keys, p, n, i)] == keys[i],
    ensures
        sorted_by_digit(keys.take(n), out.take(n), inverse(destinations(keys, p, n), n), p),
{
    let dest = destinations(keys, p, n);
    lemma_destinations_permute(keys, p, n);
    assert(dest == Seq::new(n as nat, |i: int| scatter_destination(keys, p, n, i)));
    lemma_inverse(dest, n);
    let inv = inverse(dest, n);
    let a = keys.take(n);
    let b = out.take(n);
    assert forall|k: int| 0 <= k < n implies #[trigger] b[k] == a[inv[k]] by {
        let i = inv[k];
        assert(dest[i] == k);
        assert(out[scatter_destination(keys, p, n, i)] == keys[i]);
    }
    assert forall|k1: int, k2: int| 0 <= k1 < k2 < n implies radix_digit(a[#[trigger] inv[k1]], p) < radix_digit(a[#[trigger] inv[k2]], p)
        || (radix_digit(a[inv[k1]], p) == radix_digit(a[inv[k2]], p) && inv[k1] < inv[k2]) by {
        let i1 = inv[k1];
        let i2 = inv[k2];
        assert(dest[i1] == k1 && dest[i2] == k2);
        assert(i1 != i2);
        if radix_digit(keys[i2], p) < radix_digit(keys[i1], p) || (radix_digit(keys[i2], p) == radix_digit(keys[i1], p) && i2 < i1) {
            lemma_destination_order(keys, p, n, i2, i1);
        }
    }
}

/// Values placed at the destinations of their keys follow the keys.
pub proof fn lemma_scatter_carries<V>(keys: Seq<u32>, values: Seq<V>, out: Seq<V>, p: int, n: int)
    requires
        0 <= n <= keys.len(),
        n <= values.len(),
        n <= out.len(),
        forall|i: int| 0 <= i < n ==> out[#[trigger] scatter_destination(keys, p, n, i)] == values[i],
    ensures
        follows(values.take(n), out.take(n), inverse(destinations(keys, p, n), n)),
{
    let dest = destinations(keys, p, n);
    lemma_destinations_permute(keys, p, n);
    assert(dest == Seq::new(n as nat, |i: int| scatter_destination(keys, p, n, i)));
    lemma_inverse(dest, n);
    let inv = inverse(dest, n);
    assert forall|k: int| 0 <= k < n implies #[trigger] out.take(n)[k] == values.take(n)[inv[k]] by {
        let i = inv[k];
        assert(dest[i] == k);
        assert(out[scatter_destination(keys, p, n, i)] == values[i]);
    }
}

/// Values that follow their keys through two reorderings follow the composed one.
pub proof fn lemma_follows_compose<V>(values_in: Seq<V>, mid: Seq<V>, values_out: Seq<V>, perm: Seq<int>, step: Seq<int>)
    requires
        is_permutation(step, values_in.len() as int),
        follows(values_in, mid, perm),
        follows(mid, values_out, step),
    ensures
        follows(values_in, values_out, Seq::new(values_in.len(), |k: int| perm[step[k]])),
{
    let n = values_in.len() as int;
    assert forall|k: int| 0 <= k < n implies #[trigger] values_out[k] == values_in[Seq::new(values_in.len(), |k: int| perm[step[k]])[k]] by {
        assert(0 <= step[k] < n);
        assert(mid[step[k]] == values_in[perm[step[k]]]);
    }
}

/// The positions below `n` whose key has `d` as digit `p`.
pub open spec fn digit_positions(keys: Seq<u32>, p: int, d: int, n: int) -> Set<int> {
    Set::new(|i: int| 0 <= i < n && radix_digit(keys[i], p) == d)
}

pub proof fn lemma_digit_count_is_size(keys: Seq<u32>, p: int, d: int, n: int)
    requires
        0 <= n,
    ensures
        digit_positions(keys, p, d, n).finite(),
        digit_positions(keys, p, d, n).len() == digit_count(keys, p, d, n),
    decreases n,
{
    let s = digit_positions(keys, p, d, n);
    lemma_int_range(0, n);
    assert(s.subset_of(set_int_range(0, n)));
    lemma_len_subset(s, set_int_range(0, n));
    if n > 0 {
        lemma_digit_count_is_size(keys, p, d, n - 1);
        let t = digit_positions(keys, p, d, n - 1);
        if radix_digit(keys[n - 1], p) == d {
            assert(s =~= t.insert(n - 1));
        } else {
            assert(s =~= t);
        }
    } else {
        assert(s =~= Set::empty());
    }
}

/// Reordering the first `n` keys keeps how many have each digit.
pub proof fn lemma_digit_count_permuted(keys: Seq<u32>, other: Seq<u32>, perm: Seq<int>, p: int, d: int, n: int)
    requires
        0 <= n <= keys.len(),
        n <= other.len(),
        is_permutation(perm, n),
        forall|k: int| 0 <= k < n ==> #[trigger] other[k] == keys[perm[k]],
    ensures
        digit_count(other, p, d, n) == digit_count(keys, p, d, n),
{
    let so = digit_positions(other, p, d, n);
    let sk = digit_positions(keys, p, d, n);
    lemma_digit_count_is_size(other, p, d, n);
    lemma_digit_count_is_size(keys, p, d, n);
    let f = |k: int| perm[k];
    lemma_permutation_onto(perm, n);
    assert forall|i: int| #[trigger] sk.contains(i) implies so.map(f).contains(i) by {
        assert(reaches(perm, n, i));
        let k = choose|k: int| 0 <= k < n && #[trigger] perm[k] == i;
        assert(so.contains(k));
    }
    assert forall|i: int| #[trigger] so.map(f).contains(i) implies sk.contains(i) by {
        let k = choose|k: int| so.contains(k) && f(k) == i;
        assert(other[k] == keys[perm[k]]);
    }
    assert(so.map(f) =~= sk);
    assert(injective_on(f, so));
    lemma_map_size(so, sk, f);
}

/// Reordering the first `n` keys keeps each digit's offset.
pub proof fn lemma_digit_offset_permuted(keys: Seq<u32>, other: Seq<u32>, perm: Seq<int>, p: int, d: int, n: int)
    requires
        0 <= n <= keys.len(),
        n <= other.len(),
        is_permutation(perm, n),
        forall|k: int| 0 <= k < n ==> #[trigger] other[k] == keys[perm[k]],
    ensures
        digit_offset(other, p, d, n) == digit_offset(keys, p, d, n),
    decreases d,
{
    if d > 0 {
        lemma_digit_offset_permuted(keys, other, perm, p, d - 1, n);
        lemma_digit_count_permuted(keys, other, perm, p, d - 1, n);
    }
}

} // verus!
