use rand::seq::SliceRandom;
use rand::Rng;
use vstd::prelude::*;
use vstd::relations::{sorted_by, total_ordering};
use vstd::seq_lib::lemma_sorted_unique;
use vstd::slice::slice_to_vec;
use vstd::set_lib::{lemma_int_range, lemma_len_subset, set_int_range};
use crate::notation::{
    is_cycle_listing, is_cycle_of, is_partial_listing, join_spaced, lemma_listed_push, listed_before, push_char,
    push_decimal, render,
};

verus! {

broadcast use vstd::seq_lib::group_to_multiset_ensures;

/// The errors reported by this module.
#[derive(Debug, Clone, PartialEq, Eq)]
pub enum ErrorKind {
    /// Returned by [`Derange::apply`] when the source, the destination and the
    /// derangement do not all have the same length.
    /// Holds the source length, the destination length and the derangement's order.
    SizeMismatch(usize, usize, usize),
    /// Returned by [`Derange::try_from`] when the values are not a permutation.
    /// Holds the offending value of the sorted copy.
    BadPermutation(usize),
    /// Returned by [`Derange::try_from`] when the values hold a fixed point.
    /// Holds the index of the fixed point.
    FixedPoint(usize),
}

/// Every value of `m` is an index of `m`.
pub open spec fn in_range(m: Seq<usize>) -> bool {
    forall|i: int| 0 <= i < m.len() ==> #[trigger] m[i] < m.len()
}

/// No two indices of `m` hold the same value.
pub open spec fn injective(m: Seq<usize>) -> bool {
    forall|i: int, j: int| 0 <= i < m.len() && 0 <= j < m.len() && i != j ==> #[trigger] m[i] != #[trigger] m[j]
}

/// Some index of `m` holds the value `v`.
pub open spec fn has_preimage(m: Seq<usize>, v: int) -> bool {
    exists|i: int| 0 <= i < m.len() && m[i] == v
}

/// Every index of `m` is the value at some index of `m`.
pub open spec fn surjective(m: Seq<usize>) -> bool {
    forall|v: int| 0 <= v < m.len() ==> #[trigger] has_preimage(m, v)
}

/// `m` is a permutation of `0..m.len()`: each value in that range appears exactly once.
pub open spec fn is_permutation(m: Seq<usize>) -> bool {
    &&& in_range(m)
    &&& injective(m)
    &&& surjective(m)
}

/// No index of `m` maps to itself.
pub open spec fn no_fixed_point(m: Seq<usize>) -> bool {
    forall|i: int| 0 <= i < m.len() ==> #[trigger] m[i] != i
}

/// `m` is a derangement of `0..m.len()`.
pub open spec fn is_derangement(m: Seq<usize>) -> bool {
    is_permutation(m) && no_fixed_point(m)
}

/// The index that `m` sends to `v`.
pub open spec fn preimage(m: Seq<usize>, v: int) -> int {
    choose|i: int| 0 <= i < m.len() && m[i] == v
}

/// The inverse of the permutation `m`.
pub open spec fn inverse_of(m: Seq<usize>) -> Seq<usize> {
    Seq::new(m.len(), |v: int| preimage(m, v) as usize)
}

/// The sequence `0, 1, ..., n - 1`.
pub open spec fn identity(n: nat) -> Seq<usize> {
    Seq::new(n, |i: int| i as usize)
}

/// Within the cycle made of positions `s..e`, the position after `k`.
pub open spec fn cycle_next(s: int, e: int, k: int) -> int {
    if k + 1 == e {
        s
    } else {
        k + 1
    }
}

/// Within the cycle made of positions `s..e`, the position before `k`.
pub open spec fn cycle_prev(s: int, e: int, k: int) -> int {
    if k == s {
        e - 1
    } else {
        k - 1
    }
}

/// Relies on rand's `SliceRandom::shuffle`, which only swaps entries: the
/// result holds the same values, in an order drawn from `rng`.
#[verifier::external_body]
fn shuffle_indices<R: Rng + ?Sized>(v: &mut Vec<usize>, rng: &mut R)
    ensures
        final(v)@.to_multiset() == old(v)@.to_multiset(),
{
    v.shuffle(rng)
}

/// Relies on rand's `Rng::gen_range` over `low..=high`, which returns a value of
/// that range and panics only on an empty one.
#[verifier::external_body]
fn draw_in_range<R: Rng + ?Sized>(rng: &mut R, low: usize, high: usize) -> (r: usize)
    requires
        low <= high,
    ensures
        low <= r <= high,
{
    rng.gen_range(low..=high)
}

/// A sequence with the same values as `0..n` lists each of them exactly once.
proof fn lemma_rearranged_identity(p: Seq<usize>, n: nat)
    requires
        p.to_multiset() == identity(n).to_multiset(),
        n <= usize::MAX,
    ensures
        p.len() == n,
        p.no_duplicates(),
        forall|k: int| 0 <= k < p.len() ==> #[trigger] p[k] < n,
        forall|v: int| 0 <= v < n ==> #[trigger] has_preimage(p, v),
{
    let id = identity(n);
    assert(forall|i: int| 0 <= i < n ==> #[trigger] id[i] == i);
    assert(id.no_duplicates());
    assert(p.to_multiset().len() == p.len());
    assert(id.to_multiset().len() == id.len());
    id.lemma_multiset_has_no_duplicates();
    p.lemma_multiset_has_no_duplicates_conv();
    assert forall|k: int| 0 <= k < p.len() implies #[trigger] p[k] < n by {
        assert(p.contains(p[k]));
        assert(p.to_multiset().contains(p[k]));
        assert(id.contains(p[k]));
        let i = choose|i: int| 0 <= i < id.len() && id[i] == p[k];
    }
    assert forall|v: int| 0 <= v < n implies #[trigger] has_preimage(p, v) by {
        assert(id[v] == v);
        assert(id.contains(v as usize));
        assert(id.to_multiset().contains(v as usize));
        assert(p.to_multiset().contains(v as usize));
        assert(p.contains(v as usize));
    }
}

/// Turns positions `s..e` of `order` into one cycle of `m`: the value at each
/// position is sent to the value at the next one, the last back to the first.
fn write_cycle(m: &mut Vec<usize>, order: &[usize], s: usize, e: usize)
    requires
        s + 2 <= e <= order@.len(),
        order@.no_duplicates(),
        forall|k: int| 0 <= k < order@.len() ==> #[trigger] order@[k] < old(m)@.len(),
    ensures
        final(m)@.len() == old(m)@.len(),
        forall|k: int| s <= k < e ==> final(m)@[#[trigger] order@[k] as int] == order@[cycle_next(s as int, e as int, k)],
        forall|k: int| 0 <= k < order@.len() && !(s <= k < e) ==> final(m)@[#[trigger] order@[k] as int] == old(m)@[order@[k] as int],
{
    let mut k: usize = s;
    while k < e
        invariant
            s <= k <= e,
            s + 2 <= e <= order@.len(),
            order@.no_duplicates(),
            m@.len() == old(m)@.len(),
            forall|j: int| 0 <= j < order@.len() ==> #[trigger] order@[j] < m@.len(),
            forall|j: int| s <= j < k ==> m@[#[trigger] order@[j] as int] == order@[cycle_next(s as int, e as int, j)],
            forall|j: int| 0 <= j < order@.len() && !(s <= j < k) ==> m@[#[trigger] order@[j] as int] == old(m)@[order@[j] as int],
        decreases e - k,
    {
        let next = if k + 1 == e { order[s] } else { order[k + 1] };
        m.set(order[k], next);
        k = k + 1;
    }
}

/// `t` is in ascending order.
pub open spec fn ascending(t: Seq<usize>) -> bool {
    forall|i: int, j: int| 0 <= i < j < t.len() ==> #[trigger] t[i] <= #[trigger] t[j]
}

/// The outcome of checking `value` against its ascending rearrangement `sorted`,
/// from position `i` on: at the first position whose sorted value differs from
/// the position the values are no permutation; failing that, at the first
/// position that maps to itself there is a fixed point.
pub open spec fn import_check(value: Seq<usize>, sorted: Seq<usize>, i: nat) -> Result<(), ErrorKind>
    decreases value.len() - i,
{
    if i >= value.len() || i >= sorted.len() {
        Ok(())
    } else if sorted[i as int] != i {
        Err(ErrorKind::BadPermutation(sorted[i as int]))
    } else if value[i as int] == i {
        Err(ErrorKind::FixedPoint(i as usize))
    } else {
        import_check(value, sorted, i + 1)
    }
}

/// Relies on std's `slice::sort`: the values end in ascending order, each
/// occurring as often as before.
#[verifier::external_body]
fn sort_values(v: &mut Vec<usize>)
    ensures
        final(v)@.to_multiset() == old(v)@.to_multiset(),
        ascending(final(v)@),
{
    v.sort()
}

/// A permutation of `0..n` holds each of `0, ..., n - 1` exactly once: as a
/// multiset its values are those of `0..n`.
pub proof fn lemma_permutation_values(m: Seq<usize>)
    requires
        is_permutation(m),
        m.len() <= usize::MAX,
    ensures
        m.to_multiset() == identity(m.len()).to_multiset(),
{
    let n = m.len();
    let id = identity(n);
    assert(forall|i: int| 0 <= i < n ==> #[trigger] id[i] == i);
    assert(id.no_duplicates());
    assert(m.no_duplicates());
    id.lemma_multiset_has_no_duplicates();
    m.lemma_multiset_has_no_duplicates();
    assert forall|x: usize| #[trigger] m.to_multiset().count(x) == id.to_multiset().count(x) by {
        if x < n {
            assert(has_preimage(m, x as int));
            let i = choose|i: int| 0 <= i < m.len() && m[i] == x;
            assert(m.contains(x));
            assert(id[x as int] == x);
            assert(id.contains(x));
        } else {
            if m.contains(x) {
                let i = choose|i: int| 0 <= i < m.len() && m[i] == x;
                assert(m[i] < n);
            }
            if id.contains(x) {
                let i = choose|i: int| 0 <= i < id.len() && id[i] == x;
            }
        }
    }
    assert(m.to_multiset() =~= id.to_multiset());
}

/// The only ascending sequence holding `0..n` is `0..n` itself.
proof fn lemma_sorted_identity(t: Seq<usize>, n: nat)
    requires
        ascending(t),
        t.to_multiset() == identity(n).to_multiset(),
        n <= usize::MAX,
    ensures
        t == identity(n),
{
    let leq = |a: usize, b: usize| a <= b;
    let id = identity(n);
    assert(forall|i: int| 0 <= i < n ==> #[trigger] id[i] == i);
    assert(sorted_by(t, leq));
    assert(sorted_by(id, leq));
    assert(total_ordering(leq));
    lemma_sorted_unique(t, id, leq);
}

/// Where the run of index `j` starts when runs of lengths `parts` are laid
/// end to end: the sum of the first `j` lengths.
pub open spec fn offset(parts: Seq<usize>, j: int) -> int
    decreases j,
{
    if j <= 0 {
        0
    } else {
        offset(parts, j - 1) + parts[j - 1]
    }
}

proof fn lemma_offset_monotone(parts: Seq<usize>, a: int, b: int)
    requires
        0 <= a <= b,
    ensures
        offset(parts, a) <= offset(parts, b),
    decreases b - a,
{
    if a < b {
        lemma_offset_monotone(parts, a, b - 1);
    }
}

proof fn lemma_offset_push(parts: Seq<usize>, x: usize, j: int)
    requires
        0 <= j <= parts.len(),
    ensures
        offset(parts.push(x), j) == offset(parts, j),
    decreases j,
{
    if j > 0 {
        lemma_offset_push(parts, x, j - 1);
    }
}

/// The length of the next cycle when `remaining` values are left to place
/// and `drawn` was drawn from `2..=remaining - 1`.
pub open spec fn corrected_size(remaining: int, drawn: int) -> int {
    if remaining == 2 {
        2
    } else if drawn == remaining - 1 {
        remaining
    } else {
        drawn
    }
}

/// The length of the next cycle when `remaining` values are left to place
/// and `drawn` was drawn from `2..=remaining - 1`. Two remaining values
/// always form one cycle, and a draw of `remaining - 1` is raised to
/// `remaining`, since it would leave a single value, a fixed point, behind.
pub fn partition_size(remaining: usize, drawn: usize) -> (r: usize)
    requires
        remaining >= 2,
    ensures
        r == corrected_size(remaining as int, drawn as int),
{
    if remaining == 2 {
        2
    } else if drawn == remaining - 1 {
        remaining
    } else {
        drawn
    }
}

/// A derangement of `0..n`, held as the array whose `i`-th entry is the image of `i`.
#[derive(Debug, PartialEq, Eq)]
pub struct Derange {
    perm: Vec<usize>,
}

impl View for Derange {
    type V = Seq<usize>;

    closed spec fn view(&self) -> Seq<usize> {
        self.perm@
    }
}

impl Clone for Derange {
    fn clone(&self) -> (r: Self)
        ensures
            r@ == self@,
    {
        proof { use_type_invariant(self); }
        Derange { perm: self.perm.clone() }
    }
}

impl Derange {
    #[verifier::type_invariant]
    spec fn valid(self) -> bool {
        is_derangement(self.perm@)
    }

    /// Draws a derangement of order `size` from `rng`.
    ///
    /// The values `0..size` are shuffled, then cut from the front into runs
    /// of random length of at least two (see [`partition_size`]), and each
    /// run becomes one cycle (see [`Derange::from_cycles`]).
    pub fn new<R: Rng + ?Sized>(rng: &mut R, size: usize) -> (r: Derange)
        requires
            size != 1,
        ensures
            r@.len() == size,
            is_derangement(r@),
    {
        let mut order: Vec<usize> = Vec::with_capacity(size);
        let mut i: usize = 0;
        while i < size
            invariant
                i <= size,
                order@ =~= identity(i as nat),
            decreases size - i,
        {
            order.push(i);
            i = i + 1;
        }
        shuffle_indices(&mut order, rng);
        proof {
            lemma_rearranged_identity(order@, size as nat);
            assert(injective(order@));
        }
        let mut parts: Vec<usize> = Vec::new();
        let mut start: usize = 0;
        while start < size
            invariant
                start <= size,
                size - start != 1,
                offset(parts@, parts@.len() as int) == start,
                forall|q: int| 0 <= q < parts@.len() ==> #[trigger] parts@[q] >= 2,
            decreases size - start,
        {
            let remaining = size - start;
            let drawn: usize = if remaining == 2 {
                2
            } else {
                draw_in_range(rng, 2, remaining - 1)
            };
            let part = partition_size(remaining, drawn);
            let ghost parts0 = parts@;
            parts.push(part);
            proof {
                lemma_offset_push(parts0, part, parts0.len() as int);
            }
            start = start + part;
        }
        let r = Derange::from_cycles(order.as_slice(), parts.as_slice());
        proof { use_type_invariant(&r); }
        r
    }

    /// Builds the derangement whose cycles are consecutive runs of `order`:
    /// its first `parts[0]` entries form one cycle, the next `parts[1]` the
    /// next one, and so on. Within a run each entry is sent to the one after
    /// it, and the last entry back to the first.
    pub fn from_cycles(order: &[usize], parts: &[usize]) -> (r: Derange)
        requires
            is_permutation(order@),
            forall|q: int| 0 <= q < parts@.len() ==> #[trigger] parts@[q] >= 2,
            offset(parts@, parts@.len() as int) == order@.len(),
        ensures
            r@.len() == order@.len(),
            forall|q: int, k: int| #![trigger parts@[q], r@[order@[k] as int]] 0 <= q < parts@.len() && offset(parts@, q) <= k < offset(parts@, q + 1)
                ==> r@[order@[k] as int] == order@[cycle_next(offset(parts@, q), offset(parts@, q + 1), k)],
    {
        let size = order.len();
        let mut m: Vec<usize> = Vec::with_capacity(size);
        let mut i: usize = 0;
        while i < size
            invariant
                i <= size,
                m@.len() == i,
            decreases size - i,
        {
            m.push(0);
            i = i + 1;
        }
        proof {
            assert(order@.no_duplicates());
        }
        let ghost mut succ: Seq<int> = Seq::new(size as nat, |k: int| 0);
        let ghost mut pred: Seq<int> = Seq::new(size as nat, |k: int| 0);
        let mut start: usize = 0;
        let mut j: usize = 0;
        while j < parts.len()
            invariant
                0 <= j <= parts@.len(),
                start == offset(parts@, j as int),
                forall|q: int| 0 <= q < parts@.len() ==> #[trigger] parts@[q] >= 2,
                offset(parts@, parts@.len() as int) == size,
                forall|q: int, k: int| #![trigger parts@[q], m@[order@[k] as int]] 0 <= q < j && offset(parts@, q) <= k < offset(parts@, q + 1)
                    ==> m@[order@[k] as int] == order@[cycle_next(offset(parts@, q), offset(parts@, q + 1), k)],
                start <= size,
                order@.len() == size,
                order@.no_duplicates(),
                forall|k: int| 0 <= k < size ==> #[trigger] order@[k] < size,
                forall|v: int| 0 <= v < size ==> #[trigger] has_preimage(order@, v),
                m@.len() == size,
                succ.len() == size,
                pred.len() == size,
                forall|k: int| 0 <= k < start ==> {
                    &&& 0 <= #[trigger] succ[k] < start
                    &&& succ[k] != k
                    &&& m@[order@[k] as int] == order@[succ[k]]
                    &&& pred[succ[k]] == k
                },
                forall|j: int| 0 <= j < start ==> {
                    &&& 0 <= #[trigger] pred[j] < start
                    &&& m@[order@[pred[j]] as int] == order@[j]
                },
            decreases parts@.len() - j,
        {
            proof {
                lemma_offset_monotone(parts@, j as int + 1, parts@.len() as int);
            }
            let end = start + parts[j];
            let ghost m0 = m@;
            write_cycle(&mut m, order, start, end);
            proof {
                assert forall|q: int, k: int| #![trigger parts@[q], m@[order@[k] as int]] 0 <= q < j + 1 && offset(parts@, q) <= k < offset(parts@, q + 1)
                    implies m@[order@[k] as int] == order@[cycle_next(offset(parts@, q), offset(parts@, q + 1), k)] by {
                    if q < j {
                        lemma_offset_monotone(parts@, 0, q);
                        lemma_offset_monotone(parts@, q + 1, j as int);
                        lemma_offset_monotone(parts@, j as int, parts@.len() as int);
                        assert(m@[order@[k] as int] == m0[order@[k] as int]);
                    }
                }
                let s = start as int;
                let e = end as int;
                let succ0 = succ;
                let pred0 = pred;
                succ = Seq::new(size as nat, |k: int| if s <= k < e { cycle_next(s, e, k) } else { succ0[k] });
                pred = Seq::new(size as nat, |k: int| if s <= k < e { cycle_prev(s, e, k) } else { pred0[k] });
                assert forall|k: int| 0 <= k < e implies {
                    &&& 0 <= #[trigger] succ[k] < e
                    &&& succ[k] != k
                    &&& m@[order@[k] as int] == order@[succ[k]]
                    &&& pred[succ[k]] == k
                } by {
                    if k < s {
                        assert(m@[order@[k] as int] == m0[order@[k] as int]);
                    }
                }
                assert forall|j: int| 0 <= j < e implies {
                    &&& 0 <= #[trigger] pred[j] < e
                    &&& m@[order@[pred[j]] as int] == order@[j]
                } by {
                    if j < s {
                        assert(m@[order@[pred0[j]] as int] == m0[order@[pred0[j]] as int]);
                    } else {
                        assert(s <= cycle_prev(s, e, j) < e);
                    }
                }
            }
            start = end;
            j = j + 1;
        }
        proof {
            assert(start == size);
            let p = order@;
            assert forall|i: int| 0 <= i < size implies #[trigger] m@[i] < size && m@[i] != i by {
                assert(has_preimage(p, i));
                let k = choose|k: int| 0 <= k < p.len() && p[k] == i;
                assert(m@[p[k] as int] == p[succ[k]]);
            }
            assert forall|i: int, l: int| 0 <= i < size && 0 <= l < size && i != l implies #[trigger] m@[i] != #[trigger] m@[l] by {
                assert(has_preimage(p, i));
                assert(has_preimage(p, l));
                let k = choose|k: int| 0 <= k < p.len() && p[k] == i;
                let q = choose|q: int| 0 <= q < p.len() && p[q] == l;
                assert(m@[p[k] as int] == p[succ[k]]);
                assert(m@[p[q] as int] == p[succ[q]]);
            }
            assert forall|v: int| 0 <= v < size implies #[trigger] has_preimage(m@, v) by {
                assert(has_preimage(p, v));
                let j = choose|j: int| 0 <= j < p.len() && p[j] == v;
                assert(m@[p[pred[j]] as int] == p[j]);
            }
        }
        Derange { perm: m }
    }

    /// Reads `value` as a derangement: entry `i` is the image of `i`.
    ///
    /// A sorted copy of `value` is compared with `0..n` position by position;
    /// at the first position where the sorted copy differs the error is
    /// `BadPermutation` with the sorted value, and otherwise at the first
    /// position that maps to itself the error is `FixedPoint` with that index.
    pub fn try_from(value: &[usize]) -> (r: Result<Derange, ErrorKind>)
        ensures
            r is Ok <==> is_derangement(value@),
            r matches Ok(d) ==> d@ == value@,
            forall|t: Seq<usize>| ascending(t) && t.to_multiset() == value@.to_multiset()
                ==> #[trigger] import_check(value@, t, 0) == match r {
                    Ok(_) => Ok(()),
                    Err(e) => Err(e),
                },
    {
        let n = value.len();
        let mut sorted = slice_to_vec(value);
        sort_values(&mut sorted);
        proof {
            let leq = |a: usize, b: usize| a <= b;
            assert(total_ordering(leq));
            assert(sorted_by(sorted@, leq));
            assert forall|t: Seq<usize>| ascending(t) && t.to_multiset() == value@.to_multiset() implies t == sorted@ by {
                assert(sorted_by(t, leq));
                lemma_sorted_unique(t, sorted@, leq);
            }
            assert(sorted@.len() == n) by {
                assert(sorted@.to_multiset().len() == sorted@.len());
                assert(value@.to_multiset().len() == value@.len());
            }
            if is_permutation(value@) {
                lemma_permutation_values(value@);
                lemma_sorted_identity(sorted@, n as nat);
                assert(forall|i: int| 0 <= i < n ==> #[trigger] identity(n as nat)[i] == i);
            }
        }
        let mut i: usize = 0;
        while i < n
            invariant
                i <= n,
                n == value@.len(),
                sorted@.len() == n,
                sorted@.to_multiset() == value@.to_multiset(),
                is_permutation(value@) ==> forall|j: int| 0 <= j < n ==> #[trigger] sorted@[j] == j,
                forall|j: int| 0 <= j < i ==> #[trigger] sorted@[j] == j,
                forall|j: int| 0 <= j < i ==> #[trigger] value@[j] != j,
                import_check(value@, sorted@, 0) == import_check(value@, sorted@, i as nat),
                forall|t: Seq<usize>| #[trigger] ascending(t) && t.to_multiset() == value@.to_multiset() ==> t == sorted@,
            decreases n - i,
        {
            if sorted[i] != i {
                return Err(ErrorKind::BadPermutation(sorted[i]));
            }
            if value[i] == i {
                return Err(ErrorKind::FixedPoint(i));
            }
            i = i + 1;
        }
        proof {
            assert(sorted@ =~= identity(n as nat));
            lemma_rearranged_identity(value@, n as nat);
            assert forall|a: int, b: int| 0 <= a < n && 0 <= b < n && a != b implies #[trigger] value@[a] != #[trigger] value@[b] by {}
        }
        Ok(Derange { perm: slice_to_vec(value) })
    }

    /// Writes `source[map[i]]`, cloned, into `destination[i]` for each `i`.
    ///
    /// Unless `source`, `destination` and the derangement all have the same
    /// length, returns `SizeMismatch` and leaves `destination` as it was.
    pub fn apply<T: Clone>(&self, source: &[T], destination: &mut [T]) -> (r: Result<(), ErrorKind>)
        ensures
            r is Ok <==> source@.len() == self@.len() && old(destination)@.len() == self@.len(),
            r is Err ==> r == Err::<(), ErrorKind>(
                ErrorKind::SizeMismatch(source@.len() as usize, old(destination)@.len() as usize, self@.len() as usize),
            ),
            r is Err ==> final(destination)@ == old(destination)@,
            final(destination)@.len() == old(destination)@.len(),
            r is Ok ==> forall|i: int| 0 <= i < self@.len()
                ==> cloned(source@[self@[i] as int], #[trigger] final(destination)@[i]),
    {
        proof { use_type_invariant(self); }
        let n = self.perm.len();
        if source.len() != n || destination.len() != n {
            return Err(ErrorKind::SizeMismatch(source.len(), destination.len(), n));
        }
        let mut i: usize = 0;
        while i < n
            invariant
                i <= n,
                n == self@.len(),
                source@.len() == n,
                destination@.len() == n,
                is_derangement(self@),
                forall|j: int| 0 <= j < i ==> cloned(source@[self@[j] as int], #[trigger] destination@[j]),
            decreases n - i,
        {
            let item = source[self.perm[i]].clone();
            destination[i] = item;
            i = i + 1;
        }
        Ok(())
    }

    /// The derangement in cyclic notation, such as `(0 9 5 7)(1 6 3)(2 8 4)`:
    /// the cycles in order of their smallest elements, each walked from that
    /// element, its elements separated by single spaces.
    pub fn to_string(&self) -> (r: String)
        ensures
            exists|cs: Seq<Seq<usize>>| #[trigger] is_cycle_listing(self@, cs) && r@ == render(cs),
    {
        proof { use_type_invariant(self); }
        let n = self.perm.len();
        let ghost m = self@;
        let mut checklist: Vec<bool> = Vec::with_capacity(n);
        let mut k: usize = 0;
        while k < n
            invariant
                k <= n,
                checklist@.len() == k,
                forall|x: int| 0 <= x < k ==> !#[trigger] checklist@[x],
            decreases n - k,
        {
            checklist.push(false);
            k = k + 1;
        }
        let mut text = String::new();
        let ghost mut cs: Seq<Seq<usize>> = Seq::empty();
        let ghost mut seen: Set<int> = Set::empty();
        proof {
            lemma_int_range(0, n as int);
            assert(seen =~= Set::new(|x: int| 0 <= x < n && checklist@[x]));
            assert(text@ =~= render(cs));
        }
        let mut lo: usize = 0;
        while lo < n
            invariant
                lo <= n,
                n == m.len(),
                m == self@,
                is_derangement(m),
                checklist@.len() == n,
                forall|x: int| 0 <= x < n ==> (#[trigger] checklist@[x] <==> listed_before(cs, cs.len() as int, x)),
                forall|x: int| 0 <= x < lo ==> #[trigger] checklist@[x],
                is_partial_listing(m, cs),
                forall|x: int| 0 <= x < n && #[trigger] listed_before(cs, cs.len() as int, m[x] as int) ==> listed_before(cs, cs.len() as int, x),
                text@ == render(cs),
                seen == Set::new(|x: int| 0 <= x < n && checklist@[x]),
                set_int_range(0, n as int).finite(),
                set_int_range(0, n as int).len() == n,
            decreases n - lo,
        {
            if !checklist[lo] {
                let start = lo;
                push_char(&mut text, '(');
                let mut next = start;
                let ghost mut w: Seq<usize> = Seq::empty();
                proof {
                    assert(text@ =~= render(cs) + seq!['('] + seq![]);
                    assert forall|x: int| 0 <= x < start implies #[trigger] listed_before(cs, cs.len() as int, x) by {
                        assert(checklist@[x]);
                    }
                }
                loop
                    invariant_except_break
                        w.len() > 0 ==> next != start,
                        !listed_before(cs, cs.len() as int, next as int),
                        !w.contains(next),
                        next < n,
                        text@ == render(cs) + seq!['('] + (if w.len() == 0 { seq![] } else { join_spaced(w) + seq![' '] }),
                    invariant
                        n == m.len(),
                        m == self@,
                        is_derangement(m),
                        checklist@.len() == n,
                        start < n,
                        !listed_before(cs, cs.len() as int, start as int),
                        forall|x: int| 0 <= x < start ==> #[trigger] listed_before(cs, cs.len() as int, x),
                        forall|x: int| 0 <= x < n && #[trigger] listed_before(cs, cs.len() as int, m[x] as int) ==> listed_before(cs, cs.len() as int, x),
                        w.len() == 0 ==> next == start,
                        w.len() > 0 ==> w[0] == start && next == m[w.last() as int],
                        forall|k: int| 0 <= k < w.len() - 1 ==> m[#[trigger] w[k] as int] == w[k + 1],
                        forall|k: int| 0 <= k < w.len() ==> #[trigger] w[k] < n,
                        forall|k: int| 0 <= k < w.len() ==> !listed_before(cs, cs.len() as int, #[trigger] w[k] as int),
                        forall|k: int| 1 <= k < w.len() ==> #[trigger] w[k] != start,
                        forall|x: int| 0 <= x < n ==> (#[trigger] checklist@[x] <==> (listed_before(cs, cs.len() as int, x) || w.contains(x as usize))),
                        seen == Set::new(|x: int| 0 <= x < n && checklist@[x]),
                        set_int_range(0, n as int).finite(),
                        set_int_range(0, n as int).len() == n,
                    ensures
                        w.len() > 0,
                        w[0] == start,
                        m[w.last() as int] == start,
                        text@ == render(cs) + seq!['('] + join_spaced(w) + seq![')'],
                    decreases n - seen.len(),
                {
                    let cur = next;
                    push_decimal(&mut text, cur);
                    checklist.set(cur, true);
                    let ghost w0 = w;
                    let ghost seen0 = seen;
                    proof {
                        w = w.push(cur);
                        seen = seen.insert(cur as int);
                        assert(seen =~= Set::new(|x: int| 0 <= x < n && checklist@[x]));
                        assert(!seen0.contains(cur as int));
                        lemma_len_subset(seen0, set_int_range(0, n as int));
                        lemma_len_subset(seen, set_int_range(0, n as int));
                        assert(w.drop_last() =~= w0);
                        if w0.len() == 0 {
                            assert(join_spaced(w) == crate::notation::decimal(cur as nat));
                        }
                        assert forall|x: int| 0 <= x < n implies (#[trigger] checklist@[x] <==> (listed_before(cs, cs.len() as int, x) || w.contains(x as usize))) by {
                            if x == cur {
                                assert(w[w.len() - 1] == cur);
                            }
                            if w.contains(x as usize) && x != cur {
                                let k = choose|k: int| 0 <= k < w.len() && w[k] == x as usize;
                                assert(w0[k] == x);
                            }
                            if w0.contains(x as usize) {
                                let k = choose|k: int| 0 <= k < w0.len() && w0[k] == x as usize;
                                assert(w[k] == x);
                            }
                        }
                    }
                    next = self.perm[cur];
                    if next == start {
                        push_char(&mut text, ')');
                        proof {
                            assert(text@ =~= render(cs) + seq!['('] + join_spaced(w) + seq![')']);
                        }
                        break;
                    }
                    push_char(&mut text, ' ');
                    proof {
                        assert(text@ =~= render(cs) + seq!['('] + join_spaced(w) + seq![' ']);
                        if listed_before(cs, cs.len() as int, next as int) {
                            assert(listed_before(cs, cs.len() as int, cur as int));
                        }
                        if w.contains(next) {
                            let k = choose|k: int| 0 <= k < w.len() && w[k] == next;
                            if k == 0 {
                                assert(next == start);
                            } else {
                                assert(m[w[k - 1] as int] == w[k]);
                                assert(w[k - 1] == cur);
                                assert(w0[k - 1] == cur);
                                assert(w0.contains(cur));
                            }
                        }
                    }
                }
                proof {
                    let cs0 = cs;
                    lemma_listed_push(cs0, w);
                    cs = cs0.push(w);
                    assert(cs.drop_last() =~= cs0);
                    assert(cs[cs0.len() as int] == w);
                    assert(is_cycle_of(m, w));
                    assert forall|j: int| 0 <= j < cs.len() implies is_cycle_of(m, #[trigger] cs[j]) by {
                        if j < cs0.len() {
                            assert(cs[j] == cs0[j]);
                        }
                    }
                    assert forall|j: int| 0 <= j < cs.len() implies !listed_before(cs, j, #[trigger] cs[j][0] as int) by {
                        if j < cs0.len() {
                            assert(cs[j] == cs0[j]);
                        }
                    }
                    assert forall|j: int, x: int| 0 <= j < cs.len() && 0 <= x < cs[j][0] implies #[trigger] listed_before(cs, j, x) by {
                        if j < cs0.len() {
                            assert(cs[j] == cs0[j]);
                        }
                    }
                    assert forall|x: int| 0 <= x < n implies (#[trigger] checklist@[x] <==> listed_before(cs, cs.len() as int, x)) by {}
                    assert forall|x: int| 0 <= x < n && #[trigger] listed_before(cs, cs.len() as int, m[x] as int) implies listed_before(cs, cs.len() as int, x) by {
                        if !listed_before(cs0, cs0.len() as int, m[x] as int) {
                            assert(w.contains(m[x]));
                            let k = choose|k: int| 0 <= k < w.len() && w[k] == m[x];
                            if k == 0 {
                                assert(m[w.last() as int] == m[x]);
                                assert(w.contains(w.last()));
                            } else {
                                assert(m[w[k - 1] as int] == w[k]);
                                assert(w.contains(w[k - 1]));
                            }
                        }
                    }
                }
            }
            lo = lo + 1;
        }
        proof {
            assert forall|x: int| 0 <= x < m.len() implies #[trigger] listed_before(cs, cs.len() as int, x) by {
                assert(checklist@[x]);
            }
            assert(is_cycle_listing(m, cs));
        }
        text
    }

    /// Returns the value that `i` maps to, or `None` if `i` is out of range.
    pub fn get(&self, i: usize) -> (r: Option<&usize>)
        ensures
            i < self@.len() ==> r == Some(&self@[i as int]),
            i >= self@.len() ==> r is None,
    {
        if i < self.perm.len() {
            Some(&self.perm[i])
        } else {
            None
        }
    }

    /// Returns the value that `i` maps to; `i` must be in range.
    pub fn index(&self, i: usize) -> (r: usize)
        requires
            i < self@.len(),
        ensures
            r == self@[i as int],
    {
        self.perm[i]
    }

    /// The mapping as a slice: entry `i` is the image of `i`.
    pub fn map(&self) -> (r: &[usize])
        ensures
            r@ == self@,
    {
        self.perm.as_slice()
    }

    /// The inverse derangement, as a new value.
    pub fn inverse(&self) -> (r: Derange)
        ensures
            r@ == inverse_of(self@),
            is_derangement(r@),
            forall|i: int| 0 <= i < self@.len() ==> self@[#[trigger] r@[i] as int] == i,
            forall|i: int| 0 <= i < self@.len() ==> r@[#[trigger] self@[i] as int] == i,
    {
        proof { use_type_invariant(self); }
        let n = self.perm.len();
        let mut inv: Vec<usize> = Vec::with_capacity(n);
        let mut k: usize = 0;
        while k < n
            invariant
                k <= n,
                n == self.perm@.len(),
                inv@.len() == k,
            decreases n - k,
        {
            inv.push(0);
            k = k + 1;
        }
        let mut i: usize = 0;
        while i < n
            invariant
                i <= n,
                n == self.perm@.len(),
                inv@.len() == n,
                is_derangement(self.perm@),
                forall|j: int| 0 <= j < i ==> inv@[#[trigger] self.perm@[j] as int] == j,
            decreases n - i,
        {
            let v = self.perm[i];
            inv.set(v, i);
            i = i + 1;
        }
        proof {
            let m = self.perm@;
            assert forall|v: int| 0 <= v < n implies inv@[v] == preimage(m, v) as usize by {
                assert(has_preimage(m, v));
                let j = choose|j: int| 0 <= j < m.len() && m[j] == v;
                assert(inv@[m[j] as int] == j);
            }
            assert(inv@ =~= inverse_of(m));
            assert forall|v: int| 0 <= v < n implies #[trigger] inv@[v] != v by {
                assert(has_preimage(m, v));
                let j = choose|j: int| 0 <= j < m.len() && m[j] == v;
                assert(inv@[m[j] as int] == j);
            }
            assert forall|v: int, w: int| 0 <= v < n && 0 <= w < n && v != w implies #[trigger] inv@[v] != #[trigger] inv@[w] by {
                assert(has_preimage(m, v));
                let j = choose|j: int| 0 <= j < m.len() && m[j] == v;
                assert(has_preimage(m, w));
                let l = choose|l: int| 0 <= l < m.len() && m[l] == w;
                assert(inv@[m[j] as int] == j);
                assert(inv@[m[l] as int] == l);
            }
            assert forall|j: int| 0 <= j < n implies #[trigger] has_preimage(inv@, j) by {
                assert(inv@[m[j] as int] == j);
            }
            assert forall|v: int| 0 <= v < n implies #[trigger] inv@[v] < n by {
                assert(has_preimage(m, v));
                let j = choose|j: int| 0 <= j < m.len() && m[j] == v;
                assert(inv@[m[j] as int] == j);
            }
        }
        proof {
            lemma_inverse_round_trip(self.perm@);
        }
        Derange { perm: inv }
    }
}

/// Inverting undoes a permutation on both sides: `m[inv[i]] == i` and `inv[m[i]] == i`.
pub proof fn lemma_inverse_round_trip(m: Seq<usize>)
    requires
        is_permutation(m),
        m.len() <= usize::MAX,
    ensures
        inverse_of(m).len() == m.len(),
        forall|i: int| 0 <= i < m.len() ==> m[#[trigger] inverse_of(m)[i] as int] == i,
        forall|i: int| 0 <= i < m.len() ==> inverse_of(m)[#[trigger] m[i] as int] == i,
{
    assert forall|i: int| 0 <= i < m.len() implies m[#[trigger] inverse_of(m)[i] as int] == i by {
        assert(has_preimage(m, i));
        let j = choose|j: int| 0 <= j < m.len() && m[j] == i;
    }
    assert forall|i: int| 0 <= i < m.len() implies inverse_of(m)[#[trigger] m[i] as int] == i by {
        let v = m[i] as int;
        assert(has_preimage(m, v));
        let j = choose|j: int| 0 <= j < m.len() && m[j] == v;
    }
}

} // verus!
