use vstd::prelude::*;

verus! {

/// The character of the decimal digit `d`.
pub open spec fn digit_char(d: nat) -> char {
    seq!['0', '1', '2', '3', '4', '5', '6', '7', '8', '9'][d as int]
}

/// The decimal digits of `v`, most significant first, without leading zeros.
pub open spec fn decimal(v: nat) -> Seq<char>
    decreases v,
{
    if v < 10 {
        seq![digit_char(v)]
    } else {
        decimal(v / 10) + seq![digit_char(v % 10)]
    }
}

/// The elements of `c` in decimal, separated by single spaces.
pub open spec fn join_spaced(c: Seq<usize>) -> Seq<char>
    decreases c.len(),
{
    if c.len() == 0 {
        seq![]
    } else if c.len() == 1 {
        decimal(c[0] as nat)
    } else {
        join_spaced(c.drop_last()) + seq![' '] + decimal(c.last() as nat)
    }
}

/// Each cycle of `cs` in parentheses, one after the other.
pub open spec fn render(cs: Seq<Seq<usize>>) -> Seq<char>
    decreases cs.len(),
{
    if cs.len() == 0 {
        seq![]
    } else {
        render(cs.drop_last()) + seq!['('] + join_spaced(cs.last()) + seq![')']
    }
}

/// `x` occurs in one of the first `j` cycles of `cs`.
pub open spec fn listed_before(cs: Seq<Seq<usize>>, j: int, x: int) -> bool {
    exists|a: int, k: int| 0 <= a < j && 0 <= k < cs[a].len() && cs[a][k] == x
}

/// `c` is a cycle of `m` walked from `c[0]`: each element is sent to the next
/// one, the last back to `c[0]`, and `c[0]` comes back only at the end.
pub open spec fn is_cycle_of(m: Seq<usize>, c: Seq<usize>) -> bool {
    &&& c.len() >= 1
    &&& forall|k: int| 0 <= k < c.len() ==> #[trigger] c[k] < m.len()
    &&& forall|k: int| 0 <= k < c.len() - 1 ==> m[#[trigger] c[k] as int] == c[k + 1]
    &&& m[c.last() as int] == c[0]
    &&& forall|k: int| 1 <= k < c.len() ==> #[trigger] c[k] != c[0]
}

/// `cs` lists cycles of `m`, each started at the smallest element that no
/// earlier cycle holds.
pub open spec fn is_partial_listing(m: Seq<usize>, cs: Seq<Seq<usize>>) -> bool {
    &&& forall|j: int| 0 <= j < cs.len() ==> is_cycle_of(m, #[trigger] cs[j])
    &&& forall|j: int| 0 <= j < cs.len() ==> !listed_before(cs, j, #[trigger] cs[j][0] as int)
    &&& forall|j: int, x: int| 0 <= j < cs.len() && 0 <= x < cs[j][0] ==> #[trigger] listed_before(cs, j, x)
}

/// `cs` is the cycle decomposition of `m`: the cycles in order of their
/// smallest elements, each walked from that element, together holding every
/// index of `m`.
pub open spec fn is_cycle_listing(m: Seq<usize>, cs: Seq<Seq<usize>>) -> bool {
    &&& is_partial_listing(m, cs)
    &&& forall|x: int| 0 <= x < m.len() ==> #[trigger] listed_before(cs, cs.len() as int, x)
}

/// Adding a cycle to a listing leaves what the earlier cycles hold unchanged.
pub(crate) proof fn lemma_listed_push(cs: Seq<Seq<usize>>, w: Seq<usize>)
    ensures
        forall|j: int, x: int| 0 <= j <= cs.len() ==> #[trigger] listed_before(cs.push(w), j, x) == listed_before(cs, j, x),
        forall|x: int| 0 <= x <= usize::MAX ==> #[trigger] listed_before(cs.push(w), cs.len() as int + 1, x) == (listed_before(cs, cs.len() as int, x) || w.contains(x as usize)),
{
    let cs2 = cs.push(w);
    assert forall|j: int, x: int| 0 <= j <= cs.len() implies #[trigger] listed_before(cs2, j, x) == listed_before(cs, j, x) by {
        if listed_before(cs2, j, x) {
            let (a, k) = choose|a: int, k: int| 0 <= a < j && 0 <= k < cs2[a].len() && cs2[a][k] == x;
            assert(cs2[a] == cs[a]);
        }
        if listed_before(cs, j, x) {
            let (a, k) = choose|a: int, k: int| 0 <= a < j && 0 <= k < cs[a].len() && cs[a][k] == x;
            assert(cs2[a] == cs[a]);
        }
    }
    assert forall|x: int| 0 <= x <= usize::MAX implies #[trigger] listed_before(cs2, cs.len() as int + 1, x) == (listed_before(cs, cs.len() as int, x) || w.contains(x as usize)) by {
        if listed_before(cs2, cs.len() as int + 1, x) {
            let (a, k) = choose|a: int, k: int| 0 <= a < cs.len() as int + 1 && 0 <= k < cs2[a].len() && cs2[a][k] == x;
            if a < cs.len() {
                assert(cs2[a] == cs[a]);
            } else {
                assert(cs2[a] == w);
                assert(w[k] == x);
            }
        }
        if listed_before(cs, cs.len() as int, x) {
            let (a, k) = choose|a: int, k: int| 0 <= a < cs.len() && 0 <= k < cs[a].len() && cs[a][k] == x;
            assert(cs2[a] == cs[a]);
        }
        if w.contains(x as usize) {
            let k = choose|k: int| 0 <= k < w.len() && w[k] == x as usize;
            assert(cs2[cs.len() as int] == w);
            assert(cs2[cs.len() as int][k] == x);
        }
    }
}

proof fn lemma_cycle_agree(m: Seq<usize>, c1: Seq<usize>, c2: Seq<usize>, k: int)
    requires
        is_cycle_of(m, c1),
        is_cycle_of(m, c2),
        c1[0] == c2[0],
        0 <= k < c1.len(),
        k < c2.len(),
    ensures
        c1[k] == c2[k],
    decreases k,
{
    if k > 0 {
        lemma_cycle_agree(m, c1, c2, k - 1);
        assert(m[c1[k - 1] as int] == c1[k]);
        assert(m[c2[k - 1] as int] == c2[k]);
    }
}

/// Two cycles of `m` walked from the same element are the same.
proof fn lemma_same_cycle(m: Seq<usize>, c1: Seq<usize>, c2: Seq<usize>)
    requires
        is_cycle_of(m, c1),
        is_cycle_of(m, c2),
        c1[0] == c2[0],
    ensures
        c1 == c2,
{
    if c1.len() < c2.len() {
        let l = c1.len() - 1;
        lemma_cycle_agree(m, c1, c2, l);
        assert(m[c2[l] as int] == c2[l + 1]);
        assert(c2[l + 1] != c2[0]);
    }
    if c2.len() < c1.len() {
        let l = c2.len() - 1;
        lemma_cycle_agree(m, c2, c1, l);
        assert(m[c1[l] as int] == c1[l + 1]);
        assert(c1[l + 1] != c1[0]);
    }
    assert forall|k: int| 0 <= k < c1.len() implies c1[k] == c2[k] by {
        lemma_cycle_agree(m, c1, c2, k);
    }
    assert(c1 =~= c2);
}

proof fn lemma_listed_same_prefix(cs1: Seq<Seq<usize>>, cs2: Seq<Seq<usize>>, j: int, x: int)
    requires
        0 <= j <= cs1.len(),
        j <= cs2.len(),
        forall|a: int| 0 <= a < j ==> cs1[a] == cs2[a],
    ensures
        listed_before(cs1, j, x) == listed_before(cs2, j, x),
{
    if listed_before(cs1, j, x) {
        let (a, k) = choose|a: int, k: int| 0 <= a < j && 0 <= k < cs1[a].len() && cs1[a][k] == x;
        assert(cs2[a][k] == x);
    }
    if listed_before(cs2, j, x) {
        let (a, k) = choose|a: int, k: int| 0 <= a < j && 0 <= k < cs2[a].len() && cs2[a][k] == x;
        assert(cs1[a][k] == x);
    }
}

proof fn lemma_listing_prefix(m: Seq<usize>, cs1: Seq<Seq<usize>>, cs2: Seq<Seq<usize>>, j: int)
    requires
        is_cycle_listing(m, cs1),
        is_cycle_listing(m, cs2),
        0 <= j <= cs1.len(),
        j <= cs2.len(),
    ensures
        forall|a: int| 0 <= a < j ==> cs1[a] == cs2[a],
    decreases j,
{
    if j > 0 {
        let a = j - 1;
        lemma_listing_prefix(m, cs1, cs2, a);
        assert(is_cycle_of(m, cs1[a]));
        assert(is_cycle_of(m, cs2[a]));
        let s1 = cs1[a][0] as int;
        let s2 = cs2[a][0] as int;
        lemma_listed_same_prefix(cs1, cs2, a, s1);
        lemma_listed_same_prefix(cs1, cs2, a, s2);
        assert(!listed_before(cs1, a, s1));
        assert(!listed_before(cs2, a, s2));
        if s1 < s2 {
            assert(listed_before(cs2, a, s1));
        }
        if s2 < s1 {
            assert(listed_before(cs1, a, s2));
        }
        lemma_same_cycle(m, cs1[a], cs2[a]);
    }
}

/// A permutation has one cycle decomposition: two listings of the cycles of
/// `m`, each started at the smallest element not listed before, are equal.
pub proof fn lemma_cycle_listing_unique(m: Seq<usize>, cs1: Seq<Seq<usize>>, cs2: Seq<Seq<usize>>)
    requires
        is_cycle_listing(m, cs1),
        is_cycle_listing(m, cs2),
    ensures
        cs1 == cs2,
{
    if cs1.len() <= cs2.len() {
        lemma_listing_prefix(m, cs1, cs2, cs1.len() as int);
        if cs1.len() < cs2.len() {
            let l = cs1.len() as int;
            assert(is_cycle_of(m, cs2[l]));
            let x = cs2[l][0] as int;
            assert(cs2[l][0] < m.len());
            assert(listed_before(cs1, l, x));
            lemma_listed_same_prefix(cs1, cs2, l, x);
            assert(!listed_before(cs2, l, x));
        }
    } else {
        lemma_listing_prefix(m, cs1, cs2, cs2.len() as int);
        let l = cs2.len() as int;
        assert(is_cycle_of(m, cs1[l]));
        let x = cs1[l][0] as int;
        assert(cs1[l][0] < m.len());
        assert(listed_before(cs2, l, x));
        lemma_listed_same_prefix(cs1, cs2, l, x);
        assert(!listed_before(cs1, l, x));
    }
    assert(cs1 =~= cs2);
}

/// Relies on std's `String::push`: appends one character.
#[verifier::external_body]
pub(crate) fn push_char(s: &mut String, c: char)
    ensures
        final(s)@ == old(s)@.push(c),
{
    s.push(c)
}

/// The character of the decimal digit `d`.
fn digit(d: usize) -> (c: char)
    requires
        d < 10,
    ensures
        c == digit_char(d as nat),
{
    match d {
        0 => '0',
        1 => '1',
        2 => '2',
        3 => '3',
        4 => '4',
        5 => '5',
        6 => '6',
        7 => '7',
        8 => '8',
        _ => '9',
    }
}

/// Appends `v` in decimal to `s`.
pub fn push_decimal(s: &mut String, v: usize)
    ensures
        final(s)@ == old(s)@ + decimal(v as nat),
    decreases v,
{
    if v >= 10 {
        push_decimal(s, v / 10);
    }
    push_char(s, digit(v % 10));
    proof {
        if v >= 10 {
            assert(old(s)@ + decimal(v as nat) =~= old(s)@ + decimal((v / 10) as nat) + seq![digit_char((v % 10) as nat)]);
        }
    }
}

} // verus!
