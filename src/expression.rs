use crate::module::{Cut, Element, FloorplanError, Module};
use crate::random::{choose_from, random_below};
use rand::rngs::StdRng;
use vstd::prelude::*;

verus! {

// ---------------------------------------------------------------------------
// The invariants of a normalized Polish expression
// ---------------------------------------------------------------------------

/// Number of operators among the first `p` tokens of `s`.
pub open spec fn operators_in(s: Seq<Element>, p: int) -> int
    decreases p,
{
    if p <= 0 {
        0
    } else {
        operators_in(s, p - 1) + (if s[p - 1].is_operator() { 1int } else { 0int })
    }
}

pub open spec fn count_operators(s: Seq<Element>) -> int {
    operators_in(s, s.len() as int)
}

pub open spec fn count_operands(s: Seq<Element>) -> int {
    s.len() - count_operators(s)
}

/// Balance: every non-empty proper prefix of length `p` holds `d` operators
/// with `2·d < p`, and the whole sequence holds one operand more than it
/// holds operators. This also makes the sequence evaluate on a stack.
pub open spec fn is_balanced(s: Seq<Element>) -> bool {
    &&& s.len() >= 1
    &&& forall|p: int| 1 <= p < s.len() ==> 2 * #[trigger] operators_in(s, p) < p
    &&& 2 * count_operators(s) + 1 == s.len()
}

/// Skewness: no two adjacent operators are equal.
pub open spec fn is_normalized(s: Seq<Element>) -> bool {
    forall|i: int|
        0 <= i < s.len() - 1 && (#[trigger] s[i]).is_operator() && s[i + 1].is_operator()
            ==> s[i] != s[i + 1]
}

/// A normalized Polish expression.
pub open spec fn is_npe(s: Seq<Element>) -> bool {
    is_balanced(s) && is_normalized(s)
}

/// Two token sequences with operators and operands at the same positions.
pub open spec fn same_kinds(s1: Seq<Element>, s2: Seq<Element>) -> bool {
    &&& s1.len() == s2.len()
    &&& forall|k: int| 0 <= k < s1.len() ==> (#[trigger] s1[k]).is_operator() == s2[k].is_operator()
}

pub proof fn lemma_operators_in_agree(s1: Seq<Element>, s2: Seq<Element>, p: int)
    requires
        0 <= p <= s1.len(),
        p <= s2.len(),
        forall|k: int| 0 <= k < p ==> (#[trigger] s1[k]).is_operator() == s2[k].is_operator(),
    ensures
        operators_in(s1, p) == operators_in(s2, p),
    decreases p,
{
    if p > 0 {
        lemma_operators_in_agree(s1, s2, p - 1);
    }
}

pub proof fn lemma_operators_in_bounds(s: Seq<Element>, p: int)
    requires
        0 <= p,
    ensures
        0 <= operators_in(s, p) <= p,
    decreases p,
{
    if p > 0 {
        lemma_operators_in_bounds(s, p - 1);
    }
}

pub proof fn lemma_same_kinds_balanced(s1: Seq<Element>, s2: Seq<Element>)
    requires
        same_kinds(s1, s2),
    ensures
        is_balanced(s1) == is_balanced(s2),
        count_operators(s1) == count_operators(s2),
{
    assert forall|p: int| 0 <= p <= s1.len() implies operators_in(s1, p) == operators_in(s2, p) by {
        lemma_operators_in_agree(s1, s2, p);
    }
}

/// In a balanced sequence the first two tokens are operands and the last
/// token is an operator (once there are at least two tokens).
pub proof fn lemma_balanced_ends(s: Seq<Element>)
    requires
        is_balanced(s),
    ensures
        !s[0].is_operator(),
        s.len() >= 2 ==> !s[1].is_operator(),
        s.len() >= 2 ==> s[s.len() - 1].is_operator(),
{
    assert(operators_in(s, 0) == 0);
    if s.len() >= 2 {
        assert(2 * operators_in(s, 1) < 1);
        lemma_operators_in_bounds(s, 0);
        let n = s.len() as int;
        assert(2 * operators_in(s, n - 1) < n - 1);
        if s.len() >= 3 {
            assert(2 * operators_in(s, 2) < 2);
        } else {
            assert(2 * operators_in(s, 2) == 2);
        }
    } else {
        assert(s.len() == 1);
        assert(2 * operators_in(s, 1) + 1 == 1);
    }
}

// ---------------------------------------------------------------------------
// Extent: the bound on every side of a floorplan
// ---------------------------------------------------------------------------

pub open spec fn token_extent(e: Element) -> int {
    match e {
        Element::Operand(m) => m.extent(),
        Element::Operator(_) => 0,
    }
}

/// The sum of both sides of every module in `s`.
pub open spec fn extent_of(s: Seq<Element>) -> int
    decreases s.len(),
{
    if s.len() == 0 {
        0
    } else {
        extent_of(s.drop_last()) + token_extent(s.last())
    }
}

/// Every side of a floorplan of the library fits in 32 bits.
pub const MAX_EXTENT: u64 = 0xffff_ffff;

pub proof fn lemma_extent_nonneg(s: Seq<Element>)
    ensures
        extent_of(s) >= 0,
    decreases s.len(),
{
    if s.len() > 0 {
        lemma_extent_nonneg(s.drop_last());
    }
}

pub proof fn lemma_extent_concat(a: Seq<Element>, b: Seq<Element>)
    ensures
        extent_of(a + b) == extent_of(a) + extent_of(b),
    decreases b.len(),
{
    if b.len() == 0 {
        assert(a + b =~= a);
    } else {
        assert((a + b).drop_last() =~= a + b.drop_last());
        lemma_extent_concat(a, b.drop_last());
    }
}

pub proof fn lemma_extent_pointwise(s1: Seq<Element>, s2: Seq<Element>)
    requires
        s1.len() == s2.len(),
        forall|k: int| 0 <= k < s1.len() ==> token_extent(#[trigger] s1[k]) == token_extent(s2[k]),
    ensures
        extent_of(s1) == extent_of(s2),
    decreases s1.len(),
{
    if s1.len() > 0 {
        lemma_extent_pointwise(s1.drop_last(), s2.drop_last());
    }
}

/// `s` with the tokens at `i` and `j` exchanged.
pub open spec fn swapped(s: Seq<Element>, i: int, j: int) -> Seq<Element> {
    s.update(i, s[j]).update(j, s[i])
}

pub proof fn lemma_extent_swapped(s: Seq<Element>, i: int, j: int)
    requires
        0 <= i < j < s.len(),
    ensures
        extent_of(swapped(s, i, j)) == extent_of(s),
{
    let t = swapped(s, i, j);
    let a = s.subrange(0, i);
    let x = seq![s[i]];
    let mid = s.subrange(i + 1, j);
    let y = seq![s[j]];
    let rest = s.subrange(j + 1, s.len() as int);
    assert(s =~= a + x + mid + y + rest);
    assert(t =~= a + y + mid + x + rest);
    lemma_extent_concat(a + x + mid + y, rest);
    lemma_extent_concat(a + x + mid, y);
    lemma_extent_concat(a + x, mid);
    lemma_extent_concat(a, x);
    lemma_extent_concat(a + y + mid + x, rest);
    lemma_extent_concat(a + y + mid, x);
    lemma_extent_concat(a + y, mid);
    lemma_extent_concat(a, y);
}

// ---------------------------------------------------------------------------
// Position lists
// ---------------------------------------------------------------------------

/// The positions below `n` that satisfy `pred`, in increasing order.
pub open spec fn positions_where(pred: spec_fn(int) -> bool, n: int) -> Seq<usize>
    decreases n,
{
    if n <= 0 {
        Seq::empty()
    } else if pred(n - 1) {
        positions_where(pred, n - 1).push((n - 1) as usize)
    } else {
        positions_where(pred, n - 1)
    }
}

pub proof fn lemma_positions_where(pred: spec_fn(int) -> bool, n: int)
    requires
        0 <= n <= usize::MAX + 1,
    ensures
        positions_where(pred, n).len() <= n,
        forall|k: int|
            0 <= k < positions_where(pred, n).len() ==> {
                let x = #[trigger] positions_where(pred, n)[k];
                x < n && pred(x as int)
            },
        forall|k1: int, k2: int|
            0 <= k1 < k2 < positions_where(pred, n).len() ==> positions_where(pred, n)[k1]
                < positions_where(pred, n)[k2],
        forall|x: int| 0 <= x < n && #[trigger] pred(x) ==> positions_where(pred, n).contains(x as usize),
    decreases n,
{
    if n > 0 {
        lemma_positions_where(pred, n - 1);
        let r = positions_where(pred, n - 1);
        if pred(n - 1) {
            assert(positions_where(pred, n)[r.len() as int] == (n - 1) as usize);
        }
        assert forall|x: int| 0 <= x < n && #[trigger] pred(x) implies positions_where(pred, n).contains(
            x as usize,
        ) by {
            if x < n - 1 {
                let k = choose|k: int| 0 <= k < r.len() && r[k] == x as usize;
                assert(positions_where(pred, n)[k] == x as usize);
            } else {
                assert(positions_where(pred, n)[r.len() as int] == x as usize);
            }
        }
    }
}

pub proof fn lemma_positions_where_ext(p1: spec_fn(int) -> bool, p2: spec_fn(int) -> bool, n: int)
    requires
        forall|x: int| 0 <= x < n ==> #[trigger] p1(x) == p2(x),
    ensures
        positions_where(p1, n) == positions_where(p2, n),
    decreases n,
{
    if n > 0 {
        lemma_positions_where_ext(p1, p2, n - 1);
    }
}

/// The positions of the operands of `s`.
pub open spec fn operand_positions(s: Seq<Element>) -> Seq<usize> {
    positions_where(|p: int| !s[p].is_operator(), s.len() as int)
}

/// `c` follows an operand and holds an operator: a chain of operators starts there.
pub open spec fn is_chain_start(s: Seq<Element>, c: int) -> bool {
    1 <= c < s.len() && !s[c - 1].is_operator() && s[c].is_operator()
}

pub open spec fn chain_start_positions(s: Seq<Element>) -> Seq<usize> {
    positions_where(|c: int| is_chain_start(s, c), s.len() as int)
}

/// Positions `i` where an operand and an operator stand side by side, in either order.
pub open spec fn is_mixed_pair(s: Seq<Element>, i: int) -> bool {
    0 <= i && i + 1 < s.len() && s[i].is_operator() != s[i + 1].is_operator()
}

pub open spec fn mixed_pair_positions(s: Seq<Element>) -> Seq<usize> {
    positions_where(|i: int| is_mixed_pair(s, i), s.len() as int)
}

pub proof fn lemma_same_kinds_positions(s1: Seq<Element>, s2: Seq<Element>)
    requires
        same_kinds(s1, s2),
    ensures
        operand_positions(s1) == operand_positions(s2),
        chain_start_positions(s1) == chain_start_positions(s2),
        mixed_pair_positions(s1) == mixed_pair_positions(s2),
{
    let n = s1.len() as int;
    lemma_positions_where_ext(|p: int| !s1[p].is_operator(), |p: int| !s2[p].is_operator(), n);
    assert forall|c: int| 0 <= c < n implies is_chain_start(s1, c) == is_chain_start(s2, c) by {
        if 1 <= c {
            assert(s1[c - 1].is_operator() == s2[c - 1].is_operator());
        }
    }
    lemma_positions_where_ext(|c: int| is_chain_start(s1, c), |c: int| is_chain_start(s2, c), n);
    assert forall|i: int| 0 <= i < n implies is_mixed_pair(s1, i) == is_mixed_pair(s2, i) by {
        if i + 1 < n {
            assert(s1[i + 1].is_operator() == s2[i + 1].is_operator());
        }
    }
    lemma_positions_where_ext(|i: int| is_mixed_pair(s1, i), |i: int| is_mixed_pair(s2, i), n);
}


// ---------------------------------------------------------------------------
// Seeding
// ---------------------------------------------------------------------------

/// Token `p` of the canonical start `m0 m1 * m2 * ... m(k-1) *`.
pub open spec fn seed_token(ms: Seq<Module>, p: int) -> Element {
    if p == 0 {
        Element::Operand(ms[0])
    } else if p % 2 == 1 {
        Element::Operand(ms[(p + 1) / 2])
    } else {
        Element::Operator(Cut::Vertical)
    }
}

pub open spec fn seed_of(ms: Seq<Module>) -> Seq<Element> {
    Seq::new((2 * ms.len() - 1) as nat, |p: int| seed_token(ms, p))
}

proof fn lemma_seed_operators(ms: Seq<Module>, p: int)
    requires
        ms.len() >= 1,
        1 <= p <= 2 * ms.len() - 1,
    ensures
        operators_in(seed_of(ms), p) == (p - 1) / 2,
    decreases p,
{
    let s = seed_of(ms);
    assert(s[p - 1] == seed_token(ms, p - 1));
    if p > 1 {
        lemma_seed_operators(ms, p - 1);
    } else {
        assert(operators_in(s, 0) == 0);
    }
}

proof fn lemma_seed_is_npe(ms: Seq<Module>)
    requires
        ms.len() >= 1,
    ensures
        is_npe(seed_of(ms)),
{
    let s = seed_of(ms);
    assert forall|p: int| 1 <= p < s.len() implies 2 * #[trigger] operators_in(s, p) < p by {
        lemma_seed_operators(ms, p);
    }
    lemma_seed_operators(ms, s.len() as int);
}

// ---------------------------------------------------------------------------
// The moves, as functions on token sequences
// ---------------------------------------------------------------------------

/// M1: the operands at operand positions `k` and `k + 1` exchanged.
pub open spec fn operand_swap(s: Seq<Element>, k: int) -> Seq<Element> {
    let ps = operand_positions(s);
    swapped(s, ps[k] as int, ps[k + 1] as int)
}

pub open spec fn flip_token(e: Element) -> Element {
    match e {
        Element::Operator(c) => Element::Operator(c.flipped()),
        Element::Operand(m) => Element::Operand(m),
    }
}

/// `p` lies in the run of operators that begins at `c`.
pub open spec fn in_chain(s: Seq<Element>, c: int, p: int) -> bool {
    &&& c <= p < s.len()
    &&& forall|q: int| c <= q <= p ==> (#[trigger] s[q]).is_operator()
}

/// M2: every operator of the run that begins at `c` flipped.
pub open spec fn complement_chain(s: Seq<Element>, c: int) -> Seq<Element> {
    Seq::new(s.len(), |p: int| if in_chain(s, c, p) { flip_token(s[p]) } else { s[p] })
}

/// The skewness test of M3 at `i`, taken before the swap.
pub open spec fn skew_test(s: Seq<Element>, i: int) -> bool {
    if s[i].is_operator() {
        s[i] != s[i + 2]
    } else {
        s[i + 1] != s[i - 1]
    }
}

/// The balloting test of M3 at `i`, taken before the swap: an operator that
/// moves left must leave more operands than operators before it.
pub open spec fn ballot_test(s: Seq<Element>, i: int) -> bool {
    !s[i].is_operator() && s[i + 1].is_operator() ==> 2 * operators_in(s, i + 2) <= i
}

pub open spec fn m3_accepts(s: Seq<Element>, i: int) -> bool {
    skew_test(s, i) && ballot_test(s, i)
}

/// M1 on `s` may end in `t`: some adjacent pair of operands exchanged, or no
/// change when there are fewer than two operands.
pub open spec fn m1_outcome(s: Seq<Element>, t: Seq<Element>) -> bool {
    ||| (operand_positions(s).len() < 2 && t == s)
    ||| (exists|k: int|
        0 <= k && k + 1 < operand_positions(s).len() && t == #[trigger] operand_swap(s, k))
}

/// M2 on `s` may end in `t`: some chain complemented, or no change when
/// there is no chain.
pub open spec fn m2_outcome(s: Seq<Element>, t: Seq<Element>) -> bool {
    ||| (chain_start_positions(s).len() == 0 && t == s)
    ||| (exists|c: int| is_chain_start(s, c) && t == #[trigger] complement_chain(s, c))
}

/// One neighbourhood move takes `s` to `t`.
pub open spec fn one_move(s: Seq<Element>, t: Seq<Element>) -> bool {
    m1_outcome(s, t) || m2_outcome(s, t) || m3_outcome(s, t)
}

/// M3 on `s` may end in `t`: the swap at some accepted pair, or no change
/// when the pool holds no accepted pair.
pub open spec fn m3_outcome(s: Seq<Element>, t: Seq<Element>) -> bool {
    let pool = mixed_pair_positions(s);
    ||| (exists|i: usize|
        #[trigger] pool.contains(i) && m3_accepts(s, i as int) && t == swapped(s, i as int, i + 1))
    ||| ((forall|i: usize| #[trigger] pool.contains(i) ==> !m3_accepts(s, i as int)) && t == s)
}

// ---------------------------------------------------------------------------
// Invariance of the moves
// ---------------------------------------------------------------------------

proof fn lemma_operand_swap_kinds(s: Seq<Element>, k: int)
    requires
        0 <= k,
        k + 1 < operand_positions(s).len(),
        s.len() <= usize::MAX,
    ensures
        same_kinds(s, operand_swap(s, k)),
        ({
            let ps = operand_positions(s);
            0 <= ps[k] < ps[k + 1] < s.len() && !s[ps[k] as int].is_operator()
                && !s[ps[k + 1] as int].is_operator()
        }),
        extent_of(operand_swap(s, k)) == extent_of(s),
        forall|p: int| 0 <= p < s.len() && (#[trigger] s[p]).is_operator() ==> operand_swap(s, k)[p] == s[p],
{
    let ps = operand_positions(s);
    lemma_positions_where(|p: int| !s[p].is_operator(), s.len() as int);
    assert(ps[k] < ps[k + 1]);
    lemma_extent_swapped(s, ps[k] as int, ps[k + 1] as int);
}

/// Two sequences that differ only in which operands stand where.
proof fn lemma_operands_moved(s1: Seq<Element>, s2: Seq<Element>)
    requires
        same_kinds(s1, s2),
        forall|p: int| 0 <= p < s1.len() && (#[trigger] s1[p]).is_operator() ==> s2[p] == s1[p],
        is_npe(s1),
    ensures
        is_npe(s2),
{
    lemma_same_kinds_balanced(s1, s2);
    assert forall|i: int|
        0 <= i < s2.len() - 1 && (#[trigger] s2[i]).is_operator() && s2[i + 1].is_operator()
            implies s2[i] != s2[i + 1] by {
        assert(s1[i].is_operator() && s1[i + 1].is_operator());
    }
}

/// M1 keeps the invariants of a normalized Polish expression.
pub proof fn lemma_operand_swap_npe(s: Seq<Element>, k: int)
    requires
        is_npe(s),
        0 <= k,
        k + 1 < operand_positions(s).len(),
        s.len() <= usize::MAX,
    ensures
        is_npe(operand_swap(s, k)),
{
    lemma_operand_swap_kinds(s, k);
    lemma_operands_moved(s, operand_swap(s, k));
}

/// M1 undoes itself: exchanging the same pair of adjacent operands twice
/// gives back the expression.
pub proof fn lemma_m1_self_inverse(s: Seq<Element>, k: int)
    requires
        0 <= k,
        k + 1 < operand_positions(s).len(),
        s.len() <= usize::MAX,
    ensures
        operand_swap(operand_swap(s, k), k) == s,
{
    let t = operand_swap(s, k);
    lemma_operand_swap_kinds(s, k);
    lemma_same_kinds_positions(s, t);
    assert(operand_swap(t, k) =~= s);
}

pub proof fn lemma_flip_token(e: Element)
    ensures
        flip_token(e).is_operator() == e.is_operator(),
        token_extent(flip_token(e)) == token_extent(e),
        flip_token(flip_token(e)) == e,
{
}

proof fn lemma_complement_chain_kinds(s: Seq<Element>, c: int)
    ensures
        same_kinds(s, complement_chain(s, c)),
        extent_of(complement_chain(s, c)) == extent_of(s),
{
    let t = complement_chain(s, c);
    assert forall|k: int| 0 <= k < s.len() implies (#[trigger] s[k]).is_operator()
        == t[k].is_operator() && token_extent(s[k]) == token_extent(t[k]) by {
        lemma_flip_token(s[k]);
    }
    lemma_extent_pointwise(s, t);
}

/// M2 keeps the invariants when it starts at the head of a chain.
pub proof fn lemma_complement_chain_npe(s: Seq<Element>, c: int)
    requires
        is_npe(s),
        is_chain_start(s, c),
    ensures
        is_npe(complement_chain(s, c)),
{
    let t = complement_chain(s, c);
    lemma_complement_chain_kinds(s, c);
    lemma_same_kinds_balanced(s, t);
    assert forall|i: int|
        0 <= i < t.len() - 1 && (#[trigger] t[i]).is_operator() && t[i + 1].is_operator()
            implies t[i] != t[i + 1] by {
        lemma_flip_token(s[i]);
        lemma_flip_token(s[i + 1]);
        assert(s[i].is_operator() && s[i + 1].is_operator());
        if in_chain(s, c, i) && !in_chain(s, c, i + 1) {
            assert forall|q: int| c <= q <= i + 1 implies (#[trigger] s[q]).is_operator() by {
                if q <= i {
                    assert(in_chain(s, c, i));
                }
            }
        }
        if !in_chain(s, c, i) && in_chain(s, c, i + 1) {
            if c <= i {
                assert forall|q: int| c <= q <= i implies (#[trigger] s[q]).is_operator() by {
                    assert(in_chain(s, c, i + 1));
                }
            }
        }
    }
}

/// M2 undoes itself: complementing the chain at the same start twice gives
/// back the expression.
pub proof fn lemma_m2_involution(s: Seq<Element>, c: int)
    requires
        0 <= c,
    ensures
        complement_chain(complement_chain(s, c), c) == s,
{
    let t = complement_chain(s, c);
    lemma_complement_chain_kinds(s, c);
    assert forall|p: int| 0 <= p < s.len() implies in_chain(t, c, p) == in_chain(s, c, p) by {
        if in_chain(t, c, p) {
            assert forall|q: int| c <= q <= p implies (#[trigger] s[q]).is_operator() by {
                assert(t[q].is_operator());
            }
        }
        if in_chain(s, c, p) {
            assert forall|q: int| c <= q <= p implies (#[trigger] t[q]).is_operator() by {
                assert(s[q].is_operator());
            }
        }
    }
    assert forall|p: int| 0 <= p < s.len() implies complement_chain(t, c)[p] == s[p] by {
        lemma_flip_token(s[p]);
    }
    assert(complement_chain(t, c) =~= s);
}

pub proof fn lemma_operators_in_agree_from(s1: Seq<Element>, s2: Seq<Element>, q: int, p: int)
    requires
        0 <= q <= p,
        p <= s1.len(),
        p <= s2.len(),
        operators_in(s1, q) == operators_in(s2, q),
        forall|k: int| q <= k < p ==> (#[trigger] s1[k]).is_operator() == s2[k].is_operator(),
    ensures
        operators_in(s1, p) == operators_in(s2, p),
    decreases p - q,
{
    if p > q {
        lemma_operators_in_agree_from(s1, s2, q, p - 1);
    }
}

/// M3 keeps the invariants when its tests accept the swap.
pub proof fn lemma_m3_swap_npe(s: Seq<Element>, i: int)
    requires
        is_npe(s),
        is_mixed_pair(s, i),
        m3_accepts(s, i),
    ensures
        is_npe(swapped(s, i, i + 1)),
{
    let t = swapped(s, i, i + 1);
    let n = s.len() as int;
    lemma_balanced_ends(s);
    lemma_operators_in_agree(s, t, i);
    assert(operators_in(t, i + 1) == operators_in(t, i) + (if t[i].is_operator() { 1int } else { 0int }));
    assert(operators_in(s, i + 1) == operators_in(s, i) + (if s[i].is_operator() { 1int } else { 0int }));
    assert(operators_in(t, i + 2) == operators_in(s, i + 2));
    lemma_operators_in_agree_from(s, t, i + 2, n);
    assert forall|p: int| 1 <= p < t.len() implies 2 * #[trigger] operators_in(t, p) < p by {
        if p <= i {
            lemma_operators_in_agree(s, t, p);
        } else if p >= i + 2 {
            lemma_operators_in_agree_from(s, t, i + 2, p);
        } else {
            assert(p == i + 1);
            if s[i].is_operator() {
                assert(2 * operators_in(s, i + 1) < i + 1);
            }
        }
    }
    assert forall|j: int|
        0 <= j < t.len() - 1 && (#[trigger] t[j]).is_operator() && t[j + 1].is_operator()
            implies t[j] != t[j + 1] by {
        if j + 1 < i || j > i + 1 {
            assert(t[j] == s[j] && t[j + 1] == s[j + 1]);
        }
    }
}

/// With two modules M3 never changes the expression: its one candidate
/// pair fails the balloting test.
pub proof fn lemma_two_modules_m3_inert(s: Seq<Element>, t: Seq<Element>)
    requires
        is_npe(s),
        s.len() == 3,
        m3_outcome(s, t),
    ensures
        t == s,
{
    lemma_balanced_ends(s);
    lemma_positions_where(|i: int| is_mixed_pair(s, i), 3);
    assert forall|i: usize| #[trigger] mixed_pair_positions(s).contains(i) implies !m3_accepts(
        s,
        i as int,
    ) by {
        let k = choose|k: int| 0 <= k < mixed_pair_positions(s).len() && mixed_pair_positions(s)[k] == i;
        assert(is_mixed_pair(s, i as int));
        assert(i == 1);
        assert(operators_in(s, 2) == 0);
        assert(operators_in(s, 3) == 1);
    }
}

// ---------------------------------------------------------------------------
// The expression
// ---------------------------------------------------------------------------

/// A sequence of tokens in postfix order.
#[derive(Debug)]
pub struct PolishExpression {
    pub elements: Vec<Element>,
}

impl View for PolishExpression {
    type V = Seq<Element>;

    open spec fn view(&self) -> Seq<Element> {
        self.elements@
    }
}

impl PolishExpression {
    /// A normalized Polish expression.
    pub open spec fn wf(&self) -> bool {
        is_npe(self@)
    }

    pub fn new(elements: Vec<Element>) -> (r: PolishExpression)
        ensures
            r@ == elements@,
    {
        PolishExpression { elements }
    }

    /// The canonical start `m0 m1 * m2 * ... *`: a left-leaning spine of
    /// vertical cuts over the modules in the given order.
    pub fn seed(modules: &Vec<Module>) -> (r: Result<PolishExpression, FloorplanError>)
        ensures
            match r {
                Ok(e) => modules@.len() >= 2 && e@ == seed_of(modules@) && e.wf(),
                Err(err) => modules@.len() < 2 && err == FloorplanError::InsufficientModules,
            },
    {
        if modules.len() < 2 {
            return Err(FloorplanError::InsufficientModules);
        }
        let mut elements: Vec<Element> = Vec::new();
        elements.push(Element::Operand(modules[0]));
        let mut k: usize = 1;
        while k < modules.len()
            invariant
                1 <= k <= modules@.len(),
                elements@.len() == 2 * k - 1,
                forall|p: int| 0 <= p < elements@.len() ==> elements@[p] == seed_token(modules@, p),
            decreases modules@.len() - k,
        {
            elements.push(Element::Operand(modules[k]));
            elements.push(Element::Operator(Cut::Vertical));
            k += 1;
        }
        assert(elements@ =~= seed_of(modules@));
        proof {
            lemma_seed_is_npe(modules@);
        }
        Ok(PolishExpression { elements })
    }

    /// A copy of the expression, to try a move on.
    pub fn snapshot(&self) -> (r: PolishExpression)
        ensures
            r@ == self@,
    {
        let mut elements: Vec<Element> = Vec::new();
        let mut i: usize = 0;
        while i < self.elements.len()
            invariant
                i <= self@.len(),
                elements@ == self@.subrange(0, i as int),
            decreases self@.len() - i,
        {
            elements.push(self.elements[i]);
            i += 1;
            assert(elements@ =~= self@.subrange(0, i as int));
        }
        assert(elements@ =~= self@);
        PolishExpression { elements }
    }

    /// Whether every side of a floorplan of this expression fits the
    /// library's 32-bit bound.
    pub fn fits(&self) -> (r: bool)
        ensures
            r == (extent_of(self@) <= MAX_EXTENT),
    {
        let mut total: u64 = 0;
        let mut i: usize = 0;
        while i < self.elements.len()
            invariant
                i <= self@.len(),
                total == extent_of(self@.subrange(0, i as int)),
                total <= MAX_EXTENT,
            decreases self@.len() - i,
        {
            let add: u64 = match self.elements[i] {
                Element::Operand(m) => m.width as u64 + m.height as u64,
                Element::Operator(_) => 0,
            };
            assert(self@.subrange(0, i + 1).drop_last() =~= self@.subrange(0, i as int));
            if total + add > MAX_EXTENT {
                proof {
                    let rest = self@.subrange(i + 1, self@.len() as int);
                    assert(self@ =~= self@.subrange(0, i + 1) + rest);
                    lemma_extent_concat(self@.subrange(0, i + 1), rest);
                    lemma_extent_nonneg(rest);
                }
                return false;
            }
            total = total + add;
            i += 1;
        }
        assert(self@.subrange(0, i as int) =~= self@);
        true
    }

    fn swap_tokens(&mut self, i: usize, j: usize)
        requires
            i < old(self)@.len(),
            j < old(self)@.len(),
        ensures
            final(self)@ == swapped(old(self)@, i as int, j as int),
    {
        let a = self.elements[i];
        let b = self.elements[j];
        self.elements[i] = b;
        self.elements[j] = a;
    }

    /// The positions of the operands, in order.
    pub fn operands(&self) -> (r: Vec<usize>)
        ensures
            r@ == operand_positions(self@),
    {
        let ghost pred = |p: int| !self@[p].is_operator();
        let mut r: Vec<usize> = Vec::new();
        let mut i: usize = 0;
        while i < self.elements.len()
            invariant
                i <= self@.len(),
                pred == (|p: int| !self@[p].is_operator()),
                r@ == positions_where(pred, i as int),
            decreases self@.len() - i,
        {
            if !self.elements[i].is_cut() {
                r.push(i);
            }
            i += 1;
        }
        r
    }

    /// Two adjacent operands, drawn at random: the positions of operands
    /// `k` and `k + 1` for some `k`.
    pub fn get_random_operands(&self, rng: &mut StdRng) -> (r: (usize, usize))
        requires
            operand_positions(self@).len() >= 2,
        ensures
            exists|k: int|
                0 <= k && k + 1 < operand_positions(self@).len() && r.0 == operand_positions(
                    self@,
                )[k] && r.1 == #[trigger] operand_positions(self@)[k + 1],
    {
        let operands = self.operands();
        let k = random_below(rng, operands.len() - 1);
        (operands[k], operands[k + 1])
    }

    /// M1 at a chosen pair: exchange operands `k` and `k + 1`.
    pub fn m1_at(&mut self, k: usize)
        requires
            k + 1 < operand_positions(old(self)@).len(),
        ensures
            final(self)@ == operand_swap(old(self)@, k as int),
            old(self).wf() ==> final(self).wf(),
            extent_of(final(self)@) == extent_of(old(self)@),
    {
        let operands = self.operands();
        let _ = operands.len();
        let _ = self.elements.len();
        proof {
            lemma_operand_swap_kinds(self@, k as int);
            if self.wf() {
                lemma_operand_swap_npe(self@, k as int);
            }
        }
        self.swap_tokens(operands[k], operands[k + 1]);
    }

    /// M1: exchange two operands that are adjacent among the operands, drawn
    /// at random. An expression with fewer than two operands stays as it is.
    pub fn m1(&mut self, rng: &mut StdRng)
        ensures
            m1_outcome(old(self)@, final(self)@),
            old(self).wf() ==> final(self).wf(),
            extent_of(final(self)@) == extent_of(old(self)@),
    {
        let operands = self.operands();
        if operands.len() < 2 {
            return;
        }
        let _ = self.elements.len();
        let (i, j) = self.get_random_operands(rng);
        let ghost k = choose|k: int|
            0 <= k && k + 1 < operand_positions(self@).len() && i == operand_positions(self@)[k]
                && j == #[trigger] operand_positions(self@)[k + 1];
        proof {
            lemma_operand_swap_kinds(self@, k);
            if self.wf() {
                lemma_operand_swap_npe(self@, k);
            }
        }
        self.swap_tokens(i, j);
    }

    /// The positions where a chain of operators starts, in order.
    pub fn chain_starts(&self) -> (r: Vec<usize>)
        ensures
            r@ == chain_start_positions(self@),
    {
        let ghost pred = |c: int| is_chain_start(self@, c);
        let mut r: Vec<usize> = Vec::new();
        let mut i: usize = 0;
        while i < self.elements.len()
            invariant
                i <= self@.len(),
                pred == (|c: int| is_chain_start(self@, c)),
                r@ == positions_where(pred, i as int),
            decreases self@.len() - i,
        {
            if i >= 1 && !self.elements[i - 1].is_cut() && self.elements[i].is_cut() {
                r.push(i);
            }
            i += 1;
        }
        r
    }

    /// M2 at a chosen position: flip every operator of the run that begins
    /// at `c`.
    pub fn m2_at(&mut self, c: usize)
        ensures
            final(self)@ == complement_chain(old(self)@, c as int),
            old(self).wf() && is_chain_start(old(self)@, c as int) ==> final(self).wf(),
            extent_of(final(self)@) == extent_of(old(self)@),
    {
        let ghost s0 = self@;
        proof {
            lemma_complement_chain_kinds(s0, c as int);
            if self.wf() && is_chain_start(s0, c as int) {
                lemma_complement_chain_npe(s0, c as int);
            }
        }
        let n = self.elements.len();
        if c >= n {
            assert(self@ =~= complement_chain(s0, c as int));
            return;
        }
        let mut i: usize = c;
        while i < n && self.elements[i].is_cut()
            invariant
                n == s0.len(),
                c <= i <= n,
                forall|q: int| c <= q < i ==> (#[trigger] s0[q]).is_operator(),
                self@ == Seq::new(
                    n as nat,
                    |p: int| if c <= p < i { flip_token(s0[p]) } else { s0[p] },
                ),
            decreases n - i,
        {
            match self.elements[i] {
                Element::Operator(cut) => {
                    self.elements[i] = Element::Operator(cut.flip());
                },
                Element::Operand(_) => {},
            }
            i += 1;
            assert(self@ =~= Seq::new(
                n as nat,
                |p: int| if c <= p < i { flip_token(s0[p]) } else { s0[p] },
            ));
        }
        assert forall|p: int| 0 <= p < n implies in_chain(s0, c as int, p) == (c <= p < i) by {
            if in_chain(s0, c as int, p) && p >= i {
                assert(s0[i as int].is_operator());
            }
        }
        assert(self@ =~= complement_chain(s0, c as int));
    }

    /// M2: flip every operator of a chain drawn at random. An expression
    /// without a chain stays as it is.
    pub fn m2(&mut self, rng: &mut StdRng)
        ensures
            m2_outcome(old(self)@, final(self)@),
            old(self).wf() ==> final(self).wf(),
            extent_of(final(self)@) == extent_of(old(self)@),
    {
        let starts = self.chain_starts();
        let _ = self.elements.len();
        proof {
            lemma_positions_where(|c: int| is_chain_start(self@, c), self@.len() as int);
        }
        match choose_from(&starts, rng) {
            Some(c) => {
                proof {
                    let k = choose|k: int| 0 <= k < starts@.len() && starts@[k] == c;
                    assert(is_chain_start(self@, starts@[k] as int));
                }
                self.m2_at(c);
            },
            None => {},
        }
    }

    /// The positions `i` where an operand and an operator stand side by side.
    pub fn operand_operators(&self) -> (r: Vec<usize>)
        ensures
            r@ == mixed_pair_positions(self@),
    {
        let ghost pred = |i: int| is_mixed_pair(self@, i);
        let mut r: Vec<usize> = Vec::new();
        let mut i: usize = 0;
        while i < self.elements.len()
            invariant
                i <= self@.len(),
                pred == (|i: int| is_mixed_pair(self@, i)),
                r@ == positions_where(pred, i as int),
            decreases self@.len() - i,
        {
            if i + 1 < self.elements.len() && self.elements[i].is_cut()
                != self.elements[i + 1].is_cut() {
                r.push(i);
            }
            i += 1;
        }
        r
    }

    fn is_skewed(&self, i: usize) -> (r: bool)
        requires
            self.wf(),
            is_mixed_pair(self@, i as int),
        ensures
            r == skew_test(self@, i as int),
    {
        let _ = self.elements.len();
        proof {
            lemma_balanced_ends(self@);
        }
        match self.elements[i] {
            Element::Operand(_) => self.elements[i + 1] != self.elements[i - 1],
            Element::Operator(_) => self.elements[i] != self.elements[i + 2],
        }
    }

    fn is_balloting(&self, i: usize) -> (r: bool)
        requires
            i + 1 < self@.len(),
        ensures
            r == ballot_test(self@, i as int),
    {
        let _ = self.elements.len();
        if !self.elements[i].is_cut() && self.elements[i + 1].is_cut() {
            let mut d: usize = 0;
            let mut k: usize = 0;
            while k < i + 2
                invariant
                    i + 1 < self@.len(),
                    self@.len() <= usize::MAX,
                    k <= i + 2,
                    d == operators_in(self@, k as int),
                    d <= k,
                decreases i + 2 - k,
            {
                if self.elements[k].is_cut() {
                    d += 1;
                }
                k += 1;
            }
            d <= i / 2
        } else {
            true
        }
    }

    /// M3 at a chosen pair: swap the operand and operator at `i` and `i + 1`
    /// when the skewness and balloting tests accept it. Returns whether it did.
    pub fn m3_at(&mut self, i: usize) -> (r: bool)
        requires
            old(self).wf(),
            is_mixed_pair(old(self)@, i as int),
        ensures
            r == m3_accepts(old(self)@, i as int),
            final(self)@ == (if r { swapped(old(self)@, i as int, i + 1) } else { old(self)@ }),
            final(self).wf(),
            extent_of(final(self)@) == extent_of(old(self)@),
    {
        let _ = self.elements.len();
        if self.is_skewed(i) && self.is_balloting(i) {
            proof {
                lemma_m3_swap_npe(self@, i as int);
                lemma_extent_swapped(self@, i as int, i + 1);
            }
            self.swap_tokens(i, i + 1);
            true
        } else {
            false
        }
    }

    /// M3: draw operand/operator pairs at random without replacement and
    /// perform the first swap that the tests accept; when none is accepted
    /// the expression stays as it is.
    pub fn m3(&mut self, rng: &mut StdRng)
        requires
            old(self).wf(),
        ensures
            m3_outcome(old(self)@, final(self)@),
            final(self).wf(),
            extent_of(final(self)@) == extent_of(old(self)@),
    {
        let ghost s0 = self@;
        let mut pool = self.operand_operators();
        let ghost full = pool@;
        let _ = self.elements.len();
        proof {
            lemma_positions_where(|i: int| is_mixed_pair(s0, i), s0.len() as int);
        }
        while pool.len() > 0
            invariant
                self@ == s0,
                old(self)@ == s0,
                is_npe(s0),
                full == mixed_pair_positions(s0),
                forall|k: int| 0 <= k < full.len() ==> is_mixed_pair(s0, #[trigger] full[k] as int),
                forall|x: usize| #[trigger] pool@.contains(x) ==> full.contains(x),
                forall|x: usize| #[trigger] full.contains(x) && !pool@.contains(x) ==> !m3_accepts(s0, x as int),
            decreases pool@.len(),
        {
            let ghost before = pool@;
            assert(forall|x: usize| #[trigger] before.contains(x) ==> full.contains(x));
            let k = random_below(rng, pool.len());
            let i = pool.remove(k);
            assert(before.contains(i));
            assert(is_mixed_pair(s0, i as int));
            assert forall|x: usize| #[trigger] before.contains(x) && x != i implies pool@.contains(x) by {
                let j = choose|j: int| 0 <= j < before.len() && before[j] == x;
                if j < k {
                    assert(pool@[j] == x);
                } else {
                    assert(pool@[j - 1] == x);
                }
            }
            assert forall|x: usize| #[trigger] pool@.contains(x) implies full.contains(x) by {
                let j = choose|j: int| 0 <= j < pool@.len() && pool@[j] == x;
                if j < k {
                    assert(before[j] == x);
                } else {
                    assert(before[j + 1] == x);
                }
                assert(before.contains(x));
                assert(full.contains(x));
            }
            if self.m3_at(i) {
                assert(full.contains(i));
                assert(m3_accepts(s0, i as int));
                assert(self@ == swapped(s0, i as int, i + 1));
                return;
            }
        }
        assert forall|x: usize| #[trigger] full.contains(x) implies !m3_accepts(s0, x as int) by {
            assert(!pool@.contains(x));
        }
    }
}

impl PolishExpression {
    /// Checks the invariants of a normalized Polish expression: balance,
    /// evaluation on a stack, and no two equal adjacent operators.
    pub fn is_valid(&self) -> (r: bool)
        ensures
            r == self.wf(),
    {
        let n = self.elements.len();
        if n == 0 {
            return false;
        }
        let ghost s = self@;
        let mut d: usize = 0;
        let mut p: usize = 0;
        while p < n
            invariant
                s == self@,
                n == s.len(),
                p <= n,
                d == operators_in(s, p as int),
                d <= p,
                forall|q: int| 1 <= q <= p && q < n ==> 2 * #[trigger] operators_in(s, q) < q,
            decreases n - p,
        {
            if self.elements[p].is_cut() {
                d += 1;
            }
            p += 1;
            assert(d == operators_in(s, p as int));
            if p < n && d >= p - d {
                assert(2 * operators_in(s, p as int) >= p);
                return false;
            }
        }
        if d >= n || d != n - 1 - d {
            return false;
        }
        let mut i: usize = 0;
        while i + 1 < n
            invariant
                s == self@,
                n == s.len(),
                i < n,
                forall|j: int|
                    0 <= j < i && (#[trigger] s[j]).is_operator() && s[j + 1].is_operator()
                        ==> s[j] != s[j + 1],
            decreases n - i,
        {
            if self.elements[i].is_cut() && self.elements[i + 1].is_cut() && self.elements[i]
                == self.elements[i + 1] {
                return false;
            }
            i += 1;
        }
        true
    }
}

} // verus!
