use crate::expression::{
    count_operands, count_operators, extent_of, is_npe, lemma_extent_concat, lemma_extent_nonneg,
    operators_in, PolishExpression, MAX_EXTENT,
};
use crate::module::{Cut, Element, FloorplanError, Module};
use vstd::prelude::*;

verus! {

// ---------------------------------------------------------------------------
// Slicing structures and their shape curves
// ---------------------------------------------------------------------------

/// The shape of a slicing tree: modules at the leaves, cuts inside.
pub enum Slicing {
    Leaf(Module),
    Node(Cut, Box<Slicing>, Box<Slicing>),
}

/// The postfix token sequence of a slicing tree.
pub open spec fn polish_of(t: Slicing) -> Seq<Element>
    decreases t,
{
    match t {
        Slicing::Leaf(m) => seq![Element::Operand(m)],
        Slicing::Node(c, l, r) => polish_of(*l) + polish_of(*r) + seq![Element::Operator(c)],
    }
}

pub open spec fn leaf_count(t: Slicing) -> int
    decreases t,
{
    match t {
        Slicing::Leaf(_) => 1,
        Slicing::Node(_, l, r) => leaf_count(*l) + leaf_count(*r),
    }
}

pub open spec fn node_count(t: Slicing) -> int
    decreases t,
{
    match t {
        Slicing::Leaf(_) => 0,
        Slicing::Node(_, l, r) => node_count(*l) + node_count(*r) + 1,
    }
}

/// The sum of both sides of every module of the tree.
pub open spec fn slicing_extent(t: Slicing) -> int {
    extent_of(polish_of(t))
}

pub open spec fn leaf_curve(m: Module) -> Seq<(u64, u64)> {
    if m.rotatable && m.width != m.height {
        seq![(m.width as u64, m.height as u64), (m.height as u64, m.width as u64)]
    } else {
        seq![(m.width as u64, m.height as u64)]
    }
}

pub open spec fn max_u64(a: u64, b: u64) -> u64 {
    if a >= b {
        a
    } else {
        b
    }
}

/// The bounding box of two parts placed by a cut.
pub open spec fn compose(a: (u64, u64), b: (u64, u64), c: Cut) -> (u64, u64) {
    match c {
        Cut::Vertical => ((a.0 + b.0) as u64, max_u64(a.1, b.1)),
        Cut::Horizontal => (max_u64(a.0, b.0), (a.1 + b.1) as u64),
    }
}

/// Every pairing of an entry of `l` with an entry of `r`, row by row.
pub open spec fn combine(l: Seq<(u64, u64)>, r: Seq<(u64, u64)>, c: Cut) -> Seq<(u64, u64)> {
    Seq::new(l.len() * r.len(), |k: int| compose(l[k / r.len() as int], r[k % r.len() as int], c))
}

pub open spec fn curve_of(t: Slicing) -> Seq<(u64, u64)>
    decreases t,
{
    match t {
        Slicing::Leaf(m) => leaf_curve(m),
        Slicing::Node(c, l, r) => combine(curve_of(*l), curve_of(*r), c),
    }
}

/// Every entry of `curve` fits in `bound` on both sides.
pub open spec fn curve_within(curve: Seq<(u64, u64)>, bound: int) -> bool {
    forall|k: int| 0 <= k < curve.len() ==> (#[trigger] curve[k]).0 <= bound && curve[k].1 <= bound
}

pub proof fn lemma_slicing_extent(t: Slicing)
    ensures
        slicing_extent(t) >= 0,
        t matches Slicing::Node(_, l, r) ==> slicing_extent(t) == slicing_extent(*l)
            + slicing_extent(*r),
        t matches Slicing::Leaf(m) ==> slicing_extent(t) == m.extent(),
{
    lemma_extent_nonneg(polish_of(t));
    match t {
        Slicing::Leaf(m) => {
            assert(seq![Element::Operand(m)].drop_last() =~= Seq::<Element>::empty());
            assert(extent_of(Seq::<Element>::empty()) == 0);
            assert(extent_of(seq![Element::Operand(m)]) == m.extent());
        },
        Slicing::Node(c, l, r) => {
            lemma_extent_concat(polish_of(*l) + polish_of(*r), seq![Element::Operator(c)]);
            lemma_extent_concat(polish_of(*l), polish_of(*r));
            assert(seq![Element::Operator(c)].drop_last() =~= Seq::<Element>::empty());
            assert(extent_of(Seq::<Element>::empty()) == 0);
            assert(extent_of(seq![Element::Operator(c)]) == 0);
        },
    }
}

/// Shape curves are never empty and stay within the tree's extent.
pub proof fn lemma_curve_bounded(t: Slicing)
    requires
        slicing_extent(t) <= u64::MAX,
    ensures
        curve_of(t).len() >= 1,
        curve_within(curve_of(t), slicing_extent(t)),
    decreases t,
{
    lemma_slicing_extent(t);
    match t {
        Slicing::Leaf(m) => {},
        Slicing::Node(c, l, r) => {
            lemma_slicing_extent(*l);
            lemma_slicing_extent(*r);
            lemma_curve_bounded(*l);
            lemma_curve_bounded(*r);
            let a = curve_of(*l);
            let b = curve_of(*r);
            vstd::arithmetic::mul::lemma_mul_strictly_positive(a.len() as int, b.len() as int);
            assert forall|k: int| 0 <= k < a.len() * b.len() implies (#[trigger] curve_of(t)[k]).0
                <= slicing_extent(t) && curve_of(t)[k].1 <= slicing_extent(t) by {
                lemma_pair_index(k, a.len() as int, b.len() as int);
                let x = a[k / b.len() as int];
                let y = b[k % b.len() as int];
                assert(x.0 <= slicing_extent(*l) && x.1 <= slicing_extent(*l));
                assert(y.0 <= slicing_extent(*r) && y.1 <= slicing_extent(*r));
            }
        },
    }
}

proof fn lemma_pair_index(k: int, a: int, b: int)
    requires
        0 <= k < a * b,
        a > 0,
        b > 0,
    ensures
        0 <= k / b < a,
        0 <= k % b < b,
{
    vstd::arithmetic::div_mod::lemma_div_pos_is_pos(k, b);
    vstd::arithmetic::div_mod::lemma_mod_pos_bound(k, b);
    vstd::arithmetic::div_mod::lemma_div_is_ordered(k, a * b, b);
    vstd::arithmetic::div_mod::lemma_div_multiples_vanish(a, b);
    vstd::arithmetic::div_mod::lemma_fundamental_div_mod(k, b);
    if k / b >= a {
        vstd::arithmetic::mul::lemma_mul_inequality(a, k / b, b);
        vstd::arithmetic::mul::lemma_mul_is_commutative(a, b);
        vstd::arithmetic::mul::lemma_mul_is_commutative(k / b, b);
    }
}

// ---------------------------------------------------------------------------
// The tree
// ---------------------------------------------------------------------------

/// A slicing tree whose nodes carry their shape curves.
#[derive(Debug, PartialEq)]
pub struct SlicingTree {
    pub value: Element,
    pub dimensions: Vec<(u64, u64)>,
    pub left: Option<Box<SlicingTree>>,
    pub right: Option<Box<SlicingTree>>,
}

impl SlicingTree {
    /// The shape of the tree; an operator missing a child reads as a leaf
    /// of an empty module (never the case in a well-formed tree).
    pub open spec fn shape(&self) -> Slicing
        decreases self,
    {
        match self.value {
            Element::Operand(m) => Slicing::Leaf(m),
            Element::Operator(c) => match self.left {
                Some(l) => match self.right {
                    Some(r) => Slicing::Node(c, Box::new(l.shape()), Box::new(r.shape())),
                    None => Slicing::Leaf(Module { name: 0, area: 0, width: 0, height: 0, rotatable: false }),
                },
                None => Slicing::Leaf(Module { name: 0, area: 0, width: 0, height: 0, rotatable: false }),
            },
        }
    }

    /// Leaves hold operands, inner nodes hold cuts with both children, every
    /// node holds its shape curve, and every side fits the 32-bit bound.
    pub open spec fn wf(&self) -> bool
        decreases self,
    {
        &&& self.dimensions@ == curve_of(self.shape())
        &&& slicing_extent(self.shape()) <= MAX_EXTENT
        &&& match self.value {
            Element::Operand(_) => self.left is None && self.right is None,
            Element::Operator(_) => match self.left {
                Some(l) => match self.right {
                    Some(r) => l.wf() && r.wf(),
                    None => false,
                },
                None => false,
            },
        }
    }

    /// A leaf: one entry on its curve, or two when the module may turn and
    /// its sides differ.
    pub fn new_leaf(value: Element) -> (r: SlicingTree)
        requires
            value is Operand,
            token_fits(value),
        ensures
            r.wf(),
            r.value == value,
            r.left is None,
            r.right is None,
            r.shape() == Slicing::Leaf(value->Operand_0),
            r.dimensions@ == leaf_curve(value->Operand_0),
            r.dimensions@.len() == if value->Operand_0.rotatable && value->Operand_0.width
                != value->Operand_0.height {
                2int
            } else {
                1int
            },
    {
        let mut dimensions: Vec<(u64, u64)> = Vec::new();
        match value {
            Element::Operand(module) => {
                if module.rotatable && module.width != module.height {
                    dimensions.push((module.width as u64, module.height as u64));
                    dimensions.push((module.height as u64, module.width as u64));
                } else {
                    dimensions.push((module.width as u64, module.height as u64));
                }
                proof {
                    lemma_slicing_extent(Slicing::Leaf(module));
                    assert(dimensions@ =~= leaf_curve(module));
                }
            },
            Element::Operator(_) => {},
        }
        SlicingTree { value, dimensions, left: None, right: None }
    }

    /// The curve of a cut over two curves: every pairing, `|l|·|r|` entries.
    pub fn get_dimensions(
        left_dimensions: &Vec<(u64, u64)>,
        right_dimensions: &Vec<(u64, u64)>,
        cut: Cut,
    ) -> (r: Vec<(u64, u64)>)
        requires
            forall|i: int, j: int|
                0 <= i < left_dimensions@.len() && 0 <= j < right_dimensions@.len() ==> (
                #[trigger] left_dimensions@[i]).0 + (#[trigger] right_dimensions@[j]).0
                    <= u64::MAX && left_dimensions@[i].1 + right_dimensions@[j].1 <= u64::MAX,
        ensures
            r@ == combine(left_dimensions@, right_dimensions@, cut),
            r@.len() == left_dimensions@.len() * right_dimensions@.len(),
    {
        let ghost a = left_dimensions@;
        let ghost b = right_dimensions@;
        let mut dimensions: Vec<(u64, u64)> = Vec::new();
        let mut i: usize = 0;
        while i < left_dimensions.len()
            invariant
                a == left_dimensions@,
                b == right_dimensions@,
                i <= a.len(),
                forall|i: int, j: int|
                    0 <= i < a.len() && 0 <= j < b.len() ==> (#[trigger] a[i]).0 + (#[trigger] b[j]).0
                        <= u64::MAX && a[i].1 + b[j].1 <= u64::MAX,
                dimensions@.len() == i * b.len(),
                forall|k: int|
                    0 <= k < dimensions@.len() ==> #[trigger] dimensions@[k] == compose(
                        a[k / b.len() as int],
                        b[k % b.len() as int],
                        cut,
                    ),
            decreases a.len() - i,
        {
            let mut j: usize = 0;
            while j < right_dimensions.len()
                invariant
                    a == left_dimensions@,
                    b == right_dimensions@,
                    i < a.len(),
                    j <= b.len(),
                    forall|i: int, j: int|
                        0 <= i < a.len() && 0 <= j < b.len() ==> (#[trigger] a[i]).0 + (
                        #[trigger] b[j]).0 <= u64::MAX && a[i].1 + b[j].1 <= u64::MAX,
                    dimensions@.len() == i * b.len() + j,
                    forall|k: int|
                        0 <= k < dimensions@.len() ==> #[trigger] dimensions@[k] == compose(
                            a[k / b.len() as int],
                            b[k % b.len() as int],
                            cut,
                        ),
                decreases b.len() - j,
            {
                let l = left_dimensions[i];
                let r = right_dimensions[j];
                assert(l.0 + r.0 <= u64::MAX && l.1 + r.1 <= u64::MAX);
                let new_dimension = match cut {
                    Cut::Vertical => (l.0 + r.0, if l.1 >= r.1 { l.1 } else { r.1 }),
                    Cut::Horizontal => (if l.0 >= r.0 { l.0 } else { r.0 }, l.1 + r.1),
                };
                proof {
                    let k = i * b.len() + j;
                    vstd::arithmetic::div_mod::lemma_fundamental_div_mod_converse(
                        k,
                        b.len() as int,
                        i as int,
                        j as int,
                    );
                }
                dimensions.push(new_dimension);
                j += 1;
            }
            proof {
                vstd::arithmetic::mul::lemma_mul_is_distributive_add_other_way(
                    b.len() as int,
                    i as int,
                    1,
                );
            }
            i += 1;
        }
        assert(dimensions@ =~= combine(a, b, cut));
        dimensions
    }

    /// An inner node: the cut of `value` over two subtrees.
    pub fn new_internal_node(value: Element, left: SlicingTree, right: SlicingTree) -> (r:
        SlicingTree)
        requires
            value is Operator,
            left.wf(),
            right.wf(),
            slicing_extent(left.shape()) + slicing_extent(right.shape()) <= MAX_EXTENT,
        ensures
            r.wf(),
            r.value == value,
            r.left == Some(Box::new(left)),
            r.right == Some(Box::new(right)),
            r.shape() == Slicing::Node(
                value->Operator_0,
                Box::new(left.shape()),
                Box::new(right.shape()),
            ),
            r.dimensions@.len() == left.dimensions@.len() * right.dimensions@.len(),
    {
        let cut = match value {
            Element::Operator(c) => c,
            Element::Operand(_) => Cut::Vertical,
        };
        proof {
            let t = Slicing::Node(cut, Box::new(left.shape()), Box::new(right.shape()));
            lemma_slicing_extent(t);
            lemma_curve_bounded(left.shape());
            lemma_curve_bounded(right.shape());
            let a = left.dimensions@;
            let b = right.dimensions@;
            assert forall|i: int, j: int| 0 <= i < a.len() && 0 <= j < b.len() implies (
            #[trigger] a[i]).0 + (#[trigger] b[j]).0 <= u64::MAX && a[i].1 + b[j].1
                <= u64::MAX by {
                assert(a[i].0 <= slicing_extent(left.shape()));
                assert(b[j].0 <= slicing_extent(right.shape()));
            }
        }
        let dimensions = SlicingTree::get_dimensions(&left.dimensions, &right.dimensions, cut);
        SlicingTree { value, dimensions, left: Some(Box::new(left)), right: Some(Box::new(right)) }
    }
}

/// The module of an operand token fits the 32-bit bound (operators always do).
pub open spec fn token_fits(e: Element) -> bool {
    match e {
        Element::Operand(m) => m.extent() <= MAX_EXTENT,
        Element::Operator(_) => true,
    }
}

// ---------------------------------------------------------------------------
// Evaluating postfix sequences
// ---------------------------------------------------------------------------

/// One step of the stack evaluation: an operand pushes a leaf, an operator
/// pops the right and then the left part and pushes their node.
pub open spec fn push_token(st: Option<Seq<Slicing>>, e: Element) -> Option<Seq<Slicing>> {
    match st {
        None => None,
        Some(st) => match e {
            Element::Operand(m) => Some(st.push(Slicing::Leaf(m))),
            Element::Operator(c) => if st.len() < 2 {
                None
            } else {
                Some(
                    st.subrange(0, st.len() - 2).push(
                        Slicing::Node(
                            c,
                            Box::new(st[st.len() - 2]),
                            Box::new(st[st.len() - 1]),
                        ),
                    ),
                )
            },
        },
    }
}

/// The stack after evaluating `s`, or `None` when an operator finds fewer
/// than two parts.
pub open spec fn run_stack(s: Seq<Element>) -> Option<Seq<Slicing>>
    decreases s.len(),
{
    if s.len() == 0 {
        Some(Seq::empty())
    } else {
        push_token(run_stack(s.drop_last()), s.last())
    }
}

/// The tree that `s` denotes, when it evaluates to exactly one.
pub open spec fn parse(s: Seq<Element>) -> Option<Slicing> {
    match run_stack(s) {
        Some(st) => if st.len() == 1 {
            Some(st[0])
        } else {
            None
        },
        None => None,
    }
}

pub open spec fn polish_of_all(st: Seq<Slicing>) -> Seq<Element>
    decreases st.len(),
{
    if st.len() == 0 {
        Seq::empty()
    } else {
        polish_of_all(st.drop_last()) + polish_of(st.last())
    }
}

/// Reading the stack back in postfix gives the evaluated tokens.
pub proof fn lemma_run_stack_polish(s: Seq<Element>)
    requires
        run_stack(s) is Some,
    ensures
        polish_of_all(run_stack(s)->Some_0) == s,
    decreases s.len(),
{
    if s.len() == 0 {
        assert(polish_of_all(Seq::<Slicing>::empty()) =~= s);
    } else {
        let p = s.drop_last();
        lemma_run_stack_polish(p);
        let st = run_stack(p)->Some_0;
        let n = st.len() as int;
        match s.last() {
            Element::Operand(m) => {
                assert(st.push(Slicing::Leaf(m)).drop_last() =~= st);
                assert(s =~= p + seq![Element::Operand(m)]);
            },
            Element::Operator(c) => {
                let base = st.subrange(0, n - 2);
                let node = Slicing::Node(c, Box::new(st[n - 2]), Box::new(st[n - 1]));
                assert(base.push(node).drop_last() =~= base);
                assert(st.drop_last() =~= st.subrange(0, n - 1));
                assert(st.subrange(0, n - 1).drop_last() =~= base);
                assert(polish_of_all(st) == polish_of_all(st.subrange(0, n - 1)) + polish_of(st[n - 1]));
                assert(polish_of_all(st.subrange(0, n - 1)) == polish_of_all(base) + polish_of(st[n - 2]));
                assert(polish_of_all(st) =~= polish_of_all(base) + polish_of(st[n - 2]) + polish_of(
                    st[n - 1],
                ));
                assert(s =~= p + seq![Element::Operator(c)]);
                assert(polish_of_all(base.push(node)) =~= polish_of_all(base) + polish_of(st[n - 2])
                    + polish_of(st[n - 1]) + seq![Element::Operator(c)]);
            },
        }
    }
}

/// Evaluating the postfix sequence of a tree pushes exactly that tree.
pub proof fn lemma_run_append(a: Seq<Element>, t: Slicing)
    requires
        run_stack(a) is Some,
    ensures
        run_stack(a + polish_of(t)) == Some(run_stack(a)->Some_0.push(t)),
    decreases t,
{
    let st = run_stack(a)->Some_0;
    match t {
        Slicing::Leaf(m) => {
            assert((a + seq![Element::Operand(m)]).drop_last() =~= a);
        },
        Slicing::Node(c, l, r) => {
            lemma_run_append(a, *l);
            let al = a + polish_of(*l);
            lemma_run_append(al, *r);
            let alr = al + polish_of(*r);
            assert(a + polish_of(t) =~= alr + seq![Element::Operator(c)]);
            assert((alr + seq![Element::Operator(c)]).drop_last() =~= alr);
            let st2 = st.push(*l).push(*r);
            assert(st2.subrange(0, st2.len() - 2) =~= st);
        },
    }
}

/// Round trip: the postfix sequence of any slicing tree evaluates back to
/// that very tree.
pub proof fn lemma_parse_polish(t: Slicing)
    ensures
        parse(polish_of(t)) == Some(t),
{
    lemma_run_append(Seq::empty(), t);
    assert(Seq::<Element>::empty() + polish_of(t) =~= polish_of(t));
    assert(Seq::<Slicing>::empty().push(t)[0] == t);
}

proof fn lemma_operators_concat(a: Seq<Element>, b: Seq<Element>, k: int)
    requires
        0 <= k <= b.len(),
    ensures
        operators_in(a + b, a.len() + k) == operators_in(a, a.len() as int) + operators_in(b, k),
    decreases k,
{
    if k == 0 {
        crate::expression::lemma_operators_in_agree(a + b, a, a.len() as int);
    } else {
        lemma_operators_concat(a, b, k - 1);
        assert((a + b)[a.len() + k - 1] == b[k - 1]);
    }
}

pub proof fn lemma_counts(t: Slicing)
    ensures
        polish_of(t).len() == leaf_count(t) + node_count(t),
        count_operators(polish_of(t)) == node_count(t),
        count_operands(polish_of(t)) == leaf_count(t),
    decreases t,
{
    match t {
        Slicing::Leaf(m) => {
            assert(operators_in(polish_of(t), 0) == 0);
        },
        Slicing::Node(c, l, r) => {
            lemma_counts(*l);
            lemma_counts(*r);
            let pl = polish_of(*l);
            let pr = polish_of(*r);
            let last = seq![Element::Operator(c)];
            lemma_operators_concat(pl, pr, pr.len() as int);
            lemma_operators_concat(pl + pr, last, 1);
            assert(operators_in(last, 0) == 0);
        },
    }
}

/// A balanced sequence evaluates without running short, holding one part
/// per operand not yet consumed by an operator.
proof fn lemma_balanced_prefix_runs(s: Seq<Element>, p: int)
    requires
        crate::expression::is_balanced(s),
        0 <= p <= s.len(),
    ensures
        run_stack(s.subrange(0, p)) is Some,
        run_stack(s.subrange(0, p))->Some_0.len() == p - 2 * operators_in(s, p),
    decreases p,
{
    if p == 0 {
        assert(s.subrange(0, 0) =~= Seq::<Element>::empty());
    } else {
        lemma_balanced_prefix_runs(s, p - 1);
        assert(s.subrange(0, p).drop_last() =~= s.subrange(0, p - 1));
        if p < s.len() {
            assert(2 * operators_in(s, p) < p);
        }
    }
}

pub proof fn lemma_npe_parses(s: Seq<Element>)
    requires
        is_npe(s),
    ensures
        parse(s) is Some,
{
    lemma_balanced_prefix_runs(s, s.len() as int);
    assert(s.subrange(0, s.len() as int) =~= s);
}

proof fn lemma_run_stack_prefix_none(s: Seq<Element>, p: int)
    requires
        0 <= p <= s.len(),
        run_stack(s.subrange(0, p)) is None,
    ensures
        run_stack(s) is None,
    decreases s.len() - p,
{
    if p < s.len() {
        assert(s.subrange(0, p + 1).drop_last() =~= s.subrange(0, p));
        lemma_run_stack_prefix_none(s, p + 1);
    } else {
        assert(s.subrange(0, p) =~= s);
    }
}

proof fn lemma_extent_prefix(s: Seq<Element>, p: int)
    requires
        0 <= p <= s.len(),
    ensures
        extent_of(s.subrange(0, p)) <= extent_of(s),
        p < s.len() ==> extent_of(s.subrange(0, p + 1)) == extent_of(s.subrange(0, p))
            + crate::expression::token_extent(s[p]),
{
    let rest = s.subrange(p, s.len() as int);
    assert(s =~= s.subrange(0, p) + rest);
    lemma_extent_concat(s.subrange(0, p), rest);
    lemma_extent_nonneg(rest);
    if p < s.len() {
        assert(s.subrange(0, p + 1).drop_last() =~= s.subrange(0, p));
    }
}

/// The last two parts on an evaluation stack together stay within the
/// extent of what was evaluated.
proof fn lemma_top_two_extent(st: Seq<Slicing>)
    requires
        st.len() >= 2,
    ensures
        slicing_extent(st[st.len() - 2]) + slicing_extent(st[st.len() - 1]) <= extent_of(
            polish_of_all(st),
        ),
{
    let n = st.len() as int;
    let base = st.subrange(0, n - 2);
    assert(st.drop_last() =~= st.subrange(0, n - 1));
    assert(st.subrange(0, n - 1).drop_last() =~= base);
    let pb = polish_of_all(base);
    let pa = polish_of(st[n - 2]);
    let pc = polish_of(st[n - 1]);
    assert(polish_of_all(st) == polish_of_all(st.subrange(0, n - 1)) + pc);
    assert(polish_of_all(st.subrange(0, n - 1)) == pb + pa);
    assert(polish_of_all(st) =~= pb + pa + pc);
    lemma_extent_concat(pb + pa, pc);
    lemma_extent_concat(pb, pa);
    lemma_extent_nonneg(pb);
}

pub open spec fn shapes(st: Seq<SlicingTree>) -> Seq<Slicing> {
    st.map_values(|t: SlicingTree| t.shape())
}

impl SlicingTree {
    /// Builds the tree of a postfix expression with a stack.
    pub fn build(polish_expression: &PolishExpression) -> (r: Result<SlicingTree, FloorplanError>)
        requires
            extent_of(polish_expression@) <= MAX_EXTENT,
        ensures
            r is Ok <==> parse(polish_expression@) is Some,
            is_npe(polish_expression@) ==> r is Ok,
            r matches Ok(t) ==> {
                &&& t.wf()
                &&& parse(polish_expression@) == Some(t.shape())
                &&& polish_of(t.shape()) == polish_expression@
                &&& leaf_count(t.shape()) == count_operands(polish_expression@)
                &&& node_count(t.shape()) == count_operators(polish_expression@)
            },
            r matches Err(e) ==> e == FloorplanError::MalformedExpression,
    {
        let ghost s = polish_expression@;
        proof {
            if is_npe(s) {
                lemma_npe_parses(s);
            }
        }
        let elements = &polish_expression.elements;
        let mut stack: Vec<SlicingTree> = Vec::new();
        let mut i: usize = 0;
        assert(s.subrange(0, 0) =~= Seq::<Element>::empty());
        assert(shapes(stack@) =~= Seq::<Slicing>::empty());
        while i < elements.len()
            invariant
                s == elements@,
                s == polish_expression@,
                is_npe(s) ==> parse(s) is Some,
                extent_of(s) <= MAX_EXTENT,
                i <= s.len(),
                run_stack(s.subrange(0, i as int)) == Some(shapes(stack@)),
                forall|j: int| 0 <= j < stack@.len() ==> (#[trigger] stack@[j]).wf(),
            decreases s.len() - i,
        {
            proof {
                lemma_extent_prefix(s, i as int);
                lemma_extent_prefix(s, i + 1);
                lemma_extent_nonneg(s.subrange(0, i as int));
                assert(s.subrange(0, i + 1).drop_last() =~= s.subrange(0, i as int));
                assert(s.subrange(0, i + 1).last() == s[i as int]);
            }
            let e = elements[i];
            match e {
                Element::Operand(_) => {
                    let leaf = SlicingTree::new_leaf(e);
                    stack.push(leaf);
                    assert(shapes(stack@) =~= shapes(stack@.drop_last()).push(leaf.shape()));
                },
                Element::Operator(_) => {
                    if stack.len() < 2 {
                        proof {
                            assert(run_stack(s.subrange(0, i + 1)) is None);
                            lemma_run_stack_prefix_none(s, i + 1);
                        }
                        return Err(FloorplanError::MalformedExpression);
                    }
                    let ghost st = shapes(stack@);
                    proof {
                        lemma_run_stack_polish(s.subrange(0, i as int));
                        lemma_top_two_extent(st);
                    }
                    let right = match stack.pop() {
                        Some(t) => t,
                        None => {
                            return Err(FloorplanError::MalformedExpression);
                        },
                    };
                    let left = match stack.pop() {
                        Some(t) => t,
                        None => {
                            return Err(FloorplanError::MalformedExpression);
                        },
                    };
                    let node = SlicingTree::new_internal_node(e, left, right);
                    stack.push(node);
                    assert(shapes(stack@) =~= st.subrange(0, st.len() - 2).push(node.shape()));
                },
            }
            i += 1;
        }
        assert(s.subrange(0, s.len() as int) =~= s);
        if stack.len() != 1 {
            return Err(FloorplanError::MalformedExpression);
        }
        let ghost pre = stack@;
        match stack.pop() {
            Some(t) => {
                proof {
                    assert(pre =~= seq![t]);
                    assert(pre[0].wf());
                    lemma_run_stack_polish(s);
                    let st = shapes(seq![t]);
                    assert(st =~= seq![t.shape()]);
                    assert(st.drop_last() =~= Seq::<Slicing>::empty());
                    assert(polish_of_all(Seq::<Slicing>::empty()) + polish_of(t.shape()) =~= polish_of(
                        t.shape(),
                    ));
                    lemma_counts(t.shape());
                }
                Ok(t)
            },
            None => Err(FloorplanError::MalformedExpression),
        }
    }
}

// ---------------------------------------------------------------------------
// Area, wirelength and cost
// ---------------------------------------------------------------------------

pub open spec fn area_of(d: (u64, u64)) -> int {
    d.0 * d.1
}

/// Among the first `n` entries, the last one of least area.
pub open spec fn min_area_index(curve: Seq<(u64, u64)>, n: int) -> int
    decreases n,
{
    if n <= 1 {
        0
    } else {
        let k = min_area_index(curve, n - 1);
        if area_of(curve[n - 1]) <= area_of(curve[k]) {
            n - 1
        } else {
            k
        }
    }
}

/// The chosen dimensions of a curve: its last entry of least area.
pub open spec fn area_dims(curve: Seq<(u64, u64)>) -> (u64, u64) {
    curve[min_area_index(curve, curve.len() as int)]
}

pub proof fn lemma_min_area_index(curve: Seq<(u64, u64)>, n: int)
    requires
        1 <= n <= curve.len(),
    ensures
        0 <= min_area_index(curve, n) < n,
        forall|j: int|
            0 <= j < n ==> area_of(#[trigger] curve[j]) >= area_of(curve[min_area_index(curve, n)]),
        forall|j: int|
            min_area_index(curve, n) < j < n ==> area_of(#[trigger] curve[j]) > area_of(
                curve[min_area_index(curve, n)],
            ),
    decreases n,
{
    if n > 1 {
        lemma_min_area_index(curve, n - 1);
    }
}

/// The module at the end of the left spine.
pub open spec fn leftmost(t: Slicing) -> Module
    decreases t,
{
    match t {
        Slicing::Leaf(m) => m,
        Slicing::Node(_, l, _) => leftmost(*l),
    }
}

/// The module at the end of the right spine.
pub open spec fn rightmost(t: Slicing) -> Module
    decreases t,
{
    match t {
        Slicing::Leaf(m) => m,
        Slicing::Node(_, _, r) => rightmost(*r),
    }
}

pub proof fn lemma_spine_extent(t: Slicing)
    ensures
        leftmost(t).extent() <= slicing_extent(t),
        rightmost(t).extent() <= slicing_extent(t),
    decreases t,
{
    lemma_slicing_extent(t);
    match t {
        Slicing::Leaf(m) => {},
        Slicing::Node(_, l, r) => {
            lemma_spine_extent(*l);
            lemma_spine_extent(*r);
            lemma_slicing_extent(*l);
            lemma_slicing_extent(*r);
        },
    }
}

/// Twice the wirelength of the net between the two extreme pins: the
/// centre of the leftmost module at `(w/2, h/2)` and the centre of the
/// rightmost one at `(W - w/2, H - h/2)`, for the chosen `(W, H)`.
/// Doubling keeps every half unit exact.
pub open spec fn hpwl2_of(t: Slicing) -> int {
    let d = area_dims(curve_of(t));
    let l = leftmost(t);
    let r = rightmost(t);
    (2 * d.0 - r.width - l.width) + (2 * d.1 - r.height - l.height)
}

/// The largest area of a floorplan of the library.
pub const MAX_AREA: u64 = 0xffff_fffe_0000_0001;

/// The largest size of a doubled wirelength.
pub const MAX_HPWL: i64 = 0x3_ffff_fffc;

/// The weights of the cost `α·area/Ā + (1 − α)·HPWL/H̄`, with
/// `α = alpha_permille / 1000` and both averages in the units that the tree
/// reports (wirelength doubled).
#[derive(Clone, Copy, Debug, PartialEq, Eq, Structural)]
pub struct CostModel {
    pub alpha_permille: u32,
    pub average_area: u64,
    pub average_hpwl: i64,
}

impl CostModel {
    pub open spec fn wf(&self) -> bool {
        &&& self.alpha_permille <= 1000
        &&& -MAX_HPWL <= self.average_hpwl <= MAX_HPWL
    }
}

/// The cost multiplied by `1000·Ā·H̄`. One model gives every floorplan the
/// same factor, so for positive averages the order of costs and the ratios
/// of their differences are those of the cost itself, and all stays exact.
pub open spec fn weighted_cost(area: int, hpwl2: int, m: CostModel) -> int {
    m.alpha_permille * area * m.average_hpwl + (1000 - m.alpha_permille) * hpwl2 * m.average_area
}

pub open spec fn cost_of(t: Slicing, m: CostModel) -> int {
    weighted_cost(area_of(area_dims(curve_of(t))), hpwl2_of(t), m)
}

pub proof fn lemma_mul_bound_signed(x: int, xb: int, h: int, hb: int)
    requires
        0 <= x <= xb,
        -hb <= h <= hb,
    ensures
        -(xb * hb) <= x * h <= xb * hb,
{
    assert(-(xb * hb) <= x * h <= xb * hb) by (nonlinear_arith)
        requires
            0 <= x <= xb,
            -hb <= h <= hb,
    ;
}

impl SlicingTree {
    /// The dimensions chosen for the floorplan: the entry of least area on
    /// the curve, the last one among equals.
    pub fn get_area_dims(&self) -> (r: (u64, u64))
        requires
            self.wf(),
        ensures
            r == area_dims(self.dimensions@),
            r.0 <= MAX_EXTENT && r.1 <= MAX_EXTENT,
            exists|k: int|
                0 <= k < self.dimensions@.len() && #[trigger] self.dimensions@[k] == r && (forall|
                    j: int,
                |
                    0 <= j < self.dimensions@.len() ==> area_of(#[trigger] self.dimensions@[j])
                        >= area_of(r)) && (forall|j: int|
                    k < j < self.dimensions@.len() ==> area_of(#[trigger] self.dimensions@[j])
                        > area_of(r)),
    {
        let ghost curve = self.dimensions@;
        proof {
            lemma_curve_bounded(self.shape());
        }
        let first = self.dimensions[0];
        proof {
            assert(curve[0] == first);
            vstd::arithmetic::mul::lemma_mul_upper_bound(
                first.0 as int,
                MAX_EXTENT as int,
                first.1 as int,
                MAX_EXTENT as int,
            );
        }
        let mut best: usize = 0;
        let mut best_area: u64 = first.0 * first.1;
        let mut i: usize = 1;
        while i < self.dimensions.len()
            invariant
                curve == self.dimensions@,
                curve.len() >= 1,
                curve_within(curve, MAX_EXTENT as int),
                1 <= i <= curve.len(),
                best == min_area_index(curve, i as int),
                best < curve.len(),
                best_area == area_of(curve[best as int]),
            decreases curve.len() - i,
        {
            let d = self.dimensions[i];
            proof {
                vstd::arithmetic::mul::lemma_mul_upper_bound(
                    d.0 as int,
                    MAX_EXTENT as int,
                    d.1 as int,
                    MAX_EXTENT as int,
                );
            }
            let area = d.0 * d.1;
            if area <= best_area {
                best = i;
                best_area = area;
            }
            i += 1;
        }
        proof {
            lemma_min_area_index(curve, curve.len() as int);
        }
        self.dimensions[best]
    }

    /// The area of the chosen dimensions.
    pub fn get_area(&self) -> (r: u64)
        requires
            self.wf(),
        ensures
            r == area_of(area_dims(curve_of(self.shape()))),
            r <= MAX_AREA,
    {
        let d = self.get_area_dims();
        proof {
            vstd::arithmetic::mul::lemma_mul_upper_bound(
                d.0 as int,
                MAX_EXTENT as int,
                d.1 as int,
                MAX_EXTENT as int,
            );
        }
        d.0 * d.1
    }

    fn leftmost_module(&self) -> (r: Module)
        requires
            self.wf(),
        ensures
            r == leftmost(self.shape()),
        decreases self,
    {
        match self.value {
            Element::Operand(m) => m,
            Element::Operator(_) => match &self.left {
                Some(l) => l.leftmost_module(),
                None => {
                    proof {
                        assert(false);
                    }
                    Module::new(0, 0, 0, false)
                },
            },
        }
    }

    fn rightmost_module(&self) -> (r: Module)
        requires
            self.wf(),
        ensures
            r == rightmost(self.shape()),
        decreases self,
    {
        match self.value {
            Element::Operand(m) => m,
            Element::Operator(_) => match &self.right {
                Some(r) => r.rightmost_module(),
                None => {
                    proof {
                        assert(false);
                    }
                    Module::new(0, 0, 0, false)
                },
            },
        }
    }

    /// The two extreme pins within a floorplan of dimensions `area`, in half
    /// units: `(x_right, x_left, y_right, y_left)` doubled, where the left
    /// pin is the centre of the leftmost module and the right pin the centre
    /// of the rightmost module placed against the top right corner.
    pub fn get_pin_positions(&self, area: (u64, u64)) -> (r: (i64, i64, i64, i64))
        requires
            self.wf(),
            area.0 <= MAX_EXTENT,
            area.1 <= MAX_EXTENT,
        ensures
            r.0 == 2 * area.0 - rightmost(self.shape()).width,
            r.1 == leftmost(self.shape()).width,
            r.2 == 2 * area.1 - rightmost(self.shape()).height,
            r.3 == leftmost(self.shape()).height,
    {
        let l = self.leftmost_module();
        let r = self.rightmost_module();
        proof {
            lemma_spine_extent(self.shape());
        }
        (
            2 * (area.0 as i64) - r.width as i64,
            l.width as i64,
            2 * (area.1 as i64) - r.height as i64,
            l.height as i64,
        )
    }

    /// Twice the half-perimeter wirelength between the two extreme pins.
    pub fn get_hpwl(&self) -> (r: i64)
        requires
            self.wf(),
        ensures
            r == hpwl2_of(self.shape()),
            -MAX_HPWL <= r <= MAX_HPWL,
    {
        let area_dims = self.get_area_dims();
        let (max_x, min_x, max_y, min_y) = self.get_pin_positions(area_dims);
        proof {
            lemma_spine_extent(self.shape());
        }
        (max_x - min_x) + (max_y - min_y)
    }

    /// The weighted cost of the floorplan under `model`.
    pub fn get_cost(&self, model: &CostModel) -> (r: i128)
        requires
            self.wf(),
            model.wf(),
        ensures
            r == cost_of(self.shape(), *model),
    {
        let area = self.get_area();
        let hpwl = self.get_hpwl();
        let a = model.alpha_permille as i128;
        proof {
            vstd::arithmetic::mul::lemma_mul_upper_bound(a as int, 1000, area as int, MAX_AREA as int);
            lemma_mul_bound_signed(
                a * area,
                1000 * MAX_AREA,
                model.average_hpwl as int,
                MAX_HPWL as int,
            );
            lemma_mul_bound_signed(1000 - a, 1000, hpwl as int, MAX_HPWL as int);
            lemma_mul_bound_signed(
                model.average_area as int,
                u64::MAX as int,
                (1000 - a) * hpwl,
                1000 * MAX_HPWL,
            );
            vstd::arithmetic::mul::lemma_mul_is_commutative(
                (1000 - a) * hpwl,
                model.average_area as int,
            );
        }
        let area_term = a * (area as i128) * (model.average_hpwl as i128);
        let hpwl_term = (1000 - a) * (hpwl as i128) * (model.average_area as i128);
        area_term + hpwl_term
    }
}

impl SlicingTree {
    fn append_polish(&self, out: &mut Vec<Element>)
        requires
            self.wf(),
        ensures
            final(out)@ == old(out)@ + polish_of(self.shape()),
        decreases self,
    {
        match self.value {
            Element::Operand(m) => {
                out.push(Element::Operand(m));
            },
            Element::Operator(c) => match &self.left {
                Some(l) => match &self.right {
                    Some(r) => {
                        let ghost before = out@;
                        l.append_polish(out);
                        r.append_polish(out);
                        out.push(Element::Operator(c));
                        assert(out@ =~= before + polish_of(self.shape()));
                    },
                    None => {},
                },
                None => {},
            },
        }
    }

    /// The postfix expression of the tree.
    pub fn to_expression(&self) -> (r: PolishExpression)
        requires
            self.wf(),
        ensures
            r@ == polish_of(self.shape()),
    {
        let mut elements: Vec<Element> = Vec::new();
        self.append_polish(&mut elements);
        assert(elements@ =~= polish_of(self.shape()));
        PolishExpression::new(elements)
    }
}

/// Two identical square modules give the same area under either cut: every
/// normalized expression of two squares of side `side` has area `2·side²`.
pub proof fn lemma_two_squares_same_area(s: Seq<Element>, side: u32)
    requires
        is_npe(s),
        s.len() == 3,
        forall|k: int|
            0 <= k < 3 && #[trigger] s[k] is Operand ==> s[k]->Operand_0.width == side
                && s[k]->Operand_0.height == side,
    ensures
        parse(s) is Some,
        area_of(area_dims(curve_of(parse(s)->Some_0))) == 2 * side * side,
{
    crate::expression::lemma_balanced_ends(s);
    let a = s[0]->Operand_0;
    let b = s[1]->Operand_0;
    let c = s[2]->Operator_0;
    assert(s[0] is Operand && s[1] is Operand && s[2] is Operator);
    assert(s =~= seq![Element::Operand(a), Element::Operand(b), Element::Operator(c)]);
    let t = Slicing::Node(c, Box::new(Slicing::Leaf(a)), Box::new(Slicing::Leaf(b)));
    assert(polish_of(Slicing::Leaf(a)) == seq![Element::Operand(a)]);
    assert(polish_of(Slicing::Leaf(b)) == seq![Element::Operand(b)]);
    assert(polish_of(t) =~= s);
    lemma_parse_polish(t);
    let curve = curve_of(t);
    assert(leaf_curve(a) =~= seq![(side as u64, side as u64)]);
    assert(leaf_curve(b) =~= seq![(side as u64, side as u64)]);
    assert(curve_of(Slicing::Leaf(a)) == leaf_curve(a));
    assert(curve_of(Slicing::Leaf(b)) == leaf_curve(b));
    assert(curve == combine(leaf_curve(a), leaf_curve(b), c));
    assert(leaf_curve(a).len() == 1 && leaf_curve(b).len() == 1);
    assert(leaf_curve(a).len() * leaf_curve(b).len() == 1);
    assert(curve.len() == 1);
    assert(min_area_index(curve, 1) == 0);
    assert(0int / 1int == 0 && 0int % 1int == 0);
    let d = curve[0];
    match c {
        Cut::Vertical => {
            assert(d == ((2 * side) as u64, side as u64));
        },
        Cut::Horizontal => {
            assert(d == (side as u64, (2 * side) as u64));
        },
    }
    assert(area_of(d) == 2 * side * side) by (nonlinear_arith)
        requires
            (d.0 == 2 * side && d.1 == side) || (d.0 == side && d.1 == 2 * side),
    ;
}

/// Every operand of `s` is a square of side `side`.
pub open spec fn all_squares(s: Seq<Element>, side: u32) -> bool {
    forall|k: int|
        0 <= k < s.len() && !(#[trigger] s[k]).is_operator() ==> s[k]->Operand_0.width == side
            && s[k]->Operand_0.height == side
}

/// `s1` and `s2` hold the same cuts at the same places, and operands
/// elsewhere.
pub open spec fn same_cuts(s1: Seq<Element>, s2: Seq<Element>) -> bool {
    &&& s1.len() == s2.len()
    &&& forall|k: int|
        0 <= k < s1.len() ==> (#[trigger] s1[k]).is_operator() == s2[k].is_operator() && (
        s1[k].is_operator() ==> s1[k] == s2[k])
}

proof fn lemma_square_stacks(s1: Seq<Element>, s2: Seq<Element>, side: u32)
    requires
        same_cuts(s1, s2),
        all_squares(s1, side),
        all_squares(s2, side),
    ensures
        (run_stack(s1) is Some) == (run_stack(s2) is Some),
        run_stack(s1) is Some ==> run_stack(s1)->Some_0.len() == run_stack(s2)->Some_0.len()
            && forall|j: int|
            0 <= j < run_stack(s1)->Some_0.len() ==> curve_of(#[trigger] run_stack(s1)->Some_0[j])
                == curve_of(run_stack(s2)->Some_0[j]),
    decreases s1.len(),
{
    if s1.len() > 0 {
        let p1 = s1.drop_last();
        let p2 = s2.drop_last();
        assert forall|k: int| 0 <= k < p1.len() implies (#[trigger] p1[k]).is_operator()
            == p2[k].is_operator() && (p1[k].is_operator() ==> p1[k] == p2[k]) by {
            assert(s1[k].is_operator() == s2[k].is_operator());
        }
        assert forall|k: int| 0 <= k < p1.len() && !(#[trigger] p1[k]).is_operator() implies p1[k]->Operand_0.width == side
            && p1[k]->Operand_0.height == side by {
            assert(!s1[k].is_operator());
        }
        assert forall|k: int| 0 <= k < p2.len() && !(#[trigger] p2[k]).is_operator() implies p2[k]->Operand_0.width == side
            && p2[k]->Operand_0.height == side by {
            assert(!s2[k].is_operator());
        }
        lemma_square_stacks(p1, p2, side);
        let n = s1.len() - 1;
        assert(s1[n].is_operator() == s2[n].is_operator());
        if run_stack(p1) is Some {
            let st1 = run_stack(p1)->Some_0;
            let st2 = run_stack(p2)->Some_0;
            let m = st1.len() as int;
            match s1.last() {
                Element::Operand(a) => {
                    let b = s2.last()->Operand_0;
                    assert(!s1[n].is_operator() && !s2[n].is_operator());
                    assert(leaf_curve(a) =~= leaf_curve(b));
                    let r1 = st1.push(Slicing::Leaf(a));
                    let r2 = st2.push(Slicing::Leaf(b));
                    assert forall|j: int| 0 <= j < r1.len() implies curve_of(#[trigger] r1[j])
                        == curve_of(r2[j]) by {
                        if j < m {
                            assert(curve_of(st1[j]) == curve_of(st2[j]));
                        }
                    }
                },
                Element::Operator(c) => {
                    assert(s2.last() == s1.last());
                    if m >= 2 {
                        let r1 = st1.subrange(0, m - 2).push(
                            Slicing::Node(c, Box::new(st1[m - 2]), Box::new(st1[m - 1])),
                        );
                        let r2 = st2.subrange(0, m - 2).push(
                            Slicing::Node(c, Box::new(st2[m - 2]), Box::new(st2[m - 1])),
                        );
                        assert(curve_of(st1[m - 2]) == curve_of(st2[m - 2]));
                        assert(curve_of(st1[m - 1]) == curve_of(st2[m - 1]));
                        assert forall|j: int| 0 <= j < r1.len() implies curve_of(#[trigger] r1[j])
                            == curve_of(r2[j]) by {
                            if j < m - 2 {
                                assert(curve_of(st1[j]) == curve_of(st2[j]));
                            }
                        }
                    }
                },
            }
        }
    }
}

/// Over modules that are all squares of one side, the area depends only on
/// where the cuts stand and which they are: two expressions with the same
/// cuts at the same places (for instance, related by M1 moves) evaluate
/// alike and give the same shape curve and the same area.
pub proof fn lemma_equal_squares_same_area(s1: Seq<Element>, s2: Seq<Element>, side: u32)
    requires
        same_cuts(s1, s2),
        all_squares(s1, side),
        all_squares(s2, side),
    ensures
        (parse(s1) is Some) == (parse(s2) is Some),
        parse(s1) is Some ==> curve_of(parse(s1)->Some_0) == curve_of(parse(s2)->Some_0)
            && area_of(area_dims(curve_of(parse(s1)->Some_0))) == area_of(
            area_dims(curve_of(parse(s2)->Some_0)),
        ),
{
    lemma_square_stacks(s1, s2, side);
    if run_stack(s1) is Some && run_stack(s1)->Some_0.len() == 1 {
        assert(curve_of(run_stack(s1)->Some_0[0]) == curve_of(run_stack(s2)->Some_0[0]));
    }
}

} // verus!
