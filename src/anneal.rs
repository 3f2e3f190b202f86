use crate::expression::{extent_of, one_move, PolishExpression, MAX_EXTENT};
use crate::random::random_below;
use crate::module::Element;
use crate::tree::{
    area_dims, area_of, cost_of, curve_of, hpwl2_of, lemma_mul_bound_signed, parse, CostModel,
    SlicingTree, MAX_AREA, MAX_HPWL,
};
use rand::rngs::StdRng;
use vstd::prelude::*;

verus! {

/// The default weight of the area term, in thousandths.
pub const DEFAULT_ALPHA_PERMILLE: u32 = 700;

/// Moves tried per temperature for each module.
pub const MOVES_PER_TEMPERATURE_FACTOR: usize = 100;

/// Moves sampled to estimate the initial temperature.
pub const INITIAL_TEMPERATURE_MOVES: usize = 100;

/// The largest size of a weighted cost.
pub const MAX_COST: i128 = 0x4000_0000_0000_0000_0000_0000_0000;

/// The most moves the temperature sampling takes: their uphill sum stays
/// within `i128`.
pub const MAX_SAMPLING_MOVES: usize = 0x1_0000;

/// The weighted cost of the floorplan of a normalized Polish expression.
pub open spec fn expression_cost(s: Seq<Element>, model: CostModel) -> int {
    cost_of(parse(s)->Some_0, model)
}

/// An expression the annealer can evaluate: normalized and within the
/// 32-bit bound.
pub open spec fn usable(pe: PolishExpression) -> bool {
    pe.wf() && extent_of(pe@) <= MAX_EXTENT
}

proof fn lemma_cost_bound(area: int, hpwl: int, model: CostModel)
    requires
        model.wf(),
        0 <= area <= MAX_AREA,
        -MAX_HPWL <= hpwl <= MAX_HPWL,
    ensures
        -MAX_COST < crate::tree::weighted_cost(area, hpwl, model) < MAX_COST,
{
    let a = model.alpha_permille as int;
    vstd::arithmetic::mul::lemma_mul_upper_bound(a, 1000, area, MAX_AREA as int);
    lemma_mul_bound_signed(a * area, 1000 * MAX_AREA, model.average_hpwl as int, MAX_HPWL as int);
    lemma_mul_bound_signed(1000 - a, 1000, hpwl, MAX_HPWL as int);
    lemma_mul_bound_signed(
        model.average_area as int,
        u64::MAX as int,
        (1000 - a) * hpwl,
        1000 * MAX_HPWL,
    );
    vstd::arithmetic::mul::lemma_mul_is_commutative((1000 - a) * hpwl, model.average_area as int);
}

/// The weighted cost of a usable expression.
pub fn evaluate(pe: &PolishExpression, model: &CostModel) -> (r: i128)
    requires
        usable(*pe),
        model.wf(),
    ensures
        r == expression_cost(pe@, *model),
        -MAX_COST < r < MAX_COST,
{
    match SlicingTree::build(pe) {
        Ok(tree) => {
            let area = tree.get_area();
            let hpwl = tree.get_hpwl();
            proof {
                lemma_cost_bound(area as int, hpwl as int, *model);
            }
            tree.get_cost(model)
        },
        Err(_) => {
            proof {
                assert(false);
            }
            0
        },
    }
}

/// One move drawn at random: M1, M2 or M3, each with chance one third.
pub fn apply_random_move(pe: &mut PolishExpression, rng: &mut StdRng)
    requires
        old(pe).wf(),
    ensures
        final(pe).wf(),
        one_move(old(pe)@, final(pe)@),
        extent_of(final(pe)@) == extent_of(old(pe)@),
{
    match random_below(rng, 3) {
        0 => pe.m1(rng),
        1 => pe.m2(rng),
        _ => pe.m3(rng),
    }
}

pub open spec fn sum_of(values: Seq<int>) -> int
    decreases values.len(),
{
    if values.len() == 0 {
        0
    } else {
        sum_of(values.drop_last()) + values.last()
    }
}

/// The mean of non-negative values, rounded down.
pub fn mean_area(values: &Vec<u64>) -> (r: u64)
    requires
        values@.len() > 0,
        forall|k: int| 0 <= k < values@.len() ==> #[trigger] values@[k] <= MAX_AREA,
    ensures
        r == sum_of(values@.map_values(|v: u64| v as int)) / (values@.len() as int),
        r <= MAX_AREA,
{
    let ghost vals = values@.map_values(|v: u64| v as int);
    let _ = values.len();
    let mut total: u128 = 0;
    let mut i: usize = 0;
    while i < values.len()
        invariant
            vals == values@.map_values(|v: u64| v as int),
            forall|k: int| 0 <= k < values@.len() ==> #[trigger] values@[k] <= MAX_AREA,
            i <= values@.len(),
            values@.len() <= usize::MAX,
            total == sum_of(vals.subrange(0, i as int)),
            total <= i * (MAX_AREA as int),
        decreases values@.len() - i,
    {
        proof {
            assert(vals.subrange(0, i + 1).drop_last() =~= vals.subrange(0, i as int));
            assert((i + 1) * (MAX_AREA as int) == i * (MAX_AREA as int) + MAX_AREA) by (nonlinear_arith);
            assert(i * (MAX_AREA as int) <= usize::MAX * (MAX_AREA as int)) by (nonlinear_arith)
                requires
                    i <= usize::MAX,
            ;
        }
        total = total + values[i] as u128;
        i += 1;
    }
    assert(vals.subrange(0, i as int) =~= vals);
    let n = values.len() as u128;
    proof {
        let t = total as int;
        let m = n as int;
        assert(t / m <= MAX_AREA) by (nonlinear_arith)
            requires
                0 <= t <= m * (MAX_AREA as int),
                m > 0,
        ;
    }
    (total / n) as u64
}

/// `total / n`, rounded toward zero.
pub open spec fn mean_toward_zero(total: int, n: int) -> int {
    if total >= 0 {
        total / n
    } else {
        -((-total) / n)
    }
}

/// The mean of doubled wirelengths, rounded toward zero.
pub fn mean_hpwl(values: &Vec<i64>) -> (r: i64)
    requires
        values@.len() > 0,
        forall|k: int|
            0 <= k < values@.len() ==> -MAX_HPWL <= #[trigger] values@[k] <= MAX_HPWL,
    ensures
        r == mean_toward_zero(
            sum_of(values@.map_values(|v: i64| v as int)),
            values@.len() as int,
        ),
        -MAX_HPWL <= r <= MAX_HPWL,
{
    let ghost vals = values@.map_values(|v: i64| v as int);
    let _ = values.len();
    let mut total: i128 = 0;
    let mut i: usize = 0;
    while i < values.len()
        invariant
            vals == values@.map_values(|v: i64| v as int),
            forall|k: int|
                0 <= k < values@.len() ==> -MAX_HPWL <= #[trigger] values@[k] <= MAX_HPWL,
            i <= values@.len(),
            values@.len() <= usize::MAX,
            total == sum_of(vals.subrange(0, i as int)),
            -(i * (MAX_HPWL as int)) <= total <= i * (MAX_HPWL as int),
        decreases values@.len() - i,
    {
        proof {
            assert(vals.subrange(0, i + 1).drop_last() =~= vals.subrange(0, i as int));
            assert((i + 1) * (MAX_HPWL as int) == i * (MAX_HPWL as int) + MAX_HPWL) by (nonlinear_arith);
            assert(i * (MAX_HPWL as int) <= usize::MAX * (MAX_HPWL as int)) by (nonlinear_arith)
                requires
                    i <= usize::MAX,
            ;
        }
        total = total + values[i] as i128;
        i += 1;
    }
    assert(vals.subrange(0, i as int) =~= vals);
    let n = values.len() as u128;
    let t = total;
    proof {
        let m = n as int;
        let ti = if t >= 0 { t as int } else { -(t as int) };
        assert(ti / m <= MAX_HPWL) by (nonlinear_arith)
            requires
                0 <= ti <= m * (MAX_HPWL as int),
                m > 0,
        ;
        assert(ti / m >= 0) by (nonlinear_arith)
            requires
                0 <= ti,
                m > 0,
        ;
    }
    if t >= 0 {
        ((t as u128) / n) as i64
    } else {
        -((((-t) as u128) / n) as i64)
    }
}

/// `trail` is a walk of `n` moves from `from` to `to`.
pub open spec fn is_walk(
    trail: Seq<Seq<Element>>,
    from: Seq<Element>,
    to: Seq<Element>,
    n: int,
) -> bool {
    &&& trail.len() == n + 1
    &&& trail[0] == from
    &&& trail[n] == to
    &&& forall|k: int| 0 <= k < n ==> #[trigger] one_move(trail[k], trail[k + 1])
}

/// The areas of the floorplans after each of the `n` moves of `trail`.
pub open spec fn walk_areas(trail: Seq<Seq<Element>>, n: int) -> Seq<int> {
    Seq::new(n as nat, |k: int| area_of(area_dims(curve_of(parse(trail[k + 1])->Some_0))))
}

/// The doubled wirelengths of the floorplans after each of the `n` moves of
/// `trail`.
pub open spec fn walk_hpwls(trail: Seq<Seq<Element>>, n: int) -> Seq<int> {
    Seq::new(n as nat, |k: int| hpwl2_of(parse(trail[k + 1])->Some_0))
}

/// The costs of the expressions after each of the `n` moves of `trail`.
pub open spec fn walk_costs(trail: Seq<Seq<Element>>, n: int, model: CostModel) -> Seq<int> {
    Seq::new(n as nat, |k: int| expression_cost(trail[k + 1], model))
}

/// Sum and number of the rises in `costs`, each cost compared with the one
/// before it and the first with `start`.
pub open spec fn uphill(costs: Seq<int>, start: int) -> (int, int)
    decreases costs.len(),
{
    if costs.len() == 0 {
        (0, 0)
    } else {
        let (total, count) = uphill(costs.drop_last(), start);
        let before = if costs.len() == 1 {
            start
        } else {
            costs[costs.len() - 2]
        };
        let rise = costs.last() - before;
        if rise > 0 {
            (total + rise, count + 1)
        } else {
            (total, count)
        }
    }
}

proof fn lemma_walk_extend(
    trail: Seq<Seq<Element>>,
    from: Seq<Element>,
    to: Seq<Element>,
    n: int,
    next: Seq<Element>,
)
    requires
        n >= 0,
        is_walk(trail, from, to, n),
        one_move(to, next),
    ensures
        is_walk(trail.push(next), from, next, n + 1),
{
    let t = trail.push(next);
    assert forall|k: int| 0 <= k < n + 1 implies #[trigger] one_move(t[k], t[k + 1]) by {
        if k < n {
            assert(t[k] == trail[k] && t[k + 1] == trail[k + 1]);
            assert(one_move(trail[k], trail[k + 1]));
        }
    }
}

/// The averages pass: `m` random moves that accumulate on `pe`, returning
/// the mean area (rounded down) and the mean doubled wirelength (rounded
/// toward zero) of the `m` floorplans visited after each move.
pub fn get_averages(pe: &mut PolishExpression, m: usize, rng: &mut StdRng) -> (r: (u64, i64))
    requires
        usable(*old(pe)),
        m > 0,
    ensures
        usable(*final(pe)),
        extent_of(final(pe)@) == extent_of(old(pe)@),
        r.0 <= MAX_AREA,
        -MAX_HPWL <= r.1 <= MAX_HPWL,
        exists|trail: Seq<Seq<Element>>|
            #![trigger is_walk(trail, old(pe)@, final(pe)@, m as int)]
            is_walk(trail, old(pe)@, final(pe)@, m as int) && r.0 == sum_of(
                walk_areas(trail, m as int),
            ) / (m as int) && r.1 == mean_toward_zero(
                sum_of(walk_hpwls(trail, m as int)),
                m as int,
            ),
{
    let mut random_areas: Vec<u64> = Vec::new();
    let mut random_hpwls: Vec<i64> = Vec::new();
    let ghost e0 = extent_of(pe@);
    let ghost s0 = pe@;
    let ghost mut trail: Seq<Seq<Element>> = seq![pe@];
    let mut i: usize = 0;
    while i < m
        invariant
            usable(*pe),
            extent_of(pe@) == e0,
            i <= m,
            is_walk(trail, s0, pe@, i as int),
            random_areas@.len() == i,
            random_hpwls@.len() == i,
            random_areas@.map_values(|v: u64| v as int) == walk_areas(trail, i as int),
            random_hpwls@.map_values(|v: i64| v as int) == walk_hpwls(trail, i as int),
            forall|k: int| 0 <= k < i ==> #[trigger] random_areas@[k] <= MAX_AREA,
            forall|k: int| 0 <= k < i ==> -MAX_HPWL <= #[trigger] random_hpwls@[k] <= MAX_HPWL,
        decreases m - i,
    {
        let ghost before = pe@;
        apply_random_move(pe, rng);
        proof {
            lemma_walk_extend(trail, s0, before, i as int, pe@);
        }
        let ghost old_trail = trail;
        proof {
            trail = trail.push(pe@);
        }
        match SlicingTree::build(pe) {
            Ok(tree) => {
                let area = tree.get_area();
                let hpwl = tree.get_hpwl();
                let ghost old_areas = random_areas@.map_values(|v: u64| v as int);
                let ghost old_hpwls = random_hpwls@.map_values(|v: i64| v as int);
                random_areas.push(area);
                random_hpwls.push(hpwl);
                assert forall|k: int| 0 <= k < i implies #[trigger] trail[k + 1] == old_trail[k + 1] by {}
                assert(trail[i + 1] == pe@);
                let ghost new_areas = random_areas@.map_values(|v: u64| v as int);
                let ghost new_hpwls = random_hpwls@.map_values(|v: i64| v as int);
                assert forall|k: int| 0 <= k < i + 1 implies #[trigger] new_areas[k] == walk_areas(
                    trail,
                    i + 1,
                )[k] && new_hpwls[k] == walk_hpwls(trail, i + 1)[k] by {
                    if k < i {
                        assert(old_areas[k] == walk_areas(old_trail, i as int)[k]);
                        assert(old_hpwls[k] == walk_hpwls(old_trail, i as int)[k]);
                        assert(trail[k + 1] == old_trail[k + 1]);
                    }
                }
                assert forall|k: int| 0 <= k < i + 1 implies #[trigger] new_hpwls[k] == walk_hpwls(
                    trail,
                    i + 1,
                )[k] by {
                    assert(new_areas[k] == walk_areas(trail, i + 1)[k]);
                }
                assert(random_areas@.map_values(|v: u64| v as int) =~= walk_areas(
                    trail,
                    i + 1,
                ));
                assert(random_hpwls@.map_values(|v: i64| v as int) =~= walk_hpwls(
                    trail,
                    i + 1,
                ));
            },
            Err(_) => {
                proof {
                    assert(false);
                }
            },
        }
        i += 1;
    }
    let area = mean_area(&random_areas);
    let hpwl = mean_hpwl(&random_hpwls);
    assert(is_walk(trail, s0, pe@, m as int));
    (area, hpwl)
}

/// The sampling pass of the initial temperature: `moves` random moves that
/// accumulate on `pe`, starting from its own cost. A move counts as uphill
/// when its cost exceeds the cost of the expression just before it. Returns
/// the sum of the uphill differences and their number; the mean uphill
/// difference `Δ̄` is their ratio, and the initial temperature is
/// `-Δ̄ / ln P`.
pub fn uphill_statistics(
    pe: &mut PolishExpression,
    model: &CostModel,
    moves: usize,
    rng: &mut StdRng,
) -> (r: (i128, usize))
    requires
        usable(*old(pe)),
        model.wf(),
        moves <= MAX_SAMPLING_MOVES,
    ensures
        usable(*final(pe)),
        extent_of(final(pe)@) == extent_of(old(pe)@),
        r.1 <= moves,
        r.1 == 0 <==> r.0 == 0,
        r.0 >= 0,
        exists|trail: Seq<Seq<Element>>|
            #![trigger is_walk(trail, old(pe)@, final(pe)@, moves as int)]
            is_walk(trail, old(pe)@, final(pe)@, moves as int) && (r.0 as int, r.1 as int)
                == uphill(
                walk_costs(trail, moves as int, *model),
                expression_cost(old(pe)@, *model),
            ),
{
    let mut previous_cost: i128 = evaluate(pe, model);
    let mut cost_difs: i128 = 0;
    let mut uphill_moves: usize = 0;
    let ghost e0 = extent_of(pe@);
    let ghost s0 = pe@;
    let ghost start = previous_cost as int;
    let ghost mut trail: Seq<Seq<Element>> = seq![pe@];
    let mut i: usize = 0;
    while i < moves
        invariant
            usable(*pe),
            model.wf(),
            extent_of(pe@) == e0,
            i <= moves,
            moves <= MAX_SAMPLING_MOVES,
            is_walk(trail, s0, pe@, i as int),
            start == expression_cost(s0, *model),
            previous_cost == expression_cost(pe@, *model),
            -MAX_COST < previous_cost < MAX_COST,
            (cost_difs as int, uphill_moves as int) == uphill(
                walk_costs(trail, i as int, *model),
                start,
            ),
            uphill_moves <= i,
            0 <= cost_difs <= i * (2 * MAX_COST),
            uphill_moves == 0 <==> cost_difs == 0,
        decreases moves - i,
    {
        let ghost before = pe@;
        let ghost old_trail = trail;
        apply_random_move(pe, rng);
        proof {
            lemma_walk_extend(trail, s0, before, i as int, pe@);
            trail = trail.push(pe@);
            assert forall|k: int| 0 <= k < i implies #[trigger] trail[k + 1] == old_trail[k + 1] by {}
            let costs = walk_costs(trail, i + 1, *model);
            assert(costs.drop_last() =~= walk_costs(old_trail, i as int, *model));
            if i > 0 {
                assert(costs[i - 1] == expression_cost(old_trail[i as int], *model));
            }
            assert((i + 1) * (2 * MAX_COST) == i * (2 * MAX_COST) + 2 * MAX_COST) by (nonlinear_arith);
            assert((i + 1) * (2 * MAX_COST) <= MAX_SAMPLING_MOVES * (2 * MAX_COST)) by (nonlinear_arith)
                requires
                    i + 1 <= MAX_SAMPLING_MOVES,
            ;
        }
        let cost = evaluate(pe, model);
        let dif = cost - previous_cost;
        if dif > 0 {
            cost_difs = cost_difs + dif;
            uphill_moves += 1;
        }
        previous_cost = cost;
        i += 1;
    }
    (cost_difs, uphill_moves)
}

/// The state of an annealing run: the current and the best expression with
/// their costs, and the moves rejected at the present temperature.
#[derive(Debug)]
pub struct Annealer {
    pub model: CostModel,
    pub current: PolishExpression,
    pub current_cost: i128,
    pub best: PolishExpression,
    pub best_cost: i128,
    pub rejected: usize,
}

impl Annealer {
    pub open spec fn wf(&self) -> bool {
        &&& self.model.wf()
        &&& usable(self.current)
        &&& usable(self.best)
        &&& self.current_cost == expression_cost(self.current@, self.model)
        &&& self.best_cost == expression_cost(self.best@, self.model)
        &&& self.best_cost <= self.current_cost
        &&& -MAX_COST < self.best_cost < MAX_COST
        &&& -MAX_COST < self.current_cost < MAX_COST
    }

    /// A run that starts, and so far has its best, at `seed`.
    pub fn new(seed: &PolishExpression, model: CostModel) -> (r: Annealer)
        requires
            usable(*seed),
            model.wf(),
        ensures
            r.wf(),
            r.model == model,
            r.current@ == seed@,
            r.best@ == seed@,
            r.rejected == 0,
    {
        let cost = evaluate(seed, &model);
        Annealer {
            model,
            current: seed.snapshot(),
            current_cost: cost,
            best: seed.snapshot(),
            best_cost: cost,
            rejected: 0,
        }
    }

    /// A random move tried on a copy of the current expression, with the
    /// change of cost it would bring.
    pub fn propose(&self, rng: &mut StdRng) -> (r: (PolishExpression, i128))
        requires
            self.wf(),
        ensures
            usable(r.0),
            one_move(self.current@, r.0@),
            extent_of(r.0@) == extent_of(self.current@),
            r.1 == expression_cost(r.0@, self.model) - self.current_cost,
    {
        let mut candidate = self.current.snapshot();
        apply_random_move(&mut candidate, rng);
        let cost = evaluate(&candidate, &self.model);
        (candidate, cost - self.current_cost)
    }

    /// The Metropolis decision on `candidate`: a move that does not raise the
    /// cost is always taken, one that raises it only when `accept_uphill`
    /// (drawn by the caller with chance `exp(-Δ/T)`). A taken move that beats
    /// the best cost becomes the best; a refused one counts as rejected.
    /// Returns whether the move was taken.
    pub fn step(&mut self, candidate: PolishExpression, accept_uphill: bool) -> (r: bool)
        requires
            old(self).wf(),
            usable(candidate),
            old(self).rejected < usize::MAX,
        ensures
            final(self).wf(),
            final(self).model == old(self).model,
            r == (expression_cost(candidate@, old(self).model) <= old(self).current_cost
                || accept_uphill),
            r ==> final(self).current@ == candidate@ && final(self).rejected == old(self).rejected,
            !r ==> final(self).current@ == old(self).current@ && final(self).rejected == old(
                self,
            ).rejected + 1,
            r && expression_cost(candidate@, old(self).model) < old(self).best_cost
                ==> final(self).best@ == candidate@,
            !(r && expression_cost(candidate@, old(self).model) < old(self).best_cost)
                ==> final(self).best@ == old(self).best@,
            final(self).best_cost <= old(self).best_cost,
    {
        let cost = evaluate(&candidate, &self.model);
        if cost - self.current_cost <= 0 || accept_uphill {
            if cost < self.best_cost {
                self.best = candidate.snapshot();
                self.best_cost = cost;
            }
            self.current = candidate;
            self.current_cost = cost;
            true
        } else {
            self.rejected = self.rejected + 1;
            false
        }
    }

    /// Begins a temperature: no move rejected yet.
    pub fn start_temperature(&mut self)
        requires
            old(self).wf(),
        ensures
            final(self).wf(),
            final(self).rejected == 0,
            final(self).model == old(self).model,
            final(self).current@ == old(self).current@,
            final(self).best@ == old(self).best@,
            final(self).best_cost == old(self).best_cost,
    {
        self.rejected = 0;
    }

    /// Whether at most 95% of the `moves_per_temperature` moves were rejected.
    pub fn keep_cooling(&self, moves_per_temperature: usize) -> (r: bool)
        ensures
            r == (20 * self.rejected <= 19 * moves_per_temperature),
    {
        (self.rejected as u128) * 20 <= (moves_per_temperature as u128) * 19
    }
}

} // verus!
