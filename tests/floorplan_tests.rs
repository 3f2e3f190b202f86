use floorplan::anneal::{
    apply_random_move, evaluate, mean_area, mean_hpwl, uphill_statistics, get_averages, Annealer,
};
use floorplan::expression::PolishExpression;
use floorplan::tree::{CostModel, SlicingTree};
use floorplan::{Cut, Element, FloorplanError, Module};
use rand::rngs::StdRng;
use rand::{Rng, SeedableRng};

fn expr(text: &str, modules: &[Module]) -> PolishExpression {
    let mut elements = Vec::new();
    for token in text.split(' ') {
        match token {
            "*" => elements.push(Element::Operator(Cut::Vertical)),
            "+" => elements.push(Element::Operator(Cut::Horizontal)),
            name => {
                let name: i32 = name.parse().unwrap();
                let m = modules.iter().find(|m| m.name == name).unwrap();
                elements.push(Element::Operand(*m));
            }
        }
    }
    PolishExpression::new(elements)
}

fn text(pe: &PolishExpression) -> String {
    let parts: Vec<String> = pe
        .elements
        .iter()
        .map(|e| match e {
            Element::Operand(m) => m.name.to_string(),
            Element::Operator(Cut::Vertical) => "*".to_string(),
            Element::Operator(Cut::Horizontal) => "+".to_string(),
        })
        .collect();
    parts.join(" ")
}

fn squares(n: i32, side: u32) -> Vec<Module> {
    (1..=n).map(|i| Module::new(i, side, side, false)).collect()
}

fn build(pe: &PolishExpression) -> SlicingTree {
    SlicingTree::build(pe).unwrap()
}

#[test]
fn module_area_is_width_times_height() {
    let m = Module::new(3, 4, 5, true);
    assert_eq!(m.area, 20);
    assert_eq!(m.name, 3);
    assert!(m.rotatable);
}

#[test]
fn two_modules_end_to_end() {
    let modules = vec![Module::new(1, 2, 3, false), Module::new(2, 4, 1, false)];
    let seed = PolishExpression::seed(&modules).unwrap();
    assert_eq!(text(&seed), "1 2 *");
    let tree = build(&seed);
    assert_eq!(tree.dimensions, vec![(6, 3)]);
    assert_eq!(tree.get_area_dims(), (6, 3));
    assert_eq!(tree.get_area(), 18);
    // Left pin (1, 1.5), right pin (6 - 2, 3 - 0.5): all doubled.
    assert_eq!(tree.get_pin_positions((6, 3)), (8, 2, 5, 3));
    // (4 - 1) + (2.5 - 1.5) = 4, doubled.
    assert_eq!(tree.get_hpwl(), 8);
}

#[test]
fn cost_is_weighted_and_scaled() {
    let modules = vec![Module::new(1, 2, 3, false), Module::new(2, 4, 1, false)];
    let tree = build(&PolishExpression::seed(&modules).unwrap());
    let model = CostModel { alpha_permille: 700, average_area: 18, average_hpwl: 8 };
    // 1000 * 18 * 8 * (0.7 * 18 / 18 + 0.3 * 8 / 8)
    assert_eq!(tree.get_cost(&model), 144000);
    let area_only = CostModel { alpha_permille: 1000, average_area: 18, average_hpwl: 8 };
    assert_eq!(tree.get_cost(&area_only), 1000 * 18 * 8);
}

#[test]
fn three_squares_prefer_vertical_spine() {
    let modules = squares(3, 2);
    let seed = PolishExpression::seed(&modules).unwrap();
    assert_eq!(text(&seed), "1 2 * 3 *");
    let tree = build(&seed);
    assert_eq!(tree.dimensions, vec![(6, 2)]);
    assert_eq!(tree.get_area(), 12);
    let mut flipped = seed.snapshot();
    flipped.m2_at(4);
    assert_eq!(text(&flipped), "1 2 * 3 +");
    let flipped_tree = build(&flipped);
    assert_eq!(flipped_tree.dimensions, vec![(4, 4)]);
    assert_eq!(flipped_tree.get_area(), 16);
    let model = CostModel { alpha_permille: 1000, average_area: 14, average_hpwl: 8 };
    assert!(evaluate(&seed, &model) < evaluate(&flipped, &model));
}

#[test]
fn rotatable_leaf_has_two_shapes() {
    let leaf = SlicingTree::new_leaf(Element::Operand(Module::new(1, 3, 5, true)));
    assert_eq!(leaf.dimensions, vec![(3, 5), (5, 3)]);
}

#[test]
fn rotatable_pair_under_horizontal_cut() {
    let a = SlicingTree::new_leaf(Element::Operand(Module::new(1, 3, 5, true)));
    let b = SlicingTree::new_leaf(Element::Operand(Module::new(2, 4, 2, true)));
    let node = SlicingTree::new_internal_node(Element::Operator(Cut::Horizontal), a, b);
    assert_eq!(node.dimensions, vec![(4, 7), (3, 9), (5, 5), (5, 7)]);
    assert_eq!(node.get_area_dims(), (5, 5));
}

#[test]
fn square_or_fixed_leaf_has_one_shape() {
    let square = SlicingTree::new_leaf(Element::Operand(Module::new(1, 4, 4, true)));
    assert_eq!(square.dimensions, vec![(4, 4)]);
    let fixed = SlicingTree::new_leaf(Element::Operand(Module::new(2, 3, 7, false)));
    assert_eq!(fixed.dimensions, vec![(3, 7)]);
}

#[test]
fn inner_curve_holds_every_pairing() {
    let a = SlicingTree::new_leaf(Element::Operand(Module::new(1, 1, 2, true)));
    let b = SlicingTree::new_leaf(Element::Operand(Module::new(2, 3, 4, true)));
    let node = SlicingTree::new_internal_node(Element::Operator(Cut::Vertical), a, b);
    assert_eq!(node.dimensions, vec![(4, 4), (5, 3), (5, 4), (6, 3)]);
    let c = SlicingTree::new_leaf(Element::Operand(Module::new(3, 5, 6, true)));
    let top = SlicingTree::new_internal_node(Element::Operator(Cut::Horizontal), node, c);
    assert_eq!(top.dimensions.len(), 8);
}

#[test]
fn area_dims_takes_last_of_equal_areas() {
    let a = SlicingTree::new_leaf(Element::Operand(Module::new(1, 1, 10, true)));
    let b = SlicingTree::new_leaf(Element::Operand(Module::new(2, 1, 10, true)));
    let node = SlicingTree::new_internal_node(Element::Operator(Cut::Vertical), a, b);
    assert_eq!(node.dimensions, vec![(2, 10), (11, 10), (11, 10), (20, 1)]);
    assert_eq!(node.get_area_dims(), (20, 1));
}

#[test]
fn m2_chain_complement_round_trip() {
    let modules = squares(4, 1);
    let seed = PolishExpression::seed(&modules).unwrap();
    assert_eq!(text(&seed), "1 2 * 3 * 4 *");
    assert_eq!(seed.chain_starts(), vec![2, 4, 6]);
    let mut e = seed.snapshot();
    e.m2_at(6);
    assert_eq!(text(&e), "1 2 * 3 * 4 +");
    e.m2_at(6);
    assert_eq!(text(&e), "1 2 * 3 * 4 *");
}

#[test]
fn m2_complements_a_whole_chain() {
    let modules = squares(3, 1);
    let mut e = expr("1 2 3 * +", &modules);
    e.m2_at(3);
    assert_eq!(text(&e), "1 2 3 + *");
    assert!(e.is_valid());
}

#[test]
fn m3_rejects_unbalanced_swap() {
    let modules = squares(3, 1);
    let mut e = expr("1 2 * 3 +", &modules);
    assert_eq!(e.operand_operators(), vec![1, 2, 3]);
    assert!(!e.m3_at(1));
    assert_eq!(text(&e), "1 2 * 3 +");
    assert!(!e.m3_at(3));
    assert_eq!(text(&e), "1 2 * 3 +");
    assert!(e.m3_at(2));
    assert_eq!(text(&e), "1 2 3 * +");
}

#[test]
fn m3_takes_the_only_accepted_swap() {
    let modules = squares(3, 1);
    for seed in 0..20u64 {
        let mut rng = StdRng::seed_from_u64(seed);
        let mut e = expr("1 2 * 3 +", &modules);
        e.m3(&mut rng);
        assert_eq!(text(&e), "1 2 3 * +");
    }
}

#[test]
fn m3_rejects_equal_adjacent_operators() {
    let modules = squares(3, 1);
    let mut e = expr("1 2 * 3 *", &modules);
    // Moving `3` left of the first `*` would give `1 2 3 * *`.
    assert!(!e.m3_at(2));
    assert_eq!(text(&e), "1 2 * 3 *");
}

#[test]
fn m1_swaps_adjacent_operands() {
    let modules = squares(3, 1);
    let mut e = expr("1 2 * 3 *", &modules);
    assert_eq!(e.operands(), vec![0, 1, 3]);
    e.m1_at(1);
    assert_eq!(text(&e), "1 3 * 2 *");
    e.m1_at(1);
    assert_eq!(text(&e), "1 2 * 3 *");
}

#[test]
fn two_modules_moves() {
    let modules = squares(2, 1);
    for seed in 0..10u64 {
        let mut rng = StdRng::seed_from_u64(seed);
        let mut e = expr("1 2 *", &modules);
        e.m3(&mut rng);
        assert_eq!(text(&e), "1 2 *");
        e.m1(&mut rng);
        assert_eq!(text(&e), "2 1 *");
        e.m2(&mut rng);
        assert_eq!(text(&e), "2 1 +");
        let (i, j) = e.get_random_operands(&mut rng);
        assert_eq!((i, j), (0, 1));
    }
}

#[test]
fn two_identical_squares_same_area() {
    let modules = squares(2, 3);
    let vertical = build(&expr("1 2 *", &modules));
    let horizontal = build(&expr("1 2 +", &modules));
    assert_eq!(vertical.get_area(), 18);
    assert_eq!(horizontal.get_area(), 18);
}

#[test]
fn round_trip_of_hand_built_tree() {
    let leaf = |n: i32, w: u32, h: u32| {
        SlicingTree::new_leaf(Element::Operand(Module::new(n, w, h, n % 2 == 0)))
    };
    let left = SlicingTree::new_internal_node(
        Element::Operator(Cut::Horizontal),
        leaf(1, 2, 3),
        leaf(2, 4, 1),
    );
    let inner = SlicingTree::new_internal_node(
        Element::Operator(Cut::Horizontal),
        leaf(3, 1, 1),
        leaf(4, 5, 2),
    );
    let right = SlicingTree::new_internal_node(Element::Operator(Cut::Vertical), inner, leaf(5, 2, 2));
    let tree = SlicingTree::new_internal_node(Element::Operator(Cut::Vertical), left, right);
    let e = tree.to_expression();
    assert_eq!(text(&e), "1 2 + 3 4 + 5 * *");
    let rebuilt = SlicingTree::build(&e).unwrap();
    assert_eq!(rebuilt, tree);
}

#[test]
fn malformed_expressions_are_refused() {
    let modules = squares(2, 1);
    assert_eq!(SlicingTree::build(&expr("1 *", &modules)), Err(FloorplanError::MalformedExpression));
    assert_eq!(SlicingTree::build(&expr("1 2", &modules)), Err(FloorplanError::MalformedExpression));
    assert_eq!(
        SlicingTree::build(&PolishExpression::new(Vec::new())),
        Err(FloorplanError::MalformedExpression)
    );
}

#[test]
fn seed_needs_two_modules() {
    assert!(matches!(
        PolishExpression::seed(&squares(1, 1)),
        Err(FloorplanError::InsufficientModules)
    ));
    assert!(matches!(PolishExpression::seed(&Vec::new()), Err(FloorplanError::InsufficientModules)));
}

#[test]
fn validity_check() {
    let modules = squares(3, 1);
    assert!(expr("1 2 * 3 +", &modules).is_valid());
    assert!(expr("1 2 * 3 *", &modules).is_valid());
    assert!(!expr("1 2 3 * *", &modules).is_valid());
    assert!(!expr("1 * 2 3 +", &modules).is_valid());
    assert!(!expr("1 2 3 *", &modules).is_valid());
    assert!(!PolishExpression::new(Vec::new()).is_valid());
}

#[test]
fn random_moves_keep_expressions_normalized() {
    let modules: Vec<Module> = (1..=6).map(|i| Module::new(i, i as u32, 7 - i as u32, i % 2 == 0)).collect();
    let mut e = PolishExpression::seed(&modules).unwrap();
    assert!(e.is_valid());
    let mut rng = StdRng::seed_from_u64(7);
    for _ in 0..500 {
        apply_random_move(&mut e, &mut rng);
        assert!(e.is_valid());
        assert!(SlicingTree::build(&e).is_ok());
    }
}

#[test]
fn fits_bound() {
    let small = squares(2, 10);
    assert!(PolishExpression::seed(&small).unwrap().fits());
    let big = vec![Module::new(1, u32::MAX, 1, false), Module::new(2, 1, 1, false)];
    assert!(!PolishExpression::seed(&big).unwrap().fits());
}

#[test]
fn means_round_as_documented() {
    assert_eq!(mean_area(&vec![1, 2, 4]), 2);
    assert_eq!(mean_area(&vec![18]), 18);
    assert_eq!(mean_hpwl(&vec![-3, -4]), -3);
    assert_eq!(mean_hpwl(&vec![3, 4]), 3);
    assert_eq!(mean_hpwl(&vec![5, -1, 2]), 2);
}

#[test]
fn averages_of_identical_squares() {
    let modules = squares(2, 3);
    let mut e = PolishExpression::seed(&modules).unwrap();
    let mut rng = StdRng::seed_from_u64(1);
    let (area, hpwl) = get_averages(&mut e, 4, &mut rng);
    assert_eq!(area, 18);
    // Either cut: (6 - 3) + (3 - 3) doubled, or its transpose.
    assert_eq!(hpwl, 6);
    assert!(e.is_valid());
}

#[test]
fn uphill_statistics_of_equal_costs() {
    let modules = squares(2, 3);
    let mut e = PolishExpression::seed(&modules).unwrap();
    let model = CostModel { alpha_permille: 700, average_area: 18, average_hpwl: 6 };
    let mut rng = StdRng::seed_from_u64(5);
    assert_eq!(uphill_statistics(&mut e, &model, 100, &mut rng), (0, 0));
    assert!(e.is_valid());
}

#[test]
fn uphill_statistics_counts_rises() {
    let modules: Vec<Module> = (1..=5).map(|i| Module::new(i, i as u32 + 1, 6 - i as u32, true)).collect();
    let mut e = PolishExpression::seed(&modules).unwrap();
    let model = CostModel { alpha_permille: 700, average_area: 100, average_hpwl: 20 };
    let mut rng = StdRng::seed_from_u64(3);
    let (total, count) = uphill_statistics(&mut e, &model, 100, &mut rng);
    assert!(count >= 1 && count <= 100);
    assert!(total > 0);
    assert!(e.is_valid());
}

#[test]
fn step_accepts_downhill_and_counts_rejections() {
    let modules = squares(3, 2);
    let seed = expr("1 2 * 3 +", &modules);
    let model = CostModel { alpha_permille: 1000, average_area: 14, average_hpwl: 8 };
    let mut annealer = Annealer::new(&seed, model);
    let seed_cost = annealer.best_cost;
    let better = expr("1 2 * 3 *", &modules);
    assert!(annealer.step(better.snapshot(), false));
    assert!(annealer.best_cost < seed_cost);
    assert_eq!(text(&annealer.best), "1 2 * 3 *");
    assert!(!annealer.step(seed.snapshot(), false));
    assert_eq!(annealer.rejected, 1);
    assert_eq!(text(&annealer.current), "1 2 * 3 *");
    assert!(annealer.step(seed.snapshot(), true));
    assert_eq!(text(&annealer.current), "1 2 * 3 +");
    assert_eq!(text(&annealer.best), "1 2 * 3 *");
    annealer.start_temperature();
    assert_eq!(annealer.rejected, 0);
}

#[test]
fn keep_cooling_threshold() {
    let modules = squares(2, 1);
    let seed = PolishExpression::seed(&modules).unwrap();
    let model = CostModel { alpha_permille: 700, average_area: 2, average_hpwl: 2 };
    let mut annealer = Annealer::new(&seed, model);
    annealer.rejected = 95;
    assert!(annealer.keep_cooling(100));
    annealer.rejected = 96;
    assert!(!annealer.keep_cooling(100));
}

#[test]
fn annealing_best_never_worse_than_seed() {
    let modules: Vec<Module> = vec![
        Module::new(1, 4, 2, true),
        Module::new(2, 3, 3, false),
        Module::new(3, 1, 5, true),
        Module::new(4, 2, 2, false),
        Module::new(5, 6, 1, true),
    ];
    let seed = PolishExpression::seed(&modules).unwrap();
    let mut rng = StdRng::seed_from_u64(42);
    let (average_area, average_hpwl) = get_averages(&mut seed.snapshot(), 25, &mut rng);
    let model = CostModel { alpha_permille: 700, average_area, average_hpwl };
    let seed_cost = evaluate(&seed, &model);
    let mut annealer = Annealer::new(&seed, model);
    let mut temp = 1.0e9_f64;
    let mut previous_best = annealer.best_cost;
    let mut moves = 0;
    while moves < 1000 {
        annealer.start_temperature();
        for _ in 0..100 {
            let (candidate, delta) = annealer.propose(&mut rng);
            let r: f64 = rng.gen_range(0.0..1.0);
            let uphill = r < (-(delta as f64) / temp).exp();
            annealer.step(candidate, uphill);
            assert!(annealer.best_cost <= previous_best);
            previous_best = annealer.best_cost;
            moves += 1;
        }
        temp *= 0.85;
    }
    assert!(annealer.best_cost <= seed_cost);
    assert_eq!(evaluate(&annealer.best, &model), annealer.best_cost);
}

#[test]
fn equal_squares_with_same_cuts_same_area() {
    let modules = squares(4, 2);
    let a = build(&expr("1 2 * 3 4 + +", &modules));
    let b = build(&expr("4 3 * 1 2 + +", &modules));
    assert_eq!(a.dimensions, b.dimensions);
    assert_eq!(a.get_area(), b.get_area());
    assert_eq!(a.dimensions, vec![(4, 6)]);
    assert_eq!(a.get_area(), 24);
}
