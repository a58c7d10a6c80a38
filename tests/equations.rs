use calculoot::{Equation, NumberType, OperationConfig, OperationType, Value};
use calculoot::equation::divisor_step;
use rand::SeedableRng;
use rand_chacha::ChaCha8Rng;

fn all_operations() -> Vec<OperationType> {
    vec![
        OperationType::Add,
        OperationType::Subtract,
        OperationType::Multiply,
        OperationType::Divide,
    ]
}

fn level_config() -> OperationConfig {
    OperationConfig {
        answer_min: 1,
        answer_max: 20,
        value_min: -10,
        value_max: 20,
        allowed_numerics: vec![NumberType::Whole, NumberType::Negative],
        allowed_operations: all_operations(),
    }
}

fn config_with(ops: Vec<OperationType>) -> OperationConfig {
    OperationConfig {
        allowed_operations: ops,
        ..level_config()
    }
}

fn num(n: i16) -> Value {
    Value::Number(n)
}

fn nested(e: Equation) -> Value {
    Value::Equation(e)
}

/// Recomputes a tree bottom-up and checks every node, every literal's range
/// and every product or quotient's operands.
fn check_tree(e: &Equation, min: i16, max: i16) -> i64 {
    let side = |v: &Value| -> i64 {
        match v {
            Value::Number(n) => {
                assert!(*n >= min && *n <= max, "literal {} out of range", n);
                *n as i64
            }
            Value::Equation(sub) => {
                let got = check_tree(sub, min, max);
                assert_eq!(got, sub.answer as i64);
                got
            }
        }
    };
    let l = side(&e.left);
    let r = side(&e.right);
    match e.op {
        OperationType::Add => assert_eq!(l + r, e.answer as i64),
        OperationType::Subtract => assert_eq!(l - r, e.answer as i64),
        OperationType::Multiply => {
            assert!(l != 0 && r != 0);
            assert_eq!(l * r, e.answer as i64);
        }
        OperationType::Divide => {
            assert!(l != 0 && r != 0);
            assert_eq!(l, e.answer as i64 * r);
        }
    }
    e.answer as i64
}

#[test]
fn new_keeps_its_parts() {
    let e = Equation::new(num(3), OperationType::Add, num(4), 7);
    assert_eq!(*e.left, num(3));
    assert_eq!(*e.right, num(4));
    assert_eq!(e.op, OperationType::Add);
    assert_eq!(e.answer, 7);
}

#[test]
fn glyphs() {
    assert_eq!(OperationType::Add.to_string(), "+");
    assert_eq!(OperationType::Subtract.to_string(), "-");
    assert_eq!(OperationType::Multiply.to_string(), "\u{d7}");
    assert_eq!(OperationType::Divide.to_string(), "\u{f7}");
}

#[test]
fn renders_single_operation() {
    let e = Equation::new(num(3), OperationType::Add, num(4), 7);
    assert_eq!(e.to_string(), "3 + 4 = 7");
    let neg = Equation::new(num(-3), OperationType::Subtract, num(4), -7);
    assert_eq!(neg.to_string(), "-3 - 4 = -7");
    let div = Equation::new(num(12), OperationType::Divide, num(-4), -3);
    assert_eq!(div.to_string(), "12 \u{f7} -4 = -3");
}

#[test]
fn renders_nested_parentheses_by_depth() {
    let inner = Equation::new(num(1), OperationType::Add, num(1), 2);
    let mid = Equation::new(nested(inner), OperationType::Add, num(1), 3);
    let top = Equation::new(nested(mid), OperationType::Multiply, num(2), 6);
    assert_eq!(top.to_string(), "(((1 + 1)) + 1) \u{d7} 2 = 6");
    let right = Equation::new(num(5), OperationType::Subtract, num(2), 3);
    let both = Equation::new(num(4), OperationType::Add, nested(right), 7);
    assert_eq!(both.to_string(), "4 + (5 - 2) = 7");
}

#[test]
fn value_resolves_to_its_number() {
    assert_eq!(num(-9).to_i16(), -9);
    let e = Equation::new(num(2), OperationType::Multiply, num(3), 6);
    assert_eq!(nested(e).to_i16(), 6);
}

#[test]
fn literal_difficulty_counts_digits_and_sign() {
    assert_eq!(num(0).difficulty(), 1);
    assert_eq!(num(7).difficulty(), 1);
    assert_eq!(num(10).difficulty(), 2);
    assert_eq!(num(999).difficulty(), 3);
    assert_eq!(num(32767).difficulty(), 5);
    assert_eq!(num(-5).difficulty(), 10);
    assert_eq!(num(-15).difficulty(), 20);
    assert_eq!(num(-32768).difficulty(), 50);
}

#[test]
fn equation_difficulty_weights_operations() {
    let add = Equation::new(num(3), OperationType::Add, num(4), 7);
    assert_eq!(add.difficulty(), 2);
    let sub = Equation::new(num(-5), OperationType::Subtract, num(3), -8);
    assert_eq!(sub.difficulty(), 22);
    let mul = Equation::new(num(12), OperationType::Multiply, num(1), 12);
    assert_eq!(mul.difficulty(), 12);
    let div = Equation::new(num(12), OperationType::Divide, num(4), 3);
    assert_eq!(div.difficulty(), 12);
    let inner = Equation::new(num(1), OperationType::Add, num(2), 3);
    let outer = Equation::new(nested(inner), OperationType::Subtract, num(4), -1);
    assert_eq!(outer.difficulty(), 6);
    assert_eq!(nested(outer).difficulty(), 6);
}

#[test]
fn difficulty_grows_with_a_heavier_operand() {
    let base = Equation::new(num(5), OperationType::Add, num(2), 7);
    let sub = Equation::new(num(2), OperationType::Add, num(3), 5);
    assert!(sub.difficulty() >= num(5).difficulty());
    let grown = Equation::new(nested(sub), OperationType::Add, num(2), 7);
    assert!(grown.difficulty() >= base.difficulty());
    assert_eq!(grown.difficulty(), 3);
}

#[test]
fn positive_draws_stay_in_the_non_negative_range() {
    let cfg = level_config();
    let mut rng = ChaCha8Rng::seed_from_u64(11);
    for _ in 0..200 {
        let v = cfg.rnd_positive(&mut rng);
        assert!((0..=20).contains(&v));
    }
}

#[test]
fn positive_draw_is_zero_when_values_are_all_negative() {
    let cfg = OperationConfig {
        value_min: -10,
        value_max: -5,
        ..level_config()
    };
    let mut rng = ChaCha8Rng::seed_from_u64(3);
    assert_eq!(cfg.rnd_positive(&mut rng), 0);
}

#[test]
fn positive_draw_falls_back_to_one_on_an_empty_range() {
    let cfg = OperationConfig {
        value_min: 9,
        value_max: 4,
        ..level_config()
    };
    let mut rng = ChaCha8Rng::seed_from_u64(3);
    assert_eq!(cfg.rnd_positive(&mut rng), 1);
}

#[test]
fn negative_draws_reach_below_zero() {
    let cfg = level_config();
    let mut rng = ChaCha8Rng::seed_from_u64(5);
    let mut saw_negative = false;
    for _ in 0..200 {
        let v = cfg.rnd_negative(&mut rng);
        assert!((-10..=20).contains(&v));
        saw_negative |= v < 0;
    }
    assert!(saw_negative);
}

#[test]
fn numbers_without_negatives_never_go_negative() {
    let cfg = OperationConfig {
        allowed_numerics: vec![NumberType::Whole],
        ..level_config()
    };
    let mut rng = ChaCha8Rng::seed_from_u64(8);
    for _ in 0..200 {
        let v = cfg.rnd_number(&mut rng);
        assert!((0..=20).contains(&v));
        match cfg.rnd_value(&mut rng) {
            Value::Number(n) => assert!((0..=20).contains(&n)),
            Value::Equation(_) => panic!("a drawn value is a literal"),
        }
    }
}

#[test]
fn compound_example_level() {
    let cfg = level_config();
    let mut rng = ChaCha8Rng::seed_from_u64(42);
    let eq = Equation::rnd_compound(&cfg, 1, &mut rng).expect("the level config succeeds");
    assert!(eq.answer >= 1 && eq.answer <= 20);
    assert!(matches!(*eq.left, Value::Number(_)));
    assert!(matches!(*eq.right, Value::Number(_)));
    assert_eq!(check_tree(&eq, -10, 20), eq.answer as i64);
}

#[test]
fn compound_trees_are_correct_and_in_range() {
    let cfg = level_config();
    for seed in 0..200u64 {
        let mut rng = ChaCha8Rng::seed_from_u64(seed);
        for count in 1..=4u8 {
            if let Some(eq) = Equation::rnd_compound(&cfg, count, &mut rng) {
                assert!(eq.answer >= 1 && eq.answer <= 20);
                check_tree(&eq, -10, 20);
                let text = eq.to_string();
                assert!(text.ends_with(&format!(" = {}", eq.answer)));
            }
        }
    }
}

#[test]
fn same_seed_gives_same_tree() {
    let cfg = level_config();
    for seed in [0u64, 1, 77, 123456789] {
        let mut a = ChaCha8Rng::seed_from_u64(seed);
        let mut b = ChaCha8Rng::seed_from_u64(seed);
        for count in 1..=3u8 {
            let x = Equation::rnd_compound(&cfg, count, &mut a);
            let y = Equation::rnd_compound(&cfg, count, &mut b);
            assert_eq!(x, y);
        }
    }
}

#[test]
fn prime_answer_never_multiplies() {
    let cfg = level_config();
    for seed in 0..300u64 {
        let mut rng = ChaCha8Rng::seed_from_u64(seed);
        if let Some(eq) = Equation::rnd_single(7, &cfg, &mut rng) {
            assert_ne!(eq.op, OperationType::Multiply);
            assert_eq!(eq.answer, 7);
            check_tree(&eq, -10, 20);
        }
    }
}

#[test]
fn prime_answer_with_only_multiply_fails() {
    let cfg = config_with(vec![OperationType::Multiply]);
    let mut rng = ChaCha8Rng::seed_from_u64(2);
    assert!(Equation::rnd_single(7, &cfg, &mut rng).is_none());
    assert!(Equation::rnd_single(13, &cfg, &mut rng).is_none());
}

#[test]
fn zero_answer_only_adds_or_subtracts() {
    let cfg = level_config();
    let mut built = 0;
    for seed in 0..300u64 {
        let mut rng = ChaCha8Rng::seed_from_u64(seed);
        if let Some(eq) = Equation::rnd_single(0, &cfg, &mut rng) {
            assert!(matches!(eq.op, OperationType::Add | OperationType::Subtract));
            check_tree(&eq, -10, 20);
            built += 1;
        }
    }
    assert!(built > 0);
}

#[test]
fn zero_answer_with_only_products_fails() {
    let cfg = config_with(vec![OperationType::Multiply, OperationType::Divide]);
    let mut rng = ChaCha8Rng::seed_from_u64(9);
    assert!(Equation::rnd_single(0, &cfg, &mut rng).is_none());
}

#[test]
fn no_operations_allowed_fails() {
    let cfg = config_with(vec![]);
    let mut rng = ChaCha8Rng::seed_from_u64(1);
    assert!(Equation::rnd_single(5, &cfg, &mut rng).is_none());
    assert!(Equation::rnd_compound(&cfg, 3, &mut rng).is_none());
}

#[test]
fn multiply_pairs_the_answer_with_a_unit() {
    let cfg = config_with(vec![OperationType::Multiply]);
    let mut built = 0;
    for seed in 0..300u64 {
        let mut rng = ChaCha8Rng::seed_from_u64(seed);
        if let Some(eq) = Equation::rnd_single(6, &cfg, &mut rng) {
            assert_eq!(eq.op, OperationType::Multiply);
            let pair = (eq.left.to_i16(), eq.right.to_i16());
            assert!(pair == (6, 1) || pair == (-6, -1), "{:?}", pair);
            built += 1;
        }
    }
    assert!(built > 0);
}

#[test]
fn divide_is_exact() {
    let cfg = config_with(vec![OperationType::Divide]);
    let mut built = 0;
    for seed in 0..300u64 {
        let mut rng = ChaCha8Rng::seed_from_u64(seed);
        if let Some(eq) = Equation::rnd_single(-4, &cfg, &mut rng) {
            assert_eq!(eq.op, OperationType::Divide);
            let (l, r) = (eq.left.to_i16(), eq.right.to_i16());
            assert!(l != 0 && r != 0);
            assert_eq!(l, -4 * r);
            built += 1;
        }
    }
    assert!(built > 0);
}

#[test]
fn add_and_subtract_hit_the_answer() {
    for op in [OperationType::Add, OperationType::Subtract] {
        let cfg = config_with(vec![op]);
        let mut rng = ChaCha8Rng::seed_from_u64(21);
        let eq = Equation::rnd_single(12, &cfg, &mut rng).expect("a sum or difference is found");
        assert_eq!(eq.op, op);
        check_tree(&eq, -10, 20);
    }
}

fn operands(e: &Equation) -> (i16, i16) {
    (e.left.to_i16(), e.right.to_i16())
}

#[test]
fn operands_for_a_sum() {
    let cfg = level_config();
    let e = Equation::from_operands(7, OperationType::Add, 3, &cfg).unwrap();
    assert_eq!((operands(&e), e.op, e.answer), ((3, 4), OperationType::Add, 7));
    assert!(Equation::from_operands(20, OperationType::Add, -10, &cfg).is_none());
}

#[test]
fn operands_for_a_difference() {
    let cfg = level_config();
    let e = Equation::from_operands(5, OperationType::Subtract, 12, &cfg).unwrap();
    assert_eq!(operands(&e), (12, 7));
    assert!(Equation::from_operands(-15, OperationType::Subtract, 10, &cfg).is_none());
}

#[test]
fn operands_for_a_product() {
    let cfg = level_config();
    let e = Equation::from_operands(6, OperationType::Multiply, 6, &cfg).unwrap();
    assert_eq!(operands(&e), (6, 1));
    let e = Equation::from_operands(6, OperationType::Multiply, -6, &cfg).unwrap();
    assert_eq!(operands(&e), (-6, -1));
    assert!(Equation::from_operands(6, OperationType::Multiply, 3, &cfg).is_none());
    assert!(Equation::from_operands(-6, OperationType::Multiply, 2, &cfg).is_none());
}

#[test]
fn operands_for_a_quotient() {
    let cfg = level_config();
    let e = Equation::from_operands(-3, OperationType::Divide, 3, &cfg).unwrap();
    assert_eq!(operands(&e), (-9, 3));
    assert_eq!(e.to_string(), "-9 \u{f7} 3 = -3");
    assert!(Equation::from_operands(-4, OperationType::Divide, 0, &cfg).is_none());
    assert!(Equation::from_operands(5, OperationType::Divide, 5, &cfg).is_none());
}

#[test]
fn expand_replaces_the_chosen_slot() {
    let root = || Equation::new(num(3), OperationType::Add, num(4), 7);
    let sub = || Equation::new(num(1), OperationType::Add, num(2), 3);
    let left = Equation::expand(root(), true, Some(sub()));
    assert_eq!(left, Equation::new(nested(sub()), OperationType::Add, num(4), 7));
    let right_sub = Equation::new(num(6), OperationType::Subtract, num(2), 4);
    let right = Equation::expand(root(), false, Some(right_sub));
    assert_eq!(right.to_string(), "3 + (6 - 2) = 7");
    assert_eq!(Equation::expand(root(), true, None), root());
}

#[test]
fn divisor_step_takes_divisors_and_falls_back() {
    assert_eq!(divisor_step(12, 0, 4), Some(4));
    assert_eq!(divisor_step(12, 3, -6), Some(-6));
    assert_eq!(divisor_step(12, 3, 5), None);
    assert_eq!(divisor_step(12, 3, 0), None);
    assert_eq!(divisor_step(12, 10, 5), Some(1));
    assert_eq!(divisor_step(-7, 10, 7), Some(7));
    assert_eq!(divisor_step(0, 0, 9), Some(9));
}

fn count_nodes(e: &Equation) -> usize {
    let side = |v: &Value| match v {
        Value::Number(_) => 0,
        Value::Equation(sub) => count_nodes(sub),
    };
    1 + side(&e.left) + side(&e.right)
}

#[test]
fn compound_node_count_is_bounded() {
    let cfg = level_config();
    for seed in 0..200u64 {
        let mut rng = ChaCha8Rng::seed_from_u64(seed);
        for count in 0..=5u8 {
            if let Some(eq) = Equation::rnd_compound(&cfg, count, &mut rng) {
                let bound = (count.max(1) as usize).min(3);
                assert!(count_nodes(&eq) <= bound);
                assert!(eq.difficulty() <= 3200);
            }
        }
    }
}
