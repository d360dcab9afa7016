use dice_notation::{roll, Expression, ParseErrorKind};

#[test]
fn test() {
    for (input, output) in [
        ("d", Some("d6")),
        ("d6", Some("d6")),
        ("3d", Some("3d6")),
        ("d12", Some("d12")),
        ("   d12", Some("d12")),
        ("d12 + 52", Some("d12 + 52")),
        ("d12 - 8", Some("d12 - 8")),
        ("3d12 - 8 + 10d8", Some("3d12 - 8 + 10d8")),
    ]
    .into_iter()
    {
        let result = roll(input);
        println!("testing: {}", input);
        assert_eq!(result.is_ok(), output.is_some());
        if output.is_some() {
            assert_eq!(result.ok().unwrap().render(), output.unwrap());
        }
        println!("\tOK");
    }
}

#[test]
fn canonical_form_applies_defaults() {
    assert_eq!(roll("1d").ok().unwrap().render(), "d6");
    assert_eq!(roll("007").ok().unwrap().render(), "7");
    assert_eq!(roll("  3d6   ").ok().unwrap().render(), "3d6");
    assert_eq!(roll("2\u{2003}+\u{2003}3").ok().unwrap().render(), "2 + 3");
}

#[test]
fn canonical_form_is_idempotent() {
    for input in ["d", "3d", "   d12", "d12 + 52", "3d12 - 8 + 10d8", "0d0 + 1d1 - 2d2"] {
        let first = roll(input).ok().unwrap().render();
        let second = roll(&first).ok().unwrap().render();
        assert_eq!(first, second);
    }
}

#[test]
fn empty_input_is_invalid() {
    assert_eq!(roll("").err().unwrap().kind, ParseErrorKind::InvalidRollDefinition);
    assert_eq!(roll("   ").err().unwrap().kind, ParseErrorKind::InvalidRollDefinition);
}

#[test]
fn operator_first_is_invalid() {
    assert_eq!(roll("+ 5").err().unwrap().kind, ParseErrorKind::InvalidRollDefinition);
    assert_eq!(roll("- d6").err().unwrap().kind, ParseErrorKind::InvalidRollDefinition);
}

#[test]
fn unknown_operator_is_invalid() {
    assert_eq!(roll("d6 * 2").err().unwrap().kind, ParseErrorKind::InvalidRollDefinition);
}

#[test]
fn trailing_operator_is_missing_operand() {
    assert_eq!(roll("d6 +").err().unwrap().kind, ParseErrorKind::MissingOperand);
    assert_eq!(roll("d6 + x").err().unwrap().kind, ParseErrorKind::MissingOperand);
    // The operand is checked before the operator character is judged.
    assert_eq!(roll("d6 *").err().unwrap().kind, ParseErrorKind::MissingOperand);
}

#[test]
fn error_messages() {
    assert_eq!(
        roll("").err().unwrap().message(),
        "Invalid roll definition"
    );
    assert_eq!(roll("d6 +").err().unwrap().message(), "Missing operand");
}

#[test]
fn die_roll_value_stays_in_range() {
    for _ in 0..200 {
        let v = roll("3d6").ok().unwrap().evaluate();
        assert!(3 <= v && v <= 18);
    }
    for _ in 0..50 {
        let v = roll("d12").ok().unwrap().evaluate();
        assert!(1 <= v && v <= 12);
    }
}

#[test]
fn degenerate_dice_evaluate_to_zero() {
    assert_eq!(roll("0d6").ok().unwrap().evaluate(), 0);
    assert_eq!(roll("3d0").ok().unwrap().evaluate(), 0);
}

#[test]
fn one_sided_dice_are_deterministic() {
    assert_eq!(roll("5d1").ok().unwrap().evaluate(), 5);
}

#[test]
fn scalar_trees_evaluate_deterministically() {
    let tree = roll("2 + 3 - 10 + 52").ok().unwrap();
    let first = tree.evaluate();
    let second = tree.evaluate();
    assert_eq!(first, 47);
    assert_eq!(first, second);
}

#[test]
fn dice_trees_may_evaluate_differently() {
    // 20 draws from [1, 1000000000]: that all agree is beyond unlucky.
    let tree = roll("d1000000000").ok().unwrap();
    let first = tree.evaluate();
    let mut all_same = true;
    for _ in 0..19 {
        if tree.evaluate() != first {
            all_same = false;
        }
    }
    assert!(!all_same);
}

#[test]
fn scalar_arithmetic() {
    assert_eq!(roll("2 - 5").ok().unwrap().evaluate(), -3);
    assert_eq!(roll("0").ok().unwrap().evaluate(), 0);
    assert_eq!(roll("52").ok().unwrap().evaluate(), 52);
}

#[test]
fn get_value_through_the_capability_interface() {
    let tree = roll("2 + 3").ok().unwrap();
    assert_eq!(tree.get_value(), 5);
    let die = roll("4d10").ok().unwrap();
    let v = die.get_value();
    assert!(4 <= v && v <= 40);
}

#[test]
fn digit_runs_wrap_past_u32() {
    // 4294967295 wraps to u32::MAX, which reads as -1 when taken signed.
    let tree = roll("4294967295").ok().unwrap();
    assert_eq!(tree.evaluate(), -1);
    assert_eq!(tree.render(), "-1");
    // One past u32::MAX wraps to zero.
    assert_eq!(roll("4294967296").ok().unwrap().render(), "0");
    // 2147483648 wraps to the least i32.
    let least = roll("2147483648").ok().unwrap();
    assert_eq!(least.evaluate(), i32::MIN);
    assert_eq!(least.render(), "-2147483648");
}
