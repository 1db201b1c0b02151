use nanotekspice::components::tristate::{ParseTristateError, Tristate};

#[test]
fn tristate_test_string_parse() {
    assert!(matches!("0".parse::<Tristate>(), Ok(Tristate::State(false))));
    assert!(matches!("1".parse::<Tristate>(), Ok(Tristate::State(true))));
    assert!(matches!("U".parse::<Tristate>(), Ok(Tristate::Undefined)));
}

#[test]
fn tristate_test_to_string() {
    assert_eq!(Tristate::State(false).to_string(), "0");
    assert_eq!(Tristate::State(true).to_string(), "1");
    assert_eq!(Tristate::Undefined.to_string(), "U");
}

#[test]
fn test_true_into() {
    let state: Tristate = false.into();

    assert_eq!(state, Tristate::State(false))
}

#[test]
fn test_false_into() {
    let state: Tristate = true.into();

    assert_eq!(state, Tristate::State(true))
}

#[test]
fn tristate_test_default() {
    let state: Tristate = Default::default();

    assert_eq!(state, Tristate::Undefined);
}

#[test]
fn test_string_parse_bad_value() {
    assert!(matches!(
        "unknown".parse::<Tristate>(),
        Err(ParseTristateError::UnknownValue(given)) if given == "unknown"
    ));
}

#[test]
fn parse_is_strict() {
    for text in ["", " ", "u", "01", "0 ", " 1", "2", "UU", "true", "\u{ff10}"] {
        assert!(
            matches!(Tristate::parse(text), Err(ParseTristateError::UnknownValue(given)) if given == text),
            "{text:?}"
        );
    }
}

#[test]
fn parse_reads_back_what_to_string_writes() {
    for state in [Tristate::State(false), Tristate::State(true), Tristate::Undefined] {
        assert_eq!(Tristate::parse(&state.to_string()).unwrap(), state);
        assert_eq!(Tristate::parse(state.as_str()).unwrap(), state);
    }
}

#[test]
fn test_bitor_operator_truth_table() {
    assert_eq!(Tristate::State(false) | Tristate::State(false), Tristate::State(false));
    assert_eq!(Tristate::State(false) | Tristate::State(true), Tristate::State(true));
    assert_eq!(Tristate::State(true) | Tristate::State(false), Tristate::State(true));
    assert_eq!(Tristate::State(true) | Tristate::State(true), Tristate::State(true));
}

#[test]
fn test_bitor_operator_handle_undefined_state() {
    assert_eq!(Tristate::Undefined | Tristate::Undefined, Tristate::Undefined);
    assert_eq!(Tristate::State(false) | Tristate::Undefined, Tristate::Undefined);
    assert_eq!(Tristate::Undefined | Tristate::State(false), Tristate::Undefined);
    assert_eq!(Tristate::State(true) | Tristate::Undefined, Tristate::State(true));
    assert_eq!(Tristate::Undefined | Tristate::State(true), Tristate::State(true));
}

#[test]
fn test_bitand_operator_truth_table() {
    assert_eq!(Tristate::State(false) & Tristate::State(false), Tristate::State(false));
    assert_eq!(Tristate::State(false) & Tristate::State(true), Tristate::State(false));
    assert_eq!(Tristate::State(true) & Tristate::State(false), Tristate::State(false));
    assert_eq!(Tristate::State(true) & Tristate::State(true), Tristate::State(true));
}

#[test]
fn test_bitand_operator_handle_undefined_state() {
    assert_eq!(Tristate::Undefined & Tristate::Undefined, Tristate::Undefined);
    assert_eq!(Tristate::State(false) & Tristate::Undefined, Tristate::State(false));
    assert_eq!(Tristate::Undefined & Tristate::State(false), Tristate::State(false));
    assert_eq!(Tristate::State(true) & Tristate::Undefined, Tristate::Undefined);
    assert_eq!(Tristate::Undefined & Tristate::State(true), Tristate::Undefined);
}

#[test]
fn test_bitxor_operator_truth_table() {
    assert_eq!(Tristate::State(false) ^ Tristate::State(false), Tristate::State(false));
    assert_eq!(Tristate::State(false) ^ Tristate::State(true), Tristate::State(true));
    assert_eq!(Tristate::State(true) ^ Tristate::State(false), Tristate::State(true));
    assert_eq!(Tristate::State(true) ^ Tristate::State(true), Tristate::State(false));
}

#[test]
fn test_bitxor_operator_handle_undefined_state() {
    assert_eq!(Tristate::Undefined ^ Tristate::Undefined, Tristate::Undefined);
    assert_eq!(Tristate::State(false) ^ Tristate::Undefined, Tristate::Undefined);
    assert_eq!(Tristate::Undefined ^ Tristate::State(false), Tristate::Undefined);
    assert_eq!(Tristate::State(true) ^ Tristate::Undefined, Tristate::Undefined);
    assert_eq!(Tristate::Undefined ^ Tristate::State(true), Tristate::Undefined);
}

#[test]
fn test_not_operator_truth_table() {
    assert_eq!(!Tristate::State(false), Tristate::State(true));
    assert_eq!(!Tristate::State(true), Tristate::State(false));
}

#[test]
fn test_not_operator_handle_undefined_state() {
    assert_eq!(!Tristate::Undefined, Tristate::Undefined);
}

#[test]
fn negating_twice_gives_back_a_defined_level() {
    for state in [Tristate::State(false), Tristate::State(true)] {
        assert_eq!(!!state, state);
        assert_ne!(!state, state);
    }
    assert_eq!(!!Tristate::Undefined, Tristate::Undefined);
}

#[test]
fn assigning_operators_follow_the_plain_ones() {
    let all = [Tristate::State(false), Tristate::State(true), Tristate::Undefined];
    for left in all {
        for right in all {
            let mut or = left;
            or |= right;
            assert_eq!(or, left | right);
            let mut and = left;
            and &= right;
            assert_eq!(and, left & right);
            let mut xor = left;
            xor ^= right;
            assert_eq!(xor, left ^ right);
        }
    }
}
