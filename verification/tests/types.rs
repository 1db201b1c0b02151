use nanotekspice::components::types::{ComponentType, ParseComponentTypeError};

const CATALOG: [(&str, ComponentType); 11] = [
    ("input", ComponentType::Input),
    ("output", ComponentType::Output),
    ("clock", ComponentType::Clock),
    ("true", ComponentType::True),
    ("false", ComponentType::False),
    ("4001", ComponentType::C4001),
    ("4011", ComponentType::C4011),
    ("4030", ComponentType::C4030),
    ("4069", ComponentType::C4069),
    ("4071", ComponentType::C4071),
    ("4081", ComponentType::C4081),
];

#[test]
fn types_test_string_parse() {
    assert!(matches!("input".parse::<ComponentType>(), Ok(ComponentType::Input)));
    assert!(matches!("output".parse::<ComponentType>(), Ok(ComponentType::Output)));
    assert!(matches!("clock".parse::<ComponentType>(), Ok(ComponentType::Clock)));
    assert!(matches!("true".parse::<ComponentType>(), Ok(ComponentType::True)));
    assert!(matches!("false".parse::<ComponentType>(), Ok(ComponentType::False)));
}

#[test]
fn types_test_to_string() {
    assert_eq!(ComponentType::Input.to_string(), "input");
    assert_eq!(ComponentType::Output.to_string(), "output");
    assert_eq!(ComponentType::Clock.to_string(), "clock");
    assert_eq!(ComponentType::True.to_string(), "true");
    assert_eq!(ComponentType::False.to_string(), "false");
}

#[test]
fn test_string_parse() {
    for (name, component_type) in CATALOG {
        assert_eq!(name.parse::<ComponentType>().unwrap(), component_type);
    }
}

#[test]
fn test_to_string() {
    for (name, component_type) in CATALOG {
        assert_eq!(component_type.to_string(), name);
        assert_eq!(component_type.as_str(), name);
    }
}

#[test]
fn types_test_string_parse_unknown() {
    assert!(matches!("unknown".parse::<ComponentType>(), Err(ParseComponentTypeError::InvalidValue)));
}

#[test]
fn type_names_are_case_sensitive_and_exact() {
    for text in ["", "Input", "INPUT", "input ", " input", "4000", "40011", "tru", "nand"] {
        assert!(matches!(ComponentType::parse(text), Err(ParseComponentTypeError::InvalidValue)), "{text:?}");
    }
}
