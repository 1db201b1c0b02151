use nanotekspice::circuit::{CircuitBuildError, CircuitBuilder};
use nanotekspice::components::chipset::Chipset;
use nanotekspice::components::factory::{ComponentFactory, DefaultComponentFactory};

#[derive(Debug, PartialEq, Eq, Clone, Copy)]
pub enum MockComponentType {
    OnePin,
    TwelvePins,
}

pub struct MockComponentFactory;

impl ComponentFactory for MockComponentFactory {
    type Type = MockComponentType;

    fn parse_type(&self, name: &str) -> Option<MockComponentType> {
        match name {
            "one" => Some(MockComponentType::OnePin),
            "twelve" => Some(MockComponentType::TwelvePins),
            _ => None,
        }
    }

    fn describe(&self, component_type: MockComponentType) -> String {
        match component_type {
            MockComponentType::OnePin => "one".to_owned(),
            MockComponentType::TwelvePins => "twelve".to_owned(),
        }
    }

    fn create_component(&self, component_type: MockComponentType) -> Chipset {
        match component_type {
            MockComponentType::OnePin => DefaultComponentFactory::dummy(1),
            MockComponentType::TwelvePins => DefaultComponentFactory::dummy(12),
        }
    }
}

#[test]
fn test_create_circuit() {
    let builder = CircuitBuilder::new(MockComponentFactory);
    let builder = builder.add_component("one", "dummy_one").unwrap();
    let builder = builder.add_component("twelve", "dummy_twelve").unwrap();

    let circuit = builder.build().unwrap();

    assert_eq!(circuit.len(), 2);
    assert!(circuit.has_component("dummy_one"));
    assert!(circuit.has_component("dummy_twelve"));
}

#[test]
fn test_empty_circuit() {
    assert!(matches!(CircuitBuilder::new(MockComponentFactory).build(), Err(CircuitBuildError::NoChipset)));
}

#[test]
fn test_add_component_error_unknown_type() {
    let builder = CircuitBuilder::new(MockComponentFactory);

    assert!(matches!(
        builder.add_component("dezkdmpk", "name"),
        Err(CircuitBuildError::ComponentTypeUnknown("dezkdmpk"))
    ))
}

#[test]
fn test_add_component_error_name_duplicate() {
    let builder = CircuitBuilder::new(MockComponentFactory);
    let builder = builder.add_component("one", "dummy").unwrap();

    assert!(matches!(
        builder.add_component("twelve", "dummy"),
        Err(CircuitBuildError::ComponentNameExists("dummy")),
    ))
}

#[test]
fn test_link_components_error_unknown_left_component() {
    let builder = CircuitBuilder::new(MockComponentFactory);
    let builder = builder.add_component("one", "dummy").unwrap();

    assert!(matches!(
        builder.link_components("unknown_left", 1, "dummy", 1),
        Err(CircuitBuildError::ComponentNameUnknown("unknown_left")),
    ));
}

#[test]
fn test_link_components_error_unknown_right_component() {
    let builder = CircuitBuilder::new(MockComponentFactory);
    let builder = builder.add_component("one", "dummy").unwrap();

    assert!(matches!(
        builder.link_components("dummy", 1, "unknown_right", 1),
        Err(CircuitBuildError::ComponentNameUnknown("unknown_right")),
    ));
}

#[test]
fn test_link_components_error_invalid_pin_for_left_component() {
    let builder = CircuitBuilder::new(MockComponentFactory);
    let builder = builder.add_component("one", "dummy_left").unwrap();
    let builder = builder.add_component("twelve", "dummy_right").unwrap();

    assert!(matches!(
        builder.link_components("dummy_left", 42, "dummy_right", 1),
        Err(CircuitBuildError::ComponentLinkIssue("dummy_left", MockComponentType::OnePin, 42)),
    ));
}

#[test]
fn test_link_components_error_invalid_pin_for_right_component() {
    let builder = CircuitBuilder::new(MockComponentFactory);
    let builder = builder.add_component("one", "dummy_left").unwrap();
    let builder = builder.add_component("twelve", "dummy_right").unwrap();

    assert!(matches!(
        builder.link_components("dummy_left", 1, "dummy_right", 42),
        Err(CircuitBuildError::ComponentLinkIssue("dummy_right", MockComponentType::TwelvePins, 42)),
    ));
}

#[test]
fn errors_come_in_a_fixed_order() {
    let builder = CircuitBuilder::default().add_component("input", "a").unwrap();
    assert!(matches!(
        builder.add_component("nothing", "a"),
        Err(CircuitBuildError::ComponentTypeUnknown("nothing"))
    ));
    let builder = CircuitBuilder::default().add_component("input", "a").unwrap();
    assert!(matches!(
        builder.link_components("x", 0, "y", 0),
        Err(CircuitBuildError::ComponentNameUnknown("x"))
    ));
    let builder = CircuitBuilder::default().add_component("input", "a").unwrap();
    assert!(matches!(
        builder.link_components("a", 0, "a", 2),
        Err(CircuitBuildError::ComponentLinkIssue("a", _, 0))
    ));
    let builder = CircuitBuilder::default().add_component("input", "a").unwrap();
    assert!(matches!(
        builder.link_components("a", 1, "a", 2),
        Err(CircuitBuildError::ComponentLinkIssue("a", _, 2))
    ));
}

#[test]
fn pin_zero_is_no_pin() {
    let builder = CircuitBuilder::default()
        .add_component("4011", "ic")
        .unwrap()
        .add_component("output", "out")
        .unwrap();
    assert!(matches!(
        builder.link_components("ic", 0, "out", 1),
        Err(CircuitBuildError::ComponentLinkIssue("ic", _, 0))
    ));
    let builder = CircuitBuilder::default().add_component("4011", "ic").unwrap();
    assert!(matches!(
        builder.link_components("ic", 15, "ic", 1),
        Err(CircuitBuildError::ComponentLinkIssue("ic", _, 15))
    ));
    let builder = CircuitBuilder::default().add_component("4011", "ic").unwrap();
    assert!(builder.link_components("ic", 14, "ic", 7).is_ok());
}
