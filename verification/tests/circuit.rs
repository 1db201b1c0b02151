use nanotekspice::circuit::{Circuit, CircuitBuilder, SetInputError};
use nanotekspice::components::tristate::Tristate;

#[test]
fn test_create_and_handle_nanotekspice_circuit() {
    let mut circuit: Circuit = CircuitBuilder::default()
        .add_component("input", "in")
        .unwrap()
        .add_component("output", "out")
        .unwrap()
        .link_components("in", 1, "out", 1)
        .unwrap()
        .build()
        .unwrap();

    assert!(circuit.has_component("in"));
    assert!(circuit.has_component("out"));

    assert_eq!(circuit.get_input("in").unwrap(), "U");
    assert_eq!(circuit.get_output("out").unwrap(), "U");
    assert_eq!(circuit.current_tick, 0);

    circuit.set_value("in", "1").unwrap();
    circuit.simulate();

    assert_eq!(circuit.current_tick, 1);
    assert_eq!(circuit.get_input("in").unwrap(), "1");
    assert_eq!(circuit.get_output("out").unwrap(), "1");

    circuit.set_value("in", "0").unwrap();
    circuit.simulate();

    assert_eq!(circuit.current_tick, 2);
    assert_eq!(circuit.get_input("in").unwrap(), "0");
    assert_eq!(circuit.get_output("out").unwrap(), "0");
}

#[test]
fn test_error_for_non_existing_component_name() {
    let mut circuit: Circuit =
        CircuitBuilder::default().add_component("input", "in").unwrap().build().unwrap();

    assert!(!circuit.has_component("unknown"));
    assert!(matches!(circuit.set_value("unknown", "1"), Err(SetInputError::UnknownName("unknown"))))
}

#[test]
fn test_error_for_non_input_component_name() {
    let mut circuit: Circuit =
        CircuitBuilder::default().add_component("output", "out").unwrap().build().unwrap();

    assert!(matches!(circuit.set_value("out", "1"), Err(SetInputError::NotAnInput("out"))))
}

fn nand_xor() -> Circuit {
    CircuitBuilder::default()
        .add_component("input", "a")
        .unwrap()
        .add_component("input", "b")
        .unwrap()
        .add_component("4011", "ic")
        .unwrap()
        .add_component("output", "sum")
        .unwrap()
        .link_components("a", 1, "ic", 1)
        .unwrap()
        .link_components("b", 1, "ic", 2)
        .unwrap()
        .link_components("a", 1, "ic", 5)
        .unwrap()
        .link_components("ic", 3, "ic", 6)
        .unwrap()
        .link_components("ic", 3, "ic", 8)
        .unwrap()
        .link_components("b", 1, "ic", 9)
        .unwrap()
        .link_components("ic", 4, "ic", 12)
        .unwrap()
        .link_components("ic", 10, "ic", 13)
        .unwrap()
        .link_components("ic", 11, "sum", 1)
        .unwrap()
        .build()
        .unwrap()
}

#[test]
fn nand_gates_make_an_exclusive_or() {
    for (a, b, expected) in [("0", "0", "0"), ("0", "1", "1"), ("1", "0", "1"), ("1", "1", "0")] {
        let mut circuit = nand_xor();
        circuit.set_value("a", a).unwrap();
        circuit.set_value("b", b).unwrap();
        circuit.simulate();
        circuit.simulate();
        assert_eq!(circuit.get_output("sum").unwrap(), expected, "{a} xor {b}");
        for _ in 0..5 {
            circuit.simulate();
            assert_eq!(circuit.get_output("sum").unwrap(), expected, "{a} xor {b}");
        }
    }
}

#[test]
fn an_output_wired_back_into_its_own_circuit_is_read_from_the_tick_before() {
    let mut circuit = nand_xor();
    circuit.set_value("a", "0").unwrap();
    circuit.set_value("b", "1").unwrap();
    circuit.simulate();
    assert_eq!(circuit.get_output("sum").unwrap(), "U");
    circuit.simulate();
    assert_eq!(circuit.get_output("sum").unwrap(), "1");
}

fn latch() -> Circuit {
    CircuitBuilder::default()
        .add_component("input", "s")
        .unwrap()
        .add_component("input", "r")
        .unwrap()
        .add_component("4001", "ic")
        .unwrap()
        .add_component("output", "q")
        .unwrap()
        .add_component("output", "nq")
        .unwrap()
        .link_components("r", 1, "ic", 1)
        .unwrap()
        .link_components("ic", 4, "ic", 2)
        .unwrap()
        .link_components("s", 1, "ic", 5)
        .unwrap()
        .link_components("ic", 3, "ic", 6)
        .unwrap()
        .link_components("ic", 3, "q", 1)
        .unwrap()
        .link_components("ic", 4, "nq", 1)
        .unwrap()
        .build()
        .unwrap()
}

#[test]
fn cross_coupled_nor_gates_hold_a_bit() {
    let mut circuit = latch();
    circuit.set_value("s", "1").unwrap();
    circuit.set_value("r", "0").unwrap();
    circuit.simulate();
    circuit.set_value("s", "0").unwrap();
    circuit.simulate();
    circuit.simulate();
    assert_eq!(circuit.get_output("q").unwrap(), "1");
    assert_eq!(circuit.get_output("nq").unwrap(), "0");

    circuit.set_value("r", "1").unwrap();
    circuit.simulate();
    circuit.set_value("r", "0").unwrap();
    circuit.simulate();
    circuit.simulate();
    assert_eq!(circuit.get_output("q").unwrap(), "0");
    assert_eq!(circuit.get_output("nq").unwrap(), "1");
}

#[test]
fn mod_test_create_and_handle_nanotekspice_circuit() {
    let mut circuit: Circuit = CircuitBuilder::default()
        .add_component("input", "in")
        .unwrap()
        .add_component("output", "out")
        .unwrap()
        .link_components("in", 1, "out", 1)
        .unwrap()
        .build()
        .unwrap();

    assert_eq!(circuit.input_level("in").unwrap(), Tristate::Undefined);
    assert_eq!(circuit.output_level("out").unwrap(), Tristate::Undefined);
    assert_eq!(circuit.get_tick(), 0);

    circuit.stage("in", true.into()).unwrap();
    circuit.simulate();

    assert_eq!(circuit.get_tick(), 1);
    assert_eq!(circuit.input_level("in").unwrap(), true.into());
    assert_eq!(circuit.output_level("out").unwrap(), true.into());

    circuit.stage("in", false.into()).unwrap();
    circuit.simulate();

    assert_eq!(circuit.get_tick(), 2);
    assert_eq!(circuit.input_level("in").unwrap(), false.into());
    assert_eq!(circuit.output_level("out").unwrap(), false.into());
}

#[test]
fn mod_test_error_for_non_existing_component_name() {
    let mut circuit: Circuit =
        CircuitBuilder::default().add_component("input", "in").unwrap().build().unwrap();

    assert!(
        matches!(circuit.stage("unknown", true.into()), Err(SetInputError::UnknownName(invalid_name)) if invalid_name == "unknown")
    )
}
