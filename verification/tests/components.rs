use nanotekspice::Circuit;

const CLOCK: &str = ".chipsets:\nclock cl\noutput out\n.links:\ncl:1 out:1\n";
const TRUE: &str = ".chipsets:\ntrue t\noutput out\n.links:\nt:1 out:1\n";
const FALSE: &str = ".chipsets:\nfalse f\noutput out\n.links:\nout:1 f:1\n";
const INPUT_OUTPUT: &str = ".chipsets:\ninput in\noutput out\n.links:\nin:1 out:1\n";

#[test]
fn works_same_as_input_for_the_next_tick() {
    let mut circuit: Circuit = CLOCK.parse().unwrap();

    assert_eq!(circuit.get_input("cl").unwrap(), "U");
    assert_eq!(circuit.get_output("out").unwrap(), "U");

    for state in ["0", "1", "U"] {
        for _ in 0..3 {
            circuit.set_value("cl", state).unwrap();
            circuit.simulate();

            assert_eq!(circuit.get_input("cl").unwrap(), state);
            assert_eq!(circuit.get_output("out").unwrap(), state);
        }
    }
}

#[test]
fn invert_state_at_each_simulate() {
    let mut circuit: Circuit = CLOCK.parse().unwrap();

    circuit.set_value("cl", "0").unwrap();

    for state in ["0", "1", "0", "1", "0", "1"] {
        circuit.simulate();
        assert_eq!(circuit.get_input("cl").unwrap(), state);
        assert_eq!(circuit.get_output("out").unwrap(), state);
    }
}

#[test]
fn does_not_invert_undefined_state() {
    let mut circuit: Circuit = CLOCK.parse().unwrap();

    for _ in 0..5 {
        circuit.simulate();
        assert_eq!(circuit.get_input("cl").unwrap(), "U");
        assert_eq!(circuit.get_output("out").unwrap(), "U");
    }
}

#[test]
fn a_set_value_replaces_one_inversion() {
    let mut circuit: Circuit = CLOCK.parse().unwrap();
    circuit.set_value("cl", "1").unwrap();
    circuit.simulate();
    assert_eq!(circuit.get_output("out").unwrap(), "1");
    circuit.set_value("cl", "1").unwrap();
    circuit.simulate();
    assert_eq!(circuit.get_output("out").unwrap(), "1");
    circuit.simulate();
    assert_eq!(circuit.get_output("out").unwrap(), "0");
}

#[test]
fn always_returns_true() {
    let mut circuit: Circuit = TRUE.parse().unwrap();

    assert_eq!(circuit.get_output("out").unwrap(), "1");

    for _ in 0..3 {
        circuit.simulate();

        assert_eq!(circuit.get_output("out").unwrap(), "1");
    }
}

#[test]
fn always_returns_false() {
    let mut circuit: Circuit = FALSE.parse().unwrap();

    assert_eq!(circuit.get_output("out").unwrap(), "0");

    for _ in 0..3 {
        circuit.simulate();

        assert_eq!(circuit.get_output("out").unwrap(), "0");
    }
}

#[test]
fn constants_hold_for_a_hundred_ticks() {
    let mut high: Circuit = TRUE.parse().unwrap();
    let mut low: Circuit = FALSE.parse().unwrap();
    for tick in 1..=100 {
        high.simulate();
        low.simulate();
        assert_eq!(high.get_tick(), tick);
        assert_eq!(high.get_output("out").unwrap(), "1");
        assert_eq!(low.get_output("out").unwrap(), "0");
    }
    assert!(high.get_input("t").is_none());
    assert!(matches!(high.set_value("t", "0"), Err(nanotekspice::SetInputError::NotAnInput("t"))));
}

#[test]
fn get_an_input_from_prompt() {
    let mut circuit: Circuit = INPUT_OUTPUT.parse().unwrap();

    assert_eq!(circuit.get_input("in").unwrap(), "U");
    assert_eq!(circuit.get_output("out").unwrap(), "U");

    for state in ["0", "1", "U"] {
        circuit.set_value("in", state).unwrap();

        for _ in 0..3 {
            circuit.simulate();

            assert_eq!(circuit.get_input("in").unwrap(), state);
            assert_eq!(circuit.get_output("out").unwrap(), state);
        }
    }
}

#[test]
fn a_set_value_shows_at_the_next_tick_only() {
    let mut circuit: Circuit = INPUT_OUTPUT.parse().unwrap();
    circuit.set_value("in", "1").unwrap();
    assert_eq!(circuit.get_input("in").unwrap(), "U");
    assert_eq!(circuit.get_output("out").unwrap(), "U");
    assert_eq!(circuit.get_tick(), 0);
    circuit.set_value("in", "0").unwrap();
    circuit.simulate();
    assert_eq!(circuit.get_input("in").unwrap(), "0");
    assert!(matches!(circuit.set_value("in", "2"), Err(nanotekspice::SetInputError::ValueParseError("2"))));
    assert!(matches!(circuit.set_value("nobody", "2"), Err(nanotekspice::SetInputError::ValueParseError("2"))));
    circuit.simulate();
    assert_eq!(circuit.get_input("in").unwrap(), "0");
    assert!(circuit.get_input("out").is_none());
    assert!(circuit.get_output("in").is_none());
    assert!(circuit.get_output("nobody").is_none());
}

fn gate(component_type: &str, left: &str, right: &str) -> String {
    let text = format!(
        ".chipsets:\ninput a\ninput b\n{component_type} ic\noutput o1\noutput o2\noutput o3\noutput o4\n.links:\n\
         a:1 ic:1\nb:1 ic:2\nic:3 o1:1\na:1 ic:5\nb:1 ic:6\nic:4 o2:1\n\
         a:1 ic:8\nb:1 ic:9\nic:10 o3:1\na:1 ic:12\nb:1 ic:13\nic:11 o4:1\n"
    );
    let mut circuit: Circuit = text.parse().unwrap();
    circuit.set_value("a", left).unwrap();
    circuit.set_value("b", right).unwrap();
    circuit.simulate();
    let first = circuit.get_output("o1").unwrap();
    for name in ["o2", "o3", "o4"] {
        assert_eq!(circuit.get_output(name).unwrap(), first);
    }
    first
}

#[test]
fn the_circuits_of_four_gates_compute_their_operation() {
    let levels = ["0", "1", "U"];
    let tables = [
        ("4081", ["0", "0", "0", "0", "1", "U", "0", "U", "U"]),
        ("4071", ["0", "1", "U", "1", "1", "1", "U", "1", "U"]),
        ("4030", ["0", "1", "U", "1", "0", "U", "U", "U", "U"]),
        ("4011", ["1", "1", "1", "1", "0", "U", "1", "U", "U"]),
        ("4001", ["1", "0", "U", "0", "0", "0", "U", "0", "U"]),
    ];
    for (component_type, table) in tables {
        for (i, left) in levels.iter().enumerate() {
            for (j, right) in levels.iter().enumerate() {
                assert_eq!(gate(component_type, left, right), table[3 * i + j], "{component_type} {left} {right}");
            }
        }
    }
}

#[test]
fn the_circuit_of_six_inverters_inverts() {
    let text = ".chipsets:\ninput a\n4069 ic\noutput o1\noutput o2\noutput o3\noutput o4\noutput o5\noutput o6\n.links:\n\
                a:1 ic:1\nic:2 o1:1\na:1 ic:3\nic:4 o2:1\na:1 ic:5\nic:6 o3:1\n\
                a:1 ic:9\nic:8 o4:1\na:1 ic:11\nic:10 o5:1\na:1 ic:13\nic:12 o6:1\n";
    for (level, expected) in [("0", "1"), ("1", "0"), ("U", "U")] {
        let mut circuit: Circuit = text.parse().unwrap();
        circuit.set_value("a", level).unwrap();
        circuit.simulate();
        for name in ["o1", "o2", "o3", "o4", "o5", "o6"] {
            assert_eq!(circuit.get_output(name).unwrap(), expected);
        }
    }
}

#[test]
fn several_sources_on_one_pin_are_joined_by_or() {
    let text = ".chipsets:\ninput a\ninput b\noutput o\n.links:\na:1 o:1\nb:1 o:1\na:1 o:1\n";
    for (left, right, expected) in
        [("0", "0", "0"), ("0", "1", "1"), ("1", "U", "1"), ("0", "U", "U"), ("U", "U", "U")]
    {
        let mut circuit: Circuit = text.parse().unwrap();
        circuit.set_value("a", left).unwrap();
        circuit.set_value("b", right).unwrap();
        circuit.simulate();
        assert_eq!(circuit.get_output("o").unwrap(), expected);
    }
}

#[test]
fn an_output_without_source_reads_low_and_floating_pins_read_undefined() {
    let mut circuit: Circuit = ".chipsets:\noutput o\n".parse().unwrap();
    assert_eq!(circuit.get_output("o").unwrap(), "0");
    circuit.simulate();
    assert_eq!(circuit.get_output("o").unwrap(), "0");
    let mut circuit: Circuit = ".chipsets:\noutput o\n4081 ic\n.links:\no:1 ic:7\n".parse().unwrap();
    circuit.simulate();
    assert_eq!(circuit.get_output("o").unwrap(), "U");
    let mut circuit: Circuit = ".chipsets:\noutput o\noutput p\n.links:\no:1 p:1\n".parse().unwrap();
    circuit.simulate();
    assert_eq!(circuit.get_output("o").unwrap(), "0");
    assert_eq!(circuit.get_output("p").unwrap(), "0");
}
