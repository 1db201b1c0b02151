use nanotekspice::{Circuit, CircuitBuilder};

#[test]
fn a_circuit_is_shown_with_its_tick_its_inputs_and_its_outputs() {
    let mut circuit: Circuit =
        ".chipsets:\noutput z\ninput b\nclock a\ntrue t\noutput c\n4001 ic\n.links:\nb:1 z:1\na:1 c:1\n".parse().unwrap();
    assert_eq!(circuit.to_string(), "tick: 0\ninput(s):\n  a: U\n  b: U\noutput(s):\n  c: U\n  z: U\n");
    circuit.set_value("a", "0").unwrap();
    circuit.set_value("b", "1").unwrap();
    circuit.simulate();
    assert_eq!(circuit.to_string(), "tick: 1\ninput(s):\n  a: 0\n  b: 1\noutput(s):\n  c: 0\n  z: 1\n");
    for _ in 0..11 {
        circuit.simulate();
    }
    assert_eq!(circuit.to_string(), "tick: 12\ninput(s):\n  a: 1\n  b: 1\noutput(s):\n  c: 1\n  z: 1\n");
}

#[test]
fn a_circuit_without_inputs_or_outputs_shows_the_headings() {
    let circuit: Circuit = ".chipsets:\ntrue t\n".parse().unwrap();
    assert_eq!(circuit.to_string(), "tick: 0\ninput(s):\noutput(s):\n");
}

#[test]
fn names_are_listed_in_the_order_of_their_code_points() {
    let names = ["b", "a", "B", "ab", "", "a0", "é", "z", "aa", "10", "9", "Z"];
    let mut builder = CircuitBuilder::default();
    for name in names {
        builder = builder.add_component("input", name).unwrap();
    }
    let circuit = builder.build().unwrap();
    let mut sorted = names.to_vec();
    sorted.sort();
    let mut expected = "tick: 0\ninput(s):\n".to_owned();
    for name in sorted {
        expected += &format!("  {name}: U\n");
    }
    expected += "output(s):\n";
    assert_eq!(circuit.to_string(), expected);
}

#[test]
fn the_order_in_which_components_were_added_does_not_show() {
    let one: Circuit = ".chipsets:\ninput a\noutput o\ninput b\noutput p\n.links:\na:1 o:1\nb:1 p:1\n".parse().unwrap();
    let other: Circuit = ".chipsets:\noutput p\ninput b\noutput o\ninput a\n.links:\np:1 b:1\no:1 a:1\n".parse().unwrap();
    let mut circuits = [one, other];
    for circuit in circuits.iter_mut() {
        circuit.set_value("a", "1").unwrap();
        circuit.set_value("b", "0").unwrap();
        circuit.simulate();
    }
    assert_eq!(circuits[0].to_string(), circuits[1].to_string());
    assert_eq!(circuits[0].to_string(), "tick: 1\ninput(s):\n  a: 1\n  b: 0\noutput(s):\n  o: 1\n  p: 0\n");
}
