use std::collections::HashMap;

use nanotekspice::components::tristate::Tristate;
use nanotekspice::components::{ComponentHandle, InvalidPin};
use nanotekspice::pin::container::{
    InputPinError, InternalComponentProxy, PinContainer, PinRef, PinSpecification, SwitchPinModeError,
};
use nanotekspice::pin::pin::{
    BidirectionalPin, InputPin, OutputComputationMethod, OutputFromInternalComponents, Pin, PinLink, PinMode,
    PinState, UnidirectionalInputPin,
};

fn container() -> PinContainer {
    PinContainer::new(
        4,
        HashMap::from([
            (1, PinSpecification::UnidirectionalInput()),
            (2, PinSpecification::UnidirectionalOutput()),
            (3, PinSpecification::Bidirectional(PinMode::Input)),
        ]),
    )
}

#[test]
fn pins_are_made_as_specified_and_float_elsewhere() {
    let pins = container();
    assert_eq!(pins.len(), 4);
    assert_eq!(pins.state, PinState::NeverComputed);
    assert!(matches!(pins.all_pins[0], PinRef::UnidirectionalInput(_)));
    assert!(matches!(pins.all_pins[1], PinRef::UnidirectionalOutput(_)));
    assert!(matches!(pins.all_pins[2], PinRef::Bidirectional(_)));
    assert!(matches!(
        &pins.all_pins[3],
        PinRef::UnidirectionalOutput(pin) if matches!(pin.driver, OutputComputationMethod::Floating)
    ));
    assert_eq!(pins.read_output(1), Tristate::State(false));
    assert_eq!(pins.read_output(2), Tristate::Undefined);
    assert_eq!(pins.read_output(3), Tristate::State(false));
    assert_eq!(pins.read_output(4), Tristate::Undefined);
    assert_eq!(pins.read_input(1), Tristate::State(false));
    assert_eq!(pins.read_input(3), Tristate::State(false));
    assert_eq!(PinContainer::new(0, HashMap::new()).len(), 0);
}

#[test]
fn pin_numbers_run_from_one_to_the_number_of_pins() {
    let pins = container();
    assert!(matches!(pins.check(0), Err(InvalidPin(0))));
    assert!(pins.check(1).is_ok());
    assert!(pins.check(4).is_ok());
    assert!(matches!(pins.check(5), Err(InvalidPin(5))));
    assert!(matches!(pins.check(usize::MAX), Err(InvalidPin(usize::MAX))));
    assert!(matches!(pins.current_pin_mode(0), Err(InvalidPin(0))));
    assert!(matches!(pins.current_pin_mode(1), Ok(PinMode::Input)));
    assert!(matches!(pins.current_pin_mode(2), Ok(PinMode::Output)));
    assert!(matches!(pins.current_pin_mode(3), Ok(PinMode::Input)));
    assert!(matches!(pins.current_pin_mode(4), Ok(PinMode::Output)));
}

#[test]
fn only_a_bidirectional_pin_switches_its_mode() {
    let mut pins = container();
    assert!(matches!(pins.switch_pin_to_mode(0, PinMode::Output), Err(SwitchPinModeError::InvalidPin(0))));
    assert!(matches!(pins.switch_pin_to_mode(1, PinMode::Output), Err(SwitchPinModeError::NotBidirectional(1))));
    assert!(matches!(pins.switch_pin_to_mode(2, PinMode::Input), Err(SwitchPinModeError::NotBidirectional(2))));
    assert!(pins.switch_pin_to_mode(3, PinMode::Output).is_ok());
    assert!(matches!(pins.current_pin_mode(3), Ok(PinMode::Output)));
    assert_eq!(pins.read_output(3), Tristate::Undefined);
    pins.write_output(3, Tristate::State(true));
    assert_eq!(pins.read_output(3), Tristate::State(true));
    assert_eq!(pins.read_input(3), Tristate::State(false));
    assert!(pins.switch_pin_to_mode(3, PinMode::Input).is_ok());
    assert_eq!(pins.read_output(3), Tristate::State(false));
    assert!(matches!(SwitchPinModeError::from(InvalidPin(7)), SwitchPinModeError::InvalidPin(7)));
    assert!(matches!(InputPinError::from(InvalidPin(7)), InputPinError::InvalidPin(7)));
}

#[test]
fn a_pin_that_receives_keeps_each_link_once() {
    let mut pins = container();
    let peer = ComponentHandle::Peer(3);
    assert!(matches!(pins.set_link_to_external_component(9, peer, 1), Err(InvalidPin(9))));
    for _ in 0..2 {
        assert!(pins.set_link_to_external_component(1, peer, 1).is_ok());
        assert!(pins.set_link_to_external_component(1, peer, 2).is_ok());
        assert!(pins.set_link_to_external_component(1, ComponentHandle::Peer(4), 1).is_ok());
    }
    match &pins.all_pins[0] {
        PinRef::UnidirectionalInput(pin) => assert_eq!(
            pin.links,
            vec![PinLink::new(peer, 1), PinLink::new(peer, 2), PinLink::new(ComponentHandle::Peer(4), 1)]
        ),
        _ => panic!("pin 1 receives"),
    }
    assert!(pins.set_link_to_external_component(2, peer, 1).is_ok());
    assert!(pins.set_link_to_external_component(4, peer, 1).is_ok());
    assert!(matches!(
        &pins.all_pins[1],
        PinRef::UnidirectionalOutput(pin) if matches!(pin.driver, OutputComputationMethod::Manual(Tristate::Undefined))
    ));
    assert!(pins.set_link_to_external_component(3, peer, 1).is_ok());
    match &pins.all_pins[2] {
        PinRef::Bidirectional(pin) => assert_eq!(pin.input_pin.links, vec![PinLink::new(peer, 1)]),
        _ => panic!("pin 3 receives"),
    }
}

#[test]
fn a_driven_output_can_be_made_to_sample_a_sub_component() {
    let mut pins = container();
    let proxy = InternalComponentProxy::new();
    pins.write_output(2, Tristate::State(true));
    assert!(matches!(proxy.set_link(&mut pins, 0, ComponentHandle::Inner(0), 3), Err(InvalidPin(0))));
    assert!(proxy.set_link(&mut pins, 2, ComponentHandle::Inner(0), 3).is_ok());
    assert!(proxy.set_link(&mut pins, 2, ComponentHandle::Inner(1), 3).is_ok());
    assert!(proxy.set_link(&mut pins, 2, ComponentHandle::Inner(0), 3).is_ok());
    match &pins.all_pins[1] {
        PinRef::UnidirectionalOutput(pin) => match &pin.driver {
            OutputComputationMethod::Automatic(output) => {
                assert_eq!(output.result, Tristate::State(true));
                assert_eq!(output.input.input_state, PinState::NeverComputed);
                assert_eq!(
                    output.input.links,
                    vec![PinLink::new(ComponentHandle::Inner(0), 3), PinLink::new(ComponentHandle::Inner(1), 3)]
                );
            },
            _ => panic!("pin 2 samples"),
        },
        _ => panic!("pin 2 drives"),
    }
    assert_eq!(pins.read_output(2), Tristate::State(true));
    assert!(proxy.set_link(&mut pins, 1, ComponentHandle::Inner(0), 3).is_ok());
    assert!(proxy.set_link(&mut pins, 4, ComponentHandle::Inner(0), 3).is_ok());
    assert!(matches!(
        &pins.all_pins[3],
        PinRef::UnidirectionalOutput(pin) if matches!(pin.driver, OutputComputationMethod::Floating)
    ));
    assert!(matches!(&pins.all_pins[0], PinRef::UnidirectionalInput(pin) if pin.links.is_empty()));
}

#[test]
fn a_composite_and_its_sub_component_record_each_other() {
    let mut surface = container();
    let mut inner = container();
    surface.link_internal_component(2, 5, &mut inner, 1);
    surface.link_internal_component(1, 5, &mut inner, 2);
    assert!(matches!(
        &surface.all_pins[1],
        PinRef::UnidirectionalOutput(pin) if matches!(
            &pin.driver,
            OutputComputationMethod::Automatic(output) if output.input.links == vec![PinLink::new(ComponentHandle::Inner(5), 1)]
        )
    ));
    assert!(matches!(
        &inner.all_pins[0],
        PinRef::UnidirectionalInput(pin) if pin.links == vec![PinLink::new(ComponentHandle::Proxy(InternalComponentProxy::new()), 2)]
    ));
    assert!(matches!(&surface.all_pins[0], PinRef::UnidirectionalInput(pin) if pin.links.is_empty()));
    assert!(matches!(
        &inner.all_pins[1],
        PinRef::UnidirectionalOutput(pin) if matches!(pin.driver, OutputComputationMethod::Manual(_))
    ));
}

#[test]
fn single_pins_tell_what_they_drive_and_what_they_received() {
    let mut input = UnidirectionalInputPin::new();
    assert_eq!(input.compute_input(), Tristate::State(false));
    assert_eq!(input.compute_for_external(), Tristate::State(false));
    input.link_to(ComponentHandle::Peer(0), 1);
    input.link_to(ComponentHandle::Peer(0), 1);
    assert_eq!(input.links.len(), 1);
    input.input_value = Tristate::State(true);
    assert_eq!(input.compute_input(), Tristate::State(true));
    assert_eq!(input.compute_for_external(), Tristate::State(false));

    let mut both = BidirectionalPin::new(OutputComputationMethod::Manual(Tristate::State(true)), PinMode::Output);
    assert!(matches!(both.current_mode(), PinMode::Output));
    assert_eq!(both.compute_for_external(), Tristate::State(true));
    assert_eq!(both.compute_input(), Tristate::State(false));
    both.link_to(ComponentHandle::Peer(1), 2);
    both.input_pin.input_value = Tristate::Undefined;
    both.switch_to_mode(PinMode::Input);
    assert_eq!(both.compute_for_external(), Tristate::State(false));
    assert_eq!(both.compute_input(), Tristate::Undefined);
    assert_eq!(both.input_pin.links, vec![PinLink::new(ComponentHandle::Peer(1), 2)]);

    let mut sampler = OutputFromInternalComponents::new(Tristate::State(true));
    sampler.link_to(ComponentHandle::Inner(2), 3);
    sampler.link_to(ComponentHandle::Inner(2), 3);
    assert_eq!(sampler.result, Tristate::State(true));
    assert_eq!(sampler.input.links, vec![PinLink::new(ComponentHandle::Inner(2), 3)]);
    assert_eq!(PinState::default(), PinState::NeverComputed);
}
