use nanotekspice::circuit::board::{Board, Site};
use nanotekspice::components::chipset::Chipset;
use nanotekspice::components::factory::DefaultComponentFactory;
use nanotekspice::components::tristate::Tristate;
use nanotekspice::components::types::ComponentType;
use nanotekspice::components::{Component, InvalidPin};
use nanotekspice::pin::container::{InputPinError, PinContainer};
use nanotekspice::pin::pin::PinState;

fn site(component: usize) -> Site {
    Site { component, inner: None }
}

fn board(types: &[ComponentType], links: &[(usize, usize, usize, usize)]) -> Board {
    let mut board = Board::new();
    for component_type in types {
        board.push(DefaultComponentFactory::build(*component_type));
    }
    for &(left, left_pin, right, right_pin) in links {
        board.link_peer(left, left_pin, right, right_pin);
        board.link_peer(right, right_pin, left, left_pin);
    }
    board
}

fn level(board: &Board, component: usize) -> Tristate {
    board.chipsets[component].output_level().unwrap()
}

#[test]
fn a_component_is_evaluated_once_in_a_tick() {
    let mut board = board(&[ComponentType::Clock, ComponentType::Output], &[(0, 1, 1, 1)]);
    board.chipsets[0].stage(Tristate::State(false));
    PinContainer::simulate(&mut board, site(1), 0);
    assert_eq!(board.unit_state(site(0)), PinState::Available(0));
    assert_eq!(board.unit_state(site(1)), PinState::Available(0));
    assert_eq!(level(&board, 1), Tristate::State(false));
    let before = format!("{board:?}");
    PinContainer::simulate(&mut board, site(0), 0);
    PinContainer::simulate(&mut board, site(1), 0);
    PinContainer::simulate_no_manual_outputs(&mut board, site(0), 0);
    board.simulate_all(0);
    assert_eq!(format!("{board:?}"), before);
    board.simulate_all(1);
    assert_eq!(level(&board, 1), Tristate::State(true));
    assert_eq!(board.unit_state(site(0)), PinState::Available(1));
    let before = format!("{board:?}");
    board.simulate_all(1);
    assert_eq!(format!("{board:?}"), before);
}

#[test]
fn an_evaluation_reaches_what_it_needs_and_only_that() {
    let mut board = board(
        &[ComponentType::True, ComponentType::Output, ComponentType::Output, ComponentType::C4069],
        &[(0, 1, 3, 1), (3, 2, 1, 1), (0, 1, 2, 1)],
    );
    PinContainer::simulate(&mut board, site(1), 5);
    assert_eq!(level(&board, 1), Tristate::State(false));
    assert_eq!(board.unit_state(site(0)), PinState::Available(5));
    assert_eq!(board.unit_state(site(3)), PinState::Available(5));
    assert_eq!(board.unit_state(Site { component: 3, inner: Some(0) }), PinState::Available(5));
    assert_eq!(board.unit_state(Site { component: 3, inner: Some(1) }), PinState::Available(5));
    assert_eq!(board.unit_state(site(2)), PinState::NeverComputed);
    assert_eq!(level(&board, 2), Tristate::Undefined);
}

#[test]
fn pins_are_read_through_their_container() {
    let mut board = board(&[ComponentType::True, ComponentType::Output, ComponentType::C4081], &[(0, 1, 1, 1)]);
    board.simulate_all(0);
    assert!(matches!(PinContainer::compute_for_external(&mut board, site(0), 1, 0), Ok(Tristate::State(true))));
    assert!(matches!(PinContainer::compute_for_external(&mut board, site(0), 2, 0), Err(InvalidPin(2))));
    assert!(matches!(PinContainer::compute_for_external(&mut board, site(0), 0, 0), Err(InvalidPin(0))));
    assert!(matches!(PinContainer::compute_for_external(&mut board, site(1), 1, 0), Ok(Tristate::State(false))));
    assert!(matches!(PinContainer::compute_for_external(&mut board, site(2), 3, 0), Ok(Tristate::State(false))));
    assert!(matches!(PinContainer::compute_for_external(&mut board, site(2), 7, 0), Ok(Tristate::Undefined)));
    assert!(matches!(PinContainer::compute_input(&mut board, site(1), 1, 0), Ok(Tristate::State(true))));
    assert!(matches!(PinContainer::compute_input(&mut board, site(0), 1, 0), Err(InputPinError::NotAnInput(1))));
    assert!(matches!(PinContainer::compute_input(&mut board, site(2), 3, 0), Err(InputPinError::NotAnInput(3))));
    assert!(matches!(PinContainer::compute_input(&mut board, site(1), 2, 0), Err(InputPinError::InvalidPin(2))));
    assert!(matches!(PinContainer::compute_input(&mut board, site(2), 15, 0), Err(InputPinError::InvalidPin(15))));
}

#[test]
fn components_tell_what_they_are() {
    let mut input = DefaultComponentFactory::build(ComponentType::Input);
    let output = DefaultComponentFactory::build(ComponentType::Output);
    let constant = DefaultComponentFactory::build(ComponentType::False);
    assert!(matches!(input, Chipset::Input(_)));
    assert!(matches!(constant, Chipset::False(_)));
    assert!(matches!(DefaultComponentFactory::build(ComponentType::C4069), Chipset::ParallelOne(_)));
    assert!(matches!(DefaultComponentFactory::dummy(3), Chipset::Dummy(_)));
    assert_eq!(input.as_input().unwrap().get_current_state(), Tristate::Undefined);
    assert!(input.as_output().is_none());
    assert!(output.as_input().is_none());
    assert_eq!(output.as_output().unwrap().get_value(), Tristate::Undefined);
    assert!(constant.as_input().is_none() && constant.as_output().is_none());
    assert_eq!(input.input_level(), Some(Tristate::Undefined));
    assert_eq!(constant.input_level(), None);
    assert!(input.stage(Tristate::State(true)));
    assert_eq!(input.input_level(), Some(Tristate::Undefined));
    input.drive(None);
    assert_eq!(input.input_level(), Some(Tristate::State(true)));
    input.drive(None);
    assert_eq!(input.input_level(), Some(Tristate::State(true)));
    let mut constant = constant;
    assert!(!constant.stage(Tristate::State(true)));
    constant.drive(None);
    assert_eq!(constant.pins_ref().read_output(1), Tristate::State(false));
    assert!(matches!(constant.set_link(2, nanotekspice::components::ComponentHandle::Peer(0), 1), Err(InvalidPin(2))));
    assert!(constant.set_link(1, nanotekspice::components::ComponentHandle::Peer(0), 1).is_ok());
}
