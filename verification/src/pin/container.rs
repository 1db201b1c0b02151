//! The pins of one component, and what evaluates them.

use std::collections::HashMap;
use vstd::prelude::*;

use crate::components::tristate::Tristate;
use crate::components::{ComponentHandle, InvalidPin, PinNumber, Tick};
use super::pin::{
    BidirectionalPin,
    InputPin,
    OutputComputationMethod,
    OutputFromInternalComponents,
    Pin,
    PinLink,
    PinMode,
    PinState,
    UnidirectionalInputPin,
    UnidirectionalOutputPin,
    with_link,
};

verus! {

broadcast use vstd::std_specs::hash::group_hash_axioms;

/// What a pin of a new container is to be.
#[derive(Debug, Clone, Copy, PartialEq, Eq, Structural)]
pub enum PinSpecification {
    UnidirectionalInput(),
    UnidirectionalOutput(),
    Bidirectional(PinMode),
}

/// Why the mode of a pin could not be switched.
#[derive(Debug, Clone, Copy, PartialEq, Eq, Structural)]
pub enum SwitchPinModeError {
    InvalidPin(PinNumber),
    NotBidirectional(PinNumber),
}

impl vstd::std_specs::convert::FromSpecImpl<InvalidPin> for SwitchPinModeError {
    open spec fn obeys_from_spec() -> bool {
        true
    }

    open spec fn from_spec(value: InvalidPin) -> SwitchPinModeError {
        SwitchPinModeError::InvalidPin(value.0)
    }
}

impl From<InvalidPin> for SwitchPinModeError {
    fn from(value: InvalidPin) -> (r: SwitchPinModeError) {
        SwitchPinModeError::InvalidPin(value.0)
    }
}

/// Why a pin could not be read as an input.
#[derive(Debug, Clone, Copy, PartialEq, Eq, Structural)]
pub enum InputPinError {
    InvalidPin(PinNumber),
    NotAnInput(PinNumber),
}

impl vstd::std_specs::convert::FromSpecImpl<InvalidPin> for InputPinError {
    open spec fn obeys_from_spec() -> bool {
        true
    }

    open spec fn from_spec(value: InvalidPin) -> InputPinError {
        InputPinError::InvalidPin(value.0)
    }
}

impl From<InvalidPin> for InputPinError {
    fn from(value: InvalidPin) -> (r: InputPinError) {
        InputPinError::InvalidPin(value.0)
    }
}

/// One pin of a container, of whichever kind.
#[derive(Debug)]
pub enum PinRef {
    UnidirectionalInput(UnidirectionalInputPin),
    UnidirectionalOutput(UnidirectionalOutputPin),
    Bidirectional(BidirectionalPin),
}

impl PinRef {
    /// The receiving side of the pin, if it has one.
    pub open spec fn input(self) -> Option<UnidirectionalInputPin> {
        match self {
            PinRef::UnidirectionalInput(pin) => Some(pin),
            PinRef::UnidirectionalOutput(_) => None,
            PinRef::Bidirectional(pin) => Some(pin.input_pin),
        }
    }

    /// How the driving side of the pin gets its level, if it has one.
    pub open spec fn driver(self) -> Option<OutputComputationMethod> {
        match self {
            PinRef::UnidirectionalInput(_) => None,
            PinRef::UnidirectionalOutput(pin) => Some(pin.driver),
            PinRef::Bidirectional(pin) => Some(pin.output_pin.driver),
        }
    }

    /// The direction in which the pin currently works.
    pub open spec fn mode(self) -> PinMode {
        match self {
            PinRef::UnidirectionalInput(_) => PinMode::Input,
            PinRef::UnidirectionalOutput(_) => PinMode::Output,
            PinRef::Bidirectional(pin) => pin.mode,
        }
    }

    /// The level that the pin hands to its owner: what it received, or low
    /// where it does not receive.
    pub open spec fn input_value(self) -> Tristate {
        match self {
            PinRef::UnidirectionalInput(pin) => pin.input_value,
            PinRef::UnidirectionalOutput(_) => Tristate::State(false),
            PinRef::Bidirectional(pin) => pin.input_value(),
        }
    }

    /// The pin that a specification asks for, before any link or evaluation.
    pub open spec fn fresh(self, specification: Option<PinSpecification>) -> bool {
        match specification {
            Some(PinSpecification::UnidirectionalInput()) => {
                &&& self is UnidirectionalInput
                &&& self.input().unwrap().is_fresh()
            },
            Some(PinSpecification::UnidirectionalOutput()) => {
                &&& self is UnidirectionalOutput
                &&& self.driver() == Some(OutputComputationMethod::Manual(Tristate::Undefined))
            },
            Some(PinSpecification::Bidirectional(mode)) => {
                &&& self is Bidirectional
                &&& self.mode() == mode
                &&& self.input().unwrap().is_fresh()
                &&& self.driver() == Some(OutputComputationMethod::Manual(Tristate::Undefined))
            },
            None => {
                &&& self is UnidirectionalOutput
                &&& self.driver() == Some(OutputComputationMethod::Floating)
            },
        }
    }

    pub open spec fn well_formed(self) -> bool {
        &&& self.input() matches Some(pin) ==> pin.well_formed()
        &&& self.driver() matches Some(driver) ==> driver.well_formed()
    }

    /// How many evaluations the pin still owes for `tick`: one for its
    /// receiving side and one for an output that samples a sub-component.
    pub open spec fn weight(self, tick: Tick) -> nat {
        (match self.input() {
            Some(pin) => pin.weight(tick),
            None => 0,
        }) + (match self.driver() {
            Some(driver) => driver.weight(tick),
            None => 0,
        })
    }

    /// The same kind of pin as `other`, in the same mode, with the same
    /// links.
    pub open spec fn same_wiring(self, other: PinRef) -> bool {
        &&& self.mode() == other.mode()
        &&& match self.input() {
            Some(pin) => other.input() is Some && pin.same_wiring(other.input().unwrap()),
            None => other.input() is None,
        }
        &&& match self.driver() {
            Some(driver) => other.driver() is Some && driver.same_wiring(other.driver().unwrap()),
            None => other.driver() is None,
        }
        &&& self is Bidirectional <==> other is Bidirectional
    }

    /// What evaluating other pins and components during `tick` may turn
    /// this pin into.
    pub open spec fn advances_to(self, next: PinRef, tick: Tick) -> bool {
        &&& self.mode() == next.mode()
        &&& self is Bidirectional <==> next is Bidirectional
        &&& match self.input() {
            Some(pin) => next.input() is Some && pin.advances_to(next.input().unwrap(), tick),
            None => next.input() is None,
        }
        &&& match self.driver() {
            Some(driver) => next.driver() is Some && driver.advances_to(
                next.driver().unwrap(),
                tick,
            ),
            None => next.driver() is None,
        }
    }

    /// Every aggregating place of the pin was evaluated for `tick`.
    pub open spec fn settled(self, tick: Tick) -> bool {
        &&& self.input() matches Some(pin) ==> pin.input_state == PinState::Available(tick)
        &&& self.driver() matches Some(OutputComputationMethod::Automatic(output))
            ==> output.input.input_state == PinState::Available(tick)
    }

    /// An output that samples a sub-component shows what it last sampled.
    pub open spec fn shows_sample(self) -> bool {
        self.driver() matches Some(OutputComputationMethod::Automatic(output)) ==> output.result
            == output.input.input_value
    }

    /// The level of the driving side of the pin, if it has one.
    pub open spec fn driven(self) -> Option<Tristate> {
        match self.driver() {
            Some(driver) => Some(driver.value()),
            None => None,
        }
    }

    /// The level that the owner wrote on the pin, if the pin is one that
    /// its owner writes.
    pub open spec fn written(self) -> Option<Tristate> {
        match self.driver() {
            Some(OutputComputationMethod::Manual(value)) => Some(value),
            _ => None,
        }
    }

    /// `next` is this pin with, at most, another level written by its
    /// owner.
    pub open spec fn rewritten(self, next: PinRef) -> bool {
        match self.written() {
            Some(_) => next.written() is Some && next == self.with_driver(next.driver().unwrap()),
            None => next == self,
        }
    }

    /// The pin speaks of no tick after `tick`.
    pub open spec fn dated(self, tick: Tick) -> bool {
        &&& self.input() matches Some(pin) ==> pin.input_state.until(tick)
        &&& self.driver() matches Some(OutputComputationMethod::Automatic(output))
            ==> output.input.input_state.until(tick)
    }

    /// No evaluation is under way on this pin but one for `tick`.
    pub open spec fn within(self, tick: Tick) -> bool {
        &&& self.input() matches Some(pin) ==> pin.input_state.within(tick)
        &&& self.driver() matches Some(OutputComputationMethod::Automatic(output))
            ==> output.input.input_state.within(tick)
    }

    /// No evaluation is under way on this pin.
    pub open spec fn at_rest(self) -> bool {
        &&& self.input() matches Some(pin) ==> !(pin.input_state is Computing)
        &&& self.driver() matches Some(OutputComputationMethod::Automatic(output))
            ==> !(output.input.input_state is Computing)
    }

    /// The receiving side of the pin, if it has one.
    pub fn as_input_pin(&self) -> (r: Option<&UnidirectionalInputPin>)
        ensures
            match r {
                Some(pin) => self.input() == Some(*pin),
                None => self.input() is None,
            },
    {
        match self {
            PinRef::UnidirectionalInput(pin) => Some(pin),
            PinRef::Bidirectional(pin) => Some(&pin.input_pin),
            PinRef::UnidirectionalOutput(_) => None,
        }
    }

    pub fn current_pin_mode(&self) -> (r: PinMode)
        ensures
            r == self.mode(),
    {
        match self {
            PinRef::UnidirectionalInput(_) => PinMode::Input,
            PinRef::UnidirectionalOutput(_) => PinMode::Output,
            PinRef::Bidirectional(pin) => pin.current_mode(),
        }
    }

    /// The level that the pin hands to its owner.
    pub fn compute_input(&self) -> (r: Tristate)
        ensures
            r == self.input_value(),
    {
        match self {
            PinRef::UnidirectionalInput(pin) => pin.compute_input(),
            PinRef::UnidirectionalOutput(_) => Tristate::State(false),
            PinRef::Bidirectional(pin) => pin.compute_input(),
        }
    }

    /// Adds a link on the receiving side of the pin; a pin that only drives
    /// is left as it is.
    pub fn link_to(&mut self, component: ComponentHandle, pin: PinNumber)
        requires
            old(self).well_formed(),
        ensures
            final(self).well_formed(),
            old(self).linked(*final(self), PinLink { component, pin }),
    {
        match self {
            PinRef::UnidirectionalInput(input) => input.link_to(component, pin),
            PinRef::Bidirectional(both) => both.link_to(component, pin),
            PinRef::UnidirectionalOutput(_) => {},
        }
    }

    /// The pin with the level of its driving side got in another way.
    pub open spec fn with_driver(self, driver: OutputComputationMethod) -> PinRef {
        match self {
            PinRef::UnidirectionalInput(_) => self,
            PinRef::UnidirectionalOutput(_) => PinRef::UnidirectionalOutput(
                UnidirectionalOutputPin { driver },
            ),
            PinRef::Bidirectional(pin) => PinRef::Bidirectional(
                BidirectionalPin { output_pin: UnidirectionalOutputPin { driver }, ..pin },
            ),
        }
    }

    /// The pin with another receiving side.
    pub open spec fn with_input(self, input: UnidirectionalInputPin) -> PinRef {
        match self {
            PinRef::UnidirectionalInput(_) => PinRef::UnidirectionalInput(input),
            PinRef::UnidirectionalOutput(_) => self,
            PinRef::Bidirectional(pin) => PinRef::Bidirectional(
                BidirectionalPin { input_pin: input, ..pin },
            ),
        }
    }

    /// One of the two places of a pin that aggregate what peers drive: its
    /// receiving side, or, with `internal`, the hidden input through which
    /// an output samples a sub-component.
    pub open spec fn entity(self, internal: bool) -> Option<UnidirectionalInputPin> {
        if internal {
            match self.driver() {
                Some(OutputComputationMethod::Automatic(output)) => Some(output.input),
                _ => None,
            }
        } else {
            self.input()
        }
    }

    /// The pin with one of its two aggregating places replaced.
    pub open spec fn with_entity(self, internal: bool, input: UnidirectionalInputPin) -> PinRef {
        if internal {
            match self.driver() {
                Some(OutputComputationMethod::Automatic(output)) => self.with_driver(
                    OutputComputationMethod::Automatic(
                        OutputFromInternalComponents { input, ..output },
                    ),
                ),
                _ => self,
            }
        } else {
            self.with_input(input)
        }
    }

    /// `next` is this pin after pin `link` of a sub-component was asked to
    /// drive it. An output written by hand turns into one that samples
    /// `link` and still shows the level it showed; an output that samples
    /// already has `link` added; a pin without a driven output is left
    /// alone.
    pub open spec fn sampling(self, next: PinRef, link: PinLink) -> bool {
        match self.driver() {
            Some(OutputComputationMethod::Manual(value)) => {
                &&& next.mode() == self.mode()
                &&& next.input() == self.input()
                &&& self is Bidirectional <==> next is Bidirectional
                &&& next.driver() matches Some(OutputComputationMethod::Automatic(output))
                &&& output.result == value
                &&& output.input.links@ == seq![link]
                &&& output.input.input_state == PinState::NeverComputed
                &&& output.input.input_value == Tristate::State(false)
            },
            Some(OutputComputationMethod::Automatic(before)) => {
                &&& next.mode() == self.mode()
                &&& next.input() == self.input()
                &&& self is Bidirectional <==> next is Bidirectional
                &&& next.driver() matches Some(OutputComputationMethod::Automatic(output))
                &&& output.result == before.result
                &&& output.input.links@ == with_link(before.input.links@, link)
                &&& output.input.input_state == before.input.input_state
                &&& output.input.input_value == before.input.input_value
            },
            _ => next == self,
        }
    }

    /// Makes pin `pin` of `component` drive the output side of this pin, if
    /// it has one that is driven at all.
    pub fn sample(&mut self, component: ComponentHandle, pin: PinNumber)
        requires
            old(self).well_formed(),
        ensures
            final(self).well_formed(),
            old(self).sampling(*final(self), PinLink { component, pin }),
    {
        match self {
            PinRef::UnidirectionalOutput(output) => sample_into(&mut output.driver, component, pin),
            PinRef::Bidirectional(both) => sample_into(
                &mut both.output_pin.driver,
                component,
                pin,
            ),
            PinRef::UnidirectionalInput(_) => {},
        }
    }

    /// The pin with the state and the value of one of its aggregating
    /// places set.
    pub open spec fn with_evaluation(self, internal: bool, state: PinState, value: Tristate) -> PinRef {
        match self.entity(internal) {
            Some(entity) => self.with_entity(
                internal,
                UnidirectionalInputPin { input_state: state, input_value: value, ..entity },
            ),
            None => self,
        }
    }

    /// The pin with the level that it samples set.
    pub open spec fn with_result(self, value: Tristate) -> PinRef {
        match self.driver() {
            Some(OutputComputationMethod::Automatic(output)) => self.with_driver(
                OutputComputationMethod::Automatic(
                    OutputFromInternalComponents { result: value, ..output },
                ),
            ),
            _ => self,
        }
    }

    /// Sets the state and the value of one of the aggregating places of
    /// the pin.
    pub fn set_evaluation(&mut self, internal: bool, state: PinState, value: Tristate)
        requires
            old(self).entity(internal) is Some,
        ensures
            *final(self) == old(self).with_evaluation(internal, state, value),
    {
        if internal {
            match self {
                PinRef::UnidirectionalOutput(output) => match &mut output.driver {
                    OutputComputationMethod::Automatic(sampler) => {
                        sampler.input.input_state = state;
                        sampler.input.input_value = value;
                    },
                    _ => {},
                },
                PinRef::Bidirectional(both) => match &mut both.output_pin.driver {
                    OutputComputationMethod::Automatic(sampler) => {
                        sampler.input.input_state = state;
                        sampler.input.input_value = value;
                    },
                    _ => {},
                },
                PinRef::UnidirectionalInput(_) => {},
            }
        } else {
            match self {
                PinRef::UnidirectionalInput(input) => {
                    input.input_state = state;
                    input.input_value = value;
                },
                PinRef::Bidirectional(both) => {
                    both.input_pin.input_state = state;
                    both.input_pin.input_value = value;
                },
                PinRef::UnidirectionalOutput(_) => {},
            }
        }
    }

    /// Sets the level that an output which samples a sub-component shows.
    pub fn set_result(&mut self, value: Tristate)
        requires
            old(self).entity(true) is Some,
        ensures
            *final(self) == old(self).with_result(value),
    {
        match self {
            PinRef::UnidirectionalOutput(output) => match &mut output.driver {
                OutputComputationMethod::Automatic(sampler) => {
                    sampler.result = value;
                },
                _ => {},
            },
            PinRef::Bidirectional(both) => match &mut both.output_pin.driver {
                OutputComputationMethod::Automatic(sampler) => {
                    sampler.result = value;
                },
                _ => {},
            },
            PinRef::UnidirectionalInput(_) => {},
        }
    }

    /// One of the two aggregating places of the pin, if the pin has it.
    pub fn entity_ref(&self, internal: bool) -> (r: Option<&UnidirectionalInputPin>)
        ensures
            match r {
                Some(entity) => self.entity(internal) == Some(*entity),
                None => self.entity(internal) is None,
            },
    {
        if internal {
            match self {
                PinRef::UnidirectionalOutput(output) => match &output.driver {
                    OutputComputationMethod::Automatic(sampler) => Some(&sampler.input),
                    _ => None,
                },
                PinRef::Bidirectional(both) => match &both.output_pin.driver {
                    OutputComputationMethod::Automatic(sampler) => Some(&sampler.input),
                    _ => None,
                },
                PinRef::UnidirectionalInput(_) => None,
            }
        } else {
            self.as_input_pin()
        }
    }

    /// `next` is this pin after a link to `link` was asked for: a receiving
    /// side has the link, and nothing else has changed.
    pub open spec fn linked(self, next: PinRef, link: PinLink) -> bool {
        &&& next.mode() == self.mode()
        &&& next.driver() == self.driver()
        &&& self is Bidirectional <==> next is Bidirectional
        &&& match self.input() {
            Some(pin) => {
                &&& next.input() is Some
                &&& next.input().unwrap().links@ == with_link(pin.links@, link)
                &&& next.input().unwrap().input_state == pin.input_state
                &&& next.input().unwrap().input_value == pin.input_value
            },
            None => next == self,
        }
    }
}

impl UnidirectionalInputPin {
    /// Without links, never evaluated, reading low.
    pub open spec fn is_fresh(self) -> bool {
        &&& self.links@ == Seq::<PinLink>::empty()
        &&& self.input_state == PinState::NeverComputed
        &&& self.input_value == Tristate::State(false)
    }
}

impl Pin for PinRef {
    /// The level that the pin drives towards its peers: low while it
    /// receives.
    open spec fn external_value(&self) -> Tristate {
        match self {
            PinRef::UnidirectionalInput(pin) => pin.external_value(),
            PinRef::UnidirectionalOutput(pin) => pin.external_value(),
            PinRef::Bidirectional(pin) => pin.external_value(),
        }
    }

    fn compute_for_external(&self) -> (r: Tristate) {
        assert(self.external_value() == match self {
            PinRef::UnidirectionalInput(pin) => pin.external_value(),
            PinRef::UnidirectionalOutput(pin) => pin.external_value(),
            PinRef::Bidirectional(pin) => pin.external_value(),
        });
        match self {
            PinRef::UnidirectionalInput(pin) => pin.compute_for_external(),
            PinRef::UnidirectionalOutput(pin) => pin.compute_for_external(),
            PinRef::Bidirectional(pin) => pin.compute_for_external(),
        }
    }
}

/// Makes pin `pin` of `component` the source of an output, unless the output
/// floats.
fn sample_into(driver: &mut OutputComputationMethod, component: ComponentHandle, pin: PinNumber)
    requires
        old(driver).well_formed(),
    ensures
        final(driver).well_formed(),
        match *old(driver) {
            OutputComputationMethod::Manual(value) => {
                &&& *final(driver) matches OutputComputationMethod::Automatic(output)
                &&& output.result == value
                &&& output.input.links@ == seq![PinLink { component, pin }]
                &&& output.input.input_state == PinState::NeverComputed
                &&& output.input.input_value == Tristate::State(false)
            },
            OutputComputationMethod::Automatic(before) => {
                &&& *final(driver) matches OutputComputationMethod::Automatic(output)
                &&& output.result == before.result
                &&& output.input.links@ == with_link(before.input.links@, PinLink { component, pin })
                &&& output.input.input_state == before.input.input_state
                &&& output.input.input_value == before.input.input_value
            },
            OutputComputationMethod::Floating => *final(driver) == *old(driver),
        },
{
    let shown: Option<Tristate> = match driver {
        OutputComputationMethod::Manual(value) => Some(*value),
        _ => None,
    };
    if let Some(value) = shown {
        let mut output = OutputFromInternalComponents::new(value);
        output.link_to(component, pin);
        assert(output.input.links@ =~= seq![PinLink { component, pin }]);
        *driver = OutputComputationMethod::Automatic(output);
    } else {
        let floats = match driver {
            OutputComputationMethod::Floating => true,
            _ => false,
        };
        if !floats {
            match driver {
                OutputComputationMethod::Automatic(output) => {
                    output.link_to(component, pin);
                },
                _ => {},
            }
        }
    }
}

/// The pins of one component, numbered from 1, and where the component
/// stands in the evaluation of a tick.
#[derive(Debug)]
pub struct PinContainer {
    pub all_pins: Vec<PinRef>,
    pub state: PinState,
}

impl PinContainer {
    /// The number of pins.
    pub open spec fn size(self) -> nat {
        self.all_pins@.len()
    }

    /// Whether the container has a pin of that number.
    pub open spec fn has_pin(self, pin: PinNumber) -> bool {
        1 <= pin <= self.all_pins@.len()
    }

    /// The pin of that number.
    pub open spec fn pin(self, pin: PinNumber) -> PinRef
        recommends
            self.has_pin(pin),
    {
        self.all_pins@[pin - 1]
    }

    pub open spec fn well_formed(self) -> bool {
        forall|i: int| 0 <= i < self.all_pins@.len() ==> (#[trigger] self.all_pins@[i]).well_formed()
    }

    /// Every pin is as its specification asks, or floats where there is
    /// none, and nothing was evaluated yet.
    pub open spec fn fresh(self, nb_pins: usize, pins_spec: Map<PinNumber, PinSpecification>) -> bool {
        &&& self.all_pins@.len() == nb_pins
        &&& self.state == PinState::NeverComputed
        &&& forall|pin: PinNumber|
            1 <= pin <= nb_pins ==> (#[trigger] self.pin(pin)).fresh(
                if pins_spec.contains_key(pin) {
                    Some(pins_spec[pin])
                } else {
                    None
                },
            )
    }

    /// A container of `nb_pins` pins. The pins that `pins_spec` names are
    /// made as it says, the others float. Every pin that `pins_spec` names
    /// must be one of the `nb_pins`.
    pub fn new(nb_pins: usize, pins_spec: HashMap<PinNumber, PinSpecification>) -> (r: PinContainer)
        requires
            forall|pin: PinNumber| pins_spec@.contains_key(pin) ==> 1 <= pin <= nb_pins,
        ensures
            r.fresh(nb_pins, pins_spec@),
            r.well_formed(),
    {
        let mut all_pins: Vec<PinRef> = Vec::new();
        let mut index: usize = 0;
        while index < nb_pins
            invariant
                index <= nb_pins,
                all_pins@.len() == index,
                forall|i: int| 0 <= i < index ==> (#[trigger] all_pins@[i]).well_formed(),
                forall|i: int|
                    0 <= i < index ==> (#[trigger] all_pins@[i]).fresh(
                        if pins_spec@.contains_key((i + 1) as usize) {
                            Some(pins_spec@[(i + 1) as usize])
                        } else {
                            None
                        },
                    ),
            decreases nb_pins - index,
        {
            let pin_number: PinNumber = index + 1;
            let pin: PinRef = match pins_spec.get(&pin_number) {
                Some(PinSpecification::UnidirectionalInput()) => PinRef::UnidirectionalInput(
                    UnidirectionalInputPin::new(),
                ),
                Some(PinSpecification::UnidirectionalOutput()) => PinRef::UnidirectionalOutput(
                    UnidirectionalOutputPin::new(
                        OutputComputationMethod::Manual(Tristate::Undefined),
                    ),
                ),
                Some(PinSpecification::Bidirectional(default_mode)) => PinRef::Bidirectional(
                    BidirectionalPin::new(
                        OutputComputationMethod::Manual(Tristate::Undefined),
                        *default_mode,
                    ),
                ),
                None => PinRef::UnidirectionalOutput(
                    UnidirectionalOutputPin::new(OutputComputationMethod::Floating),
                ),
            };
            all_pins.push(pin);
            index += 1;
        }
        let r = PinContainer { all_pins, state: PinState::NeverComputed };
        assert forall|pin: PinNumber| 1 <= pin <= nb_pins implies (#[trigger] r.pin(pin)).fresh(
            if pins_spec@.contains_key(pin) {
                Some(pins_spec@[pin])
            } else {
                None
            },
        ) by {
            let i = pin - 1;
            assert(r.all_pins@[i].fresh(
                if pins_spec@.contains_key((i + 1) as usize) {
                    Some(pins_spec@[(i + 1) as usize])
                } else {
                    None
                },
            ));
        }
        r
    }

    /// Whether the container has a pin of that number.
    pub fn check(&self, pin: PinNumber) -> (r: Result<(), InvalidPin>)
        ensures
            r is Ok <==> self.has_pin(pin),
            r is Err ==> r == Err::<(), InvalidPin>(InvalidPin(pin)),
    {
        match self.get_pin_ref(pin) {
            Ok(_) => Ok(()),
            Err(e) => Err(e),
        }
    }

    pub fn get_pin_ref(&self, pin: PinNumber) -> (r: Result<&PinRef, InvalidPin>)
        ensures
            match r {
                Ok(pin_ref) => self.has_pin(pin) && *pin_ref == self.pin(pin),
                Err(e) => !self.has_pin(pin) && e == InvalidPin(pin),
            },
    {
        if 1 <= pin && pin <= self.all_pins.len() {
            Ok(&self.all_pins[pin - 1])
        } else {
            Err(InvalidPin(pin))
        }
    }

    /// The direction in which a pin currently works.
    pub fn current_pin_mode(&self, pin: PinNumber) -> (r: Result<PinMode, InvalidPin>)
        ensures
            match r {
                Ok(mode) => self.has_pin(pin) && mode == self.pin(pin).mode(),
                Err(e) => !self.has_pin(pin) && e == InvalidPin(pin),
            },
    {
        match self.get_pin_ref(pin) {
            Ok(pin_ref) => Ok(pin_ref.current_pin_mode()),
            Err(e) => Err(e),
        }
    }

    /// `next` is this container with pin `pin` replaced by a pin of which
    /// `changed` holds, and nothing else touched.
    pub open spec fn only_pin_changed(self, next: PinContainer, pin: PinNumber) -> bool {
        &&& next.state == self.state
        &&& next.all_pins@.len() == self.all_pins@.len()
        &&& forall|i: int|
            0 <= i < self.all_pins@.len() && i != pin - 1 ==> #[trigger] next.all_pins@[i]
                == self.all_pins@[i]
    }

    /// Switches a bidirectional pin to `mode`. Any other pin is left alone
    /// and reported.
    pub fn switch_pin_to_mode(&mut self, pin: PinNumber, mode: PinMode) -> (r: Result<
        (),
        SwitchPinModeError,
    >)
        ensures
            old(self).only_pin_changed(*final(self), pin),
            match r {
                Ok(()) => {
                    &&& old(self).has_pin(pin)
                    &&& old(self).pin(pin) matches PinRef::Bidirectional(before)
                    &&& final(self).pin(pin) matches PinRef::Bidirectional(after)
                    &&& after.mode == mode
                    &&& after.input_pin == before.input_pin
                    &&& after.output_pin == before.output_pin
                },
                Err(SwitchPinModeError::InvalidPin(p)) => {
                    &&& p == pin
                    &&& !old(self).has_pin(pin)
                    &&& *final(self) == *old(self)
                },
                Err(SwitchPinModeError::NotBidirectional(p)) => {
                    &&& p == pin
                    &&& old(self).has_pin(pin)
                    &&& !(old(self).pin(pin) is Bidirectional)
                    &&& *final(self) == *old(self)
                },
            },
            old(self).well_formed() ==> final(self).well_formed(),
    {
        if !(1 <= pin && pin <= self.all_pins.len()) {
            return Err(SwitchPinModeError::InvalidPin(pin));
        }
        match &self.all_pins[pin - 1] {
            PinRef::Bidirectional(_) => {},
            _ => {
                return Err(SwitchPinModeError::NotBidirectional(pin));
            },
        }
        match &mut self.all_pins[pin - 1] {
            PinRef::Bidirectional(both) => {
                both.switch_to_mode(mode);
            },
            _ => {},
        }
        assert(self.all_pins@[pin - 1] is Bidirectional);
        assert(self.well_formed() <== old(self).well_formed()) by {
            if old(self).well_formed() {
                assert forall|i: int| 0 <= i < self.all_pins@.len() implies (
                #[trigger] self.all_pins@[i]).well_formed() by {
                    assert(old(self).all_pins@[i].well_formed());
                }
            }
        }
        Ok(())
    }

    /// The level that a pin drives towards its peers, as it stands.
    pub fn read_output(&self, pin: PinNumber) -> (r: Tristate)
        requires
            self.has_pin(pin),
        ensures
            r == self.pin(pin).external_value(),
    {
        self.all_pins[pin - 1].compute_for_external()
    }

    /// The level that a pin last received, as it stands.
    pub fn read_input(&self, pin: PinNumber) -> (r: Tristate)
        requires
            self.has_pin(pin),
        ensures
            r == self.pin(pin).input_value(),
    {
        self.all_pins[pin - 1].compute_input()
    }

    /// Writes the level of an output that its owner drives by hand.
    pub fn write_output(&mut self, pin: PinNumber, value: Tristate)
        requires
            old(self).has_pin(pin),
            old(self).pin(pin).driver() matches Some(OutputComputationMethod::Manual(_)),
        ensures
            old(self).only_pin_changed(*final(self), pin),
            final(self).pin(pin) == old(self).pin(pin).with_driver(
                OutputComputationMethod::Manual(value),
            ),
    {
        match &mut self.all_pins[pin - 1] {
            PinRef::UnidirectionalOutput(output) => {
                output.driver = OutputComputationMethod::Manual(value);
            },
            PinRef::Bidirectional(both) => {
                both.output_pin.driver = OutputComputationMethod::Manual(value);
            },
            PinRef::UnidirectionalInput(_) => {},
        }
    }

    /// `next` and `r` are what asking this container to record a link from
    /// pin `pin` to pin `other_pin` of `other_component` leaves: an unknown
    /// pin is reported; a known one has the link if it receives.
    pub open spec fn link_recorded(
        self,
        next: PinContainer,
        pin: PinNumber,
        other_component: ComponentHandle,
        other_pin: PinNumber,
        r: Result<(), InvalidPin>,
    ) -> bool {
        match r {
            Ok(()) => {
                &&& self.has_pin(pin)
                &&& self.only_pin_changed(next, pin)
                &&& self.pin(pin).linked(
                    next.pin(pin),
                    PinLink { component: other_component, pin: other_pin },
                )
            },
            Err(e) => !self.has_pin(pin) && e == InvalidPin(pin) && next == self,
        }
    }

    /// Records that pin `pin` is wired to pin `other_pin` of `other_component`.
    /// Only a pin that receives keeps the link: a pin that drives leaves it
    /// to its peer to look it up.
    pub fn set_link_to_external_component(
        &mut self,
        pin: PinNumber,
        other_component: ComponentHandle,
        other_pin: PinNumber,
    ) -> (r: Result<(), InvalidPin>)
        requires
            old(self).well_formed(),
        ensures
            final(self).well_formed(),
            old(self).link_recorded(*final(self), pin, other_component, other_pin, r),
    {
        if !(1 <= pin && pin <= self.all_pins.len()) {
            return Err(InvalidPin(pin));
        }
        self.all_pins[pin - 1].link_to(other_component, other_pin);
        Ok(())
    }
}

/// The sum of a sequence of natural numbers.
pub open spec fn sum(s: Seq<nat>) -> nat
    decreases s.len(),
{
    if s.len() == 0 {
        0
    } else {
        sum(s.drop_last()) + s.last()
    }
}

/// Replacing one term of a sum moves the sum by the difference.
pub proof fn lemma_sum_update(s: Seq<nat>, i: int, v: nat)
    requires
        0 <= i < s.len(),
    ensures
        sum(s.update(i, v)) + s[i] == sum(s) + v,
    decreases s.len(),
{
    if i == s.len() - 1 {
        assert(s.update(i, v).drop_last() =~= s.drop_last());
    } else {
        lemma_sum_update(s.drop_last(), i, v);
        assert(s.update(i, v).drop_last() =~= s.drop_last().update(i, v));
    }
}

impl PinContainer {
    /// How many evaluations each pin still owes for `tick`.
    pub open spec fn pin_weights(self, tick: Tick) -> Seq<nat> {
        Seq::new(self.all_pins@.len(), |i: int| self.all_pins@[i].weight(tick))
    }

    /// How many evaluations the container and its pins still owe for
    /// `tick`.
    pub open spec fn weight(self, tick: Tick) -> nat {
        self.state.weight(tick) + sum(self.pin_weights(tick))
    }

    /// What evaluating other pins and components during `tick` may turn
    /// this container into. The wiring stays. Where the container stays
    /// in its state, what its owner wrote stays, and unless it is being
    /// evaluated what its outputs sample stays too.
    pub open spec fn advances_to(self, next: PinContainer, tick: Tick) -> bool {
        &&& next.all_pins@.len() == self.all_pins@.len()
        &&& self.state.advances_to(next.state, tick)
        &&& forall|i: int|
            0 <= i < self.all_pins@.len() ==> (#[trigger] self.all_pins@[i]).advances_to(
                next.all_pins@[i],
                tick,
            )
        &&& next.state == self.state ==> forall|i: int|
            0 <= i < self.all_pins@.len() ==> (#[trigger] self.all_pins@[i]).written()
                == next.all_pins@[i].written()
        &&& next.state == self.state && !(self.state is Computing) ==> forall|i: int|
            0 <= i < self.all_pins@.len() ==> (#[trigger] self.all_pins@[i]).driven()
                == next.all_pins@[i].driven()
    }

    /// The invariant of an evaluation for `tick`: nothing is being
    /// evaluated for another tick, no pin is being evaluated unless the
    /// container is, and once the container was evaluated so were all its
    /// pins.
    pub open spec fn within(self, tick: Tick) -> bool {
        &&& self.state.within(tick)
        &&& forall|i: int| 0 <= i < self.all_pins@.len() ==> (#[trigger] self.all_pins@[i]).within(tick)
        &&& !(self.state is Computing) ==> forall|i: int|
            0 <= i < self.all_pins@.len() ==> (#[trigger] self.all_pins@[i]).at_rest()
        &&& self.state == PinState::Available(tick) ==> forall|i: int|
            0 <= i < self.all_pins@.len() ==> (#[trigger] self.all_pins@[i]).settled(tick)
    }

    /// The container speaks of no tick after `tick`.
    pub open spec fn dated(self, tick: Tick) -> bool {
        &&& self.state.until(tick)
        &&& forall|i: int| 0 <= i < self.all_pins@.len() ==> (#[trigger] self.all_pins@[i]).dated(tick)
    }

    /// Nothing is being evaluated.
    pub open spec fn at_rest(self) -> bool {
        &&& !(self.state is Computing)
        &&& forall|i: int| 0 <= i < self.all_pins@.len() ==> (#[trigger] self.all_pins@[i]).at_rest()
    }

    /// Replacing one pin moves the weight by the difference.
    pub proof fn lemma_weight_pin_changed(self, next: PinContainer, pin: PinNumber, tick: Tick)
        requires
            self.has_pin(pin),
            self.only_pin_changed(next, pin),
        ensures
            next.weight(tick) + self.pin(pin).weight(tick) == self.weight(tick) + next.pin(
                pin,
            ).weight(tick),
    {
        let a = self.pin_weights(tick);
        let b = next.pin_weights(tick);
        assert(b =~= a.update(pin - 1, next.pin(pin).weight(tick)));
        lemma_sum_update(a, pin - 1, next.pin(pin).weight(tick));
    }

    /// Advancing twice is advancing.
    pub proof fn lemma_advances_transitive(
        self,
        middle: PinContainer,
        next: PinContainer,
        tick: Tick,
    )
        requires
            self.advances_to(middle, tick),
            middle.advances_to(next, tick),
        ensures
            self.advances_to(next, tick),
    {
        assert forall|i: int| 0 <= i < self.all_pins@.len() implies (
        #[trigger] self.all_pins@[i]).advances_to(next.all_pins@[i], tick) by {
            assert(self.all_pins@[i].advances_to(middle.all_pins@[i], tick));
            assert(middle.all_pins@[i].advances_to(next.all_pins@[i], tick));
        }
        if next.state == self.state {
            assert(middle.state == self.state);
            assert forall|i: int| 0 <= i < self.all_pins@.len() implies (
            #[trigger] self.all_pins@[i]).written() == next.all_pins@[i].written() by {
                assert(self.all_pins@[i].written() == middle.all_pins@[i].written());
                assert(middle.all_pins@[i].written() == next.all_pins@[i].written());
            }
            if !(self.state is Computing) {
                assert forall|i: int| 0 <= i < self.all_pins@.len() implies (
                #[trigger] self.all_pins@[i]).driven() == next.all_pins@[i].driven() by {
                    assert(self.all_pins@[i].driven() == middle.all_pins@[i].driven());
                    assert(middle.all_pins@[i].driven() == next.all_pins@[i].driven());
                }
            }
        }
    }

    /// The same pins as `other`, wired in the same way.
    pub open spec fn same_wiring(self, other: PinContainer) -> bool {
        &&& other.all_pins@.len() == self.all_pins@.len()
        &&& forall|i: int|
            0 <= i < self.all_pins@.len() ==> (#[trigger] self.all_pins@[i]).same_wiring(
                other.all_pins@[i],
            )
    }

    /// Advancing keeps the wiring.
    pub proof fn lemma_wiring_advances(self, next: PinContainer, tick: Tick)
        requires
            self.advances_to(next, tick),
        ensures
            self.same_wiring(next),
    {
        assert forall|i: int| 0 <= i < self.all_pins@.len() implies (
        #[trigger] self.all_pins@[i]).same_wiring(next.all_pins@[i]) by {
            assert(self.all_pins@[i].advances_to(next.all_pins@[i], tick));
        }
    }

    /// `next` is this container with, at most, other levels written by
    /// its owner.
    pub open spec fn rewritten(self, next: PinContainer) -> bool {
        &&& next.state == self.state
        &&& next.all_pins@.len() == self.all_pins@.len()
        &&& forall|i: int|
            0 <= i < self.all_pins@.len() ==> (#[trigger] self.all_pins@[i]).rewritten(
                next.all_pins@[i],
            )
    }

    /// What writing other levels keeps.
    pub proof fn lemma_rewritten(self, next: PinContainer, tick: Tick)
        requires
            self.rewritten(next),
        ensures
            self.same_wiring(next),
            next.weight(tick) == self.weight(tick),
            self.within(tick) ==> next.within(tick),
            forall|i: int|
                0 <= i < self.all_pins@.len() ==> {
                    &&& (#[trigger] next.all_pins@[i]).input() == self.all_pins@[i].input()
                    &&& next.all_pins@[i].entity(true) == self.all_pins@[i].entity(true)
                    &&& next.all_pins@[i].mode() == self.all_pins@[i].mode()
                    &&& next.all_pins@[i].input_value() == self.all_pins@[i].input_value()
                    &&& self.all_pins@[i].shows_sample() ==> next.all_pins@[i].shows_sample()
                    &&& self.all_pins@[i].settled(tick) ==> next.all_pins@[i].settled(tick)
                    &&& self.all_pins@[i].advances_to(next.all_pins@[i], tick)
                },
    {
        assert forall|i: int| 0 <= i < self.all_pins@.len() implies {
            &&& (#[trigger] next.all_pins@[i]).input() == self.all_pins@[i].input()
            &&& next.all_pins@[i].entity(true) == self.all_pins@[i].entity(true)
            &&& next.all_pins@[i].mode() == self.all_pins@[i].mode()
            &&& next.all_pins@[i].input_value() == self.all_pins@[i].input_value()
            &&& self.all_pins@[i].shows_sample() ==> next.all_pins@[i].shows_sample()
            &&& self.all_pins@[i].settled(tick) ==> next.all_pins@[i].settled(tick)
            &&& self.all_pins@[i].advances_to(next.all_pins@[i], tick)
            &&& self.all_pins@[i].same_wiring(next.all_pins@[i])
            &&& self.all_pins@[i].weight(tick) == next.all_pins@[i].weight(tick)
            &&& self.all_pins@[i].within(tick) ==> next.all_pins@[i].within(tick)
            &&& self.all_pins@[i].at_rest() ==> next.all_pins@[i].at_rest()
        } by {
            assert(self.all_pins@[i].rewritten(next.all_pins@[i]));
        }
        assert(next.pin_weights(tick) =~= self.pin_weights(tick));
        if self.within(tick) {
            assert forall|i: int| 0 <= i < next.all_pins@.len() implies (
            #[trigger] next.all_pins@[i]).within(tick) by {
                assert(self.all_pins@[i].within(tick));
            }
            if !(next.state is Computing) {
                assert forall|i: int| 0 <= i < next.all_pins@.len() implies (
                #[trigger] next.all_pins@[i]).at_rest() by {
                    assert(self.all_pins@[i].at_rest());
                }
            }
            if next.state == PinState::Available(tick) {
                assert forall|i: int| 0 <= i < next.all_pins@.len() implies (
                #[trigger] next.all_pins@[i]).settled(tick) by {
                    assert(self.all_pins@[i].settled(tick));
                }
            }
        }
    }

    /// A container advances to itself.
    pub proof fn lemma_advances_reflexive(self, tick: Tick)
        ensures
            self.advances_to(self, tick),
    {
    }
}

impl PinContainer {
    /// Sets the state and the value of one of the aggregating places of a
    /// pin.
    pub fn set_evaluation(
        &mut self,
        pin: PinNumber,
        internal: bool,
        state: PinState,
        value: Tristate,
    )
        requires
            old(self).has_pin(pin),
            old(self).pin(pin).entity(internal) is Some,
        ensures
            old(self).only_pin_changed(*final(self), pin),
            final(self).pin(pin) == old(self).pin(pin).with_evaluation(internal, state, value),
    {
        self.all_pins[pin - 1].set_evaluation(internal, state, value);
    }

    /// Sets the level that an output which samples a sub-component shows.
    pub fn set_result(&mut self, pin: PinNumber, value: Tristate)
        requires
            old(self).has_pin(pin),
            old(self).pin(pin).entity(true) is Some,
        ensures
            old(self).only_pin_changed(*final(self), pin),
            final(self).pin(pin) == old(self).pin(pin).with_result(value),
    {
        self.all_pins[pin - 1].set_result(value);
    }

    /// One of the two aggregating places of a pin, if the pin has it.
    pub fn entity_ref(&self, pin: PinNumber, internal: bool) -> (r: Option<
        &UnidirectionalInputPin,
    >)
        requires
            self.has_pin(pin),
        ensures
            match r {
                Some(entity) => self.pin(pin).entity(internal) == Some(*entity),
                None => self.pin(pin).entity(internal) is None,
            },
    {
        self.all_pins[pin - 1].entity_ref(internal)
    }

    /// The number of pins.
    pub fn len(&self) -> (r: usize)
        ensures
            r == self.size(),
    {
        self.all_pins.len()
    }
}

impl PinContainer {
    /// Wires pin `pin` of this container, which belongs to a composite, to
    /// pin `other_pin` of the sub-component at position `other_index`, whose
    /// pins are `other`. The two record each other: where `pin` is a driven
    /// output it samples the sub-component from now on, and where
    /// `other_pin` receives it reads what the composite receives on `pin`.
    pub fn link_internal_component(
        &mut self,
        pin: PinNumber,
        other_index: usize,
        other: &mut PinContainer,
        other_pin: PinNumber,
    )
        requires
            old(self).well_formed(),
            old(other).well_formed(),
            old(self).has_pin(pin),
            old(other).has_pin(other_pin),
        ensures
            final(self).well_formed(),
            final(other).well_formed(),
            old(self).only_pin_changed(*final(self), pin),
            old(self).pin(pin).sampling(
                final(self).pin(pin),
                PinLink { component: ComponentHandle::Inner(other_index), pin: other_pin },
            ),
            old(other).only_pin_changed(*final(other), other_pin),
            old(other).pin(other_pin).linked(
                final(other).pin(other_pin),
                PinLink { component: ComponentHandle::Proxy(InternalComponentProxy {  }), pin },
            ),
    {
        let proxy = InternalComponentProxy::new();
        let _ = proxy.set_link(self, pin, ComponentHandle::Inner(other_index), other_pin);
        let _ = other.set_link_to_external_component(other_pin, ComponentHandle::Proxy(proxy), pin);
    }
}

/// Stands for the outside world of a composite towards its sub-components:
/// a link to it reads what the composite receives on the linked pin.
#[derive(Debug, Clone, Copy, PartialEq, Eq, Structural)]
pub struct InternalComponentProxy {}

impl InternalComponentProxy {
    pub fn new() -> (r: InternalComponentProxy) {
        InternalComponentProxy {  }
    }

    /// Records on the composite's side that its pin `pin` is wired to pin
    /// `other_pin` of `other_component`: a driven output samples it from
    /// now on, any other pin is left alone. An unknown pin is reported.
    pub fn set_link(
        &self,
        container: &mut PinContainer,
        pin: PinNumber,
        other_component: ComponentHandle,
        other_pin: PinNumber,
    ) -> (r: Result<(), InvalidPin>)
        requires
            old(container).well_formed(),
        ensures
            final(container).well_formed(),
            match r {
                Ok(()) => {
                    &&& old(container).has_pin(pin)
                    &&& old(container).only_pin_changed(*final(container), pin)
                    &&& old(container).pin(pin).sampling(
                        final(container).pin(pin),
                        PinLink { component: other_component, pin: other_pin },
                    )
                },
                Err(e) => {
                    &&& !old(container).has_pin(pin)
                    &&& e == InvalidPin(pin)
                    &&& *final(container) == *old(container)
                },
            },
    {
        if !(1 <= pin && pin <= container.all_pins.len()) {
            return Err(InvalidPin(pin));
        }
        container.all_pins[pin - 1].sample(other_component, other_pin);
        Ok(())
    }
}

} // verus!
