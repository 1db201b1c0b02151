//! Sources of a constant level.

use std::collections::HashMap;
use vstd::prelude::*;

use crate::components::tristate::Tristate;
use crate::components::{Component, ComponentHandle, InvalidPin, PinNumber};
use crate::pin::container::{PinContainer, PinSpecification};
use crate::pin::pin::{OutputComputationMethod, Pin};

verus! {

broadcast use vstd::std_specs::hash::group_hash_axioms;

/// A one-pin source that shows the level `STATE` at every tick.
#[derive(Debug)]
pub struct ConstStateComponent<const STATE: bool> {
    pub pins: PinContainer,
}

/// The source of the low level.
pub type FalseComponent = ConstStateComponent<false>;

/// The source of the high level.
pub type TrueComponent = ConstStateComponent<true>;

impl<const STATE: bool> ConstStateComponent<STATE> {
    pub const OUTPUT: PinNumber = 1;

    /// The level that the component shows.
    pub open spec fn level() -> Tristate {
        Tristate::State(STATE)
    }

    /// One pin, which drives the constant.
    pub open spec fn well_formed(self) -> bool {
        &&& self.pins.well_formed()
        &&& self.pins.size() == 1
        &&& self.pins.pin(1).input() is None
        &&& self.pins.pin(1).driver() == Some(
            OutputComputationMethod::Manual(Tristate::State(STATE)),
        )
    }

    pub fn new() -> (r: Self)
        ensures
            r.well_formed(),
            r.pins.state == crate::pin::pin::PinState::NeverComputed,
            r.pins.pin(1) is UnidirectionalOutput,
    {
        let mut spec: HashMap<PinNumber, PinSpecification> = HashMap::new();
        spec.insert(Self::OUTPUT, PinSpecification::UnidirectionalOutput());
        let mut pins = PinContainer::new(1, spec);
        assert(pins.pin(1).fresh(Some(PinSpecification::UnidirectionalOutput())));
        pins.write_output(Self::OUTPUT, Tristate::State(STATE));
        ConstStateComponent { pins }
    }

    /// `next` is this component after its evaluation: nothing changes.
    pub open spec fn drives_to(self, next: Self) -> bool {
        next.pins == self.pins
    }

    /// The evaluation proper: there is nothing to do.
    pub fn drive(&mut self)
        ensures
            old(self).drives_to(*final(self)),
    {
    }

    /// The level that a pin drives: the constant on the one pin.
    pub fn compute(&self, pin: PinNumber) -> (r: Result<Tristate, InvalidPin>)
        requires
            self.well_formed(),
        ensures
            r == if pin == 1 {
                Ok::<Tristate, InvalidPin>(Tristate::State(STATE))
            } else {
                Err::<Tristate, InvalidPin>(InvalidPin(pin))
            },
            pin == 1 ==> r == Ok::<Tristate, InvalidPin>(self.pins.pin(1).external_value()),
    {
        if pin == Self::OUTPUT {
            Ok(Tristate::State(STATE))
        } else {
            Err(InvalidPin(pin))
        }
    }
}

impl<const STATE: bool> Component for ConstStateComponent<STATE> {
    open spec fn surface(&self) -> PinContainer {
        self.pins
    }

    open spec fn sound(&self) -> bool {
        self.well_formed()
    }

    fn set_link(
        &mut self,
        pin: PinNumber,
        other_component: ComponentHandle,
        other_pin: PinNumber,
    ) -> (r: Result<(), InvalidPin>)
        ensures
            r is Ok <==> pin == 1,
    {
        assert(old(self).sound() == old(self).well_formed());
        let r = self.pins.set_link_to_external_component(pin, other_component, other_pin);
        proof {
            assert(self.surface() == self.pins);
            assert(old(self).surface() == old(self).pins);
            assert(self.sound() == self.well_formed());
            if r is Ok {
                assert(self.pins.pin(1).driver() == old(self).pins.pin(1).driver());
                assert(self.pins.pin(1).input() is None);
            }
        }
        r
    }
}

} // verus!
