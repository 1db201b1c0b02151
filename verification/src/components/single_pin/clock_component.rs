//! A source that toggles by itself.

use std::collections::HashMap;
use std::ops::Not;
use vstd::prelude::*;

use crate::components::chipset::Chipset;
use crate::components::tristate::Tristate;
use crate::components::{Component, ComponentHandle, Input, InvalidPin, PinNumber};
use crate::pin::container::{PinContainer, PinSpecification};
use crate::pin::pin::{OutputComputationMethod, Pin, PinLink};

verus! {

broadcast use vstd::std_specs::hash::group_hash_axioms;

/// A one-pin source that inverts its level at each evaluation. A level set
/// by the user replaces the inversion once; an undefined level stays
/// undefined until the user sets another.
#[derive(Debug)]
pub struct ClockComponent {
    pub pins: PinContainer,
    pub value_for_next_tick: Option<Tristate>,
}

impl ClockComponent {
    pub const PIN_OUTPUT: PinNumber = 1;

    /// One pin, an output written by hand.
    pub open spec fn well_formed(self) -> bool {
        &&& self.pins.well_formed()
        &&& self.pins.size() == 1
        &&& self.pins.pin(1).input() is None
        &&& self.pins.pin(1).driver() matches Some(OutputComputationMethod::Manual(_))
    }

    /// The level that the clock shows.
    pub open spec fn level(self) -> Tristate {
        self.pins.pin(1).external_value()
    }

    /// A clock that shows an undefined level and has nothing staged.
    pub fn new() -> (r: ClockComponent)
        ensures
            r.well_formed(),
            r.pins.fresh(1, ClockComponent::pins_layout()),
            r.value_for_next_tick is None,
            r.level() == Tristate::Undefined,
    {
        let r = ClockComponent {
            pins: PinContainer::new(1, Self::build_pins_spec()),
            value_for_next_tick: None,
        };
        assert(r.pins.pin(1).fresh(Some(PinSpecification::UnidirectionalOutput())));
        r
    }

    /// The pin layout of a clock.
    pub open spec fn pins_layout() -> Map<PinNumber, PinSpecification> {
        map![1usize => PinSpecification::UnidirectionalOutput()]
    }

    pub fn build_pins_spec() -> (r: HashMap<PinNumber, PinSpecification>)
        ensures
            r@ == ClockComponent::pins_layout(),
    {
        let mut spec: HashMap<PinNumber, PinSpecification> = HashMap::new();
        spec.insert(Self::PIN_OUTPUT, PinSpecification::UnidirectionalOutput());
        assert(spec@ =~= ClockComponent::pins_layout());
        spec
    }

    /// The level that the clock shows after its next evaluation.
    pub open spec fn next_level(self) -> Tristate {
        match self.value_for_next_tick {
            Some(state) => state,
            None => self.level().negate(),
        }
    }

    /// `next` is this clock after its evaluation: it shows the staged
    /// level, or else the negation of what it showed, and has nothing
    /// staged.
    pub open spec fn drives_to(self, next: ClockComponent) -> bool {
        &&& next.value_for_next_tick is None
        &&& self.pins.only_pin_changed(next.pins, 1)
        &&& next.pins.pin(1) == self.pins.pin(1).with_driver(
            OutputComputationMethod::Manual(self.next_level()),
        )
    }

    /// The evaluation proper: one step of the clock.
    pub fn drive(&mut self)
        requires
            old(self).well_formed(),
        ensures
            old(self).drives_to(*final(self)),
    {
        if let Some(state) = self.value_for_next_tick {
            self.pins.write_output(Self::PIN_OUTPUT, state);
            self.value_for_next_tick = None;
        } else {
            let current = self.pins.read_output(Self::PIN_OUTPUT);
            self.pins.write_output(Self::PIN_OUTPUT, current.not());
        }
    }
}

impl Component for ClockComponent {
    open spec fn surface(&self) -> PinContainer {
        self.pins
    }

    open spec fn sound(&self) -> bool {
        self.well_formed()
    }

    fn set_link(
        &mut self,
        pin: PinNumber,
        other_component: ComponentHandle,
        other_pin: PinNumber,
    ) -> (r: Result<(), InvalidPin>) {
        let r = self.pins.set_link_to_external_component(pin, other_component, other_pin);
        proof {
            assert(self.surface() == self.pins);
            assert(old(self).surface() == old(self).pins);
            assert(self.sound() == self.well_formed());
            if r is Ok {
                Chipset::Clock(*old(self)).lemma_well_formed_linked(
                    Chipset::Clock(*self),
                    pin,
                    PinLink { component: other_component, pin: other_pin },
                );
            }
        }
        r
    }

    fn as_input(&self) -> (r: Option<&dyn Input>)
        ensures
            r matches Some(input) && input.shown() == self.shown() && input.staged()
                == self.staged(),
    {
        assert(self.ready() == self.pins.has_pin(1));
        Some(self)
    }
}

impl Input for ClockComponent {
    open spec fn shown(&self) -> Tristate {
        self.pins.pin(1).external_value()
    }

    open spec fn staged(&self) -> Option<Tristate> {
        self.value_for_next_tick
    }

    open spec fn ready(&self) -> bool {
        self.pins.has_pin(1)
    }

    fn get_current_state(&self) -> (r: Tristate) {
        assert(self.shown() == self.pins.pin(1).external_value());
        self.pins.read_output(Self::PIN_OUTPUT)
    }

    fn set_state_for_next_tick(&mut self, state: Tristate)
        ensures
            final(self).pins == old(self).pins,
    {
        self.value_for_next_tick = Some(state);
        assert(self.staged() == Some(state));
        assert(self.shown() == old(self).shown());
        assert(self.ready() == old(self).ready());
    }
}

} // verus!
