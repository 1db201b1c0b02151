//! The component on which a user observes the circuit.

use std::collections::HashMap;
use vstd::prelude::*;

use crate::components::chipset::Chipset;
use crate::components::tristate::Tristate;
use crate::components::{Component, ComponentHandle, InvalidPin, Output, PinNumber};
use crate::pin::container::{PinContainer, PinSpecification};
use crate::pin::pin::PinLink;

verus! {

broadcast use vstd::std_specs::hash::group_hash_axioms;

/// A one-pin probe: at each evaluation it samples what its pin receives and
/// keeps the sample until the next.
#[derive(Debug)]
pub struct OutputComponent {
    pub pins: PinContainer,
    pub result: Tristate,
}

impl OutputComponent {
    pub const INPUT: PinNumber = 1;

    /// One pin, which only receives.
    pub open spec fn well_formed(self) -> bool {
        &&& self.pins.well_formed()
        &&& self.pins.size() == 1
        &&& self.pins.pin(1).input() is Some
        &&& self.pins.pin(1).driver() is None
    }

    /// An output that has sampled nothing yet: its value is undefined.
    pub fn new() -> (r: OutputComponent)
        ensures
            r.well_formed(),
            r.pins.fresh(1, OutputComponent::pins_layout()),
            r.result == Tristate::Undefined,
    {
        let r = OutputComponent {
            pins: PinContainer::new(1, Self::build_pins_spec()),
            result: Tristate::Undefined,
        };
        assert(r.pins.pin(1).fresh(Some(PinSpecification::UnidirectionalInput())));
        r
    }

    /// The pin layout of an output.
    pub open spec fn pins_layout() -> Map<PinNumber, PinSpecification> {
        map![1usize => PinSpecification::UnidirectionalInput()]
    }

    pub fn build_pins_spec() -> (r: HashMap<PinNumber, PinSpecification>)
        ensures
            r@ == OutputComponent::pins_layout(),
    {
        let mut spec: HashMap<PinNumber, PinSpecification> = HashMap::new();
        spec.insert(Self::INPUT, PinSpecification::UnidirectionalInput());
        assert(spec@ =~= OutputComponent::pins_layout());
        spec
    }

    /// `next` is this component after its evaluation: it holds what the pin
    /// received.
    pub open spec fn drives_to(self, next: OutputComponent) -> bool {
        &&& next.pins == self.pins
        &&& next.result == self.pins.pin(1).input_value()
    }

    /// The evaluation proper: samples the pin.
    pub fn drive(&mut self)
        requires
            old(self).well_formed(),
        ensures
            old(self).drives_to(*final(self)),
    {
        self.result = self.pins.read_input(Self::INPUT);
    }
}

impl Component for OutputComponent {
    open spec fn surface(&self) -> PinContainer {
        self.pins
    }

    open spec fn sound(&self) -> bool {
        self.well_formed()
    }

    fn set_link(
        &mut self,
        pin: PinNumber,
        other_component: ComponentHandle,
        other_pin: PinNumber,
    ) -> (r: Result<(), InvalidPin>) {
        let r = self.pins.set_link_to_external_component(pin, other_component, other_pin);
        proof {
            assert(self.surface() == self.pins);
            assert(old(self).surface() == old(self).pins);
            assert(self.sound() == self.well_formed());
            if r is Ok {
                Chipset::Output(*old(self)).lemma_well_formed_linked(
                    Chipset::Output(*self),
                    pin,
                    PinLink { component: other_component, pin: other_pin },
                );
            }
        }
        r
    }

    open spec fn observed(&self) -> Option<Tristate> {
        Some(self.result)
    }

    fn as_output(&self) -> (r: Option<&dyn Output>)
        ensures
            r matches Some(output) && output.sampled() == self.sampled(),
    {
        assert(self.observed() == Some(self.result));
        assert(self.sampled() == self.result);
        Some(self)
    }
}

impl Output for OutputComponent {
    open spec fn sampled(&self) -> Tristate {
        self.result
    }

    fn get_value(&self) -> (r: Tristate) {
        assert(self.sampled() == self.result);
        self.result
    }
}

} // verus!
