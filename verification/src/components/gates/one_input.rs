//! Gates with one input.

use std::collections::HashMap;
use std::ops::Not;
use vstd::prelude::*;

use crate::components::{Component, ComponentHandle, InvalidPin, PinNumber};
use crate::pin::container::{PinContainer, PinSpecification};
use crate::pin::pin::OutputComputationMethod;

verus! {

broadcast use vstd::std_specs::hash::group_hash_axioms;

/// The pin numbers of a gate with one input.
pub trait GateOneInput {
    const INPUT: PinNumber;

    const OUTPUT: PinNumber;
}

/// An inverter: pin 2 shows the negation of what pin 1 receives.
#[derive(Debug)]
pub struct GateNOT {
    pub pins: PinContainer,
}

impl GateOneInput for GateNOT {
    const INPUT: PinNumber = 1;

    const OUTPUT: PinNumber = 2;
}

impl GateNOT {
    /// Two pins: one that receives, and an output written by hand.
    pub open spec fn well_formed(self) -> bool {
        &&& self.pins.well_formed()
        &&& self.pins.size() == 2
        &&& self.pins.pin(1).input() is Some
        &&& self.pins.pin(1).driver() is None
        &&& self.pins.pin(2).input() is None
        &&& self.pins.pin(2).driver() matches Some(OutputComputationMethod::Manual(_))
    }

    pub fn new() -> (r: GateNOT)
        ensures
            r.well_formed(),
            r.pins.fresh(2, GateNOT::pins_layout()),
    {
        let r = GateNOT { pins: PinContainer::new(2, Self::build_pins_spec()) };
        assert(r.pins.pin(1).fresh(Some(PinSpecification::UnidirectionalInput())));
        assert(r.pins.pin(2).fresh(Some(PinSpecification::UnidirectionalOutput())));
        r
    }

    /// The pin layout of an inverter.
    pub open spec fn pins_layout() -> Map<PinNumber, PinSpecification> {
        map![
            1usize => PinSpecification::UnidirectionalInput(),
            2usize => PinSpecification::UnidirectionalOutput(),
        ]
    }

    pub fn build_pins_spec() -> (r: HashMap<PinNumber, PinSpecification>)
        ensures
            r@ == GateNOT::pins_layout(),
    {
        let mut spec: HashMap<PinNumber, PinSpecification> = HashMap::new();
        spec.insert(1, PinSpecification::UnidirectionalInput());
        spec.insert(2, PinSpecification::UnidirectionalOutput());
        assert(spec@ =~= GateNOT::pins_layout());
        spec
    }

    /// `next` is this gate after its evaluation: the output shows the
    /// negation of what the input received.
    pub open spec fn drives_to(self, next: GateNOT) -> bool {
        &&& self.pins.only_pin_changed(next.pins, 2)
        &&& next.pins.pin(2) == self.pins.pin(2).with_driver(
            OutputComputationMethod::Manual(self.pins.pin(1).input_value().negate()),
        )
    }

    /// The evaluation proper.
    pub fn drive(&mut self)
        requires
            old(self).well_formed(),
        ensures
            old(self).drives_to(*final(self)),
    {
        let input = self.pins.read_input(1);
        self.pins.write_output(2, input.not());
    }
}

impl Component for GateNOT {
    open spec fn surface(&self) -> PinContainer {
        self.pins
    }

    open spec fn sound(&self) -> bool {
        self.well_formed()
    }

    fn set_link(
        &mut self,
        pin: PinNumber,
        other_component: ComponentHandle,
        other_pin: PinNumber,
    ) -> (r: Result<(), InvalidPin>) {
        let r = self.pins.set_link_to_external_component(pin, other_component, other_pin);
        proof {
            assert(self.surface() == self.pins);
            assert(old(self).surface() == old(self).pins);
            assert(self.sound() == self.well_formed());
            if r is Ok {
                let a = old(self).pins;
                let b = self.pins;
                assert forall|i: int| 0 <= i < a.all_pins@.len() implies (
                #[trigger] b.all_pins@[i]).input() is Some == a.all_pins@[i].input() is Some
                    && b.all_pins@[i].driver() == a.all_pins@[i].driver() by {
                    if i != pin - 1 {
                        assert(b.all_pins@[i] == a.all_pins@[i]);
                    }
                }
                assert(b.all_pins@[0].driver() == a.all_pins@[0].driver());
                assert(b.all_pins@[1].driver() == a.all_pins@[1].driver());
                if a.all_pins@.len() > 2 {
                    assert(b.all_pins@[2].driver() == a.all_pins@[2].driver());
                }
            }
        }
        r
    }
}

impl Default for GateNOT {
    fn default() -> (r: GateNOT)
        ensures
            r.well_formed(),
            r.pins.fresh(2, GateNOT::pins_layout()),
    {
        GateNOT::new()
    }
}

} // verus!
