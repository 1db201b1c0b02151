//! A component that does nothing.

use std::collections::HashMap;
use vstd::prelude::*;

use crate::components::chipset::Chipset;
use crate::components::{Component, ComponentHandle, InvalidPin, PinNumber};
use crate::pin::container::{PinContainer, PinSpecification};
use crate::pin::pin::{OutputComputationMethod, PinLink};

verus! {

broadcast use vstd::std_specs::hash::group_hash_axioms;

/// A component whose pins all float: it drives nothing and reads nothing.
/// It stands in where only the pin count matters.
#[derive(Debug)]
pub struct DummyComponent {
    pub pins: PinContainer,
}

impl DummyComponent {
    /// Every pin floats.
    pub open spec fn well_formed(self) -> bool {
        &&& self.pins.well_formed()
        &&& forall|i: int|
            0 <= i < self.pins.all_pins@.len() ==> {
                &&& (#[trigger] self.pins.all_pins@[i]).input() is None
                &&& self.pins.all_pins@[i].driver() == Some(OutputComputationMethod::Floating)
            }
    }

    pub fn new(nb_pins: usize) -> (r: DummyComponent)
        ensures
            r.well_formed(),
            r.pins.fresh(nb_pins, Map::<PinNumber, PinSpecification>::empty()),
    {
        let r = DummyComponent { pins: PinContainer::new(nb_pins, HashMap::new()) };
        assert forall|i: int| 0 <= i < r.pins.all_pins@.len() implies {
            &&& (#[trigger] r.pins.all_pins@[i]).input() is None
            &&& r.pins.all_pins@[i].driver() == Some(OutputComputationMethod::Floating)
        } by {
            assert(r.pins.pin((i + 1) as usize).fresh(None));
        }
        r
    }

    /// `next` is this component after its evaluation: nothing changes.
    pub open spec fn drives_to(self, next: DummyComponent) -> bool {
        next.pins == self.pins
    }

    /// The evaluation proper: there is nothing to do.
    pub fn drive(&mut self)
        ensures
            old(self).drives_to(*final(self)),
    {
    }
}

impl Component for DummyComponent {
    open spec fn surface(&self) -> PinContainer {
        self.pins
    }

    open spec fn sound(&self) -> bool {
        self.well_formed()
    }

    fn set_link(
        &mut self,
        pin: PinNumber,
        other_component: ComponentHandle,
        other_pin: PinNumber,
    ) -> (r: Result<(), InvalidPin>) {
        let r = self.pins.set_link_to_external_component(pin, other_component, other_pin);
        proof {
            assert(self.surface() == self.pins);
            assert(old(self).surface() == old(self).pins);
            assert(self.sound() == self.well_formed());
            if r is Ok {
                Chipset::Dummy(*old(self)).lemma_well_formed_linked(
                    Chipset::Dummy(*self),
                    pin,
                    PinLink { component: other_component, pin: other_pin },
                );
            }
        }
        r
    }
}

} // verus!
