//! Gates with two inputs.

use std::collections::HashMap;
use std::ops::Not;
use vstd::prelude::*;

use crate::components::tristate::Tristate;
use crate::components::{Component, ComponentHandle, InvalidPin, PinNumber};
use crate::pin::container::{PinContainer, PinSpecification};
use crate::pin::pin::OutputComputationMethod;

verus! {

broadcast use vstd::std_specs::hash::group_hash_axioms;

/// The pin numbers of a gate with two inputs.
pub trait GateTwoInputs {
    const INPUT_LEFT: PinNumber;

    const INPUT_RIGHT: PinNumber;

    const OUTPUT: PinNumber;
}

/// What a gate with two inputs computes.
#[derive(Debug, Clone, Copy, PartialEq, Eq, Structural)]
pub enum Operation {
    And,
    Or,
    Xor,
    Nand,
    Nor,
}

impl Operation {
    /// The level that the operation gives for two levels.
    pub open spec fn apply(self, left: Tristate, right: Tristate) -> Tristate {
        match self {
            Operation::And => left.and(right),
            Operation::Or => left.or(right),
            Operation::Xor => left.xor(right),
            Operation::Nand => left.and(right).negate(),
            Operation::Nor => left.or(right).negate(),
        }
    }

    pub fn compute(&self, left: Tristate, right: Tristate) -> (r: Tristate)
        ensures
            r == self.apply(left, right),
    {
        match self {
            Operation::And => left & right,
            Operation::Or => left | right,
            Operation::Xor => left ^ right,
            Operation::Nand => (left & right).not(),
            Operation::Nor => (left | right).not(),
        }
    }
}

/// A gate with two inputs: pin 3 shows the operation applied to what pins
/// 1 and 2 receive.
#[derive(Debug)]
pub struct Gate {
    pub pins: PinContainer,
    pub operation: Operation,
}

impl GateTwoInputs for Gate {
    const INPUT_LEFT: PinNumber = 1;

    const INPUT_RIGHT: PinNumber = 2;

    const OUTPUT: PinNumber = 3;
}

impl Gate {
    /// Three pins: two that receive, and an output written by hand.
    pub open spec fn well_formed(self) -> bool {
        &&& self.pins.well_formed()
        &&& self.pins.size() == 3
        &&& self.pins.pin(1).input() is Some
        &&& self.pins.pin(1).driver() is None
        &&& self.pins.pin(2).input() is Some
        &&& self.pins.pin(2).driver() is None
        &&& self.pins.pin(3).input() is None
        &&& self.pins.pin(3).driver() matches Some(OutputComputationMethod::Manual(_))
    }

    pub fn new(operation: Operation) -> (r: Gate)
        ensures
            r.well_formed(),
            r.operation == operation,
            r.pins.fresh(3, Gate::pins_layout()),
    {
        let r = Gate { pins: PinContainer::new(3, Self::build_pins_spec()), operation };
        assert(r.pins.pin(1).fresh(Some(PinSpecification::UnidirectionalInput())));
        assert(r.pins.pin(2).fresh(Some(PinSpecification::UnidirectionalInput())));
        assert(r.pins.pin(3).fresh(Some(PinSpecification::UnidirectionalOutput())));
        r
    }

    /// The pin layout of a gate with two inputs.
    pub open spec fn pins_layout() -> Map<PinNumber, PinSpecification> {
        map![
            1usize => PinSpecification::UnidirectionalInput(),
            2usize => PinSpecification::UnidirectionalInput(),
            3usize => PinSpecification::UnidirectionalOutput(),
        ]
    }

    pub fn build_pins_spec() -> (r: HashMap<PinNumber, PinSpecification>)
        ensures
            r@ == Gate::pins_layout(),
    {
        let mut spec: HashMap<PinNumber, PinSpecification> = HashMap::new();
        spec.insert(1, PinSpecification::UnidirectionalInput());
        spec.insert(2, PinSpecification::UnidirectionalInput());
        spec.insert(3, PinSpecification::UnidirectionalOutput());
        assert(spec@ =~= Gate::pins_layout());
        spec
    }

    /// `next` is this gate after its evaluation: the output shows the
    /// operation applied to what the inputs received.
    pub open spec fn drives_to(self, next: Gate) -> bool {
        &&& next.operation == self.operation
        &&& self.pins.only_pin_changed(next.pins, 3)
        &&& next.pins.pin(3) == self.pins.pin(3).with_driver(
            OutputComputationMethod::Manual(
                self.operation.apply(
                    self.pins.pin(1).input_value(),
                    self.pins.pin(2).input_value(),
                ),
            ),
        )
    }

    /// The evaluation proper.
    pub fn drive(&mut self)
        requires
            old(self).well_formed(),
        ensures
            old(self).drives_to(*final(self)),
    {
        let input_left = self.pins.read_input(1);
        let input_right = self.pins.read_input(2);
        self.pins.write_output(3, self.operation.compute(input_left, input_right));
    }
}

impl Component for Gate {
    open spec fn surface(&self) -> PinContainer {
        self.pins
    }

    open spec fn sound(&self) -> bool {
        self.well_formed()
    }

    fn set_link(
        &mut self,
        pin: PinNumber,
        other_component: ComponentHandle,
        other_pin: PinNumber,
    ) -> (r: Result<(), InvalidPin>) {
        let r = self.pins.set_link_to_external_component(pin, other_component, other_pin);
        proof {
            assert(self.surface() == self.pins);
            assert(old(self).surface() == old(self).pins);
            assert(self.sound() == self.well_formed());
            if r is Ok {
                let a = old(self).pins;
                let b = self.pins;
                assert forall|i: int| 0 <= i < a.all_pins@.len() implies (
                #[trigger] b.all_pins@[i]).input() is Some == a.all_pins@[i].input() is Some
                    && b.all_pins@[i].driver() == a.all_pins@[i].driver() by {
                    if i != pin - 1 {
                        assert(b.all_pins@[i] == a.all_pins@[i]);
                    }
                }
                assert(b.all_pins@[0].driver() == a.all_pins@[0].driver());
                assert(b.all_pins@[1].driver() == a.all_pins@[1].driver());
                if a.all_pins@.len() > 2 {
                    assert(b.all_pins@[2].driver() == a.all_pins@[2].driver());
                }
            }
        }
        r
    }
}

} // verus!
