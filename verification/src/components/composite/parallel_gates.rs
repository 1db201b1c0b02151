//! Integrated circuits that hold several independent gates of one kind.

use std::collections::HashMap;
use vstd::prelude::*;

use crate::components::chipset::Chipset;
use crate::components::gates::one_input::GateNOT;
use crate::components::gates::two_inputs::{Gate, Operation};
use crate::components::tristate::Tristate;
use crate::components::{Component, ComponentHandle, InvalidPin, PinNumber};
use crate::pin::container::{InternalComponentProxy, PinContainer, PinSpecification};
use crate::pin::pin::{OutputComputationMethod, PinLink, PinState};

verus! {

broadcast use vstd::std_specs::hash::group_hash_axioms;

/// Six gates with one input each behind fourteen pins. The gates take
/// their input and show their output on the pin pairs (1, 2), (3, 4),
/// (5, 6), (9, 8), (11, 10) and (13, 12); pins 7 and 14 float.
#[derive(Debug)]
pub struct ParallelGatesOneInput {
    pub pins: PinContainer,
    pub components: Vec<GateNOT>,
}

impl ParallelGatesOneInput {
    /// The pin on which gate `k` takes its input.
    pub open spec fn input_of(k: int) -> PinNumber {
        if k == 0 {
            1
        } else if k == 1 {
            3
        } else if k == 2 {
            5
        } else if k == 3 {
            9
        } else if k == 4 {
            11
        } else {
            13
        }
    }

    /// The pin on which gate `k` shows its output.
    pub open spec fn output_of(k: int) -> PinNumber {
        if k == 0 {
            2
        } else if k == 1 {
            4
        } else if k == 2 {
            6
        } else if k == 3 {
            8
        } else if k == 4 {
            10
        } else {
            12
        }
    }

    /// Which of the gates owns a pin, for the pins that one of them owns.
    pub open spec fn gate_of(pin: int) -> int {
        if pin <= 2 {
            0
        } else if pin <= 4 {
            1
        } else if pin <= 6 {
            2
        } else if pin <= 9 {
            3
        } else if pin <= 11 {
            4
        } else {
            5
        }
    }

    /// The pins of gate `k`: its input, then its output.
    pub fn per_gate(k: usize) -> (r: (PinNumber, PinNumber))
        requires
            k < 6,
        ensures
            r.0 == Self::input_of(k as int),
            r.1 == Self::output_of(k as int),
    {
        if k == 0 {
            (1, 2)
        } else if k == 1 {
            (3, 4)
        } else if k == 2 {
            (5, 6)
        } else if k == 3 {
            (9, 8)
        } else if k == 4 {
            (11, 10)
        } else {
            (13, 12)
        }
    }

    /// The pin layout of the circuit.
    pub open spec fn pins_layout() -> Map<PinNumber, PinSpecification> {
        Map::new(
            |pin: PinNumber| 1 <= pin <= 13 && pin != 7,
            |pin: PinNumber|
                if pin == 1 || pin == 3 || pin == 5 || pin == 9 || pin == 11 || pin == 13 {
                    PinSpecification::UnidirectionalInput()
                } else {
                    PinSpecification::UnidirectionalOutput()
                },
        )
    }

    pub fn build_pins_spec() -> (r: HashMap<PinNumber, PinSpecification>)
        ensures
            r@ == Self::pins_layout(),
    {
        let mut spec: HashMap<PinNumber, PinSpecification> = HashMap::new();
        let mut k: usize = 0;
        while k < 6
            invariant
                k <= 6,
                forall|pin: PinNumber|
                    spec@.contains_key(pin) <==> exists|j: int|
                        0 <= j < k && (pin == Self::input_of(j) || pin == Self::output_of(j)),
                forall|pin: PinNumber| #[trigger]
                    spec@.contains_key(pin) ==> spec@[pin] == Self::pins_layout()[pin],
            decreases 6 - k,
        {
            let (input_pin, output_pin) = Self::per_gate(k);
            spec.insert(input_pin, PinSpecification::UnidirectionalInput());
            spec.insert(output_pin, PinSpecification::UnidirectionalOutput());
            k += 1;
        }
        assert forall|pin: PinNumber| spec@.contains_key(pin) <==> (1 <= pin <= 13 && pin
            != 7) by {
            if 1 <= pin <= 13 && pin != 7 {
                let j: int = if pin <= 2 {
                    0
                } else if pin <= 4 {
                    1
                } else if pin <= 6 {
                    2
                } else if pin <= 9 {
                    3
                } else if pin <= 11 {
                    4
                } else {
                    5
                };
                assert(pin == Self::input_of(j) || pin == Self::output_of(j));
            }
        }
        assert(spec@ =~= Self::pins_layout());
        spec
    }

    /// `gate` is an inverter that reads what the circuit receives on the
    /// input pin of gate `k`, and the circuit, whose pins are `pins`,
    /// samples it on the output pin of gate `k`.
    pub open spec fn wired(pins: PinContainer, gate: GateNOT, k: int) -> bool {
        let proxy = ComponentHandle::Proxy(InternalComponentProxy {  });
        &&& gate.well_formed()
        &&& gate.pins.pin(1).input().unwrap().links@ == seq![
            PinLink { component: proxy, pin: Self::input_of(k) },
        ]
        &&& pins.pin(Self::input_of(k)).input() is Some
        &&& pins.pin(Self::input_of(k)).driver() is None
        &&& pins.pin(Self::output_of(k)).input() is None
        &&& pins.pin(Self::output_of(k)).driver() matches Some(
            OutputComputationMethod::Automatic(output),
        )
        &&& output.input.links@ == seq![
            PinLink { component: ComponentHandle::Inner(k as usize), pin: 2 },
        ]
    }

    /// Nothing of gate `k` was evaluated yet, and nothing outside is linked
    /// to its pins on the circuit.
    pub open spec fn untouched(pins: PinContainer, gate: GateNOT, k: int) -> bool {
        &&& gate.pins.state == PinState::NeverComputed
        &&& gate.pins.pin(1).input().unwrap().input_state == PinState::NeverComputed
        &&& gate.pins.pin(1).input().unwrap().input_value == Tristate::State(false)
        &&& gate.pins.pin(2).driver() == Some(OutputComputationMethod::Manual(Tristate::Undefined))
        &&& pins.pin(Self::input_of(k)).input().unwrap().is_fresh()
        &&& pins.pin(Self::output_of(k)).driver() matches Some(
            OutputComputationMethod::Automatic(output),
        )
        &&& output.result == Tristate::Undefined
        &&& output.input.input_state == PinState::NeverComputed
        &&& output.input.input_value == Tristate::State(false)
    }

    /// Fourteen pins and six gates, wired pair by pair; the two remaining
    /// pins float.
    pub open spec fn well_formed(self) -> bool {
        &&& self.pins.well_formed()
        &&& self.pins.size() == 14
        &&& self.components@.len() == 6
        &&& forall|k: int|
            0 <= k < 6 ==> Self::wired(self.pins, #[trigger] self.components@[k], k)
        &&& self.pins.pin(7).input() is None
        &&& self.pins.pin(7).driver() == Some(OutputComputationMethod::Floating)
        &&& self.pins.pin(14).input() is None
        &&& self.pins.pin(14).driver() == Some(OutputComputationMethod::Floating)
    }

    /// Nothing was evaluated yet and nothing outside is linked.
    pub open spec fn fresh(self) -> bool {
        &&& self.pins.state == PinState::NeverComputed
        &&& forall|k: int|
            0 <= k < 6 ==> Self::untouched(self.pins, #[trigger] self.components@[k], k)
    }

    pub fn new() -> (r: ParallelGatesOneInput)
        ensures
            r.well_formed(),
            r.fresh(),
    {
        let mut pins = PinContainer::new(14, Self::build_pins_spec());
        let mut components: Vec<GateNOT> = Vec::new();
        let ghost layout = Self::pins_layout();
        let mut k: usize = 0;
        while k < 6
            invariant
                k <= 6,
                layout == Self::pins_layout(),
                pins.well_formed(),
                pins.size() == 14,
                pins.state == PinState::NeverComputed,
                components@.len() == k,
                forall|j: int| 0 <= j < k ==> Self::wired(pins, #[trigger] components@[j], j),
                forall|j: int| 0 <= j < k ==> Self::untouched(pins, #[trigger] components@[j], j),
                forall|pin: PinNumber|
                    1 <= pin <= 14 && !(exists|j: int|
                        0 <= j < k && (pin == Self::input_of(j) || pin == Self::output_of(j)))
                        ==> (#[trigger] pins.pin(pin)).fresh(
                        if layout.contains_key(pin) {
                            Some(layout[pin])
                        } else {
                            None
                        },
                    ),
            decreases 6 - k,
        {
            let mut gate = GateNOT::new();
            let (input_pin, output_pin) = Self::per_gate(k);
            let ghost before = pins;
            assert(gate.pins.pin(1).fresh(Some(PinSpecification::UnidirectionalInput())));
            assert(gate.pins.pin(2).fresh(Some(PinSpecification::UnidirectionalOutput())));
            assert(before.pin(input_pin).fresh(Some(PinSpecification::UnidirectionalInput())));
            assert(before.pin(output_pin).fresh(Some(PinSpecification::UnidirectionalOutput())));
            pins.link_internal_component(input_pin, k, &mut gate.pins, 1);
            let ghost middle = pins;
            assert(middle.pin(output_pin) == before.pin(output_pin));
            pins.link_internal_component(output_pin, k, &mut gate.pins, 2);
            assert(pins.pin(input_pin) == middle.pin(input_pin));
            proof {
                assert(gate.pins.pin(1).input().unwrap().links@ =~= seq![
                    PinLink {
                        component: ComponentHandle::Proxy(InternalComponentProxy {  }),
                        pin: input_pin,
                    },
                ]);
                assert(Self::wired(pins, gate, k as int));
                assert(Self::untouched(pins, gate, k as int));
                assert forall|j: int| 0 <= j < k implies Self::wired(
                    pins,
                    #[trigger] components@[j],
                    j,
                ) && Self::untouched(pins, components@[j], j) by {
                    assert(Self::wired(before, components@[j], j));
                    assert(Self::untouched(before, components@[j], j));
                    assert(pins.pin(Self::input_of(j)) == before.pin(Self::input_of(j)));
                    assert(pins.pin(Self::output_of(j)) == before.pin(Self::output_of(j)));
                }
                assert forall|pin: PinNumber|
                    1 <= pin <= 14 && !(exists|j: int|
                        0 <= j < k + 1 && (pin == Self::input_of(j) || pin == Self::output_of(
                            j,
                        ))) implies (#[trigger] pins.pin(pin)).fresh(
                    if layout.contains_key(pin) {
                        Some(layout[pin])
                    } else {
                        None
                    },
                ) by {
                    assert(pin != input_pin && pin != output_pin);
                    assert(pins.pin(pin) == before.pin(pin));
                    assert(!(exists|j: int|
                        0 <= j < k && (pin == Self::input_of(j) || pin == Self::output_of(j))));
                }
            }
            components.push(gate);
            k += 1;
        }
        let r = ParallelGatesOneInput { pins, components };
        proof {
            assert(r.pins.pin(7).fresh(None));
            assert(r.pins.pin(14).fresh(None));
        }
        r
    }
}

/// Four gates with two inputs each behind fourteen pins. The gates take
/// their inputs on the pin pairs (1, 2), (5, 6), (8, 9) and (12, 13) and
/// show their outputs on pins 3, 4, 10 and 11; pins 7 and 14 float.
#[derive(Debug)]
pub struct ParallelGatesTwoInputs {
    pub pins: PinContainer,
    pub components: Vec<Gate>,
    pub operation: Operation,
}

impl ParallelGatesTwoInputs {
    /// The pin on which gate `k` takes its left input.
    pub open spec fn input_left_of(k: int) -> PinNumber {
        if k == 0 {
            1
        } else if k == 1 {
            5
        } else if k == 2 {
            8
        } else {
            12
        }
    }

    /// The pin on which gate `k` takes its right input.
    pub open spec fn input_right_of(k: int) -> PinNumber {
        if k == 0 {
            2
        } else if k == 1 {
            6
        } else if k == 2 {
            9
        } else {
            13
        }
    }

    /// The pin on which gate `k` shows its output.
    pub open spec fn output_of(k: int) -> PinNumber {
        if k == 0 {
            3
        } else if k == 1 {
            4
        } else if k == 2 {
            10
        } else {
            11
        }
    }

    /// Whether `pin` is one of the three pins of gate `k`.
    pub open spec fn belongs_to(pin: PinNumber, k: int) -> bool {
        pin == Self::input_left_of(k) || pin == Self::input_right_of(k) || pin == Self::output_of(
            k,
        )
    }

    /// Which of the gates owns a pin, for the pins that one of them owns.
    pub open spec fn gate_of(pin: int) -> int {
        if pin <= 3 {
            0
        } else if pin <= 6 {
            1
        } else if pin <= 10 {
            2
        } else {
            3
        }
    }

    /// The pins of gate `k`: its left input, its right input, its output.
    pub fn per_gate(k: usize) -> (r: (PinNumber, PinNumber, PinNumber))
        requires
            k < 4,
        ensures
            r.0 == Self::input_left_of(k as int),
            r.1 == Self::input_right_of(k as int),
            r.2 == Self::output_of(k as int),
    {
        if k == 0 {
            (1, 2, 3)
        } else if k == 1 {
            (5, 6, 4)
        } else if k == 2 {
            (8, 9, 10)
        } else {
            (12, 13, 11)
        }
    }

    /// The pin layout of the circuit.
    pub open spec fn pins_layout() -> Map<PinNumber, PinSpecification> {
        Map::new(
            |pin: PinNumber| 1 <= pin <= 13 && pin != 7,
            |pin: PinNumber|
                if pin == 3 || pin == 4 || pin == 10 || pin == 11 {
                    PinSpecification::UnidirectionalOutput()
                } else {
                    PinSpecification::UnidirectionalInput()
                },
        )
    }

    pub fn build_pins_spec() -> (r: HashMap<PinNumber, PinSpecification>)
        ensures
            r@ == Self::pins_layout(),
    {
        let mut spec: HashMap<PinNumber, PinSpecification> = HashMap::new();
        let mut k: usize = 0;
        while k < 4
            invariant
                k <= 4,
                forall|pin: PinNumber|
                    spec@.contains_key(pin) <==> exists|j: int|
                        0 <= j < k && Self::belongs_to(pin, j),
                forall|pin: PinNumber| #[trigger]
                    spec@.contains_key(pin) ==> spec@[pin] == Self::pins_layout()[pin],
            decreases 4 - k,
        {
            let (input_left_pin, input_right_pin, output_pin) = Self::per_gate(k);
            spec.insert(input_left_pin, PinSpecification::UnidirectionalInput());
            spec.insert(input_right_pin, PinSpecification::UnidirectionalInput());
            spec.insert(output_pin, PinSpecification::UnidirectionalOutput());
            assert(Self::belongs_to(input_left_pin, k as int));
            assert(Self::belongs_to(input_right_pin, k as int));
            assert(Self::belongs_to(output_pin, k as int));
            k += 1;
        }
        assert forall|pin: PinNumber| spec@.contains_key(pin) <==> (1 <= pin <= 13 && pin
            != 7) by {
            if 1 <= pin <= 13 && pin != 7 {
                let j: int = if pin <= 3 {
                    0
                } else if pin <= 6 {
                    1
                } else if pin <= 10 {
                    2
                } else {
                    3
                };
                assert(Self::belongs_to(pin, j));
            }
        }
        assert(spec@ =~= Self::pins_layout());
        spec
    }

    /// `gate` reads what the circuit receives on the input pins of gate
    /// `k`, and the circuit, whose pins are `pins`, samples it on the
    /// output pin of gate `k`.
    pub open spec fn wired(pins: PinContainer, gate: Gate, k: int) -> bool {
        let proxy = ComponentHandle::Proxy(InternalComponentProxy {  });
        &&& gate.well_formed()
        &&& gate.pins.pin(1).input().unwrap().links@ == seq![
            PinLink { component: proxy, pin: Self::input_left_of(k) },
        ]
        &&& gate.pins.pin(2).input().unwrap().links@ == seq![
            PinLink { component: proxy, pin: Self::input_right_of(k) },
        ]
        &&& pins.pin(Self::input_left_of(k)).input() is Some
        &&& pins.pin(Self::input_left_of(k)).driver() is None
        &&& pins.pin(Self::input_right_of(k)).input() is Some
        &&& pins.pin(Self::input_right_of(k)).driver() is None
        &&& pins.pin(Self::output_of(k)).input() is None
        &&& pins.pin(Self::output_of(k)).driver() matches Some(
            OutputComputationMethod::Automatic(output),
        )
        &&& output.input.links@ == seq![
            PinLink { component: ComponentHandle::Inner(k as usize), pin: 3 },
        ]
    }

    /// Nothing of gate `k` was evaluated yet, and nothing outside is linked
    /// to its pins on the circuit.
    pub open spec fn untouched(pins: PinContainer, gate: Gate, k: int) -> bool {
        &&& gate.pins.state == PinState::NeverComputed
        &&& gate.pins.pin(1).input().unwrap().input_state == PinState::NeverComputed
        &&& gate.pins.pin(1).input().unwrap().input_value == Tristate::State(false)
        &&& gate.pins.pin(2).input().unwrap().input_state == PinState::NeverComputed
        &&& gate.pins.pin(2).input().unwrap().input_value == Tristate::State(false)
        &&& gate.pins.pin(3).driver() == Some(OutputComputationMethod::Manual(Tristate::Undefined))
        &&& pins.pin(Self::input_left_of(k)).input().unwrap().is_fresh()
        &&& pins.pin(Self::input_right_of(k)).input().unwrap().is_fresh()
        &&& pins.pin(Self::output_of(k)).driver() matches Some(
            OutputComputationMethod::Automatic(output),
        )
        &&& output.result == Tristate::Undefined
        &&& output.input.input_state == PinState::NeverComputed
        &&& output.input.input_value == Tristate::State(false)
    }

    /// Fourteen pins and four gates of the circuit's operation, wired
    /// three pins by three; the two remaining pins float.
    pub open spec fn well_formed(self) -> bool {
        &&& self.pins.well_formed()
        &&& self.pins.size() == 14
        &&& self.components@.len() == 4
        &&& forall|k: int|
            0 <= k < 4 ==> Self::wired(self.pins, #[trigger] self.components@[k], k)
        &&& forall|k: int| 0 <= k < 4 ==> (#[trigger] self.components@[k]).operation == self.operation
        &&& self.pins.pin(7).input() is None
        &&& self.pins.pin(7).driver() == Some(OutputComputationMethod::Floating)
        &&& self.pins.pin(14).input() is None
        &&& self.pins.pin(14).driver() == Some(OutputComputationMethod::Floating)
    }

    /// Nothing was evaluated yet and nothing outside is linked.
    pub open spec fn fresh(self) -> bool {
        &&& self.pins.state == PinState::NeverComputed
        &&& forall|k: int|
            0 <= k < 4 ==> Self::untouched(self.pins, #[trigger] self.components@[k], k)
    }

    pub fn new(operation: Operation) -> (r: ParallelGatesTwoInputs)
        ensures
            r.well_formed(),
            r.fresh(),
            r.operation == operation,
    {
        let mut pins = PinContainer::new(14, Self::build_pins_spec());
        let mut components: Vec<Gate> = Vec::new();
        let ghost layout = Self::pins_layout();
        let mut k: usize = 0;
        while k < 4
            invariant
                k <= 4,
                layout == Self::pins_layout(),
                pins.well_formed(),
                pins.size() == 14,
                pins.state == PinState::NeverComputed,
                components@.len() == k,
                forall|j: int| 0 <= j < k ==> Self::wired(pins, #[trigger] components@[j], j),
                forall|j: int| 0 <= j < k ==> Self::untouched(pins, #[trigger] components@[j], j),
                forall|j: int| 0 <= j < k ==> (#[trigger] components@[j]).operation == operation,
                forall|pin: PinNumber|
                    1 <= pin <= 14 && !(exists|j: int| 0 <= j < k && Self::belongs_to(pin, j))
                        ==> (#[trigger] pins.pin(pin)).fresh(
                        if layout.contains_key(pin) {
                            Some(layout[pin])
                        } else {
                            None
                        },
                    ),
            decreases 4 - k,
        {
            let mut gate = Gate::new(operation);
            let (input_left_pin, input_right_pin, output_pin) = Self::per_gate(k);
            let ghost before = pins;
            proof {
                assert(gate.pins.pin(1).fresh(Some(PinSpecification::UnidirectionalInput())));
                assert(gate.pins.pin(2).fresh(Some(PinSpecification::UnidirectionalInput())));
                assert(gate.pins.pin(3).fresh(Some(PinSpecification::UnidirectionalOutput())));
                assert forall|j: int| 0 <= j < k implies !Self::belongs_to(input_left_pin, j)
                    && !Self::belongs_to(input_right_pin, j) && !Self::belongs_to(
                    output_pin,
                    j,
                ) by {
                }
                assert(before.pin(input_left_pin).fresh(
                    Some(PinSpecification::UnidirectionalInput()),
                ));
                assert(before.pin(input_right_pin).fresh(
                    Some(PinSpecification::UnidirectionalInput()),
                ));
                assert(before.pin(output_pin).fresh(Some(PinSpecification::UnidirectionalOutput())));
            }
            pins.link_internal_component(input_left_pin, k, &mut gate.pins, 1);
            let ghost first = pins;
            let ghost first_gate = gate;
            pins.link_internal_component(input_right_pin, k, &mut gate.pins, 2);
            let ghost second = pins;
            let ghost second_gate = gate;
            pins.link_internal_component(output_pin, k, &mut gate.pins, 3);
            proof {
                let proxy = ComponentHandle::Proxy(InternalComponentProxy {  });
                assert(first.pin(input_right_pin) == before.pin(input_right_pin));
                assert(first.pin(output_pin) == before.pin(output_pin));
                assert(second.pin(output_pin) == first.pin(output_pin));
                assert(second.pin(input_left_pin) == first.pin(input_left_pin));
                assert(pins.pin(input_left_pin) == second.pin(input_left_pin));
                assert(pins.pin(input_right_pin) == second.pin(input_right_pin));
                assert(second_gate.pins.pin(1) == first_gate.pins.pin(1));
                assert(gate.pins.pin(1) == second_gate.pins.pin(1));
                assert(gate.pins.pin(2) == second_gate.pins.pin(2));
                assert(gate.pins.pin(1).input().unwrap().links@ =~= seq![
                    PinLink { component: proxy, pin: input_left_pin },
                ]);
                assert(gate.pins.pin(2).input().unwrap().links@ =~= seq![
                    PinLink { component: proxy, pin: input_right_pin },
                ]);
                assert(Self::wired(pins, gate, k as int));
                assert(Self::untouched(pins, gate, k as int));
                assert forall|j: int| 0 <= j < k implies Self::wired(
                    pins,
                    #[trigger] components@[j],
                    j,
                ) && Self::untouched(pins, components@[j], j) by {
                    assert(Self::wired(before, components@[j], j));
                    assert(Self::untouched(before, components@[j], j));
                    assert(pins.pin(Self::input_left_of(j)) == before.pin(Self::input_left_of(j)));
                    assert(pins.pin(Self::input_right_of(j)) == before.pin(
                        Self::input_right_of(j),
                    ));
                    assert(pins.pin(Self::output_of(j)) == before.pin(Self::output_of(j)));
                }
                assert forall|pin: PinNumber|
                    1 <= pin <= 14 && !(exists|j: int|
                        0 <= j < k + 1 && Self::belongs_to(pin, j)) implies (#[trigger] pins.pin(
                    pin,
                )).fresh(
                    if layout.contains_key(pin) {
                        Some(layout[pin])
                    } else {
                        None
                    },
                ) by {
                    assert(!Self::belongs_to(pin, k as int));
                    assert(pins.pin(pin) == before.pin(pin));
                    assert(!(exists|j: int| 0 <= j < k && Self::belongs_to(pin, j)));
                }
            }
            components.push(gate);
            k += 1;
        }
        let r = ParallelGatesTwoInputs { pins, components, operation };
        proof {
            assert forall|j: int| 0 <= j < 4 implies !Self::belongs_to(7, j) && !Self::belongs_to(
                14,
                j,
            ) by {
            }
            assert(r.pins.pin(7).fresh(None));
            assert(r.pins.pin(14).fresh(None));
        }
        r
    }
}

impl Component for ParallelGatesOneInput {
    open spec fn surface(&self) -> PinContainer {
        self.pins
    }

    open spec fn sound(&self) -> bool {
        self.well_formed()
    }

    fn set_link(
        &mut self,
        pin: PinNumber,
        other_component: ComponentHandle,
        other_pin: PinNumber,
    ) -> (r: Result<(), InvalidPin>) {
        assert(old(self).sound() == old(self).well_formed());
        let r = self.pins.set_link_to_external_component(pin, other_component, other_pin);
        proof {
            assert(self.surface() == self.pins);
            assert(old(self).surface() == old(self).pins);
            assert(self.sound() == self.well_formed());
            if r is Ok {
                Chipset::ParallelOne(*old(self)).lemma_well_formed_linked(
                    Chipset::ParallelOne(*self),
                    pin,
                    PinLink { component: other_component, pin: other_pin },
                );
            }
        }
        r
    }
}

impl Component for ParallelGatesTwoInputs {
    open spec fn surface(&self) -> PinContainer {
        self.pins
    }

    open spec fn sound(&self) -> bool {
        self.well_formed()
    }

    fn set_link(
        &mut self,
        pin: PinNumber,
        other_component: ComponentHandle,
        other_pin: PinNumber,
    ) -> (r: Result<(), InvalidPin>) {
        assert(old(self).sound() == old(self).well_formed());
        let r = self.pins.set_link_to_external_component(pin, other_component, other_pin);
        proof {
            assert(self.surface() == self.pins);
            assert(old(self).surface() == old(self).pins);
            assert(self.sound() == self.well_formed());
            if r is Ok {
                Chipset::ParallelTwo(*old(self)).lemma_well_formed_linked(
                    Chipset::ParallelTwo(*self),
                    pin,
                    PinLink { component: other_component, pin: other_pin },
                );
            }
        }
        r
    }
}

} // verus!
