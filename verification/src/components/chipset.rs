//! The closed catalog of components, as one type.

use vstd::prelude::*;

use crate::components::composite::parallel_gates::{ParallelGatesOneInput, ParallelGatesTwoInputs};
use crate::components::dummy::DummyComponent;
use crate::components::single_pin::clock_component::ClockComponent;
use crate::components::single_pin::const_component::{FalseComponent, TrueComponent};
use crate::components::single_pin::input_component::InputComponent;
use crate::components::single_pin::output_component::OutputComponent;
use crate::components::tristate::Tristate;
use crate::components::{Component, ComponentHandle, Input, InvalidPin, Output, PinNumber, Tick};
use crate::pin::container::{PinContainer, lemma_sum_update, sum};
use crate::pin::pin::{OutputComputationMethod, Pin, PinLink, PinState};

verus! {

/// What a component remembers besides its pins.
#[derive(Debug, Clone, Copy, PartialEq, Eq, Structural)]
pub enum Latch {
    /// Nothing.
    Idle,
    /// The level that a user set for the next tick, if any.
    Staged(Option<Tristate>),
    /// The level that was sampled at the last evaluation.
    Sampled(Tristate),
}

/// A component of the catalog.
#[derive(Debug)]
pub enum Chipset {
    Input(InputComponent),
    Output(OutputComponent),
    Clock(ClockComponent),
    True(TrueComponent),
    False(FalseComponent),
    ParallelOne(ParallelGatesOneInput),
    ParallelTwo(ParallelGatesTwoInputs),
    Dummy(DummyComponent),
}

impl Chipset {
    /// The pins that the component shows to the circuit.
    pub open spec fn pins(self) -> PinContainer {
        match self {
            Chipset::Input(c) => c.pins,
            Chipset::Output(c) => c.pins,
            Chipset::Clock(c) => c.pins,
            Chipset::True(c) => c.pins,
            Chipset::False(c) => c.pins,
            Chipset::ParallelOne(c) => c.pins,
            Chipset::ParallelTwo(c) => c.pins,
            Chipset::Dummy(c) => c.pins,
        }
    }

    /// The pins of each of the component's sub-components.
    pub open spec fn subs(self) -> Seq<PinContainer> {
        match self {
            Chipset::ParallelOne(c) => Seq::new(c.components@.len(), |g: int| c.components@[g].pins),
            Chipset::ParallelTwo(c) => Seq::new(c.components@.len(), |g: int| c.components@[g].pins),
            _ => Seq::empty(),
        }
    }

    /// The pins of the component itself, or of one of its sub-components.
    pub open spec fn container(self, inner: Option<usize>) -> PinContainer {
        match inner {
            None => self.pins(),
            Some(g) => self.subs()[g as int],
        }
    }

    /// Whether the component has the part that `inner` names.
    pub open spec fn has_part(self, inner: Option<usize>) -> bool {
        inner matches Some(g) ==> g < self.subs().len()
    }

    /// What the component remembers besides its pins.
    pub open spec fn latch(self) -> Latch {
        match self {
            Chipset::Input(c) => Latch::Staged(c.value_for_next_tick),
            Chipset::Clock(c) => Latch::Staged(c.value_for_next_tick),
            Chipset::Output(c) => Latch::Sampled(c.result),
            _ => Latch::Idle,
        }
    }

    /// The same entry of the catalog as `other`.
    pub open spec fn same_kind(self, other: Chipset) -> bool {
        match self {
            Chipset::Input(_) => other is Input,
            Chipset::Output(_) => other is Output,
            Chipset::Clock(_) => other is Clock,
            Chipset::True(_) => other is True,
            Chipset::False(_) => other is False,
            Chipset::ParallelOne(_) => other is ParallelOne,
            Chipset::ParallelTwo(c) => {
                &&& other matches Chipset::ParallelTwo(d)
                &&& d.operation == c.operation
                &&& d.components@.len() == c.components@.len()
                &&& forall|g: int|
                    0 <= g < c.components@.len() ==> (#[trigger] d.components@[g]).operation
                        == c.components@[g].operation
            },
            Chipset::Dummy(_) => other is Dummy,
        }
    }

    /// The layout and the inner wiring that the catalog gives the
    /// component.
    pub open spec fn well_formed(self) -> bool {
        match self {
            Chipset::Input(c) => c.well_formed(),
            Chipset::Output(c) => c.well_formed(),
            Chipset::Clock(c) => c.well_formed(),
            Chipset::True(c) => c.well_formed(),
            Chipset::False(c) => c.well_formed(),
            Chipset::ParallelOne(c) => c.well_formed(),
            Chipset::ParallelTwo(c) => c.well_formed(),
            Chipset::Dummy(c) => c.well_formed(),
        }
    }

    /// `next` is this component with the pins of the part `inner` replaced
    /// by `pins`, and nothing else touched.
    pub open spec fn replaced(self, next: Chipset, inner: Option<usize>, pins: PinContainer) -> bool {
        &&& self.same_kind(next)
        &&& next.latch() == self.latch()
        &&& next.subs().len() == self.subs().len()
        &&& next.container(inner) == pins
        &&& inner is Some ==> next.pins() == self.pins()
        &&& forall|h: int|
            0 <= h < self.subs().len() && !(inner matches Some(g) && g == h)
                ==> #[trigger] next.subs()[h] == self.subs()[h]
    }

    /// The pins that the component shows to the circuit.
    pub fn pins_ref(&self) -> (r: &PinContainer)
        ensures
            *r == self.pins(),
    {
        match self {
            Chipset::Input(c) => &c.pins,
            Chipset::Output(c) => &c.pins,
            Chipset::Clock(c) => &c.pins,
            Chipset::True(c) => &c.pins,
            Chipset::False(c) => &c.pins,
            Chipset::ParallelOne(c) => &c.pins,
            Chipset::ParallelTwo(c) => &c.pins,
            Chipset::Dummy(c) => &c.pins,
        }
    }

    /// How many sub-components the component has.
    pub fn subs_len(&self) -> (r: usize)
        ensures
            r == self.subs().len(),
    {
        match self {
            Chipset::ParallelOne(c) => c.components.len(),
            Chipset::ParallelTwo(c) => c.components.len(),
            _ => 0,
        }
    }

    /// The pins of the component itself, or of one of its sub-components.
    pub fn container_ref(&self, inner: Option<usize>) -> (r: &PinContainer)
        requires
            self.has_part(inner),
        ensures
            *r == self.container(inner),
    {
        match inner {
            None => self.pins_ref(),
            Some(g) => match self {
                Chipset::ParallelOne(c) => &c.components[g].pins,
                Chipset::ParallelTwo(c) => &c.components[g].pins,
                _ => self.pins_ref(),
            },
        }
    }

    /// The pins that the component shows to the circuit, to be changed.
    pub fn pins_mut(&mut self) -> (r: &mut PinContainer)
        ensures
            *r == old(self).pins(),
            old(self).replaced(*final(self), None, *final(r)),
    {
        match self {
            Chipset::Input(c) => &mut c.pins,
            Chipset::Output(c) => &mut c.pins,
            Chipset::Clock(c) => &mut c.pins,
            Chipset::True(c) => &mut c.pins,
            Chipset::False(c) => &mut c.pins,
            Chipset::ParallelOne(c) => &mut c.pins,
            Chipset::ParallelTwo(c) => &mut c.pins,
            Chipset::Dummy(c) => &mut c.pins,
        }
    }
}

impl Chipset {
    /// The number of sub-components is a machine number.
    pub proof fn lemma_subs_bounded(self)
        ensures
            self.subs().len() <= usize::MAX,
            self.pins().all_pins@.len() <= usize::MAX,
    {
        match self {
            Chipset::ParallelOne(c) => {
                assert(c.components.len() == c.components@.len());
            },
            Chipset::ParallelTwo(c) => {
                assert(c.components.len() == c.components@.len());
            },
            _ => {},
        }
        assert(self.pins().all_pins.len() == self.pins().all_pins@.len());
    }

    /// How many evaluations each sub-component still owes for `tick`.
    pub open spec fn sub_weights(self, tick: Tick) -> Seq<nat> {
        Seq::new(self.subs().len(), |g: int| self.subs()[g].weight(tick))
    }

    /// How many evaluations the component and its sub-components still owe
    /// for `tick`.
    pub open spec fn weight(self, tick: Tick) -> nat {
        self.pins().weight(tick) + sum(self.sub_weights(tick))
    }

    /// Replacing the pins of one part moves the weight by the difference.
    pub proof fn lemma_weight_replaced(
        self,
        next: Chipset,
        inner: Option<usize>,
        pins: PinContainer,
        tick: Tick,
    )
        requires
            self.has_part(inner),
            self.replaced(next, inner, pins),
        ensures
            next.weight(tick) + self.container(inner).weight(tick) == self.weight(tick)
                + pins.weight(tick),
    {
        match inner {
            None => {
                assert(next.sub_weights(tick) =~= self.sub_weights(tick));
            },
            Some(g) => {
                let a = self.sub_weights(tick);
                let b = next.sub_weights(tick);
                assert(next.subs()[g as int] == pins);
                assert forall|h: int| 0 <= h < a.len() implies b[h] == a.update(
                    g as int,
                    pins.weight(tick),
                )[h] by {
                    if h != g {
                        assert(next.subs()[h] == self.subs()[h]);
                    }
                }
                assert(next.sub_weights(tick) =~= self.sub_weights(tick).update(
                    g as int,
                    pins.weight(tick),
                ));
                lemma_sum_update(self.sub_weights(tick), g as int, pins.weight(tick));
            },
        }
    }

    /// What the evaluation of the part `inner` during a tick leaves in
    /// `next`, given what the component held before the tick: every
    /// output of the part that samples shows its sample, and what the
    /// part drives by hand and what the component remembers follow from
    /// what the part received.
    pub open spec fn evaluated(self, inner: Option<usize>, next: Chipset) -> bool {
        &&& forall|i: int|
            0 <= i < next.container(inner).all_pins@.len() ==> (#[trigger] next.container(
                inner,
            ).all_pins@[i]).shows_sample()
        &&& self.body_evaluated(inner, next)
    }

    /// What the evaluation proper of the part `inner` leaves in `next`,
    /// given what the component held before: what the part drives by hand
    /// and what the component remembers follow from what the part
    /// received.
    pub open spec fn body_evaluated(self, inner: Option<usize>, next: Chipset) -> bool {
        match inner {
            None => match self {
                Chipset::Input(c) => {
                    &&& next.latch() == Latch::Staged(None)
                    &&& next.pins().pin(1).written() == match c.value_for_next_tick {
                        Some(state) => Some(state),
                        None => c.pins.pin(1).written(),
                    }
                },
                Chipset::Clock(c) => {
                    &&& next.latch() == Latch::Staged(None)
                    &&& next.pins().pin(1).written() == match c.value_for_next_tick {
                        Some(state) => Some(state),
                        None => match c.pins.pin(1).written() {
                            Some(level) => Some(level.negate()),
                            None => None,
                        },
                    }
                },
                Chipset::Output(_) => next.latch() == Latch::Sampled(
                    next.pins().pin(1).input_value(),
                ),
                Chipset::True(c) => next.pins().pin(1).written() == c.pins.pin(1).written(),
                Chipset::False(c) => next.pins().pin(1).written() == c.pins.pin(1).written(),
                _ => true,
            },
            Some(g) => match self {
                Chipset::ParallelOne(_) => next.subs()[g as int].pin(2).written() == Some(
                    next.subs()[g as int].pin(1).input_value().negate(),
                ),
                Chipset::ParallelTwo(c) => next.subs()[g as int].pin(3).written() == Some(
                    c.operation.apply(
                        next.subs()[g as int].pin(1).input_value(),
                        next.subs()[g as int].pin(2).input_value(),
                    ),
                ),
                _ => true,
            },
        }
    }

    /// The same entry of the catalog as `other`, wired in the same way.
    pub open spec fn same_wiring(self, other: Chipset) -> bool {
        &&& self.same_kind(other)
        &&& self.pins().same_wiring(other.pins())
        &&& other.subs().len() == self.subs().len()
        &&& forall|g: int|
            0 <= g < self.subs().len() ==> (#[trigger] self.subs()[g]).same_wiring(other.subs()[g])
    }

    /// If the component shows a constant, `other` shows the same.
    pub open spec fn same_constant(self, other: Chipset) -> bool {
        (self is True || self is False) ==> other.pins().pin(1).written() == self.pins().pin(
            1,
        ).written()
    }

    /// A component stays well formed while its wiring stays.
    pub proof fn lemma_well_formed_same_wiring(self, next: Chipset)
        requires
            self.well_formed(),
            self.same_wiring(next),
            self.same_constant(next),
        ensures
            next.well_formed(),
    {
        let a = self.pins();
        let b = next.pins();
        assert forall|i: int| 0 <= i < b.all_pins@.len() implies (
        #[trigger] b.all_pins@[i]).well_formed() && a.all_pins@[i].same_wiring(b.all_pins@[i]) by {
            assert(a.all_pins@[i].same_wiring(b.all_pins@[i]));
            assert(a.all_pins@[i].well_formed());
        }
        match self {
            Chipset::ParallelOne(c) => {
                let d = next->ParallelOne_0;
                assert forall|k: int| 0 <= k < 6 implies ParallelGatesOneInput::wired(
                    d.pins,
                    #[trigger] d.components@[k],
                    k,
                ) by {
                    assert(ParallelGatesOneInput::wired(c.pins, c.components@[k], k));
                    Self::lemma_container_same_wiring(self.subs()[k], next.subs()[k]);
                    assert(a.all_pins@[ParallelGatesOneInput::input_of(k) - 1].same_wiring(
                        b.all_pins@[ParallelGatesOneInput::input_of(k) - 1],
                    ));
                    assert(a.all_pins@[ParallelGatesOneInput::output_of(k) - 1].same_wiring(
                        b.all_pins@[ParallelGatesOneInput::output_of(k) - 1],
                    ));
                }
                assert(a.all_pins@[6].same_wiring(b.all_pins@[6]));
                assert(a.all_pins@[13].same_wiring(b.all_pins@[13]));
            },
            Chipset::ParallelTwo(c) => {
                let d = next->ParallelTwo_0;
                assert forall|k: int| 0 <= k < 4 implies ParallelGatesTwoInputs::wired(
                    d.pins,
                    #[trigger] d.components@[k],
                    k,
                ) by {
                    assert(ParallelGatesTwoInputs::wired(c.pins, c.components@[k], k));
                    Self::lemma_container_same_wiring(self.subs()[k], next.subs()[k]);
                    assert(a.all_pins@[ParallelGatesTwoInputs::input_left_of(k) - 1].same_wiring(
                        b.all_pins@[ParallelGatesTwoInputs::input_left_of(k) - 1],
                    ));
                    assert(a.all_pins@[ParallelGatesTwoInputs::input_right_of(k) - 1].same_wiring(
                        b.all_pins@[ParallelGatesTwoInputs::input_right_of(k) - 1],
                    ));
                    assert(a.all_pins@[ParallelGatesTwoInputs::output_of(k) - 1].same_wiring(
                        b.all_pins@[ParallelGatesTwoInputs::output_of(k) - 1],
                    ));
                }
                assert(a.all_pins@[6].same_wiring(b.all_pins@[6]));
                assert(a.all_pins@[13].same_wiring(b.all_pins@[13]));
            },
            Chipset::Dummy(c) => {},
            _ => {
                assert(a.all_pins@[0].same_wiring(b.all_pins@[0]));
            },
        }
    }

    /// With the same wiring a container has the same pins, each well
    /// formed if it was.
    pub proof fn lemma_container_same_wiring(a: PinContainer, b: PinContainer)
        requires
            a.same_wiring(b),
        ensures
            a.well_formed() ==> b.well_formed(),
            forall|pin: PinNumber|
                a.has_pin(pin) ==> b.has_pin(pin) && (#[trigger] a.pin(pin)).same_wiring(b.pin(pin)),
    {
        assert forall|pin: PinNumber| a.has_pin(pin) implies b.has_pin(pin) && (#[trigger] a.pin(
            pin,
        )).same_wiring(b.pin(pin)) by {
            assert(a.all_pins@[pin - 1].same_wiring(b.all_pins@[pin - 1]));
        }
        if a.well_formed() {
            assert forall|i: int| 0 <= i < b.all_pins@.len() implies (
            #[trigger] b.all_pins@[i]).well_formed() by {
                assert(a.all_pins@[i].same_wiring(b.all_pins@[i]));
                assert(a.all_pins@[i].well_formed());
            }
        }
    }

    /// `next` is this component after the evaluation proper of its part
    /// `inner`: what the part drives by hand and what the component
    /// remembers are brought up to date from what the part received.
    pub open spec fn drives_to(self, inner: Option<usize>, next: Chipset) -> bool {
        match self {
            Chipset::Input(c) => next matches Chipset::Input(d) && c.drives_to(d),
            Chipset::Output(c) => next matches Chipset::Output(d) && c.drives_to(d),
            Chipset::Clock(c) => next matches Chipset::Clock(d) && c.drives_to(d),
            Chipset::True(c) => next matches Chipset::True(d) && c.drives_to(d),
            Chipset::False(c) => next matches Chipset::False(d) && c.drives_to(d),
            Chipset::Dummy(c) => next matches Chipset::Dummy(d) && c.drives_to(d),
            Chipset::ParallelOne(c) => match inner {
                None => next == self,
                Some(g) => {
                    &&& next matches Chipset::ParallelOne(d)
                    &&& d.pins == c.pins
                    &&& d.components@.len() == c.components@.len()
                    &&& c.components@[g as int].drives_to(d.components@[g as int])
                    &&& forall|h: int|
                        0 <= h < c.components@.len() && h != g ==> #[trigger] d.components@[h]
                            == c.components@[h]
                },
            },
            Chipset::ParallelTwo(c) => match inner {
                None => next == self,
                Some(g) => {
                    &&& next matches Chipset::ParallelTwo(d)
                    &&& d.pins == c.pins
                    &&& d.operation == c.operation
                    &&& d.components@.len() == c.components@.len()
                    &&& c.components@[g as int].drives_to(d.components@[g as int])
                    &&& forall|h: int|
                        0 <= h < c.components@.len() && h != g ==> #[trigger] d.components@[h]
                            == c.components@[h]
                },
            },
        }
    }

    /// The evaluation proper of the component, or of one of its
    /// sub-components: from what the pins last received to what they
    /// drive.
    pub fn drive(&mut self, inner: Option<usize>)
        requires
            old(self).well_formed(),
            old(self).has_part(inner),
        ensures
            old(self).drives_to(inner, *final(self)),
    {
        match self {
            Chipset::Input(c) => c.drive(),
            Chipset::Output(c) => c.drive(),
            Chipset::Clock(c) => c.drive(),
            Chipset::True(c) => c.drive(),
            Chipset::False(c) => c.drive(),
            Chipset::Dummy(c) => c.drive(),
            Chipset::ParallelOne(c) => match inner {
                None => {},
                Some(g) => {
                    assert(ParallelGatesOneInput::wired(c.pins, c.components@[g as int], g as int));
                    c.components[g].drive();
                },
            },
            Chipset::ParallelTwo(c) => match inner {
                None => {},
                Some(g) => {
                    assert(ParallelGatesTwoInputs::wired(c.pins, c.components@[g as int], g as int));
                    c.components[g].drive();
                },
            },
        }
    }

    /// The pins of the component itself, or of one of its sub-components,
    /// to be changed.
    pub fn container_mut(&mut self, inner: Option<usize>) -> (r: &mut PinContainer)
        requires
            old(self).has_part(inner),
        ensures
            *r == old(self).container(inner),
            old(self).replaced(*final(self), inner, *final(r)),
    {
        match self {
            Chipset::Input(c) => &mut c.pins,
            Chipset::Output(c) => &mut c.pins,
            Chipset::Clock(c) => &mut c.pins,
            Chipset::True(c) => &mut c.pins,
            Chipset::False(c) => &mut c.pins,
            Chipset::Dummy(c) => &mut c.pins,
            Chipset::ParallelOne(c) => match inner {
                None => &mut c.pins,
                Some(g) => &mut c.components[g].pins,
            },
            Chipset::ParallelTwo(c) => match inner {
                None => &mut c.pins,
                Some(g) => &mut c.components[g].pins,
            },
        }
    }
}

impl Chipset {
    /// What the evaluation of a part left stays what it left while the part
    /// is not evaluated again.
    pub proof fn lemma_evaluated_stays(
        self,
        inner: Option<usize>,
        middle: Chipset,
        next: Chipset,
        tick: Tick,
    )
        requires
            self.evaluated(inner, middle),
            middle.well_formed(),
            middle.has_part(inner),
            middle.same_kind(next),
            self.same_kind(middle),
            middle.container(inner).advances_to(next.container(inner), tick),
            middle.container(inner).state == crate::pin::pin::PinState::Available(tick),
            next.container(inner).state == crate::pin::pin::PinState::Available(tick),
            middle.container(inner).within(tick),
            inner is None ==> middle.latch() == next.latch(),
        ensures
            self.evaluated(inner, next),
    {
        let b = middle.container(inner);
        let c = next.container(inner);
        assert forall|i: int| 0 <= i < b.all_pins@.len() implies {
            &&& (#[trigger] b.all_pins@[i]).advances_to(c.all_pins@[i], tick)
            &&& b.all_pins@[i].written() == c.all_pins@[i].written()
            &&& b.all_pins@[i].driven() == c.all_pins@[i].driven()
            &&& b.all_pins@[i].input_value() == c.all_pins@[i].input_value()
            &&& b.all_pins@[i].shows_sample() ==> c.all_pins@[i].shows_sample()
        } by {
            assert(b.all_pins@[i].settled(tick));
            assert(b.all_pins@[i].advances_to(c.all_pins@[i], tick));
            assert(b.all_pins@[i].written() == c.all_pins@[i].written());
            assert(b.all_pins@[i].driven() == c.all_pins@[i].driven());
        }
        assert forall|i: int| 0 <= i < c.all_pins@.len() implies (
        #[trigger] c.all_pins@[i]).shows_sample() by {
            assert(b.all_pins@[i].shows_sample());
            assert(b.all_pins@[i].advances_to(c.all_pins@[i], tick));
        }
        match inner {
            None => {
                match self {
                    Chipset::Input(_) | Chipset::Clock(_) | Chipset::Output(_) | Chipset::True(
                        _,
                    ) | Chipset::False(_) => {
                        assert(b.all_pins@[0].advances_to(c.all_pins@[0], tick));
                    },
                    _ => {},
                }
            },
            Some(g) => {
                match middle {
                    Chipset::ParallelOne(m) => {
                        assert(ParallelGatesOneInput::wired(
                            m.pins,
                            m.components@[g as int],
                            g as int,
                        ));
                        assert(b.all_pins@[0].advances_to(c.all_pins@[0], tick));
                        assert(b.all_pins@[1].advances_to(c.all_pins@[1], tick));
                    },
                    Chipset::ParallelTwo(m) => {
                        assert(ParallelGatesTwoInputs::wired(
                            m.pins,
                            m.components@[g as int],
                            g as int,
                        ));
                        assert(b.all_pins@[0].advances_to(c.all_pins@[0], tick));
                        assert(b.all_pins@[1].advances_to(c.all_pins@[1], tick));
                        assert(b.all_pins@[2].advances_to(c.all_pins@[2], tick));
                    },
                    _ => {},
                }
            },
        }
    }

    /// What the evaluation of a part leaves depends on the component as
    /// it was before only through what the component remembered and what
    /// it had written.
    pub proof fn lemma_evaluated_from(self, before: Chipset, inner: Option<usize>, next: Chipset)
        requires
            self.evaluated(inner, next),
            self.same_kind(before),
            inner is None ==> before.latch() == self.latch(),
            inner is None && (self is Input || self is Clock || self is True || self is False)
                ==> before.pins().pin(1).written() == self.pins().pin(1).written(),
        ensures
            before.evaluated(inner, next),
    {
    }
}

impl Chipset {
    /// What the evaluation of a part leaves is read off the pins of the
    /// part and off what the component remembers.
    pub proof fn lemma_evaluated_to(self, inner: Option<usize>, middle: Chipset, next: Chipset)
        requires
            self.evaluated(inner, middle),
            next.container(inner) == middle.container(inner),
            inner is None ==> next.latch() == middle.latch(),
        ensures
            self.evaluated(inner, next),
    {
    }

    /// Being of the same kind is transitive and symmetric.
    pub proof fn lemma_same_kind(self, middle: Chipset, next: Chipset)
        requires
            self.same_kind(middle),
            middle.same_kind(next),
        ensures
            self.same_kind(next),
            middle.same_kind(self),
            self.same_kind(self),
    {
    }
}

impl Chipset {
    /// What the evaluation proper of a part keeps and leaves.
    pub proof fn lemma_drives_to(self, inner: Option<usize>, next: Chipset)
        requires
            self.well_formed(),
            self.has_part(inner),
            self.drives_to(inner, next),
        ensures
            self.same_kind(next),
            next.subs().len() == self.subs().len(),
            self.container(inner).rewritten(next.container(inner)),
            inner is Some ==> next.pins() == self.pins() && next.latch() == self.latch(),
            forall|h: int|
                0 <= h < self.subs().len() && !(inner matches Some(g) && g == h)
                    ==> #[trigger] next.subs()[h] == self.subs()[h],
            self.body_evaluated(inner, next),
            self.same_constant(next),
    {
        let a = self.container(inner);
        let b = next.container(inner);
        match self {
            Chipset::Input(c) => {
                let level = a.pin(1).written().unwrap();
                assert(a.pin(1) == a.pin(1).with_driver(OutputComputationMethod::Manual(level)));
                Self::lemma_one_pin_rewritten(
                    a,
                    b,
                    1,
                    match c.value_for_next_tick {
                        Some(state) => state,
                        None => level,
                    },
                );
            },
            Chipset::Clock(c) => {
                Self::lemma_one_pin_rewritten(a, b, 1, c.next_level());
            },
            Chipset::Output(c) => {
                Self::lemma_same_rewritten(a);
            },
            Chipset::True(c) => {
                Self::lemma_same_rewritten(a);
            },
            Chipset::False(c) => {
                Self::lemma_same_rewritten(a);
            },
            Chipset::Dummy(c) => {
                Self::lemma_same_rewritten(a);
            },
            Chipset::ParallelOne(c) => match inner {
                None => {
                    Self::lemma_same_rewritten(a);
                },
                Some(g) => {
                    assert(ParallelGatesOneInput::wired(c.pins, c.components@[g as int], g as int));
                    Self::lemma_one_pin_rewritten(
                        a,
                        b,
                        2,
                        a.pin(1).input_value().negate(),
                    );
                    let d = next->ParallelOne_0;
                    assert forall|h: int| 0 <= h < self.subs().len() && h != g implies #[trigger] next.subs()[h]
                        == self.subs()[h] by {
                        assert(d.components@[h] == c.components@[h]);
                    }
                },
            },
            Chipset::ParallelTwo(c) => match inner {
                None => {
                    Self::lemma_same_rewritten(a);
                },
                Some(g) => {
                    assert(ParallelGatesTwoInputs::wired(c.pins, c.components@[g as int], g as int));
                    Self::lemma_one_pin_rewritten(
                        a,
                        b,
                        3,
                        c.operation.apply(a.pin(1).input_value(), a.pin(2).input_value()),
                    );
                    let d = next->ParallelTwo_0;
                    assert forall|h: int| 0 <= h < self.subs().len() && h != g implies #[trigger] next.subs()[h]
                        == self.subs()[h] by {
                        assert(d.components@[h] == c.components@[h]);
                    }
                    assert forall|h: int| 0 <= h < c.components@.len() implies (
                    #[trigger] d.components@[h]).operation == c.components@[h].operation by {
                        if h != g {
                            assert(d.components@[h] == c.components@[h]);
                        }
                    }
                },
            },
        }
    }

    /// Pins that differ in one pin, on which only what the owner wrote
    /// differs, are rewritten pins.
    pub proof fn lemma_one_pin_rewritten(
        a: PinContainer,
        b: PinContainer,
        pin: PinNumber,
        value: Tristate,
    )
        requires
            a.has_pin(pin),
            a.only_pin_changed(b, pin),
            a.pin(pin).written() is Some,
            b.pin(pin) == a.pin(pin).with_driver(OutputComputationMethod::Manual(value)),
        ensures
            a.rewritten(b),
    {
        assert forall|i: int| 0 <= i < a.all_pins@.len() implies (#[trigger] a.all_pins@[i]).rewritten(
            b.all_pins@[i],
        ) by {
            if i != pin - 1 {
                assert(b.all_pins@[i] == a.all_pins@[i]);
            }
        }
    }

    /// Pins are their own rewriting.
    pub proof fn lemma_same_rewritten(a: PinContainer)
        ensures
            a.rewritten(a),
    {
    }
}

impl Chipset {
    /// What the evaluation proper of a part leaves depends on the
    /// component as it was before only through what the component
    /// remembered and had written, and is read off the pins of the part
    /// and off what the component remembers.
    pub proof fn lemma_body_evaluated_congruent(
        self,
        before: Chipset,
        inner: Option<usize>,
        middle: Chipset,
        next: Chipset,
    )
        requires
            self.body_evaluated(inner, middle),
            self.same_kind(before),
            inner is None ==> before.latch() == self.latch(),
            inner is None && (self is Input || self is Clock || self is True || self is False)
                ==> before.pins().pin(1).written() == self.pins().pin(1).written(),
            next.container(inner).all_pins == middle.container(inner).all_pins,
            inner is None ==> next.latch() == middle.latch(),
        ensures
            before.body_evaluated(inner, next),
    {
    }
}

impl Chipset {
    /// Nothing of the component was ever evaluated.
    pub open spec fn never_computed(self) -> bool {
        forall|inner: Option<usize>| #[trigger]
            self.has_part(inner) ==> {
                &&& self.container(inner).state == PinState::NeverComputed
                &&& forall|i: int, internal: bool|
                    0 <= i < self.container(inner).all_pins@.len() && (#[trigger] self.container(
                        inner,
                    ).all_pins@[i].entity(internal)) is Some ==> self.container(
                        inner,
                    ).all_pins@[i].entity(internal).unwrap().input_state
                        == PinState::NeverComputed
            }
    }

    /// A link held by the part `inner` leads to a pin inside the
    /// component.
    pub open spec fn link_inside(self, link: PinLink) -> bool {
        match link.component {
            ComponentHandle::Peer(_) => false,
            ComponentHandle::Inner(g) => g < self.subs().len() && self.subs()[g as int].has_pin(
                link.pin,
            ),
            ComponentHandle::Proxy(_) => self.pins().has_pin(link.pin),
        }
    }

    /// Every link of the component leads to a pin inside the component:
    /// nothing outside is linked.
    pub open spec fn links_inside(self) -> bool {
        forall|inner: Option<usize>, i: int, internal: bool, k: int|
            #![trigger self.container(inner).all_pins@[i].entity(internal).unwrap().links@[k]]
            self.has_part(inner) && 0 <= i < self.container(inner).all_pins@.len()
                && self.container(inner).all_pins@[i].entity(internal) is Some && 0 <= k
                < self.container(inner).all_pins@[i].entity(internal).unwrap().links@.len()
                ==> self.link_inside(
                self.container(inner).all_pins@[i].entity(internal).unwrap().links@[k],
            )
    }

    /// The component shows and remembers nothing yet: inputs and outputs
    /// hold the undefined level, nothing is staged, and the pins that
    /// receive hold the low level.
    pub open spec fn blank(self) -> bool {
        match self {
            Chipset::Input(c) => c.value_for_next_tick is None && c.pins.pin(1).written() == Some(
                Tristate::Undefined,
            ),
            Chipset::Clock(c) => c.value_for_next_tick is None && c.pins.pin(1).written() == Some(
                Tristate::Undefined,
            ),
            Chipset::Output(c) => c.result == Tristate::Undefined && c.pins.pin(
                1,
            ).input().unwrap().is_fresh(),
            Chipset::ParallelOne(c) => c.fresh(),
            Chipset::ParallelTwo(c) => c.fresh(),
            _ => true,
        }
    }

    /// As the catalog makes it: well formed, never evaluated, and linked
    /// to nothing outside.
    pub open spec fn is_new(self) -> bool {
        &&& self.well_formed()
        &&& self.never_computed()
        &&& self.links_inside()
    }

    /// The level that a user-driven component shows.
    pub open spec fn input_state(self) -> Option<Tristate> {
        match self {
            Chipset::Input(c) => Some(c.pins.pin(1).external_value()),
            Chipset::Clock(c) => Some(c.pins.pin(1).external_value()),
            _ => None,
        }
    }

    /// The level that a user-observed component last sampled.
    pub open spec fn output_value(self) -> Option<Tristate> {
        match self {
            Chipset::Output(c) => Some(c.result),
            _ => None,
        }
    }

    /// The level that the component shows, if it is one that its user
    /// drives.
    pub fn input_level(&self) -> (r: Option<Tristate>)
        requires
            self.well_formed(),
        ensures
            r == self.input_state(),
    {
        match self {
            Chipset::Input(c) => Some(c.get_current_state()),
            Chipset::Clock(c) => Some(c.get_current_state()),
            _ => None,
        }
    }

    /// The level that the component last sampled, if it is one that its
    /// user observes.
    pub fn output_level(&self) -> (r: Option<Tristate>)
        ensures
            r == self.output_value(),
    {
        match self {
            Chipset::Output(c) => Some(c.get_value()),
            _ => None,
        }
    }

    /// `next` is this component with `state` staged for its next
    /// evaluation.
    pub open spec fn staging(self, next: Chipset, state: Tristate) -> bool {
        match self {
            Chipset::Input(c) => next matches Chipset::Input(d) && d.pins == c.pins
                && d.value_for_next_tick == Some(state),
            Chipset::Clock(c) => next matches Chipset::Clock(d) && d.pins == c.pins
                && d.value_for_next_tick == Some(state),
            _ => next == self,
        }
    }

    /// Stages `state` for the next evaluation of a component that its user
    /// drives, and says whether the component is one.
    pub fn stage(&mut self, state: Tristate) -> (r: bool)
        ensures
            r == old(self).input_state() is Some,
            old(self).staging(*final(self), state),
    {
        match self {
            Chipset::Input(c) => {
                c.set_state_for_next_tick(state);
                assert(c.staged() == c.value_for_next_tick);
                true
            },
            Chipset::Clock(c) => {
                c.set_state_for_next_tick(state);
                assert(c.staged() == c.value_for_next_tick);
                true
            },
            _ => false,
        }
    }

}

impl Component for Chipset {
    open spec fn surface(&self) -> PinContainer {
        self.pins()
    }

    open spec fn sound(&self) -> bool {
        self.well_formed()
    }

    fn set_link(
        &mut self,
        pin: PinNumber,
        other_component: ComponentHandle,
        other_pin: PinNumber,
    ) -> (r: Result<(), InvalidPin>)
        ensures
            r is Ok <==> old(self).pins().has_pin(pin),
            r is Err ==> r == Err::<(), InvalidPin>(InvalidPin(pin)) && *final(self) == *old(self),
            r is Ok ==> {
                &&& old(self).replaced(*final(self), None, final(self).pins())
                &&& old(self).pins().only_pin_changed(final(self).pins(), pin)
                &&& old(self).pins().pin(pin).linked(
                    final(self).pins().pin(pin),
                    PinLink { component: other_component, pin: other_pin },
                )
            },
    {
        assert(old(self).sound() == old(self).well_formed());
        assert(old(self).surface() == old(self).pins());
        if self.pins_ref().check(pin).is_err() {
            assert(self.surface() == self.pins());
            assert(self.sound() == self.well_formed());
            return Err(InvalidPin(pin));
        }
        let pins = self.pins_mut();
        let r = pins.set_link_to_external_component(pin, other_component, other_pin);
        proof {
            assert(self.surface() == self.pins());
            assert(self.sound() == self.well_formed());
            old(self).lemma_well_formed_linked(
                *self,
                pin,
                PinLink { component: other_component, pin: other_pin },
            );
        }
        r
    }

    fn as_input(&self) -> (r: Option<&dyn Input>)
        ensures
            match r {
                Some(input) => self.input_state() == Some(input.shown()),
                None => self.input_state() is None,
            },
    {
        assert(self.sound() == self.well_formed());
        match self {
            Chipset::Input(c) => {
                assert(c.ready() == c.pins.has_pin(1));
                assert(c.shown() == c.pins.pin(1).external_value());
                Some(c)
            },
            Chipset::Clock(c) => {
                assert(c.ready() == c.pins.has_pin(1));
                assert(c.shown() == c.pins.pin(1).external_value());
                Some(c)
            },
            _ => None,
        }
    }

    open spec fn observed(&self) -> Option<Tristate> {
        self.output_value()
    }

    fn as_output(&self) -> (r: Option<&dyn Output>)
        ensures
            match r {
                Some(output) => self.output_value() == Some(output.sampled()),
                None => self.output_value() is None,
            },
    {
        assert(self.observed() == self.output_value());
        match self {
            Chipset::Output(c) => {
                assert(c.sampled() == c.result);
                Some(c)
            },
            _ => None,
        }
    }
}

impl Chipset {
    /// A component stays well formed when one of the pins that it shows
    /// to the circuit records a link.
    pub proof fn lemma_well_formed_linked(self, next: Chipset, pin: PinNumber, link: PinLink)
        requires
            self.well_formed(),
            self.pins().has_pin(pin),
            self.replaced(next, None, next.pins()),
            self.pins().only_pin_changed(next.pins(), pin),
            self.pins().pin(pin).linked(next.pins().pin(pin), link),
        ensures
            next.well_formed(),
    {
        let a = self.pins();
        let b = next.pins();
        assert forall|i: int| 0 <= i < b.all_pins@.len() implies (
        #[trigger] b.all_pins@[i]).well_formed() && b.all_pins@[i].input() is Some
            == a.all_pins@[i].input() is Some && b.all_pins@[i].driver() == a.all_pins@[i].driver() by {
            assert(a.all_pins@[i].well_formed());
            if i != pin - 1 {
                assert(b.all_pins@[i] == a.all_pins@[i]);
            } else {
                let before = a.all_pins@[i];
                let after = b.all_pins@[i];
                if before.input() is Some {
                    let links = before.input().unwrap().links@;
                    if !links.contains(link) {
                        assert forall|m: int, n: int|
                            0 <= m < links.push(link).len() && 0 <= n < links.push(link).len()
                                && m != n implies links.push(link)[m] != links.push(link)[n] by {
                            if m < links.len() && n < links.len() {
                            } else if m < links.len() {
                                assert(links.contains(links[m]));
                            } else {
                                assert(links.contains(links[n]));
                            }
                        }
                    }
                }
            }
        }
        match self {
            Chipset::ParallelOne(c) => {
                let d = next->ParallelOne_0;
                assert forall|k: int| 0 <= k < 6 implies ParallelGatesOneInput::wired(
                    d.pins,
                    #[trigger] d.components@[k],
                    k,
                ) by {
                    assert(ParallelGatesOneInput::wired(c.pins, c.components@[k], k));
                    assert(next.subs()[k] == self.subs()[k]);
                    assert(b.all_pins@[ParallelGatesOneInput::input_of(k) - 1].driver()
                        == a.all_pins@[ParallelGatesOneInput::input_of(k) - 1].driver());
                    assert(b.all_pins@[ParallelGatesOneInput::output_of(k) - 1].driver()
                        == a.all_pins@[ParallelGatesOneInput::output_of(k) - 1].driver());
                }
                assert(b.all_pins@[6].driver() == a.all_pins@[6].driver());
                assert(b.all_pins@[13].driver() == a.all_pins@[13].driver());
            },
            Chipset::ParallelTwo(c) => {
                let d = next->ParallelTwo_0;
                assert forall|k: int| 0 <= k < 4 implies ParallelGatesTwoInputs::wired(
                    d.pins,
                    #[trigger] d.components@[k],
                    k,
                ) by {
                    assert(ParallelGatesTwoInputs::wired(c.pins, c.components@[k], k));
                    assert(next.subs()[k] == self.subs()[k]);
                    assert(b.all_pins@[ParallelGatesTwoInputs::input_left_of(k) - 1].driver()
                        == a.all_pins@[ParallelGatesTwoInputs::input_left_of(k) - 1].driver());
                    assert(b.all_pins@[ParallelGatesTwoInputs::input_right_of(k) - 1].driver()
                        == a.all_pins@[ParallelGatesTwoInputs::input_right_of(k) - 1].driver());
                    assert(b.all_pins@[ParallelGatesTwoInputs::output_of(k) - 1].driver()
                        == a.all_pins@[ParallelGatesTwoInputs::output_of(k) - 1].driver());
                }
                assert(b.all_pins@[6].driver() == a.all_pins@[6].driver());
                assert(b.all_pins@[13].driver() == a.all_pins@[13].driver());
            },
            Chipset::Dummy(c) => {},
            _ => {
                assert(b.all_pins@[0].driver() == a.all_pins@[0].driver());
            },
        }
    }
}

} // verus!
