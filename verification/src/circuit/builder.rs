//! Building a circuit: components are added under their names, wired pin
//! to pin, and evaluated once.

use vstd::prelude::*;
use vstd::string::*;

use crate::circuit::board::{Board, PinLocation, Site};
use crate::circuit::{Circuit, distinct, find_name, index_of};
use crate::components::chipset::Chipset;
use crate::components::factory::{ComponentFactory, DefaultComponentFactory};
use crate::components::{Component, ComponentHandle, InvalidPin, PinNumber, Tick};
use crate::pin::pin::{PinLink, PinState};
use crate::pin::settling::Place;

verus! {

/// Why a circuit could not be built.
#[derive(Debug)]
pub enum CircuitBuildError<'a, Type> {
    /// The circuit has no component.
    NoChipset,
    /// A component of that name was added before.
    ComponentNameExists(&'a str),
    /// No component of that name was added.
    ComponentNameUnknown(&'a str),
    /// The catalog has no type of that name.
    ComponentTypeUnknown(&'a str),
    /// The component of that name, which is of that type, has no pin of
    /// that number.
    ComponentLinkIssue(&'a str, Type, PinNumber),
}

/// A circuit in the making.
pub struct CircuitBuilder<Factory: ComponentFactory> {
    pub names: Vec<String>,
    pub types: Vec<Factory::Type>,
    pub board: Board,
    pub factory: Factory,
}

impl Board {
    /// `next` is this board after the component at position `i` was asked
    /// to record a link from its pin `pin` to pin `other_pin` of the
    /// component at position `j`: the pin has the link if it receives,
    /// and nothing else has changed.
    pub open spec fn peer_linked(
        self,
        next: Board,
        i: int,
        pin: PinNumber,
        j: int,
        other_pin: PinNumber,
    ) -> bool {
        &&& next.chipsets@.len() == self.chipsets@.len()
        &&& forall|c: int|
            0 <= c < self.chipsets@.len() && c != i ==> #[trigger] next.chipsets@[c]
                == self.chipsets@[c]
        &&& self.chipsets@[i].replaced(next.chipsets@[i], None, next.chipsets@[i].pins())
        &&& self.chipsets@[i].pins().only_pin_changed(next.chipsets@[i].pins(), pin)
        &&& self.chipsets@[i].pins().pin(pin).linked(
            next.chipsets@[i].pins().pin(pin),
            PinLink { component: ComponentHandle::Peer(j as usize), pin: other_pin },
        )
    }

    /// `next` is this board after pin `pin` of the component at position
    /// `i` and pin `other_pin` of the component at position `j` were wired
    /// together: first the one recorded the other, then the other the
    /// one.
    pub open spec fn wired(
        self,
        next: Board,
        i: int,
        pin: PinNumber,
        j: int,
        other_pin: PinNumber,
    ) -> bool {
        exists|middle: Board|
            {
                &&& self.peer_linked(middle, i, pin, j, other_pin)
                &&& #[trigger] middle.peer_linked(next, j, other_pin, i, pin)
            }
    }

    /// Nothing on the board was ever evaluated.
    pub open spec fn never_computed(self) -> bool {
        forall|c: int|
            0 <= c < self.chipsets@.len() ==> (#[trigger] self.chipsets@[c]).never_computed()
    }

    /// Records on the component at position `i` that its pin `pin` is
    /// wired to pin `other_pin` of the component at position `j`.
    pub fn link_peer(&mut self, i: usize, pin: PinNumber, j: usize, other_pin: PinNumber)
        requires
            old(self).well_formed(),
            i < old(self).chipsets@.len(),
            j < old(self).chipsets@.len(),
            old(self).chipsets@[i as int].pins().has_pin(pin),
            old(self).chipsets@[j as int].pins().has_pin(other_pin),
        ensures
            final(self).well_formed(),
            old(self).peer_linked(*final(self), i as int, pin, j as int, other_pin),
            old(self).never_computed() ==> final(self).never_computed(),
    {
        let _ = self.chipsets[i].set_link(pin, ComponentHandle::Peer(j), other_pin);
        proof {
            old(self).lemma_peer_linked(*self, i as int, pin, j as int, other_pin);
        }
    }

    /// Recording a link to a pin that exists keeps the board well formed,
    /// and evaluates nothing.
    pub proof fn lemma_peer_linked(
        self,
        next: Board,
        i: int,
        pin: PinNumber,
        j: int,
        other_pin: PinNumber,
    )
        requires
            self.well_formed(),
            0 <= i < self.chipsets@.len(),
            0 <= j < self.chipsets@.len(),
            self.chipsets@[i].pins().has_pin(pin),
            self.chipsets@[j].pins().has_pin(other_pin),
            self.peer_linked(next, i, pin, j, other_pin),
        ensures
            next.well_formed(),
            self.never_computed() ==> next.never_computed(),
            forall|site: Site| #[trigger] self.has_site(site) <==> next.has_site(site),
            forall|site: Site| #[trigger]
                self.has_site(site) ==> next.unit(site).all_pins@.len() == self.unit(
                    site,
                ).all_pins@.len(),
    {
        let x = self.chipsets@[i];
        let y = next.chipsets@[i];
        let link = PinLink { component: ComponentHandle::Peer(j as usize), pin: other_pin };
        assert(self.chipsets.len() == self.chipsets@.len());
        x.lemma_well_formed_linked(y, pin, link);
        assert forall|site: Site| #[trigger] self.has_site(site) <==> next.has_site(site) by {
        }
        assert forall|site: Site| #[trigger] self.has_site(site) implies next.unit(
            site,
        ).all_pins@.len() == self.unit(site).all_pins@.len() && (site != Site::of(i as usize)
            ==> next.unit(site) == self.unit(site)) by {
            if site.component == i {
                if let Some(g) = site.inner {
                    assert(y.subs()[g as int] == x.subs()[g as int]);
                }
            }
        }
        assert forall|location: PinLocation, k: int|
            next.has_entity(location) && 0 <= k < next.entity(location).links@.len()
                implies next.link_ok(location.site, #[trigger] next.entity(location).links@[k]) by {
            let site = location.site;
            assert(self.has_site(site));
            let l = next.entity(location).links@[k];
            if site == Site::of(i as usize) {
                let a = self.unit(site);
                let b = next.unit(site);
                if location.pin == pin && !location.internal {
                    let before = a.pin(pin).input().unwrap().links@;
                    if before.contains(l) {
                        let m = choose|m: int| 0 <= m < before.len() && before[m] == l;
                        assert(self.has_entity(location));
                        assert(self.link_ok(site, self.entity(location).links@[m]));
                    } else {
                        assert(l == link);
                        assert(self.has_site(Site::of(j as usize)));
                    }
                } else if location.pin == pin {
                    assert(b.pin(pin).driver() == a.pin(pin).driver());
                    assert(self.has_entity(location));
                    assert(self.link_ok(site, self.entity(location).links@[k]));
                } else {
                    assert(b.all_pins@[location.pin - 1] == a.all_pins@[location.pin - 1]);
                    assert(self.has_entity(location));
                    assert(self.link_ok(site, self.entity(location).links@[k]));
                }
            } else {
                assert(next.unit(site) == self.unit(site));
                assert(self.has_entity(location));
                assert(self.link_ok(site, self.entity(location).links@[k]));
            }
            let target = site.follow(l.component);
            assert(self.has_site(target));
        }
        assert forall|c: int| 0 <= c < next.chipsets@.len() implies (
        #[trigger] next.chipsets@[c]).well_formed() by {
            if c != i {
                assert(next.chipsets@[c] == self.chipsets@[c]);
            }
        }
        if self.never_computed() {
            assert forall|c: int| 0 <= c < next.chipsets@.len() implies (
            #[trigger] next.chipsets@[c]).never_computed() by {
                if c != i {
                    assert(next.chipsets@[c] == self.chipsets@[c]);
                } else {
                    assert(x.never_computed());
                    assert forall|inner: Option<usize>| #[trigger] y.has_part(inner) implies {
                        &&& y.container(inner).state == PinState::NeverComputed
                        &&& forall|n: int, internal: bool|
                            0 <= n < y.container(inner).all_pins@.len() && (#[trigger] y.container(
                                inner,
                            ).all_pins@[n].entity(internal)) is Some ==> y.container(
                                inner,
                            ).all_pins@[n].entity(internal).unwrap().input_state
                                == PinState::NeverComputed
                    } by {
                        assert(x.has_part(inner));
                        match inner {
                            None => {
                                assert forall|n: int, internal: bool|
                                    0 <= n < y.pins().all_pins@.len() && (
                                    #[trigger] y.pins().all_pins@[n].entity(internal))
                                        is Some implies y.pins().all_pins@[n].entity(
                                    internal,
                                ).unwrap().input_state == PinState::NeverComputed by {
                                    if n != pin - 1 {
                                        assert(y.pins().all_pins@[n] == x.pins().all_pins@[n]);
                                    }
                                    assert(x.pins().all_pins@[n].entity(internal) is Some);
                                }
                            },
                            Some(g) => {
                                assert(y.subs()[g as int] == x.subs()[g as int]);
                            },
                        }
                    }
                }
            }
        }
    }
}

impl Board {
    /// A board without components.
    pub fn new() -> (r: Board)
        ensures
            r.chipsets@.len() == 0,
            r.well_formed(),
            r.never_computed(),
    {
        Board { chipsets: Vec::new() }
    }

    /// Adds a component as the catalog makes it, at the end.
    pub fn push(&mut self, chipset: Chipset)
        requires
            old(self).well_formed(),
            chipset.is_new(),
        ensures
            final(self).chipsets@ == old(self).chipsets@.push(chipset),
            final(self).well_formed(),
            old(self).never_computed() ==> final(self).never_computed(),
    {
        self.chipsets.push(chipset);
        proof {
            old(self).lemma_pushed(*self, chipset);
        }
    }

    /// Adding a component as the catalog makes it keeps the board well
    /// formed.
    pub proof fn lemma_pushed(self, next: Board, chipset: Chipset)
        requires
            self.well_formed(),
            chipset.is_new(),
            next.chipsets@ == self.chipsets@.push(chipset),
        ensures
            next.well_formed(),
            self.never_computed() ==> next.never_computed(),
    {
        let n = self.chipsets@.len() as int;
        assert forall|c: int| 0 <= c < next.chipsets@.len() implies (
        #[trigger] next.chipsets@[c]).well_formed() by {
            if c < n {
                assert(next.chipsets@[c] == self.chipsets@[c]);
            }
        }
        assert forall|location: PinLocation, k: int|
            next.has_entity(location) && 0 <= k < next.entity(location).links@.len()
                implies next.link_ok(location.site, #[trigger] next.entity(location).links@[k]) by {
            let site = location.site;
            let l = next.entity(location).links@[k];
            if site.component < n {
                assert(next.chipsets@[site.component as int] == self.chipsets@[site.component as int]);
                assert(self.has_entity(location));
                assert(self.link_ok(site, self.entity(location).links@[k]));
                let target = site.follow(l.component);
                assert(self.has_site(target));
                assert(next.chipsets@[target.component as int]
                    == self.chipsets@[target.component as int]);
            } else {
                assert(next.chipsets@[site.component as int] == chipset);
                let i = location.pin - 1;
                assert(chipset.has_part(site.inner));
                assert(chipset.link_inside(
                    chipset.container(site.inner).all_pins@[i].entity(
                        location.internal,
                    ).unwrap().links@[k],
                ));
            }
        }
        if self.never_computed() {
            assert forall|c: int| 0 <= c < next.chipsets@.len() implies (
            #[trigger] next.chipsets@[c]).never_computed() by {
                if c < n {
                    assert(next.chipsets@[c] == self.chipsets@[c]);
                }
            }
        }
    }

    /// A board of which nothing was ever evaluated speaks of no tick.
    pub proof fn lemma_never_dated(self, tick: Tick)
        requires
            self.never_computed(),
        ensures
            self.dated(tick),
    {
        assert forall|site: Site| #[trigger] self.has_site(site) implies self.unit(site).dated(
            tick,
        ) by {
            let x = self.chipsets@[site.component as int];
            assert(x.never_computed());
            assert(x.has_part(site.inner));
            let a = self.unit(site);
            assert forall|i: int| 0 <= i < a.all_pins@.len() implies (#[trigger] a.all_pins@[i]).dated(
                tick,
            ) by {
                if a.all_pins@[i].entity(false) is Some {
                    assert(a.all_pins@[i].entity(false).unwrap().input_state
                        == PinState::NeverComputed);
                }
                if a.all_pins@[i].entity(true) is Some {
                    assert(a.all_pins@[i].entity(true).unwrap().input_state
                        == PinState::NeverComputed);
                }
            }
        }
    }
}

impl<Factory: ComponentFactory> CircuitBuilder<Factory> {
    /// Every component has one name, no two share one, and one type; the
    /// board is well formed and nothing on it was evaluated.
    pub open spec fn well_formed(self) -> bool {
        &&& self.names@.len() == self.board.chipsets@.len()
        &&& self.types@.len() == self.board.chipsets@.len()
        &&& distinct(self.names@)
        &&& self.board.well_formed()
        &&& self.board.never_computed()
    }

    /// The position of the component of that name, if one was added.
    pub open spec fn position(self, name: Seq<char>) -> Option<int> {
        index_of(self.names@, name)
    }

    /// A builder without components that takes its components from
    /// `factory`.
    pub fn new(factory: Factory) -> (r: Self)
        ensures
            r.well_formed(),
            r.names@.len() == 0,
            r.factory == factory,
    {
        CircuitBuilder { names: Vec::new(), types: Vec::new(), board: Board::new(), factory }
    }

    /// Ends the build: every component is evaluated once, for tick 0, and
    /// the circuit is handed out. A circuit without components is
    /// refused.
    pub fn build(self) -> (r: Result<Circuit, CircuitBuildError<'static, Factory::Type>>)
        requires
            self.well_formed(),
        ensures
            match r {
                Ok(circuit) => {
                    &&& self.names@.len() > 0
                    &&& circuit.well_formed()
                    &&& circuit.current_tick == 0
                    &&& circuit.names == self.names
                    &&& self.board.advances_to(circuit.board, 0)
                    &&& circuit.board.within(0)
                    &&& forall|c: int|
                        0 <= c < circuit.board.chipsets@.len() ==> {
                            &&& (#[trigger] circuit.board.chipsets@[c]).pins().state
                                == PinState::Available(0)
                            &&& self.board.chipsets@[c].evaluated(None, circuit.board.chipsets@[c])
                        }
                    &&& forall|rank: spec_fn(Place) -> nat| #[trigger]
                        self.board.layered_by(rank) ==> circuit.board.all_settled(0)
                },
                Err(CircuitBuildError::NoChipset) => self.names@.len() == 0,
                Err(_) => false,
            },
    {
        if self.names.len() == 0 {
            return Err(CircuitBuildError::NoChipset);
        }
        let current_tick: Tick = 0;
        let mut board = self.board;
        let ghost start = board;
        proof {
            start.lemma_never_computed(current_tick);
            start.lemma_never_dated(current_tick);
            start.lemma_never_settled(current_tick);
        }
        board.simulate_all(current_tick);
        proof {
            start.lemma_advances_rest(board, current_tick, current_tick);
            assert forall|c: int| 0 <= c < board.chipsets@.len() implies start.chipsets@[c].evaluated(
                None,
                #[trigger] board.chipsets@[c],
            ) by {
                assert(start.chipsets.len() == start.chipsets@.len());
                assert(start.has_site(Site { component: c as usize, inner: None }));
            }
        }
        Ok(Circuit { current_tick, names: self.names, board })
    }

    /// Adds a component of the type named `component_type` under the name
    /// `name`. A type that the factory does not know and a name that is
    /// taken are refused, in this order.
    pub fn add_component<'a>(self, component_type: &'a str, name: &'a str) -> (r: Result<
        Self,
        CircuitBuildError<'a, Factory::Type>,
    >)
        requires
            self.well_formed(),
        ensures
            match r {
                Ok(next) => {
                    &&& self.factory.recognized(component_type@) matches Some(recognized)
                    &&& self.position(name@) is None
                    &&& next.well_formed()
                    &&& next.factory == self.factory
                    &&& next.names@.len() == self.names@.len() + 1
                    &&& next.names@.last()@ == name@
                    &&& next.names@.drop_last() == self.names@
                    &&& next.types@ == self.types@.push(recognized)
                    &&& next.board.chipsets@.len() == self.board.chipsets@.len() + 1
                    &&& next.board.chipsets@.drop_last() == self.board.chipsets@
                    &&& next.board.chipsets@.last().is_new()
                    &&& self.factory.makes(recognized, next.board.chipsets@.last())
                },
                Err(CircuitBuildError::ComponentTypeUnknown(text)) => {
                    &&& self.factory.recognized(component_type@) is None
                    &&& text@ == component_type@
                },
                Err(CircuitBuildError::ComponentNameExists(text)) => {
                    &&& self.factory.recognized(component_type@) is Some
                    &&& self.position(name@) is Some
                    &&& text@ == name@
                },
                Err(_) => false,
            },
    {
        let mut builder = self;
        let recognized: Factory::Type = match builder.factory.parse_type(component_type) {
            Some(t) => t,
            None => {
                return Err(CircuitBuildError::ComponentTypeUnknown(component_type));
            },
        };
        if find_name(&builder.names, name).is_some() {
            return Err(CircuitBuildError::ComponentNameExists(name));
        }
        let component = builder.factory.create_component(recognized);
        let ghost before = builder.names@;
        let ghost chipsets = builder.board.chipsets@;
        builder.names.push(name.to_owned());
        builder.types.push(recognized);
        builder.board.push(component);
        proof {
            assert(builder.names@.drop_last() =~= before);
            assert(builder.board.chipsets@.drop_last() =~= chipsets);
            assert forall|i: int, j: int|
                0 <= i < builder.names@.len() && 0 <= j < builder.names@.len() && i != j implies (
            #[trigger] builder.names@[i])@ != (#[trigger] builder.names@[j])@ by {
                if i < before.len() && j < before.len() {
                    assert(before[i]@ != before[j]@);
                } else if i < before.len() {
                    assert(before[i]@ != name@);
                } else {
                    assert(before[j]@ != name@);
                }
            }
        }
        Ok(builder)
    }

    /// The type and the position of the component of that name.
    pub fn get_component<'a>(&self, name: &'a str) -> (r: Result<
        (Factory::Type, usize),
        CircuitBuildError<'a, Factory::Type>,
    >)
        requires
            self.well_formed(),
        ensures
            match r {
                Ok((component_type, i)) => {
                    &&& self.position(name@) == Some(i as int)
                    &&& i < self.names@.len()
                    &&& component_type == self.types@[i as int]
                },
                Err(CircuitBuildError::ComponentNameUnknown(text)) => {
                    &&& self.position(name@) is None
                    &&& text@ == name@
                },
                Err(_) => false,
            },
    {
        match find_name(&self.names, name) {
            Some(i) => Ok((self.types[i], i)),
            None => Err(CircuitBuildError::ComponentNameUnknown(name)),
        }
    }

    /// Records on the component at position `i`, known as `name`, that
    /// its pin `component_pin` is wired to a pin of the component at
    /// position `j`; a pin that the component does not have is reported.
    pub fn unidirectional_link<'a>(
        &self,
        name: &'a str,
        i: usize,
        component_pin: PinNumber,
    ) -> (r: Result<(), CircuitBuildError<'a, Factory::Type>>)
        requires
            self.well_formed(),
            i < self.names@.len(),
        ensures
            match r {
                Ok(()) => self.board.chipsets@[i as int].pins().has_pin(component_pin),
                Err(CircuitBuildError::ComponentLinkIssue(text, component_type, pin)) => {
                    &&& !self.board.chipsets@[i as int].pins().has_pin(component_pin)
                    &&& text@ == name@
                    &&& component_type == self.types@[i as int]
                    &&& pin == component_pin
                },
                Err(_) => false,
            },
    {
        match self.board.chipsets[i].pins_ref().check(component_pin) {
            Ok(_) => Ok(()),
            Err(InvalidPin(pin)) => Err(
                CircuitBuildError::ComponentLinkIssue(name, self.types[i], pin),
            ),
        }
    }

    /// Wires pin `left_component_pin` of the component named
    /// `left_component_name` to pin `right_component_pin` of the component
    /// named `right_component_name`. Each of the two records the other;
    /// only pins that receive keep the record. An unknown name, on the
    /// left and then on the right, and a pin that its component does not
    /// have, on the left and then on the right, are refused, in this
    /// order.
    pub fn link_components<'a>(
        self,
        left_component_name: &'a str,
        left_component_pin: PinNumber,
        right_component_name: &'a str,
        right_component_pin: PinNumber,
    ) -> (r: Result<Self, CircuitBuildError<'a, Factory::Type>>)
        requires
            self.well_formed(),
        ensures
            match r {
                Ok(next) => {
                    &&& self.position(left_component_name@) matches Some(i)
                    &&& self.position(right_component_name@) matches Some(j)
                    &&& self.board.chipsets@[i].pins().has_pin(left_component_pin)
                    &&& self.board.chipsets@[j].pins().has_pin(right_component_pin)
                    &&& next.well_formed()
                    &&& next.factory == self.factory
                    &&& next.names == self.names
                    &&& next.types == self.types
                    &&& self.board.wired(
                        next.board,
                        i,
                        left_component_pin,
                        j,
                        right_component_pin,
                    )
                },
                Err(CircuitBuildError::ComponentNameUnknown(text)) => {
                    ||| self.position(left_component_name@) is None && text@
                        == left_component_name@
                    ||| self.position(left_component_name@) is Some && self.position(
                        right_component_name@,
                    ) is None && text@ == right_component_name@
                },
                Err(CircuitBuildError::ComponentLinkIssue(text, component_type, pin)) => {
                    &&& self.position(left_component_name@) matches Some(i)
                    &&& self.position(right_component_name@) matches Some(j)
                    &&& {
                        ||| !self.board.chipsets@[i].pins().has_pin(left_component_pin) && text@
                            == left_component_name@ && component_type == self.types@[i] && pin
                            == left_component_pin
                        ||| self.board.chipsets@[i].pins().has_pin(left_component_pin)
                            && !self.board.chipsets@[j].pins().has_pin(right_component_pin)
                            && text@ == right_component_name@ && component_type == self.types@[j]
                            && pin == right_component_pin
                    }
                },
                Err(_) => false,
            },
    {
        let mut builder = self;
        let (left_component_type, left_component) = match builder.get_component(left_component_name) {
            Ok(found) => found,
            Err(e) => {
                return Err(e);
            },
        };
        let (right_component_type, right_component) = match builder.get_component(
            right_component_name,
        ) {
            Ok(found) => found,
            Err(e) => {
                return Err(e);
            },
        };
        match builder.unidirectional_link(left_component_name, left_component, left_component_pin) {
            Ok(_) => {},
            Err(e) => {
                return Err(e);
            },
        }
        match builder.unidirectional_link(right_component_name, right_component, right_component_pin) {
            Ok(_) => {},
            Err(e) => {
                return Err(e);
            },
        }
        let ghost start = builder.board;
        builder.board.link_peer(left_component, left_component_pin, right_component, right_component_pin);
        let ghost middle = builder.board;
        proof {
            start.lemma_peer_linked(
                middle,
                left_component as int,
                left_component_pin,
                right_component as int,
                right_component_pin,
            );
            assert(start.has_site(Site::of(left_component)));
            assert(start.has_site(Site::of(right_component)));
        }
        builder.board.link_peer(right_component, right_component_pin, left_component, left_component_pin);
        proof {
            assert(middle.peer_linked(
                builder.board,
                right_component as int,
                right_component_pin,
                left_component as int,
                left_component_pin,
            ));
            assert(self.board.wired(
                builder.board,
                left_component as int,
                left_component_pin,
                right_component as int,
                right_component_pin,
            ));
        }
        Ok(builder)
    }
}

impl Default for CircuitBuilder<DefaultComponentFactory> {
    fn default() -> (r: Self)
        ensures
            r.well_formed(),
            r.names@.len() == 0,
    {
        CircuitBuilder::new(DefaultComponentFactory)
    }
}

} // verus!
