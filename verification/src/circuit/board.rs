//! The components of a circuit side by side, and what an evaluation may
//! and may not do to them.

use vstd::prelude::*;

use crate::components::chipset::Chipset;
use crate::components::tristate::Tristate;
use crate::components::{ComponentHandle, PinNumber, Tick};
use crate::pin::container::{PinContainer, lemma_sum_update, sum};
use crate::pin::pin::{PinLink, PinState, UnidirectionalInputPin};

verus! {

/// A place on the board that has pins of its own: a component, or one of
/// the sub-components of a composite.
#[derive(Debug, Clone, Copy, PartialEq, Eq, Structural)]
pub struct Site {
    pub component: usize,
    pub inner: Option<usize>,
}

/// A place that aggregates what peers drive: the receiving side of a pin
/// or, with `internal`, the hidden input through which an output samples a
/// sub-component.
#[derive(Debug, Clone, Copy, PartialEq, Eq, Structural)]
pub struct PinLocation {
    pub site: Site,
    pub pin: PinNumber,
    pub internal: bool,
}

/// The components of a circuit, each at its position.
#[derive(Debug)]
pub struct Board {
    pub chipsets: Vec<Chipset>,
}

impl Site {
    /// The site of the component at position `component`.
    pub open spec fn of(component: usize) -> Site {
        Site { component, inner: None }
    }

    /// The site that a handle held at this site leads to.
    pub open spec fn follow(self, handle: ComponentHandle) -> Site {
        match handle {
            ComponentHandle::Peer(index) => Site { component: index, inner: None },
            ComponentHandle::Inner(index) => Site { component: self.component, inner: Some(index) },
            ComponentHandle::Proxy(_) => Site { component: self.component, inner: None },
        }
    }

    /// The site that a handle held at this site leads to.
    pub fn resolve(&self, handle: ComponentHandle) -> (r: Site)
        ensures
            r == self.follow(handle),
    {
        match handle {
            ComponentHandle::Peer(index) => Site { component: index, inner: None },
            ComponentHandle::Inner(index) => Site { component: self.component, inner: Some(index) },
            ComponentHandle::Proxy(_) => Site { component: self.component, inner: None },
        }
    }
}

impl Board {
    /// Whether the board has that site.
    pub open spec fn has_site(self, site: Site) -> bool {
        &&& site.component < self.chipsets@.len()
        &&& self.chipsets@[site.component as int].has_part(site.inner)
    }

    /// The pins at a site.
    pub open spec fn unit(self, site: Site) -> PinContainer {
        self.chipsets@[site.component as int].container(site.inner)
    }

    /// Whether the board has that aggregating place.
    pub open spec fn has_entity(self, location: PinLocation) -> bool {
        &&& self.has_site(location.site)
        &&& self.unit(location.site).has_pin(location.pin)
        &&& self.unit(location.site).pin(location.pin).entity(location.internal) is Some
    }

    /// The aggregating place at a location.
    pub open spec fn entity(self, location: PinLocation) -> UnidirectionalInputPin {
        self.unit(location.site).pin(location.pin).entity(location.internal).unwrap()
    }

    /// A link held at `site` leads to a pin that exists.
    pub open spec fn link_ok(self, site: Site, link: PinLink) -> bool {
        &&& self.has_site(site.follow(link.component))
        &&& self.unit(site.follow(link.component)).has_pin(link.pin)
    }

    /// Every link leads to a pin that exists.
    pub open spec fn links_ok(self) -> bool {
        forall|location: PinLocation, k: int|
            self.has_entity(location) && 0 <= k < self.entity(location).links@.len()
                ==> self.link_ok(location.site, #[trigger] self.entity(location).links@[k])
    }

    /// Every component is as the catalog makes it, and every link leads
    /// to a pin that exists.
    pub open spec fn well_formed(self) -> bool {
        &&& forall|c: int|
            0 <= c < self.chipsets@.len() ==> (#[trigger] self.chipsets@[c]).well_formed()
        &&& self.links_ok()
    }

    /// The invariant of an evaluation for `tick`, at every site.
    pub open spec fn within(self, tick: Tick) -> bool {
        forall|site: Site| #[trigger] self.has_site(site) ==> self.unit(site).within(tick)
    }

    /// Nothing is being evaluated.
    pub open spec fn at_rest(self) -> bool {
        forall|site: Site| #[trigger] self.has_site(site) ==> self.unit(site).at_rest()
    }

    /// The same components as `next`, wired in the same way.
    pub open spec fn same_wiring(self, next: Board) -> bool {
        &&& next.chipsets@.len() == self.chipsets@.len()
        &&& forall|c: int|
            0 <= c < self.chipsets@.len() ==> (#[trigger] self.chipsets@[c]).same_wiring(
                next.chipsets@[c],
            )
    }

    /// How many evaluations each component still owes for `tick`.
    pub open spec fn weights(self, tick: Tick) -> Seq<nat> {
        Seq::new(self.chipsets@.len(), |c: int| self.chipsets@[c].weight(tick))
    }

    /// How many evaluations are still owed for `tick`: one for each
    /// component, sub-component and aggregating place that the evaluation
    /// for `tick` has not reached. Evaluating never adds to it, and works
    /// only where it takes from it: this bounds the work of a tick.
    pub open spec fn weight(self, tick: Tick) -> nat {
        sum(self.weights(tick))
    }

    /// What evaluating pins and components during `tick` may turn the
    /// board into.
    ///
    /// - The components and their wiring stay.
    /// - What was evaluated for `tick`, or is being evaluated, is left
    ///   alone: a pin keeps its value, a component what it wrote and
    ///   remembers.
    /// - What was not may have been evaluated in the meantime, in full:
    ///   it is never left half-way.
    /// - A component or sub-component that was evaluated in the meantime
    ///   shows the result that its kind defines.
    pub open spec fn advances_to(self, next: Board, tick: Tick) -> bool {
        &&& next.chipsets@.len() == self.chipsets@.len()
        &&& forall|c: int|
            0 <= c < self.chipsets@.len() ==> {
                &&& (#[trigger] self.chipsets@[c]).same_kind(next.chipsets@[c])
                &&& self.chipsets@[c].subs().len() == next.chipsets@[c].subs().len()
                &&& self.chipsets@[c].pins().state == next.chipsets@[c].pins().state
                    ==> self.chipsets@[c].latch() == next.chipsets@[c].latch()
            }
        &&& forall|site: Site| #[trigger]
            self.has_site(site) ==> {
                &&& self.unit(site).advances_to(next.unit(site), tick)
                &&& next.unit(site).state != self.unit(site).state
                    ==> self.chipsets@[site.component as int].evaluated(
                    site.inner,
                    next.chipsets@[site.component as int],
                )
            }
    }

    /// `next` is this board with the pins at `site` replaced, and nothing
    /// else touched.
    pub open spec fn unit_changed(self, next: Board, site: Site) -> bool {
        &&& next.chipsets@.len() == self.chipsets@.len()
        &&& forall|c: int|
            0 <= c < self.chipsets@.len() && c != site.component ==> #[trigger] next.chipsets@[c]
                == self.chipsets@[c]
        &&& self.chipsets@[site.component as int].replaced(
            next.chipsets@[site.component as int],
            site.inner,
            next.unit(site),
        )
    }

    /// What replacing the pins at one site leaves alone, and what it does
    /// to the weight.
    pub proof fn lemma_unit_changed(self, next: Board, site: Site, tick: Tick)
        requires
            self.has_site(site),
            self.unit_changed(next, site),
        ensures
            forall|other: Site| #[trigger] self.has_site(other) <==> next.has_site(other),
            forall|other: Site|
                #[trigger] self.has_site(other) && other != site ==> next.unit(other) == self.unit(
                    other,
                ),
            next.weight(tick) + self.unit(site).weight(tick) == self.weight(tick) + next.unit(
                site,
            ).weight(tick),
    {
        let c = site.component as int;
        self.chipsets@[c].lemma_weight_replaced(
            next.chipsets@[c],
            site.inner,
            next.unit(site),
            tick,
        );
        let a = self.weights(tick);
        let b = next.weights(tick);
        assert(b =~= a.update(c, next.chipsets@[c].weight(tick)));
        lemma_sum_update(a, c, next.chipsets@[c].weight(tick));
        assert forall|other: Site| #[trigger]
            self.has_site(other) && other != site implies next.unit(other) == self.unit(other) by {
            if other.component == site.component {
                if let Some(h) = other.inner {
                    assert(next.chipsets@[c].subs()[h as int] == self.chipsets@[c].subs()[h as int]);
                }
            }
        }
    }
}

impl Board {
    /// A board advances to itself.
    pub proof fn lemma_advances_reflexive(self, tick: Tick)
        ensures
            self.advances_to(self, tick),
    {
        assert forall|site: Site| #[trigger] self.has_site(site) implies self.unit(
            site,
        ).advances_to(self.unit(site), tick) by {
            self.unit(site).lemma_advances_reflexive(tick);
        }
    }

    /// Advancing keeps the wiring, and with it the board well formed.
    pub proof fn lemma_advances_wiring(self, next: Board, tick: Tick)
        requires
            self.advances_to(next, tick),
        ensures
            self.same_wiring(next),
            forall|site: Site| #[trigger] self.has_site(site) <==> next.has_site(site),
            forall|location: PinLocation| #[trigger]
                self.has_entity(location) <==> next.has_entity(location),
            forall|location: PinLocation| #[trigger]
                self.has_entity(location) ==> next.entity(location).links@ == self.entity(
                    location,
                ).links@,
            self.well_formed() ==> next.well_formed(),
    {
        assert forall|c: int| 0 <= c < self.chipsets@.len() implies (
        #[trigger] self.chipsets@[c]).same_wiring(next.chipsets@[c]) by {
            let x = self.chipsets@[c];
            let y = next.chipsets@[c];
            assert(x.same_kind(y));
            assert(self.chipsets.len() == self.chipsets@.len());
            x.lemma_subs_bounded();
            let site = Site { component: c as usize, inner: None };
            assert(self.has_site(site));
            self.unit(site).lemma_wiring_advances(next.unit(site), tick);
            assert forall|g: int| 0 <= g < x.subs().len() implies (#[trigger] x.subs()[g]).same_wiring(
                y.subs()[g],
            ) by {
                let inner = Site { component: c as usize, inner: Some(g as usize) };
                assert(self.has_site(inner));
                self.unit(inner).lemma_wiring_advances(next.unit(inner), tick);
            }
        }
        assert forall|site: Site| #[trigger] self.has_site(site) <==> next.has_site(site) by {
            if site.component < self.chipsets@.len() {
                assert(self.chipsets@[site.component as int].same_kind(
                    next.chipsets@[site.component as int],
                ));
            }
        }
        assert forall|location: PinLocation| #[trigger]
            self.has_entity(location) <==> next.has_entity(location) by {
            if self.has_site(location.site) {
                assert(next.has_site(location.site));
                self.unit(location.site).lemma_wiring_advances(next.unit(location.site), tick);
                if self.unit(location.site).has_pin(location.pin) {
                    assert(self.unit(location.site).all_pins@[location.pin - 1].same_wiring(
                        next.unit(location.site).all_pins@[location.pin - 1],
                    ));
                }
            }
        }
        assert forall|location: PinLocation| #[trigger]
            self.has_entity(location) implies next.entity(location).links@ == self.entity(
            location,
        ).links@ by {
            assert(self.has_site(location.site));
            self.unit(location.site).lemma_wiring_advances(next.unit(location.site), tick);
            assert(self.unit(location.site).all_pins@[location.pin - 1].same_wiring(
                next.unit(location.site).all_pins@[location.pin - 1],
            ));
        }
        if self.well_formed() {
            assert forall|c: int| 0 <= c < self.chipsets@.len() implies (
            #[trigger] self.chipsets@[c]).same_constant(next.chipsets@[c]) by {
                let x = self.chipsets@[c];
                let y = next.chipsets@[c];
                assert(self.chipsets.len() == self.chipsets@.len());
                let site = Site { component: c as usize, inner: None };
                assert(self.has_site(site));
                if x is True || x is False {
                    assert(x.well_formed());
                    assert(x.pins().all_pins@[0].advances_to(y.pins().all_pins@[0], tick));
                    if next.unit(site).state == self.unit(site).state {
                        assert(x.pins().all_pins@[0].written() == y.pins().all_pins@[0].written());
                    }
                }
            }
            self.lemma_well_formed_same_wiring(next);
        }
    }

    /// A board stays well formed while its wiring stays.
    pub proof fn lemma_well_formed_same_wiring(self, next: Board)
        requires
            self.well_formed(),
            self.same_wiring(next),
            forall|c: int|
                0 <= c < self.chipsets@.len() ==> (#[trigger] self.chipsets@[c]).same_constant(
                    next.chipsets@[c],
                ),
        ensures
            next.well_formed(),
    {
        assert forall|c: int| 0 <= c < next.chipsets@.len() implies (
        #[trigger] next.chipsets@[c]).well_formed() by {
            assert(self.chipsets@[c].same_wiring(next.chipsets@[c]));
            assert(self.chipsets@[c].same_constant(next.chipsets@[c]));
            self.chipsets@[c].lemma_well_formed_same_wiring(next.chipsets@[c]);
        }
        assert forall|location: PinLocation, k: int|
            next.has_entity(location) && 0 <= k < next.entity(location).links@.len()
                implies next.link_ok(location.site, #[trigger] next.entity(location).links@[k]) by {
            self.lemma_same_wiring_entity(next, location);
            let link = self.entity(location).links@[k];
            assert(self.link_ok(location.site, link));
            let target = location.site.follow(link.component);
            self.lemma_same_wiring_site(next, target);
        }
    }

    /// With the same wiring the boards have the same sites, with the same
    /// pins at each.
    pub proof fn lemma_same_wiring_site(self, next: Board, site: Site)
        requires
            self.same_wiring(next),
        ensures
            self.has_site(site) <==> next.has_site(site),
            self.has_site(site) ==> self.unit(site).same_wiring(next.unit(site)),
            self.has_site(site) ==> forall|pin: PinNumber|
                self.unit(site).has_pin(pin) <==> next.unit(site).has_pin(pin),
    {
        if site.component < self.chipsets@.len() {
            assert(self.chipsets@[site.component as int].same_wiring(
                next.chipsets@[site.component as int],
            ));
            if self.has_site(site) {
                if let Some(g) = site.inner {
                    assert(self.chipsets@[site.component as int].subs()[g as int].same_wiring(
                        next.chipsets@[site.component as int].subs()[g as int],
                    ));
                }
            }
        }
    }

    /// With the same wiring the boards have the same aggregating places,
    /// with the same links at each.
    pub proof fn lemma_same_wiring_entity(self, next: Board, location: PinLocation)
        requires
            self.same_wiring(next),
        ensures
            self.has_entity(location) <==> next.has_entity(location),
            self.has_entity(location) ==> self.entity(location).links@ == next.entity(
                location,
            ).links@,
    {
        self.lemma_same_wiring_site(next, location.site);
        if self.has_site(location.site) && self.unit(location.site).has_pin(location.pin) {
            assert(self.unit(location.site).all_pins@[location.pin - 1].same_wiring(
                next.unit(location.site).all_pins@[location.pin - 1],
            ));
        }
    }
}

impl Board {
    /// Replacing the pins at one site by pins with the same wiring, on
    /// which the owner's writings stand as before, keeps the board well
    /// formed; and it keeps the invariant of an evaluation if the new pins
    /// keep it.
    pub proof fn lemma_unit_changed_keeps(self, next: Board, site: Site, tick: Tick)
        requires
            self.has_site(site),
            self.unit_changed(next, site),
            self.unit(site).same_wiring(next.unit(site)),
            forall|i: int|
                0 <= i < self.unit(site).all_pins@.len() ==> (#[trigger] self.unit(
                    site,
                ).all_pins@[i]).written() == next.unit(site).all_pins@[i].written(),
        ensures
            self.same_wiring(next),
            self.well_formed() ==> next.well_formed(),
            self.within(tick) && next.unit(site).within(tick) ==> next.within(tick),
    {
        self.lemma_unit_changed(next, site, tick);
        let c = site.component as int;
        assert forall|d: int| 0 <= d < self.chipsets@.len() implies (
        #[trigger] self.chipsets@[d]).same_wiring(next.chipsets@[d]) by {
            let x = self.chipsets@[d];
            let y = next.chipsets@[d];
            if d != c {
                assert(y == x);
                assert(x.same_kind(x));
                x.pins().lemma_advances_reflexive(tick);
                x.pins().lemma_wiring_advances(x.pins(), tick);
                assert forall|g: int| 0 <= g < x.subs().len() implies (
                #[trigger] x.subs()[g]).same_wiring(x.subs()[g]) by {
                    x.subs()[g].lemma_advances_reflexive(tick);
                    x.subs()[g].lemma_wiring_advances(x.subs()[g], tick);
                }
            } else {
                match site.inner {
                    None => {
                        assert forall|g: int| 0 <= g < x.subs().len() implies (
                        #[trigger] x.subs()[g]).same_wiring(y.subs()[g]) by {
                            assert(y.subs()[g] == x.subs()[g]);
                            x.subs()[g].lemma_advances_reflexive(tick);
                            x.subs()[g].lemma_wiring_advances(x.subs()[g], tick);
                        }
                    },
                    Some(h) => {
                        assert(y.pins() == x.pins());
                        x.pins().lemma_advances_reflexive(tick);
                        x.pins().lemma_wiring_advances(x.pins(), tick);
                        assert forall|g: int| 0 <= g < x.subs().len() implies (
                        #[trigger] x.subs()[g]).same_wiring(y.subs()[g]) by {
                            if g != h {
                                assert(y.subs()[g] == x.subs()[g]);
                                x.subs()[g].lemma_advances_reflexive(tick);
                                x.subs()[g].lemma_wiring_advances(x.subs()[g], tick);
                            }
                        }
                    },
                }
            }
        }
        if self.well_formed() {
            assert forall|d: int| 0 <= d < self.chipsets@.len() implies (
            #[trigger] self.chipsets@[d]).same_constant(next.chipsets@[d]) by {
                let x = self.chipsets@[d];
                if d == c && site.inner is None && (x is True || x is False) {
                    assert(x.well_formed());
                    assert(x.pins().all_pins@[0].written() == next.chipsets@[d].pins().all_pins@[0].written());
                }
            }
            self.lemma_well_formed_same_wiring(next);
        }
        if self.within(tick) && next.unit(site).within(tick) {
            assert forall|other: Site| #[trigger] next.has_site(other) implies next.unit(
                other,
            ).within(tick) by {
                assert(self.has_site(other));
                if other != site {
                    assert(next.unit(other) == self.unit(other));
                }
            }
        }
    }
}

impl Board {
    /// `next` is this board with the state of the pins at `site` set.
    pub open spec fn state_set(self, next: Board, site: Site, state: PinState) -> bool {
        &&& self.unit_changed(next, site)
        &&& next.unit(site).state == state
        &&& next.unit(site).all_pins == self.unit(site).all_pins
    }

    /// `next` is this board with the state and the value of one
    /// aggregating place set.
    pub open spec fn entity_set(
        self,
        next: Board,
        location: PinLocation,
        state: PinState,
        value: Tristate,
    ) -> bool {
        &&& self.unit_changed(next, location.site)
        &&& next.unit(location.site).state == self.unit(location.site).state
        &&& self.unit(location.site).only_pin_changed(next.unit(location.site), location.pin)
        &&& next.unit(location.site).pin(location.pin) == self.unit(location.site).pin(
            location.pin,
        ).with_evaluation(location.internal, state, value)
    }

    /// `next` is this board with the level that one output samples set to
    /// what its hidden input last aggregated.
    pub open spec fn result_set(self, next: Board, site: Site, pin: PinNumber) -> bool {
        &&& self.unit_changed(next, site)
        &&& next.unit(site).state == self.unit(site).state
        &&& self.unit(site).only_pin_changed(next.unit(site), pin)
        &&& next.unit(site).pin(pin) == self.unit(site).pin(pin).with_result(
            self.unit(site).pin(pin).entity(true).unwrap().input_value,
        )
    }

    /// `next` is this board after the evaluation proper of the component
    /// or sub-component at `site`.
    pub open spec fn driven(self, next: Board, site: Site) -> bool {
        &&& next.chipsets@.len() == self.chipsets@.len()
        &&& forall|c: int|
            0 <= c < self.chipsets@.len() && c != site.component ==> #[trigger] next.chipsets@[c]
                == self.chipsets@[c]
        &&& self.chipsets@[site.component as int].drives_to(
            site.inner,
            next.chipsets@[site.component as int],
        )
    }
}

impl Board {
    /// Advancing twice is advancing.
    pub proof fn lemma_advances_transitive(self, middle: Board, next: Board, tick: Tick)
        requires
            self.advances_to(middle, tick),
            middle.advances_to(next, tick),
            self.well_formed(),
            middle.well_formed(),
            middle.within(tick),
        ensures
            self.advances_to(next, tick),
    {
        self.lemma_advances_wiring(middle, tick);
        assert forall|c: int| 0 <= c < self.chipsets@.len() implies {
            &&& (#[trigger] self.chipsets@[c]).same_kind(next.chipsets@[c])
            &&& self.chipsets@[c].subs().len() == next.chipsets@[c].subs().len()
            &&& self.chipsets@[c].pins().state == next.chipsets@[c].pins().state
                ==> self.chipsets@[c].latch() == next.chipsets@[c].latch()
        } by {
            let x = self.chipsets@[c];
            let y = middle.chipsets@[c];
            let z = next.chipsets@[c];
            assert(x.same_kind(y));
            assert(y.same_kind(z));
            assert(self.chipsets.len() == self.chipsets@.len());
            let site = Site { component: c as usize, inner: None };
            assert(self.has_site(site));
            assert(middle.has_site(site));
            assert(self.unit(site).advances_to(middle.unit(site), tick));
            assert(middle.unit(site).advances_to(next.unit(site), tick));
        }
        assert forall|site: Site| #[trigger] self.has_site(site) implies {
            &&& self.unit(site).advances_to(next.unit(site), tick)
            &&& next.unit(site).state != self.unit(site).state
                ==> self.chipsets@[site.component as int].evaluated(
                site.inner,
                next.chipsets@[site.component as int],
            )
        } by {
            let c = site.component as int;
            let x = self.chipsets@[c];
            let y = middle.chipsets@[c];
            let z = next.chipsets@[c];
            assert(middle.has_site(site));
            assert(x.same_kind(y));
            assert(y.same_kind(z));
            let a = self.unit(site);
            let b = middle.unit(site);
            let d = next.unit(site);
            a.lemma_advances_transitive(b, d, tick);
            if d.state != a.state {
                let surface = Site { component: site.component, inner: None };
                assert(self.has_site(surface));
                assert(middle.has_site(surface));
                if b.state == a.state {
                    assert(y.evaluated(site.inner, z));
                    if site.inner is None {
                        assert(x.well_formed());
                        if x is Input || x is Clock || x is True || x is False {
                            assert(a.all_pins@[0].written() == b.all_pins@[0].written());
                        }
                    }
                    y.lemma_evaluated_from(x, site.inner, z);
                } else {
                    assert(x.evaluated(site.inner, y));
                    assert(y.well_formed());
                    assert(b.within(tick));
                    x.lemma_evaluated_stays(site.inner, y, z, tick);
                }
            }
        }
    }
}

impl Board {
    /// The evaluation of an aggregating place, from start to end, is a
    /// step that evaluating may take: the place is marked, other pins and
    /// components are evaluated at will, and the place gets its value.
    pub proof fn lemma_entity_evaluated(
        self,
        marked: Board,
        fed: Board,
        next: Board,
        location: PinLocation,
        value: Tristate,
        tick: Tick,
    )
        requires
            self.has_entity(location),
            !self.entity(location).input_state.entered(tick),
            self.unit(location.site).state == PinState::Computing(tick),
            location.site.inner is Some ==> self.unit(Site::of(location.site.component)).state
                == PinState::Computing(tick),
            self.entity_set(
                marked,
                location,
                PinState::Computing(tick),
                self.entity(location).input_value,
            ),
            marked.advances_to(fed, tick),
            fed.entity_set(next, location, PinState::Available(tick), value),
        ensures
            self.advances_to(next, tick),
    {
        let site = location.site;
        let i = location.pin - 1;
        self.lemma_unit_changed(marked, site, tick);
        marked.lemma_advances_wiring(fed, tick);
        assert(fed.has_site(site));
        fed.lemma_unit_changed(next, site, tick);
        assert forall|c: int| 0 <= c < self.chipsets@.len() implies {
            &&& (#[trigger] self.chipsets@[c]).same_kind(next.chipsets@[c])
            &&& self.chipsets@[c].subs().len() == next.chipsets@[c].subs().len()
            &&& self.chipsets@[c].pins().state == next.chipsets@[c].pins().state
                ==> self.chipsets@[c].latch() == next.chipsets@[c].latch()
        } by {
            let w = self.chipsets@[c];
            let x = marked.chipsets@[c];
            let y = fed.chipsets@[c];
            let z = next.chipsets@[c];
            assert(x.same_kind(y));
            x.lemma_same_kind(y, y);
            if c == site.component {
                w.lemma_same_kind(x, y);
                w.lemma_same_kind(y, z);
            } else {
                assert(w == x);
                assert(y == z);
            }
            assert(self.chipsets.len() == self.chipsets@.len());
            let surface = Site { component: c as usize, inner: None };
            assert(self.has_site(surface));
            assert(marked.has_site(surface));
            assert(marked.unit(surface).advances_to(fed.unit(surface), tick));
        }
        assert forall|other: Site| #[trigger] self.has_site(other) implies {
            &&& self.unit(other).advances_to(next.unit(other), tick)
            &&& next.unit(other).state != self.unit(other).state
                ==> self.chipsets@[other.component as int].evaluated(
                other.inner,
                next.chipsets@[other.component as int],
            )
        } by {
            let c = other.component as int;
            let w = self.chipsets@[c];
            let x = marked.chipsets@[c];
            let y = fed.chipsets@[c];
            let z = next.chipsets@[c];
            assert(marked.has_site(other));
            assert(marked.unit(other).advances_to(fed.unit(other), tick));
            if other != site {
                assert(self.unit(other) == marked.unit(other));
                assert(fed.unit(other) == next.unit(other));
                if next.unit(other).state != self.unit(other).state {
                    assert(x.evaluated(other.inner, y));
                    if c == site.component {
                        w.lemma_same_kind(x, x);
                        if other.inner is None {
                            assert(site.inner is Some);
                            assert(other == Site::of(site.component));
                        }
                        x.lemma_evaluated_from(w, other.inner, y);
                        w.lemma_evaluated_to(other.inner, y, z);
                    } else {
                        assert(w == x);
                        assert(y == z);
                    }
                }
            } else {
                let a = self.unit(site);
                let b = marked.unit(site);
                let d = fed.unit(site);
                let e = next.unit(site);
                assert forall|j: int| 0 <= j < a.all_pins@.len() implies {
                    &&& (#[trigger] a.all_pins@[j]).advances_to(e.all_pins@[j], tick)
                    &&& a.all_pins@[j].written() == e.all_pins@[j].written()
                } by {
                    assert(b.all_pins@[j].advances_to(d.all_pins@[j], tick));
                    assert(b.all_pins@[j].written() == d.all_pins@[j].written());
                    if j != i {
                        assert(b.all_pins@[j] == a.all_pins@[j]);
                        assert(e.all_pins@[j] == d.all_pins@[j]);
                    }
                }
            }
        }
    }
}

impl Board {
    /// What the evaluation proper at a site keeps and leaves.
    pub proof fn lemma_driven(self, next: Board, site: Site, tick: Tick)
        requires
            self.well_formed(),
            self.has_site(site),
            self.driven(next, site),
        ensures
            next.well_formed(),
            self.within(tick) ==> next.within(tick),
            next.weight(tick) == self.weight(tick),
            self.same_wiring(next),
            forall|other: Site| #[trigger] self.has_site(other) <==> next.has_site(other),
            forall|other: Site|
                #[trigger] self.has_site(other) && other != site ==> next.unit(other) == self.unit(
                    other,
                ),
            self.unit(site).rewritten(next.unit(site)),
            self.chipsets@[site.component as int].body_evaluated(
                site.inner,
                next.chipsets@[site.component as int],
            ),
            self.chipsets@[site.component as int].same_kind(next.chipsets@[site.component as int]),
            site.inner is Some ==> next.chipsets@[site.component as int].latch()
                == self.chipsets@[site.component as int].latch(),
    {
        let c = site.component as int;
        let x = self.chipsets@[c];
        let y = next.chipsets@[c];
        x.lemma_drives_to(site.inner, y);
        x.container(site.inner).lemma_rewritten(y.container(site.inner), tick);
        assert forall|other: Site| #[trigger] self.has_site(other) <==> next.has_site(other) by {
        }
        assert forall|other: Site| #[trigger]
            self.has_site(other) && other != site implies next.unit(other) == self.unit(other) by {
            if other.component == site.component {
                if let Some(h) = other.inner {
                    assert(y.subs()[h as int] == x.subs()[h as int]);
                } else {
                    assert(site.inner is Some);
                }
            }
        }
        assert forall|d: int| 0 <= d < self.chipsets@.len() implies (
        #[trigger] self.chipsets@[d]).same_wiring(next.chipsets@[d]) && self.chipsets@[d].same_constant(
            next.chipsets@[d],
        ) && next.chipsets@[d].weight(tick) == self.chipsets@[d].weight(tick) by {
            let w = self.chipsets@[d];
            let z = next.chipsets@[d];
            if d != c {
                assert(z == w);
                w.lemma_same_kind(w, w);
                w.pins().lemma_advances_reflexive(tick);
                w.pins().lemma_wiring_advances(w.pins(), tick);
                assert forall|g: int| 0 <= g < w.subs().len() implies (
                #[trigger] w.subs()[g]).same_wiring(w.subs()[g]) by {
                    w.subs()[g].lemma_advances_reflexive(tick);
                    w.subs()[g].lemma_wiring_advances(w.subs()[g], tick);
                }
            } else {
                assert(self.chipsets.len() == self.chipsets@.len());
                x.lemma_subs_bounded();
                let surface = Site { component: site.component, inner: None };
                if site.inner is Some {
                    assert(y.pins() == x.pins());
                    x.pins().lemma_advances_reflexive(tick);
                    x.pins().lemma_wiring_advances(x.pins(), tick);
                }
                assert forall|g: int| 0 <= g < x.subs().len() implies (#[trigger] x.subs()[g]).same_wiring(
                    y.subs()[g],
                ) && x.subs()[g].weight(tick) == y.subs()[g].weight(tick) by {
                    if site.inner != Some(g as usize) {
                        assert(y.subs()[g] == x.subs()[g]);
                        x.subs()[g].lemma_advances_reflexive(tick);
                        x.subs()[g].lemma_wiring_advances(x.subs()[g], tick);
                    }
                }
                assert(y.sub_weights(tick) =~= x.sub_weights(tick));
            }
        }
        assert(next.weights(tick) =~= self.weights(tick));
        self.lemma_well_formed_same_wiring(next);
        if self.within(tick) {
            assert forall|other: Site| #[trigger] next.has_site(other) implies next.unit(
                other,
            ).within(tick) by {
                assert(self.has_site(other));
                if other != site {
                    assert(next.unit(other) == self.unit(other));
                }
            }
        }
    }

    /// The evaluation of a component or sub-component, from start to end,
    /// is a step that evaluating may take: its pins are marked, other pins
    /// and components are evaluated at will, its body runs, and its pins
    /// are marked as done.
    pub proof fn lemma_unit_evaluated(
        self,
        marked: Board,
        fed: Board,
        driven: Board,
        next: Board,
        site: Site,
        tick: Tick,
    )
        requires
            self.well_formed(),
            self.has_site(site),
            !self.unit(site).state.entered(tick),
            site.inner is Some ==> self.unit(Site::of(site.component)).state
                == PinState::Computing(tick),
            self.state_set(marked, site, PinState::Computing(tick)),
            marked.advances_to(fed, tick),
            fed.well_formed(),
            forall|i: int|
                0 <= i < fed.unit(site).all_pins@.len() ==> (#[trigger] fed.unit(
                    site,
                ).all_pins@[i]).shows_sample(),
            fed.driven(driven, site),
            driven.state_set(next, site, PinState::Available(tick)),
        ensures
            self.advances_to(next, tick),
    {
        let surface = Site::of(site.component);
        self.lemma_unit_changed(marked, site, tick);
        marked.lemma_advances_wiring(fed, tick);
        assert(fed.has_site(site));
        fed.lemma_driven(driven, site, tick);
        assert(driven.has_site(site));
        driven.lemma_unit_changed(next, site, tick);
        assert forall|c: int| 0 <= c < self.chipsets@.len() implies {
            &&& (#[trigger] self.chipsets@[c]).same_kind(next.chipsets@[c])
            &&& self.chipsets@[c].subs().len() == next.chipsets@[c].subs().len()
            &&& self.chipsets@[c].pins().state == next.chipsets@[c].pins().state
                ==> self.chipsets@[c].latch() == next.chipsets@[c].latch()
        } by {
            let w = self.chipsets@[c];
            let x = marked.chipsets@[c];
            let y = fed.chipsets@[c];
            let v = driven.chipsets@[c];
            let z = next.chipsets@[c];
            assert(x.same_kind(y));
            assert(y.same_wiring(v));
            x.lemma_same_kind(y, y);
            if c == site.component {
                w.lemma_same_kind(x, y);
                w.lemma_same_kind(y, v);
                w.lemma_same_kind(v, z);
            } else {
                assert(w == x);
                assert(y == v);
                assert(v == z);
            }
            assert(self.chipsets.len() == self.chipsets@.len());
            let here = Site { component: c as usize, inner: None };
            assert(self.has_site(here));
            assert(marked.has_site(here));
            assert(marked.unit(here).advances_to(fed.unit(here), tick));
        }
        assert forall|other: Site| #[trigger] self.has_site(other) implies {
            &&& self.unit(other).advances_to(next.unit(other), tick)
            &&& next.unit(other).state != self.unit(other).state
                ==> self.chipsets@[other.component as int].evaluated(
                other.inner,
                next.chipsets@[other.component as int],
            )
        } by {
            let c = other.component as int;
            let w = self.chipsets@[c];
            let x = marked.chipsets@[c];
            let y = fed.chipsets@[c];
            let v = driven.chipsets@[c];
            let z = next.chipsets@[c];
            assert(marked.has_site(other));
            assert(fed.has_site(other));
            assert(driven.has_site(other));
            assert(marked.unit(other).advances_to(fed.unit(other), tick));
            if other != site {
                assert(self.unit(other) == marked.unit(other));
                assert(fed.unit(other) == driven.unit(other));
                assert(driven.unit(other) == next.unit(other));
                if next.unit(other).state != self.unit(other).state {
                    assert(x.evaluated(other.inner, y));
                    if c == site.component {
                        w.lemma_same_kind(x, x);
                        if other.inner is None {
                            assert(site.inner is Some);
                            assert(other == surface);
                        }
                        x.lemma_evaluated_from(w, other.inner, y);
                        w.lemma_evaluated_to(other.inner, y, z);
                    } else {
                        assert(w == x);
                        assert(y == v);
                        assert(v == z);
                    }
                }
            } else {
                let a = self.unit(site);
                let b = marked.unit(site);
                let d = fed.unit(site);
                let e = driven.unit(site);
                let f = next.unit(site);
                d.lemma_rewritten(e, tick);
                assert forall|j: int| 0 <= j < a.all_pins@.len() implies {
                    &&& (#[trigger] a.all_pins@[j]).advances_to(f.all_pins@[j], tick)
                    &&& f.all_pins@[j].shows_sample()
                } by {
                    assert(b.all_pins@[j].advances_to(d.all_pins@[j], tick));
                    assert(d.all_pins@[j].advances_to(e.all_pins@[j], tick));
                    assert(d.all_pins@[j].shows_sample());
                    assert(e.all_pins@[j].shows_sample());
                }
                assert(y.body_evaluated(site.inner, v));
                w.lemma_same_kind(x, y);
                y.lemma_same_kind(y, y);
                if site.inner is None {
                    assert(w.latch() == x.latch());
                    assert(x.latch() == y.latch());
                    if w is Input || w is Clock || w is True || w is False {
                        assert(w.well_formed());
                        assert(b.all_pins@[0].written() == d.all_pins@[0].written());
                    }
                }
                y.lemma_body_evaluated_congruent(w, site.inner, v, z);
            }
        }
    }
}

impl Board {
    /// The board speaks of no tick after `tick`.
    pub open spec fn dated(self, tick: Tick) -> bool {
        forall|site: Site| #[trigger] self.has_site(site) ==> self.unit(site).dated(tick)
    }

    /// A board at rest that speaks of no tick after `before` is ready for
    /// the evaluation of any later tick, and nothing on it was evaluated
    /// for that tick.
    pub proof fn lemma_rest_within(self, before: Tick, tick: Tick)
        requires
            self.at_rest(),
            self.dated(before),
            before < tick,
        ensures
            self.within(tick),
            forall|site: Site| #[trigger] self.has_site(site) ==> !self.unit(site).state.entered(tick),
    {
        assert forall|site: Site| #[trigger] self.has_site(site) implies self.unit(site).within(
            tick,
        ) && !self.unit(site).state.entered(tick) by {
            let a = self.unit(site);
            assert(a.at_rest());
            assert(a.dated(before));
            assert forall|i: int| 0 <= i < a.all_pins@.len() implies (#[trigger] a.all_pins@[i]).within(
                tick,
            ) by {
                assert(a.all_pins@[i].at_rest());
            }
        }
    }

    /// A board of which nothing was ever evaluated is at rest, speaks of
    /// no tick, and is ready for the evaluation of any tick.
    pub proof fn lemma_never_computed(self, tick: Tick)
        requires
            forall|c: int|
                0 <= c < self.chipsets@.len() ==> (#[trigger] self.chipsets@[c]).never_computed(),
        ensures
            self.at_rest(),
            self.within(tick),
            forall|site: Site| #[trigger] self.has_site(site) ==> !self.unit(site).state.entered(tick),
    {
        assert forall|site: Site| #[trigger] self.has_site(site) implies self.unit(site).within(
            tick,
        ) && self.unit(site).at_rest() && !self.unit(site).state.entered(tick) by {
            let x = self.chipsets@[site.component as int];
            assert(x.never_computed());
            assert(x.has_part(site.inner));
            let a = self.unit(site);
            assert forall|i: int| 0 <= i < a.all_pins@.len() implies (#[trigger] a.all_pins@[i]).within(
                tick,
            ) && a.all_pins@[i].at_rest() by {
                if a.all_pins@[i].entity(false) is Some {
                    assert(a.all_pins@[i].entity(false).unwrap().input_state
                        == PinState::NeverComputed);
                }
                if a.all_pins@[i].entity(true) is Some {
                    assert(a.all_pins@[i].entity(true).unwrap().input_state
                        == PinState::NeverComputed);
                }
            }
        }
    }

    /// Advancing keeps a board at rest, and up to the tick for which it
    /// advances it adds no later tick.
    pub proof fn lemma_advances_rest(self, next: Board, before: Tick, tick: Tick)
        requires
            self.advances_to(next, tick),
            before <= tick,
        ensures
            self.at_rest() ==> next.at_rest(),
            self.dated(before) ==> next.dated(tick),
    {
        self.lemma_advances_wiring(next, tick);
        assert forall|site: Site| #[trigger] next.has_site(site) implies (self.at_rest()
            ==> next.unit(site).at_rest()) && (self.dated(before) ==> next.unit(site).dated(
            tick,
        )) by {
            assert(self.has_site(site));
            let a = self.unit(site);
            let b = next.unit(site);
            assert(a.advances_to(b, tick));
            if self.at_rest() {
                assert(a.at_rest());
                assert forall|i: int| 0 <= i < b.all_pins@.len() implies (
                #[trigger] b.all_pins@[i]).at_rest() by {
                    assert(a.all_pins@[i].at_rest());
                    assert(a.all_pins@[i].advances_to(b.all_pins@[i], tick));
                }
            }
            if self.dated(before) {
                assert(a.dated(before));
                assert forall|i: int| 0 <= i < b.all_pins@.len() implies (#[trigger] b.all_pins@[i]).dated(
                    tick,
                ) by {
                    assert(a.all_pins@[i].dated(before));
                    assert(a.all_pins@[i].advances_to(b.all_pins@[i], tick));
                }
            }
        }
    }
}

} // verus!
