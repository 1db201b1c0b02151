//! The evaluation of a tick: a depth-first, demand-driven walk over the
//! links, in which every pin and every component is evaluated at most once.
//!
//! A pin or component that the walk reaches again while it is still being
//! evaluated is not entered a second time: the walk reads what it holds
//! from before. This breaks feedback loops, and the walk ends because
//! each step that does any work takes one from the finite number of places
//! that the tick has not reached yet.
//!
//! Every function of the walk also says what it leaves when it is called
//! in a calm situation on a layered board, which is how the walk calls it
//! on a circuit without feedback: everything that was evaluated has then
//! settled. See [`crate::pin::settling`].

use vstd::pervasive::unreached;
use vstd::prelude::*;

use crate::circuit::board::{Board, PinLocation, Site};
use crate::components::tristate::Tristate;
use crate::components::{ComponentHandle, InvalidPin, PinNumber, Tick};
use crate::pin::container::{InputPinError, InternalComponentProxy, PinContainer};
use crate::pin::pin::{OutputFromInternalComponents, Pin, PinLink, PinState, UnidirectionalInputPin};
use crate::pin::settling::Place;

verus! {

impl Board {
    /// An evaluation for `tick` may run at `site`: the board is well
    /// formed, nothing is being evaluated for another tick, and if the
    /// site is a sub-component, its composite is being evaluated.
    pub open spec fn ready(self, site: Site, tick: Tick) -> bool {
        &&& self.well_formed()
        &&& self.within(tick)
        &&& self.has_site(site)
        &&& site.inner is Some ==> self.unit(Site::of(site.component)).state
            == PinState::Computing(tick)
    }

    /// `next` is what an evaluation for `tick` has made of this board: it
    /// has advanced, is still well formed, and owes no more evaluations
    /// than before.
    pub open spec fn evaluates_to(self, next: Board, tick: Tick) -> bool {
        &&& next.well_formed()
        &&& next.within(tick)
        &&& self.advances_to(next, tick)
        &&& next.weight(tick) <= self.weight(tick)
    }

    /// `next` is what asking for the evaluation of the component or
    /// sub-component at `site` for `tick` has made of this board. If the
    /// evaluation had started already, nothing at all has changed: the
    /// body of a component runs at most once in a tick. If it had not, it
    /// was carried out in full.
    pub open spec fn simulated(self, next: Board, site: Site, tick: Tick) -> bool {
        &&& self.evaluates_to(next, tick)
        &&& next.has_site(site)
        &&& self.unit(site).state.entered(tick) ==> next == self
        &&& !self.unit(site).state.entered(tick) ==> next.unit(site).state == PinState::Available(
            tick,
        )
    }

    /// Within a tick a component is evaluated at most once: once its
    /// evaluation for a tick was asked for, asking again changes nothing,
    /// whatever was evaluated in between.
    pub proof fn evaluated_at_most_once(
        self,
        first: Board,
        between: Board,
        second: Board,
        site: Site,
        tick: Tick,
    )
        requires
            self.has_site(site),
            self.simulated(first, site, tick),
            first.advances_to(between, tick),
            between.simulated(second, site, tick),
        ensures
            second == between,
            between.unit(site).state == first.unit(site).state,
    {
        assert(first.has_site(site));
        assert(first.unit(site).advances_to(between.unit(site), tick));
    }

    /// Evaluating twice is evaluating.
    pub proof fn lemma_evaluates_chain(self, middle: Board, next: Board, tick: Tick)
        requires
            self.well_formed(),
            self.evaluates_to(middle, tick),
            middle.evaluates_to(next, tick),
        ensures
            self.evaluates_to(next, tick),
    {
        self.lemma_advances_transitive(middle, next, tick);
    }

    /// Not evaluating is evaluating.
    pub proof fn lemma_evaluates_nothing(self, tick: Tick)
        requires
            self.well_formed(),
            self.within(tick),
        ensures
            self.evaluates_to(self, tick),
    {
        self.lemma_advances_reflexive(tick);
    }

    /// What an evaluation keeps of a site that is being evaluated.
    pub proof fn lemma_evaluates_keeps(self, next: Board, site: Site, tick: Tick)
        requires
            self.ready(site, tick),
            self.advances_to(next, tick),
        ensures
            next.has_site(site),
            next.unit(site).all_pins@.len() == self.unit(site).all_pins@.len(),
            self.unit(site).state.entered(tick) ==> next.unit(site).state == self.unit(site).state,
            site.inner is Some ==> next.unit(Site::of(site.component)).state
                == PinState::Computing(tick),
            forall|pin: PinNumber, internal: bool|
                #![trigger next.has_entity(PinLocation { site, pin, internal })]
                self.has_entity(PinLocation { site, pin, internal }) <==> next.has_entity(
                    PinLocation { site, pin, internal },
                ),
            forall|pin: PinNumber, internal: bool|
                #![trigger next.entity(PinLocation { site, pin, internal })]
                self.has_entity(PinLocation { site, pin, internal }) ==> {
                    let before = self.entity(PinLocation { site, pin, internal });
                    let after = next.entity(PinLocation { site, pin, internal });
                    &&& after.links@ == before.links@
                    &&& before.input_state.advances_to(after.input_state, tick)
                    &&& after.input_state == before.input_state ==> after.input_value
                        == before.input_value
                },
            forall|pin: PinNumber|
                self.unit(site).has_pin(pin) && (#[trigger] self.unit(site).pin(pin)).entity(true)
                    is Some && self.unit(site).pin(pin).entity(true).unwrap().input_state
                    == PinState::Available(tick) && self.unit(site).pin(pin).shows_sample()
                    ==> next.unit(site).pin(pin).shows_sample(),
    {
        self.lemma_advances_wiring(next, tick);
        assert(self.unit(site).advances_to(next.unit(site), tick));
        if site.inner is Some {
            let surface = Site::of(site.component);
            assert(self.has_site(surface));
            assert(self.unit(surface).advances_to(next.unit(surface), tick));
        }
        assert forall|pin: PinNumber, internal: bool|
            #![trigger next.entity(PinLocation { site, pin, internal })]
            self.has_entity(PinLocation { site, pin, internal }) implies {
            let before = self.entity(PinLocation { site, pin, internal });
            let after = next.entity(PinLocation { site, pin, internal });
            &&& after.links@ == before.links@
            &&& before.input_state.advances_to(after.input_state, tick)
            &&& after.input_state == before.input_state ==> after.input_value
                == before.input_value
        } by {
            assert(self.unit(site).all_pins@[pin - 1].advances_to(
                next.unit(site).all_pins@[pin - 1],
                tick,
            ));
        }
        assert forall|pin: PinNumber, internal: bool|
            #![trigger next.has_entity(PinLocation { site, pin, internal })]
            self.has_entity(PinLocation { site, pin, internal }) <==> next.has_entity(
                PinLocation { site, pin, internal },
            ) by {
            let location = PinLocation { site, pin, internal };
            assert(self.has_entity(location) <==> next.has_entity(location));
        }
        assert forall|pin: PinNumber|
            self.unit(site).has_pin(pin) && (#[trigger] self.unit(site).pin(pin)).entity(true)
                is Some && self.unit(site).pin(pin).entity(true).unwrap().input_state
                == PinState::Available(tick) && self.unit(site).pin(pin).shows_sample()
                implies next.unit(site).pin(pin).shows_sample() by {
            assert(self.unit(site).all_pins@[pin - 1].advances_to(
                next.unit(site).all_pins@[pin - 1],
                tick,
            ));
        }
    }
}

/// The disjunction of a list of levels; low for the empty list.
pub open spec fn or_all(levels: Seq<Tristate>) -> Tristate
    decreases levels.len(),
{
    if levels.len() == 0 {
        Tristate::State(false)
    } else {
        or_all(levels.drop_last()).or(levels.last())
    }
}

impl Board {
    /// The evaluation for `tick` of what a link held at `holder` reads has
    /// started: of the component at its far end or, through the proxy of a
    /// composite, of the pin at its far end.
    pub open spec fn peer_entered(self, holder: Site, link: PinLink, tick: Tick) -> bool {
        let unit = self.unit(holder.follow(link.component));
        match link.component {
            ComponentHandle::Proxy(_) => unit.pin(link.pin).input() matches Some(pin)
                ==> pin.input_state.entered(tick),
            _ => unit.state.entered(tick),
        }
    }

    /// The evaluation for `tick` of what a link held at `holder` reads is
    /// over.
    pub open spec fn peer_done(self, holder: Site, link: PinLink, tick: Tick) -> bool {
        let unit = self.unit(holder.follow(link.component));
        match link.component {
            ComponentHandle::Proxy(_) => unit.pin(link.pin).input() matches Some(pin)
                ==> pin.input_state == PinState::Available(tick),
            _ => unit.state == PinState::Available(tick),
        }
    }

    /// Whether a link leads a pin that receives back to itself.
    pub open spec fn loops_back(location: PinLocation, link: PinLink) -> bool {
        &&& link.component is Proxy
        &&& !location.internal
        &&& location.site.inner is None
        &&& link.pin == location.pin
    }

    /// What the links of an aggregating place read, link by link.
    pub open spec fn readings(self, location: PinLocation) -> Seq<Tristate> {
        Seq::new(
            self.entity(location).links@.len(),
            |k: int| self.entity(location).links@[k].reading(self, location.site),
        )
    }

    /// The aggregating place at `location` holds the disjunction of what
    /// its peers drive at `tick`, provided that the evaluation of each of
    /// them for `tick` is over and that no link leads the place back to
    /// itself.
    pub open spec fn aggregated(self, location: PinLocation, tick: Tick) -> bool {
        &&& forall|k: int|
            0 <= k < self.entity(location).links@.len() ==> self.peer_entered(
                location.site,
                #[trigger] self.entity(location).links@[k],
                tick,
            )
        &&& (forall|k: int|
            0 <= k < self.entity(location).links@.len() ==> self.peer_done(
                location.site,
                #[trigger] self.entity(location).links@[k],
                tick,
            ) && !Self::loops_back(location, self.entity(location).links@[k]))
            ==> self.entity(location).input_value == or_all(self.readings(location))
    }

    /// What an aggregating place has aggregated for `tick` stays the
    /// disjunction of what its peers drive while other pins and
    /// components are evaluated for `tick`.
    pub proof fn aggregated_stays(self, next: Board, location: PinLocation, tick: Tick)
        requires
            self.well_formed(),
            self.has_entity(location),
            self.advances_to(next, tick),
            self.entity(location).input_state == PinState::Available(tick),
            self.aggregated(location, tick),
        ensures
            next.has_entity(location),
            next.entity(location).input_state == PinState::Available(tick),
            next.entity(location).input_value == self.entity(location).input_value,
            next.aggregated(location, tick),
    {
        let site = location.site;
        let links = self.entity(location).links@;
        self.lemma_advances_wiring(next, tick);
        assert(self.has_entity(location) <==> next.has_entity(location));
        assert(next.entity(location).links@ == links);
        assert(self.unit(site).all_pins@[location.pin - 1].advances_to(
            next.unit(site).all_pins@[location.pin - 1],
            tick,
        ));
        assert forall|k: int| 0 <= k < links.len() implies next.peer_entered(
            site,
            #[trigger] links[k],
            tick,
        ) && (self.peer_done(site, links[k], tick) <==> next.peer_done(site, links[k], tick)) && (
        self.peer_done(site, links[k], tick) ==> links[k].reading(next, site) == links[k].reading(
            self,
            site,
        )) by {
            assert(self.peer_entered(site, self.entity(location).links@[k], tick));
            assert(self.link_ok(site, self.entity(location).links@[k]));
            self.lemma_reading_stays(next, site, links[k], tick);
        }
        if forall|k: int|
            0 <= k < links.len() ==> next.peer_done(site, #[trigger] links[k], tick)
                && !Self::loops_back(location, links[k]) {
            assert forall|k: int| 0 <= k < links.len() implies self.peer_done(
                site,
                #[trigger] self.entity(location).links@[k],
                tick,
            ) && !Self::loops_back(location, self.entity(location).links@[k]) by {
                assert(next.peer_done(site, links[k], tick) && !Self::loops_back(
                    location,
                    links[k],
                ));
            }
            assert(self.readings(location) =~= next.readings(location));
        }
    }

    /// Once the evaluation of what a link reads has started, it stays
    /// started; once it is over, it stays over, and the link goes on
    /// reading the same level; and while it is under way, no evaluation
    /// of anything else brings it to its end.
    pub proof fn lemma_reading_stays(self, next: Board, holder: Site, link: PinLink, tick: Tick)
        requires
            self.advances_to(next, tick),
            self.has_site(holder),
            self.link_ok(holder, link),
            self.peer_entered(holder, link, tick),
        ensures
            next.peer_entered(holder, link, tick),
            self.peer_done(holder, link, tick) <==> next.peer_done(holder, link, tick),
            self.peer_done(holder, link, tick) ==> link.reading(next, holder) == link.reading(
                self,
                holder,
            ),
    {
        let target = holder.follow(link.component);
        let a = self.unit(target);
        let b = next.unit(target);
        assert(self.has_site(target));
        assert(a.advances_to(b, tick));
        assert(a.all_pins@[link.pin - 1].advances_to(b.all_pins@[link.pin - 1], tick));
        if a.state == b.state && !(a.state is Computing) {
            assert(a.all_pins@[link.pin - 1].driven() == b.all_pins@[link.pin - 1].driven());
        }
    }
}

impl Board {
    /// What was read over the first links of an aggregating place is
    /// still what these links read, as far as the evaluation of their
    /// peers is over, after one more link was read.
    pub proof fn lemma_observed(
        self,
        next: Board,
        location: PinLocation,
        observed: Seq<Tristate>,
        value: Tristate,
        tick: Tick,
    )
        requires
            self.has_entity(location),
            self.links_ok(),
            self.advances_to(next, tick),
            observed.len() < self.entity(location).links@.len(),
            forall|j: int|
                0 <= j < observed.len() ==> self.peer_entered(
                    location.site,
                    #[trigger] self.entity(location).links@[j],
                    tick,
                ),
            forall|j: int|
                0 <= j < observed.len() && self.peer_done(
                    location.site,
                    #[trigger] self.entity(location).links@[j],
                    tick,
                ) ==> observed[j] == self.entity(location).links@[j].reading(self, location.site),
            next.peer_entered(
                location.site,
                self.entity(location).links@[observed.len() as int],
                tick,
            ),
            value == self.entity(location).links@[observed.len() as int].reading(
                next,
                location.site,
            ),
        ensures
            or_all(observed.push(value)) == or_all(observed).or(value),
            forall|j: int|
                0 <= j < observed.len() + 1 ==> next.peer_entered(
                    location.site,
                    #[trigger] self.entity(location).links@[j],
                    tick,
                ),
            forall|j: int|
                0 <= j < observed.len() + 1 && next.peer_done(
                    location.site,
                    #[trigger] self.entity(location).links@[j],
                    tick,
                ) ==> observed.push(value)[j] == self.entity(location).links@[j].reading(
                    next,
                    location.site,
                ),
    {
        let site = location.site;
        let links = self.entity(location).links@;
        assert(observed.push(value).drop_last() =~= observed);
        assert forall|j: int| 0 <= j < observed.len() implies next.peer_entered(
            site,
            #[trigger] links[j],
            tick,
        ) && (next.peer_done(site, links[j], tick) ==> observed[j] == links[j].reading(
            next,
            site,
        )) by {
            assert(self.link_ok(site, self.entity(location).links@[j]));
            self.lemma_reading_stays(next, site, links[j], tick);
        }
    }

    /// Storing the disjunction of what was read over the links of an
    /// aggregating place leaves the place holding the disjunction of what
    /// its peers drive, as far as their evaluation is over.
    pub proof fn lemma_aggregated(
        self,
        next: Board,
        location: PinLocation,
        observed: Seq<Tristate>,
        value: Tristate,
        tick: Tick,
    )
        requires
            self.within(tick),
            self.has_entity(location),
            self.links_ok(),
            self.unit(location.site).state == PinState::Computing(tick),
            self.entity(location).input_state == PinState::Computing(tick),
            self.entity_set(next, location, PinState::Available(tick), value),
            observed.len() == self.entity(location).links@.len(),
            value == or_all(observed),
            forall|j: int|
                0 <= j < observed.len() ==> self.peer_entered(
                    location.site,
                    #[trigger] self.entity(location).links@[j],
                    tick,
                ),
            forall|j: int|
                0 <= j < observed.len() && self.peer_done(
                    location.site,
                    #[trigger] self.entity(location).links@[j],
                    tick,
                ) ==> observed[j] == self.entity(location).links@[j].reading(self, location.site),
        ensures
            next.aggregated(location, tick),
    {
        let site = location.site;
        let links = self.entity(location).links@;
        self.lemma_entity_set(next, location, PinState::Available(tick), value, tick);
        self.lemma_unit_changed(next, site, tick);
        assert(next.entity(location).links@ == links);
        assert forall|k: int| 0 <= k < links.len() implies next.peer_entered(
            site,
            #[trigger] next.entity(location).links@[k],
            tick,
        ) by {
            let link = links[k];
            assert(self.peer_entered(site, self.entity(location).links@[k], tick));
            assert(self.link_ok(site, self.entity(location).links@[k]));
            let target = site.follow(link.component);
            assert(self.has_site(target));
            if target != site {
                assert(next.unit(target) == self.unit(target));
            } else {
                let a = self.unit(site);
                let b = next.unit(site);
                if link.pin != location.pin {
                    assert(b.all_pins@[link.pin - 1] == a.all_pins@[link.pin - 1]);
                }
            }
        }
        if forall|k: int|
            0 <= k < links.len() ==> next.peer_done(site, #[trigger] links[k], tick)
                && !Self::loops_back(location, links[k]) {
            assert forall|k: int| 0 <= k < links.len() implies observed[k] == next.readings(
                location,
            )[k] by {
                let link = links[k];
                assert(next.peer_done(site, link, tick) && !Self::loops_back(location, link));
                assert(self.link_ok(site, self.entity(location).links@[k]));
                let target = site.follow(link.component);
                assert(self.has_site(target));
                if target != site {
                    assert(next.unit(target) == self.unit(target));
                } else {
                    let a = self.unit(site);
                    let b = next.unit(site);
                    if link.pin != location.pin {
                        assert(b.all_pins@[link.pin - 1] == a.all_pins@[link.pin - 1]);
                    }
                }
                assert(self.peer_done(site, link, tick));
                assert(link.reading(next, site) == link.reading(self, site));
            }
            assert(observed =~= next.readings(location));
        }
    }
}

impl PinLink {
    /// The level that the link reads on `board` when it is held at
    /// `holder`: what the linked pin drives, or, through the proxy of a
    /// composite, what the linked pin of the composite receives.
    pub open spec fn reading(self, board: Board, holder: Site) -> Tristate {
        let pin = board.unit(holder.follow(self.component)).pin(self.pin);
        match self.component {
            ComponentHandle::Proxy(_) => if pin.input() is Some {
                pin.input_value()
            } else {
                Tristate::Undefined
            },
            _ => pin.external_value(),
        }
    }

    /// Evaluates the component at the far end of the link for `tick`,
    /// unless that was done or is under way, and reads the linked pin.
    pub fn compute(&self, board: &mut Board, holder: Site, tick: Tick) -> (r: Tristate)
        requires
            old(board).ready(holder, tick),
            old(board).unit(holder).state == PinState::Computing(tick),
            old(board).link_ok(holder, *self),
        ensures
            old(board).evaluates_to(*final(board), tick),
            r == self.reading(*final(board), holder),
            final(board).peer_entered(holder, *self, tick),
            forall|rank: spec_fn(Place) -> nat| #[trigger]
                old(board).calm_link(rank, holder, *self, tick) ==> final(board).all_settled(tick)
                    && final(board).peer_done(holder, *self, tick),
        decreases old(board).weight(tick), 4int,
    {
        let target = holder.resolve(self.component);
        let ghost start = *board;
        match self.component {
            ComponentHandle::Proxy(proxy) => {
                proxy.simulate(board, target, tick);
                let ghost middle = *board;
                proof {
                    start.lemma_evaluates_keeps(middle, target, tick);
                }
                let r = match proxy.compute(board, target, self.pin, tick) {
                    Ok(value) => value,
                    Err(_) => unreached(),
                };
                proof {
                    start.lemma_evaluates_chain(middle, *board, tick);
                    start.lemma_advances_wiring(middle, tick);
                    assert(middle.link_ok(holder, *self));
                    assert(middle.unit(target).pin(self.pin) == middle.unit(
                        target,
                    ).all_pins@[self.pin - 1]);
                    assert(middle.peer_entered(holder, *self, tick));
                    middle.lemma_reading_stays(*board, holder, *self, tick);
                    assert forall|rank: spec_fn(Place) -> nat| #[trigger]
                        start.calm_link(rank, holder, *self, tick) implies board.all_settled(tick)
                        && board.peer_done(holder, *self, tick) by {
                        assert(start.calm_inputs(rank, target, tick));
                        start.lemma_calm_advances(middle, rank, 0, target, tick);
                        assert(middle.calm_read(rank, target, tick));
                        middle.lemma_calm_advances(*board, rank, 0, target, tick);
                        assert(board.unit(target).has_pin(self.pin));
                    }
                }
                r
            },
            _ => {
                PinContainer::simulate(board, target, tick);
                let ghost middle = *board;
                proof {
                    start.lemma_evaluates_keeps(middle, target, tick);
                    start.lemma_evaluates_keeps(middle, holder, tick);
                }
                let r = match PinContainer::compute_for_external(board, target, self.pin, tick) {
                    Ok(value) => value,
                    Err(_) => unreached(),
                };
                proof {
                    start.lemma_evaluates_chain(middle, *board, tick);
                    start.lemma_advances_wiring(middle, tick);
                    assert(middle.link_ok(holder, *self));
                    assert(middle.peer_entered(holder, *self, tick));
                    middle.lemma_reading_stays(*board, holder, *self, tick);
                    assert forall|rank: spec_fn(Place) -> nat| #[trigger]
                        start.calm_link(rank, holder, *self, tick) implies board.all_settled(tick)
                        && board.peer_done(holder, *self, tick) by {
                        assert(start.calm_unit(rank, target, tick));
                    }
                }
                r
            },
        }
    }
}

impl InternalComponentProxy {
    /// Evaluates what the composite at `owner` receives, for `tick`.
    pub fn simulate(&self, board: &mut Board, owner: Site, tick: Tick)
        requires
            old(board).ready(owner, tick),
            old(board).unit(owner).state == PinState::Computing(tick),
        ensures
            old(board).evaluates_to(*final(board), tick),
            forall|pin: PinNumber|
                old(board).unit(owner).has_pin(pin) && (#[trigger] final(board).unit(owner).pin(
                    pin,
                )).input() is Some ==> final(board).unit(owner).pin(
                    pin,
                ).input().unwrap().input_state.entered(tick),
            forall|rank: spec_fn(Place) -> nat| #[trigger]
                old(board).calm_inputs(rank, owner, tick) ==> final(board).all_settled(tick)
                    && final(board).fed(owner, tick),
        decreases old(board).weight(tick), 3int,
    {
        PinContainer::simulate_all_inputs(board, owner, tick)
    }

    /// What the composite at `owner` receives on pin `pin`: undefined on a
    /// pin that does not receive.
    pub fn compute(&self, board: &mut Board, owner: Site, pin: PinNumber, tick: Tick) -> (r:
        Result<Tristate, InvalidPin>)
        requires
            old(board).ready(owner, tick),
        ensures
            old(board).evaluates_to(*final(board), tick),
            match r {
                Ok(value) => {
                    &&& old(board).unit(owner).has_pin(pin)
                    &&& value == if final(board).unit(owner).pin(pin).input() is Some {
                        final(board).unit(owner).pin(pin).input_value()
                    } else {
                        Tristate::Undefined
                    }
                },
                Err(e) => !old(board).unit(owner).has_pin(pin) && e == InvalidPin(pin),
            },
            forall|rank: spec_fn(Place) -> nat| #[trigger]
                old(board).calm_read(rank, owner, tick) ==> final(board).all_settled(tick),
        decreases old(board).weight(tick), 3int,
    {
        match PinContainer::compute_input(board, owner, pin, tick) {
            Ok(result) => Ok(result),
            Err(InputPinError::NotAnInput(_)) => Ok(Tristate::Undefined),
            Err(InputPinError::InvalidPin(pin)) => Err(InvalidPin(pin)),
        }
    }
}

impl UnidirectionalInputPin {
    /// Evaluates the aggregating place at `location` for `tick`, unless
    /// that was done or is under way.
    pub fn simulate(board: &mut Board, location: PinLocation, tick: Tick)
        requires
            old(board).ready(location.site, tick),
            old(board).has_entity(location),
            old(board).unit(location.site).state == PinState::Computing(tick),
        ensures
            old(board).evaluates_to(*final(board), tick),
            final(board).has_entity(location),
            old(board).entity(location).input_state.entered(tick) ==> *final(board) == *old(board),
            !old(board).entity(location).input_state.entered(tick) ==> final(board).entity(
                location,
            ).input_state == PinState::Available(tick) && final(board).aggregated(location, tick),
            forall|rank: spec_fn(Place) -> nat| #[trigger]
                old(board).calm_entity(rank, location, tick) ==> final(board).all_settled(tick)
                    && final(board).entity(location).input_state == PinState::Available(tick),
        decreases old(board).weight(tick), 1int,
    {
        proof {
            old(board).lemma_evaluates_nothing(tick);
        }
        match board.entity_state(location) {
            PinState::NeverComputed => Self::recompute_input_cache(board, location, tick),
            PinState::Available(current_tick) => {
                if current_tick != tick {
                    Self::recompute_input_cache(board, location, tick);
                }
            },
            PinState::Computing(current_tick) => {
                proof {
                    assert(board.unit(location.site).within(tick));
                    assert(board.unit(location.site).all_pins@[location.pin - 1].within(tick));
                    assert(board.computing(Place::Entity(location)));
                }
            },
        }
    }

    /// Aggregates anew what the peers of the place at `location` drive:
    /// each is evaluated for `tick` and read, and the disjunction of the
    /// readings becomes the value of the place.
    pub fn recompute_input_cache(board: &mut Board, location: PinLocation, tick: Tick)
        requires
            old(board).ready(location.site, tick),
            old(board).has_entity(location),
            old(board).unit(location.site).state == PinState::Computing(tick),
            !old(board).entity(location).input_state.entered(tick),
        ensures
            old(board).evaluates_to(*final(board), tick),
            final(board).has_entity(location),
            final(board).entity(location).input_state == PinState::Available(tick),
            final(board).aggregated(location, tick),
            forall|rank: spec_fn(Place) -> nat| #[trigger]
                old(board).calm_entity(rank, location, tick) ==> final(board).all_settled(tick),
        decreases old(board).weight(tick), 0int,
    {
        let ghost start = *board;
        let site = location.site;
        board.enter_entity(location, tick);
        let ghost marked = *board;
        proof {
            start.lemma_entity_set(
                marked,
                location,
                PinState::Computing(tick),
                start.entity(location).input_value,
                tick,
            );
            start.lemma_unit_changed(marked, site, tick);
            assert(start.has_site(Site::of(site.component)));
            marked.lemma_evaluates_nothing(tick);
            assert forall|rank: spec_fn(Place) -> nat| #[trigger]
                start.calm_entity(rank, location, tick) implies marked.feeding(
                rank,
                location,
                tick,
                0,
            ) by {
                start.lemma_feeding_starts(marked, rank, location, tick);
            }
        }
        let count = board.links_len(location);
        let ghost links = marked.entity(location).links@;
        let ghost mut observed: Seq<Tristate> = Seq::empty();
        let mut state: Tristate = Tristate::State(false);
        let mut k: usize = 0;
        while k < count
            invariant
                k <= count,
                marked.ready(site, tick),
                marked.has_entity(location),
                marked.unit(site).state == PinState::Computing(tick),
                marked.entity(location).input_state == PinState::Computing(tick),
                count == marked.entity(location).links@.len(),
                links == marked.entity(location).links@,
                marked.weight(tick) < start.weight(tick),
                start == *old(board),
                marked.evaluates_to(*board, tick),
                site == location.site,
                observed.len() == k,
                state == or_all(observed),
                forall|j: int|
                    0 <= j < k ==> board.peer_entered(site, #[trigger] links[j], tick),
                forall|j: int|
                    0 <= j < k && board.peer_done(site, #[trigger] links[j], tick) ==> observed[j]
                        == links[j].reading(*board, site),
                forall|rank: spec_fn(Place) -> nat| #[trigger]
                    start.calm_entity(rank, location, tick) ==> board.feeding(
                        rank,
                        location,
                        tick,
                        k as int,
                    ),
            decreases count - k,
        {
            proof {
                marked.lemma_evaluates_keeps(*board, site, tick);
                assert(board.has_entity(location));
                assert(board.entity(location).links@ == marked.entity(location).links@);
            }
            let link = board.link_at(location, k);
            let ghost before = *board;
            let value = link.compute(board, site, tick);
            proof {
                marked.lemma_evaluates_chain(before, *board, tick);
                before.lemma_observed(*board, location, observed, value, tick);
                assert forall|rank: spec_fn(Place) -> nat| #[trigger]
                    start.calm_entity(rank, location, tick) implies board.feeding(
                    rank,
                    location,
                    tick,
                    k + 1,
                ) by {
                    before.lemma_feeding_link(rank, location, tick, k as int);
                    assert(before.calm_link(rank, site, link, tick));
                    before.lemma_feeding_goes_on(*board, rank, location, tick, k as int);
                }
                observed = observed.push(value);
            }
            state = state | value;
            k += 1;
        }
        proof {
            marked.lemma_evaluates_keeps(*board, site, tick);
            assert(board.has_entity(location));
        }
        let ghost fed = *board;
        board.leave_entity(location, state, tick);
        proof {
            fed.lemma_entity_set(*board, location, PinState::Available(tick), state, tick);
            start.lemma_entity_evaluated(marked, fed, *board, location, state, tick);
            fed.lemma_aggregated(*board, location, observed, state, tick);
            assert forall|rank: spec_fn(Place) -> nat| #[trigger]
                start.calm_entity(rank, location, tick) implies board.all_settled(tick) by {
                fed.lemma_feeding_ends(*board, rank, location, observed, state, tick);
            }
        }
    }
}

impl OutputFromInternalComponents {
    /// Brings an output that samples a sub-component up to date for
    /// `tick`: its hidden input is evaluated, unless that was done or is
    /// under way, and the output shows what the input holds.
    pub fn simulate(board: &mut Board, site: Site, pin: PinNumber, tick: Tick)
        requires
            old(board).ready(site, tick),
            old(board).has_entity(PinLocation { site, pin, internal: true }),
            old(board).unit(site).state == PinState::Computing(tick),
        ensures
            old(board).evaluates_to(*final(board), tick),
            final(board).has_entity(PinLocation { site, pin, internal: true }),
            final(board).entity(PinLocation { site, pin, internal: true }).input_state.entered(
                tick,
            ),
            final(board).unit(site).pin(pin).shows_sample(),
            forall|rank: spec_fn(Place) -> nat| #[trigger]
                old(board).calm_entity(rank, PinLocation { site, pin, internal: true }, tick)
                    ==> final(board).all_settled(tick) && final(board).entity(
                    PinLocation { site, pin, internal: true },
                ).input_state == PinState::Available(tick),
        decreases old(board).weight(tick), 2int,
    {
        let ghost start = *board;
        let location = PinLocation { site, pin, internal: true };
        UnidirectionalInputPin::simulate(board, location, tick);
        let ghost middle = *board;
        proof {
            start.lemma_evaluates_keeps(middle, site, tick);
        }
        board.show_sample(site, pin, tick);
        proof {
            middle.lemma_result_set(*board, site, pin, tick);
            start.lemma_evaluates_chain(middle, *board, tick);
            middle.lemma_evaluates_keeps(*board, site, tick);
            assert forall|rank: spec_fn(Place) -> nat| #[trigger]
                start.calm_entity(rank, location, tick) implies board.all_settled(tick)
                && board.entity(location).input_state == PinState::Available(tick) by {
                middle.lemma_result_set_settled(*board, site, pin, rank, tick);
            }
        }
    }
}

impl PinContainer {
    /// Evaluates for `tick` every pin of the container at `site` that
    /// receives.
    pub fn simulate_all_inputs(board: &mut Board, site: Site, tick: Tick)
        requires
            old(board).ready(site, tick),
            old(board).unit(site).state == PinState::Computing(tick),
        ensures
            old(board).evaluates_to(*final(board), tick),
            forall|pin: PinNumber|
                old(board).unit(site).has_pin(pin) && (#[trigger] final(board).unit(site).pin(
                    pin,
                )).input() is Some ==> final(board).unit(site).pin(
                    pin,
                ).input().unwrap().input_state.entered(tick),
            forall|rank: spec_fn(Place) -> nat| #[trigger]
                old(board).calm_inputs(rank, site, tick) ==> final(board).all_settled(tick)
                    && final(board).fed(site, tick),
        decreases old(board).weight(tick), 2int,
    {
        let ghost start = *board;
        let count = board.unit_ref(site).len();
        proof {
            start.lemma_evaluates_nothing(tick);
        }
        let mut index: usize = 0;
        while index < count
            invariant
                index <= count,
                count == start.unit(site).all_pins@.len(),
                start == *old(board),
                start.ready(site, tick),
                start.unit(site).state == PinState::Computing(tick),
                start.evaluates_to(*board, tick),
                forall|p: PinNumber|
                    1 <= p <= index && (#[trigger] board.unit(site).pin(p)).input() is Some
                        ==> board.unit(site).pin(p).input().unwrap().input_state.entered(tick),
                forall|rank: spec_fn(Place) -> nat| #[trigger]
                    start.calm_inputs(rank, site, tick) ==> board.calm_inputs(rank, site, tick)
                        && board.fed_up_to(site, tick, index as int),
            decreases count - index,
        {
            proof {
                start.lemma_evaluates_keeps(*board, site, tick);
            }
            let pin: PinNumber = index + 1;
            let location = PinLocation { site, pin, internal: false };
            let ghost before = *board;
            if board.contains_entity(location) {
                UnidirectionalInputPin::simulate(board, location, tick);
                proof {
                    start.lemma_evaluates_chain(before, *board, tick);
                }
            }
            proof {
                before.lemma_evaluates_nothing(tick);
                before.lemma_evaluates_keeps(*board, site, tick);
                assert forall|p: PinNumber|
                    1 <= p <= index + 1 && (#[trigger] board.unit(site).pin(p)).input() is Some
                        implies board.unit(site).pin(p).input().unwrap().input_state.entered(
                    tick,
                ) by {
                    let at = PinLocation { site, pin: p, internal: false };
                    assert(before.has_entity(at) <==> board.has_entity(at));
                    if p < pin {
                        assert(before.unit(site).pin(p).input() is Some);
                        assert(before.entity(at).input_state.advances_to(
                            board.entity(at).input_state,
                            tick,
                        ));
                    }
                }
                assert(before.has_site(Site::of(site.component)));
                assert forall|rank: spec_fn(Place) -> nat| #[trigger]
                    start.calm_inputs(rank, site, tick) implies board.calm_inputs(rank, site, tick)
                    && board.fed_up_to(site, tick, index + 1) by {
                    assert(before.calm_inputs(rank, site, tick));
                    assert(before.has_entity(location) <==> board.has_entity(location));
                    if before.has_entity(location) {
                        before.lemma_inputs_entity(rank, site, pin, tick);
                        assert(before.calm_entity(rank, location, tick));
                    }
                    before.lemma_inputs_step(*board, rank, site, index as int, tick);
                }
            }
            index += 1;
        }
        proof {
            start.lemma_evaluates_keeps(*board, site, tick);
        }
    }

    /// Brings up to date for `tick` every output of the container at `site`
    /// that samples a sub-component.
    pub fn simulate_sampled_outputs(board: &mut Board, site: Site, tick: Tick)
        requires
            old(board).ready(site, tick),
            old(board).unit(site).state == PinState::Computing(tick),
            forall|i: int|
                0 <= i < old(board).unit(site).all_pins@.len() ==> (#[trigger] old(board).unit(
                    site,
                ).all_pins@[i]).at_rest(),
        ensures
            old(board).evaluates_to(*final(board), tick),
            forall|pin: PinNumber|
                old(board).unit(site).has_pin(pin) && (#[trigger] final(board).unit(site).pin(
                    pin,
                )).entity(true) is Some ==> {
                    &&& final(board).unit(site).pin(pin).entity(true).unwrap().input_state
                        == PinState::Available(tick)
                    &&& final(board).unit(site).pin(pin).shows_sample()
                },
            forall|rank: spec_fn(Place) -> nat| #[trigger]
                old(board).calm_outputs(rank, site, tick) ==> final(board).all_settled(tick),
        decreases old(board).weight(tick), 3int,
    {
        let ghost start = *board;
        let count = board.unit_ref(site).len();
        proof {
            start.lemma_evaluates_nothing(tick);
        }
        let mut index: usize = 0;
        while index < count
            invariant
                index <= count,
                count == start.unit(site).all_pins@.len(),
                start == *old(board),
                start.ready(site, tick),
                start.unit(site).state == PinState::Computing(tick),
                start.evaluates_to(*board, tick),
                forall|i: int|
                    0 <= i < start.unit(site).all_pins@.len() ==> (#[trigger] start.unit(
                        site,
                    ).all_pins@[i]).at_rest(),
                forall|p: PinNumber|
                    1 <= p <= index && (#[trigger] board.unit(site).pin(p)).entity(true) is Some
                        ==> {
                        &&& board.unit(site).pin(p).entity(true).unwrap().input_state
                            == PinState::Available(tick)
                        &&& board.unit(site).pin(p).shows_sample()
                    },
                forall|rank: spec_fn(Place) -> nat| #[trigger]
                    start.calm_outputs(rank, site, tick) ==> board.calm_outputs(rank, site, tick),
            decreases count - index,
        {
            proof {
                start.lemma_evaluates_keeps(*board, site, tick);
            }
            let pin: PinNumber = index + 1;
            let ghost before = *board;
            if board.contains_entity(PinLocation { site, pin, internal: true }) {
                OutputFromInternalComponents::simulate(board, site, pin, tick);
                proof {
                    start.lemma_evaluates_chain(before, *board, tick);
                }
            }
            proof {
                before.lemma_evaluates_nothing(tick);
                before.lemma_evaluates_keeps(*board, site, tick);
                start.lemma_evaluates_keeps(*board, site, tick);
                assert forall|p: PinNumber|
                    1 <= p <= index + 1 && (#[trigger] board.unit(site).pin(p)).entity(true)
                        is Some implies {
                    &&& board.unit(site).pin(p).entity(true).unwrap().input_state
                        == PinState::Available(tick)
                    &&& board.unit(site).pin(p).shows_sample()
                } by {
                    let at = PinLocation { site, pin: p, internal: true };
                    assert(before.has_entity(at) <==> board.has_entity(at));
                    assert(start.has_entity(at) <==> board.has_entity(at));
                    assert(start.unit(site).all_pins@[p - 1].at_rest());
                    assert(start.entity(at).input_state.advances_to(
                        board.entity(at).input_state,
                        tick,
                    ));
                    if p < pin {
                        assert(before.unit(site).pin(p).entity(true) is Some);
                        assert(before.entity(at).input_state.advances_to(
                            board.entity(at).input_state,
                            tick,
                        ));
                        Self::lemma_still_shows(before, *board, site, p, tick);
                    }
                }
                assert(before.has_site(Site::of(site.component)));
                assert forall|rank: spec_fn(Place) -> nat| #[trigger]
                    start.calm_outputs(rank, site, tick) implies board.calm_outputs(
                    rank,
                    site,
                    tick,
                ) by {
                    assert(before.calm_outputs(rank, site, tick));
                    let location = PinLocation { site, pin, internal: true };
                    assert(before.has_entity(location) <==> board.has_entity(location));
                    if before.has_entity(location) {
                        before.lemma_outputs_entity(rank, site, pin, tick);
                        assert(before.calm_entity(rank, location, tick));
                    }
                    before.lemma_outputs_step(*board, rank, site, tick);
                }
            }
            index += 1;
        }
        proof {
            start.lemma_evaluates_keeps(*board, site, tick);
        }
    }

    /// What a pin receives. While the container is being evaluated the pin
    /// is evaluated first, unless that was done or is under way.
    pub fn compute_input(board: &mut Board, site: Site, pin: PinNumber, tick: Tick) -> (r: Result<
        Tristate,
        InputPinError,
    >)
        requires
            old(board).ready(site, tick),
        ensures
            old(board).evaluates_to(*final(board), tick),
            match r {
                Ok(value) => {
                    &&& old(board).unit(site).has_pin(pin)
                    &&& final(board).unit(site).pin(pin).input() is Some
                    &&& value == final(board).unit(site).pin(pin).input_value()
                },
                Err(InputPinError::InvalidPin(p)) => !old(board).unit(site).has_pin(pin) && p
                    == pin,
                Err(InputPinError::NotAnInput(p)) => {
                    &&& old(board).unit(site).has_pin(pin)
                    &&& final(board).unit(site).pin(pin).input() is None
                    &&& p == pin
                },
            },
            !(old(board).unit(site).state is Computing) ==> *final(board) == *old(board),
            forall|rank: spec_fn(Place) -> nat| #[trigger]
                old(board).calm_read(rank, site, tick) ==> final(board).all_settled(tick),
        decreases old(board).weight(tick), 2int,
    {
        let ghost start = *board;
        proof {
            start.lemma_evaluates_nothing(tick);
        }
        if board.unit_ref(site).check(pin).is_err() {
            return Err(InputPinError::InvalidPin(pin));
        }
        let location = PinLocation { site, pin, internal: false };
        if !board.contains_entity(location) {
            return Err(InputPinError::NotAnInput(pin));
        }
        proof {
            assert forall|rank: spec_fn(Place) -> nat| #[trigger]
                start.calm_read(rank, site, tick) implies start.entity(location).input_state
                == PinState::Available(tick) by {
                assert(start.unit(site).pin(pin).input() is Some);
            }
        }
        if let PinState::Computing(current_tick) = board.unit_state(site) {
            proof {
                assert(board.unit(site).within(tick));
            }
            UnidirectionalInputPin::simulate(board, location, current_tick);
            proof {
                start.lemma_evaluates_keeps(*board, site, tick);
            }
        }
        Ok(board.unit_ref(site).read_input(pin))
    }

    /// What a pin drives. While the container is being evaluated, an
    /// output that samples a sub-component is brought up to date first.
    pub fn compute_for_external(board: &mut Board, site: Site, pin: PinNumber, tick: Tick) -> (r:
        Result<Tristate, InvalidPin>)
        requires
            old(board).ready(site, tick),
        ensures
            old(board).evaluates_to(*final(board), tick),
            match r {
                Ok(value) => {
                    &&& old(board).unit(site).has_pin(pin)
                    &&& value == final(board).unit(site).pin(pin).external_value()
                },
                Err(e) => !old(board).unit(site).has_pin(pin) && e == InvalidPin(pin),
            },
            !(old(board).unit(site).state is Computing) ==> *final(board) == *old(board),
        decreases old(board).weight(tick), 3int,
    {
        let ghost start = *board;
        proof {
            start.lemma_evaluates_nothing(tick);
        }
        if board.unit_ref(site).check(pin).is_err() {
            return Err(InvalidPin(pin));
        }
        if let PinState::Computing(current_tick) = board.unit_state(site) {
            proof {
                assert(board.unit(site).within(tick));
            }
            if board.contains_entity(PinLocation { site, pin, internal: true }) {
                OutputFromInternalComponents::simulate(board, site, pin, current_tick);
                proof {
                    start.lemma_evaluates_keeps(*board, site, tick);
                }
            }
        }
        Ok(board.unit_ref(site).read_output(pin))
    }

    /// Evaluates the component or sub-component at `site` for `tick`,
    /// unless that was done or is under way: first the pins that receive,
    /// then the outputs that sample a sub-component, then the body of the
    /// component. The tick must be the one of any evaluation that is
    /// under way.
    pub fn simulate(board: &mut Board, site: Site, tick: Tick)
        requires
            old(board).ready(site, tick),
        ensures
            old(board).simulated(*final(board), site, tick),
            forall|rank: spec_fn(Place) -> nat| #[trigger]
                old(board).calm_unit(rank, site, tick) ==> final(board).all_settled(tick)
                    && final(board).unit(site).state == PinState::Available(tick),
        decreases old(board).weight(tick), 3int,
    {
        let ghost start = *board;
        proof {
            start.lemma_evaluates_nothing(tick);
        }
        if board.unit_state(site).is_entered(tick) {
            proof {
                assert(start.unit(site).within(tick));
                assert forall|rank: spec_fn(Place) -> nat| #[trigger]
                    start.calm_unit(rank, site, tick) implies start.unit(site).state
                    == PinState::Available(tick) by {
                    assert(!start.computing(Place::Unit(site)));
                }
            }
            return ;
        }
        proof {
            assert(start.unit(site).within(tick));
        }
        board.enter_unit(site, tick);
        let ghost marked = *board;
        proof {
            start.lemma_unit_changed(marked, site, tick);
            assert(start.has_site(Site::of(site.component)));
            assert(marked.ready(site, tick));
            assert forall|rank: spec_fn(Place) -> nat| #[trigger]
                start.calm_unit(rank, site, tick) implies marked.calm_body(rank, site, tick)
                && marked.calm_inputs(rank, site, tick) by {
                start.lemma_body_starts(marked, rank, site, tick);
            }
        }
        Self::simulate_all_inputs(board, site, tick);
        let ghost received = *board;
        proof {
            marked.lemma_evaluates_keeps(received, site, tick);
            Self::lemma_rest_kept(marked, received, site, tick);
            assert(marked.has_site(Site::of(site.component)));
            assert forall|rank: spec_fn(Place) -> nat| #[trigger]
                start.calm_unit(rank, site, tick) implies received.calm_outputs(rank, site, tick) by {
                assert(marked.calm_inputs(rank, site, tick));
                marked.lemma_body_fed(received, rank, site, tick);
            }
        }
        Self::simulate_sampled_outputs(board, site, tick);
        let ghost fed = *board;
        proof {
            received.lemma_evaluates_keeps(fed, site, tick);
            marked.lemma_evaluates_chain(received, fed, tick);
            Self::lemma_settled(start, marked, received, fed, site, tick);
        }
        board.drive(site, tick);
        let ghost driven = *board;
        proof {
            fed.lemma_driven(driven, site, tick);
            fed.unit(site).lemma_rewritten(driven.unit(site), tick);
        }
        board.leave_unit(site, tick);
        proof {
            start.lemma_unit_evaluated(marked, fed, driven, *board, site, tick);
            assert forall|rank: spec_fn(Place) -> nat| #[trigger]
                start.calm_unit(rank, site, tick) implies board.all_settled(tick) by {
                assert(received.calm_outputs(rank, site, tick));
                received.lemma_body_ends(fed, driven, *board, rank, site, tick);
            }
        }
    }

    /// An output that showed what it sampled for `tick`, while its
    /// container was being evaluated, shows it still.
    pub proof fn lemma_still_shows(
        before: Board,
        after: Board,
        site: Site,
        pin: PinNumber,
        tick: Tick,
    )
        requires
            before.ready(site, tick),
            before.advances_to(after, tick),
            before.unit(site).has_pin(pin),
            before.unit(site).pin(pin).entity(true) is Some,
            before.unit(site).pin(pin).entity(true).unwrap().input_state == PinState::Available(
                tick,
            ),
            before.unit(site).pin(pin).shows_sample(),
        ensures
            after.unit(site).pin(pin).shows_sample(),
    {
        assert(before.unit(site).all_pins@[pin - 1].advances_to(
            after.unit(site).all_pins@[pin - 1],
            tick,
        ));
    }

    /// Pins on which nothing is being evaluated stay so while the board
    /// advances.
    pub proof fn lemma_rest_kept(before: Board, after: Board, site: Site, tick: Tick)
        requires
            before.has_site(site),
            before.advances_to(after, tick),
            forall|i: int|
                0 <= i < before.unit(site).all_pins@.len() ==> (#[trigger] before.unit(
                    site,
                ).all_pins@[i]).at_rest(),
        ensures
            forall|i: int|
                0 <= i < after.unit(site).all_pins@.len() ==> (#[trigger] after.unit(
                    site,
                ).all_pins@[i]).at_rest(),
    {
        assert(before.unit(site).advances_to(after.unit(site), tick));
        assert forall|i: int| 0 <= i < after.unit(site).all_pins@.len() implies (
        #[trigger] after.unit(site).all_pins@[i]).at_rest() by {
            assert(before.unit(site).all_pins@[i].at_rest());
            assert(before.unit(site).all_pins@[i].advances_to(
                after.unit(site).all_pins@[i],
                tick,
            ));
        }
    }

    /// Once the pins that receive and the outputs that sample were
    /// evaluated, every pin of the container is settled and shows what it
    /// sampled.
    pub proof fn lemma_settled(
        start: Board,
        marked: Board,
        received: Board,
        fed: Board,
        site: Site,
        tick: Tick,
    )
        requires
            start.ready(site, tick),
            !start.unit(site).state.entered(tick),
            start.state_set(marked, site, PinState::Computing(tick)),
            marked.ready(site, tick),
            marked.advances_to(received, tick),
            received.ready(site, tick),
            received.advances_to(fed, tick),
            forall|pin: PinNumber|
                marked.unit(site).has_pin(pin) && (#[trigger] received.unit(site).pin(
                    pin,
                )).input() is Some ==> received.unit(site).pin(
                    pin,
                ).input().unwrap().input_state.entered(tick),
            forall|pin: PinNumber|
                received.unit(site).has_pin(pin) && (#[trigger] fed.unit(site).pin(pin)).entity(
                    true,
                ) is Some ==> {
                    &&& fed.unit(site).pin(pin).entity(true).unwrap().input_state
                        == PinState::Available(tick)
                    &&& fed.unit(site).pin(pin).shows_sample()
                },
        ensures
            forall|i: int|
                0 <= i < fed.unit(site).all_pins@.len() ==> {
                    &&& (#[trigger] fed.unit(site).all_pins@[i]).settled(tick)
                    &&& fed.unit(site).all_pins@[i].shows_sample()
                },
    {
        let a = start.unit(site);
        let b = marked.unit(site);
        let c = received.unit(site);
        let d = fed.unit(site);
        assert(a.within(tick));
        assert(b.advances_to(c, tick));
        assert(c.advances_to(d, tick));
        assert(d.all_pins.len() == d.all_pins@.len());
        assert forall|i: int| 0 <= i < d.all_pins@.len() implies {
            &&& (#[trigger] d.all_pins@[i]).settled(tick)
            &&& d.all_pins@[i].shows_sample()
        } by {
            let p = (i + 1) as usize;
            assert(a.all_pins@[i].at_rest());
            assert(b.all_pins@[i] == a.all_pins@[i]);
            assert(b.all_pins@[i].advances_to(c.all_pins@[i], tick));
            assert(c.all_pins@[i].advances_to(d.all_pins@[i], tick));
            assert(c.pin(p) == c.all_pins@[i]);
            assert(d.pin(p) == d.all_pins@[i]);
        }
    }

    /// Evaluates for `tick` a component that writes none of its outputs
    /// itself.
    pub fn simulate_no_manual_outputs(board: &mut Board, site: Site, tick: Tick)
        requires
            old(board).ready(site, tick),
        ensures
            old(board).simulated(*final(board), site, tick),
            forall|rank: spec_fn(Place) -> nat| #[trigger]
                old(board).calm_unit(rank, site, tick) ==> final(board).all_settled(tick)
                    && final(board).unit(site).state == PinState::Available(tick),
    {
        Self::simulate(board, site, tick)
    }
}

impl Board {
    /// Evaluates every component for `tick`, each once, on a board at
    /// rest. Afterwards every component was evaluated for `tick`, and
    /// each one that had not been before shows the result that its kind
    /// defines from what it held and what its pins received. On a layered
    /// board every pin that receives has then received the disjunction of
    /// what its peers drive.
    pub fn simulate_all(&mut self, tick: Tick)
        requires
            old(self).well_formed(),
            old(self).at_rest(),
            old(self).within(tick),
        ensures
            old(self).evaluates_to(*final(self), tick),
            final(self).at_rest(),
            forall|c: int|
                0 <= c < final(self).chipsets@.len() ==> {
                    &&& (#[trigger] final(self).chipsets@[c]).pins().state == PinState::Available(
                        tick,
                    )
                    &&& !old(self).chipsets@[c].pins().state.entered(tick) ==> old(
                        self,
                    ).chipsets@[c].evaluated(None, final(self).chipsets@[c])
                },
            forall|rank: spec_fn(Place) -> nat|
                #[trigger] old(self).layered_by(rank) && old(self).all_settled(tick)
                    ==> final(self).all_settled(tick),
    {
        let ghost start = *self;
        proof {
            start.lemma_evaluates_nothing(tick);
        }
        let count = self.len();
        let mut c: usize = 0;
        while c < count
            invariant
                c <= count,
                count == start.chipsets@.len(),
                start.well_formed(),
                start.within(tick),
                start.at_rest(),
                start.evaluates_to(*self, tick),
                forall|d: int|
                    0 <= d < c ==> (#[trigger] self.chipsets@[d]).pins().state
                        == PinState::Available(tick),
                forall|rank: spec_fn(Place) -> nat|
                    #[trigger] start.layered_by(rank) && start.all_settled(tick)
                        ==> self.layered_by(rank) && self.all_settled(tick),
            decreases count - c,
        {
            let site = Site { component: c, inner: None };
            let ghost middle = *self;
            proof {
                start.lemma_advances_wiring(middle, tick);
                assert(start.has_site(site));
            }
            PinContainer::simulate(self, site, tick);
            proof {
                start.lemma_evaluates_chain(middle, *self, tick);
                start.lemma_advances_rest(middle, tick, tick);
                assert(middle.unit(site).at_rest());
                assert forall|rank: spec_fn(Place) -> nat|
                    #[trigger] start.layered_by(rank) && start.all_settled(tick)
                        implies self.layered_by(rank) && self.all_settled(tick) by {
                    middle.lemma_rest_quiet(rank, rank(Place::Unit(site)) + 1);
                    assert(middle.calm_unit(rank, site, tick));
                    middle.lemma_calm_advances(*self, rank, 0, site, tick);
                }
                assert forall|d: int| 0 <= d < c + 1 implies (#[trigger] self.chipsets@[d]).pins().state
                    == PinState::Available(tick) by {
                    let at = Site { component: d as usize, inner: None };
                    assert(middle.has_site(at));
                    assert(middle.unit(at).advances_to(self.unit(at), tick));
                    if d == c {
                        assert(at == site);
                    }
                }
            }
            c += 1;
        }
        proof {
            start.lemma_advances_rest(*self, tick, tick);
            assert forall|d: int|
                0 <= d < self.chipsets@.len() && !start.chipsets@[d].pins().state.entered(
                    tick,
                ) implies start.chipsets@[d].evaluated(None, #[trigger] self.chipsets@[d]) by {
                let at = Site { component: d as usize, inner: None };
                assert(start.has_site(at));
            }
        }
    }
}

} // verus!
