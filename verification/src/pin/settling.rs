//! Circuits without feedback settle within a tick.
//!
//! Where the links of a board can be ranked, so that every aggregating
//! place reads only what ranks below it, the walk of a tick never reads a
//! place whose evaluation is still under way. Every aggregating place that
//! was evaluated for the tick then holds the disjunction of what its peers
//! drive, and with what each kind of component makes of what it receives
//! this fixes the state of the board after the tick.

use vstd::prelude::*;

use crate::circuit::board::{Board, PinLocation, Site};
use crate::components::tristate::Tristate;
use crate::components::{ComponentHandle, PinNumber, Tick};
use crate::pin::container::PinContainer;
use crate::pin::pin::{Pin, PinLink, PinState};
use crate::pin::simulation::or_all;

verus! {

/// Something that is evaluated once in a tick: the pins of a component or
/// sub-component as a whole, or one aggregating place.
pub enum Place {
    Unit(Site),
    Entity(PinLocation),
}

impl Board {
    /// What a link held at `holder` reads: the component at its far end or,
    /// through the proxy of a composite, the receiving side of the pin at
    /// its far end.
    pub open spec fn source(holder: Site, link: PinLink) -> Place {
        match link.component {
            ComponentHandle::Proxy(_) => Place::Entity(
                PinLocation { site: holder.follow(link.component), pin: link.pin, internal: false },
            ),
            _ => Place::Unit(holder.follow(link.component)),
        }
    }

    /// Whether the evaluation of a place is under way.
    pub open spec fn computing(self, place: Place) -> bool {
        match place {
            Place::Unit(site) => self.has_site(site) && self.unit(site).state is Computing,
            Place::Entity(location) => self.has_entity(location) && self.entity(
                location,
            ).input_state is Computing,
        }
    }

    /// The link `link` of the place at `location` reads what ranks below
    /// the place. A link through the proxy of a composite is held by a
    /// sub-component, and a link to a sub-component by a sub-component or
    /// by an output that samples.
    pub open spec fn reads_below(
        rank: spec_fn(Place) -> nat,
        location: PinLocation,
        link: PinLink,
    ) -> bool {
        &&& rank(Self::source(location.site, link)) < rank(Place::Entity(location))
        &&& link.component is Proxy ==> location.site.inner is Some
        &&& link.component is Inner ==> location.site.inner is Some || location.internal
    }

    /// The board is layered by `rank`: every aggregating place ranks below
    /// the pins that it belongs to, and reads only what ranks below itself.
    /// No chain of links then leads from a place back to itself.
    pub open spec fn layered_by(self, rank: spec_fn(Place) -> nat) -> bool {
        &&& forall|location: PinLocation| #[trigger]
            self.has_entity(location) ==> rank(Place::Entity(location)) < rank(
                Place::Unit(location.site),
            )
        &&& forall|location: PinLocation, k: int|
            self.has_entity(location) && 0 <= k < self.entity(location).links@.len()
                ==> Self::reads_below(rank, location, #[trigger] self.entity(location).links@[k])
    }

    /// Nothing that ranks below `bound` is being evaluated.
    pub open spec fn quiet(self, rank: spec_fn(Place) -> nat, bound: nat) -> bool {
        forall|place: Place| rank(place) < bound ==> !#[trigger] self.computing(place)
    }

    /// Every pin of the container at `site` that receives was evaluated
    /// for `tick`.
    pub open spec fn fed(self, site: Site, tick: Tick) -> bool {
        forall|pin: PinNumber|
            self.unit(site).has_pin(pin) && (#[trigger] self.unit(site).pin(pin)).input() is Some
                ==> self.unit(site).pin(pin).input().unwrap().input_state == PinState::Available(
                tick,
            )
    }

    /// The aggregating place at `location` was evaluated for `tick`, the
    /// evaluation of everything that it reads is over, and it holds the
    /// disjunction of what it reads.
    pub open spec fn settled(self, location: PinLocation, tick: Tick) -> bool {
        &&& forall|k: int|
            0 <= k < self.entity(location).links@.len() ==> self.peer_done(
                location.site,
                #[trigger] self.entity(location).links@[k],
                tick,
            )
        &&& self.entity(location).input_value == or_all(self.readings(location))
    }

    /// A place that has settled and has one link holds what the link
    /// reads: a wire carries a level unchanged.
    pub proof fn settled_wire(self, location: PinLocation, tick: Tick)
        requires
            self.settled(location, tick),
            self.entity(location).links@.len() == 1,
        ensures
            self.entity(location).input_value == self.entity(location).links@[0].reading(
                self,
                location.site,
            ),
    {
        let readings = self.readings(location);
        assert(readings.drop_last() =~= Seq::<Tristate>::empty());
        assert(or_all(readings) == or_all(readings.drop_last()).or(readings.last()));
    }

    /// A place that has settled and has no link holds the low level.
    pub proof fn settled_without_links(self, location: PinLocation, tick: Tick)
        requires
            self.settled(location, tick),
            self.entity(location).links@.len() == 0,
        ensures
            self.entity(location).input_value == Tristate::State(false),
    {
    }

    /// Every aggregating place that was evaluated for `tick` has settled.
    pub open spec fn all_settled(self, tick: Tick) -> bool {
        forall|location: PinLocation|
            self.has_entity(location) && (#[trigger] self.entity(location)).input_state
                == PinState::Available(tick) ==> self.settled(location, tick)
    }

    /// The pins that a composite shows, when `site` is one of its
    /// sub-components or an output of it that samples one.
    pub open spec fn feeder(location: PinLocation) -> Option<Site> {
        if location.site.inner is Some || location.internal {
            Some(Site::of(location.site.component))
        } else {
            None
        }
    }

    /// The board is layered, what was evaluated has settled, and nothing
    /// that the component or sub-component at `site` may read is being
    /// evaluated, nor is it itself.
    pub open spec fn calm_unit(self, rank: spec_fn(Place) -> nat, site: Site, tick: Tick) -> bool {
        &&& self.layered_by(rank)
        &&& self.all_settled(tick)
        &&& self.quiet(rank, rank(Place::Unit(site)) + 1)
        &&& site.inner is Some ==> self.fed(Site::of(site.component), tick)
    }

    /// The board is layered, what was evaluated has settled, and the place
    /// at `location` was evaluated or else nothing that it may read is
    /// being evaluated, nor is it itself.
    pub open spec fn calm_entity(
        self,
        rank: spec_fn(Place) -> nat,
        location: PinLocation,
        tick: Tick,
    ) -> bool {
        &&& self.layered_by(rank)
        &&& self.all_settled(tick)
        &&& self.entity(location).input_state == PinState::Available(tick) || self.quiet(
            rank,
            rank(Place::Entity(location)) + 1,
        )
        &&& Self::feeder(location) matches Some(surface) ==> self.fed(surface, tick)
    }

    /// The board is layered, what was evaluated has settled, and the pins
    /// of the container at `site` that receive were evaluated or else
    /// nothing that they may read is being evaluated.
    pub open spec fn calm_inputs(self, rank: spec_fn(Place) -> nat, site: Site, tick: Tick) -> bool {
        &&& self.layered_by(rank)
        &&& self.all_settled(tick)
        &&& self.fed(site, tick) || self.quiet(rank, rank(Place::Unit(site)))
        &&& site.inner is Some ==> self.fed(Site::of(site.component), tick)
    }

    /// The board is layered, what was evaluated has settled, the pins that
    /// the component shows and that receive were evaluated, and nothing
    /// that the outputs of the container at `site` may sample is being
    /// evaluated.
    pub open spec fn calm_outputs(self, rank: spec_fn(Place) -> nat, site: Site, tick: Tick) -> bool {
        &&& self.layered_by(rank)
        &&& self.all_settled(tick)
        &&& self.quiet(rank, rank(Place::Unit(site)))
        &&& self.fed(Site::of(site.component), tick)
    }

    /// The board is layered, what was evaluated has settled, and the pins
    /// of the container at `site` that receive were evaluated.
    pub open spec fn calm_read(self, rank: spec_fn(Place) -> nat, site: Site, tick: Tick) -> bool {
        &&& self.layered_by(rank)
        &&& self.all_settled(tick)
        &&& self.fed(site, tick)
    }

    /// The board is layered, what was evaluated has settled, and neither
    /// what the link reads nor anything that this may read is being
    /// evaluated.
    pub open spec fn calm_link(
        self,
        rank: spec_fn(Place) -> nat,
        holder: Site,
        link: PinLink,
        tick: Tick,
    ) -> bool {
        &&& self.layered_by(rank)
        &&& self.all_settled(tick)
        &&& self.quiet(rank, rank(Self::source(holder, link)) + 1)
        &&& !(link.component is Peer) ==> self.fed(Site::of(holder.component), tick)
    }
}

impl Board {
    /// What is over for a link on this board is over on `next`, and the
    /// link reads the same level there.
    pub open spec fn reads_same(self, next: Board, holder: Site, link: PinLink, tick: Tick) -> bool {
        self.peer_done(holder, link, tick) ==> next.peer_done(holder, link, tick) && link.reading(
            next,
            holder,
        ) == link.reading(self, holder)
    }

    /// A place that has settled stays settled while it stays as it is and
    /// each of its links reads the same.
    pub proof fn lemma_settled_kept(self, next: Board, location: PinLocation, tick: Tick)
        requires
            self.settled(location, tick),
            next.entity(location).links@ == self.entity(location).links@,
            next.entity(location).input_value == self.entity(location).input_value,
            forall|k: int|
                0 <= k < self.entity(location).links@.len() ==> self.reads_same(
                    next,
                    location.site,
                    #[trigger] self.entity(location).links@[k],
                    tick,
                ),
        ensures
            next.settled(location, tick),
    {
        let links = self.entity(location).links@;
        assert forall|k: int| 0 <= k < links.len() implies next.peer_done(
            location.site,
            #[trigger] next.entity(location).links@[k],
            tick,
        ) && next.readings(location)[k] == self.readings(location)[k] by {
            assert(self.peer_done(location.site, self.entity(location).links@[k], tick));
            assert(self.reads_same(next, location.site, self.entity(location).links@[k], tick));
        }
        assert(next.readings(location) =~= self.readings(location));
    }

    /// While the board advances, it stays layered, what is quiet stays
    /// quiet, and what was fed stays fed.
    pub proof fn lemma_calm_advances(
        self,
        next: Board,
        rank: spec_fn(Place) -> nat,
        bound: nat,
        site: Site,
        tick: Tick,
    )
        requires
            self.advances_to(next, tick),
        ensures
            self.layered_by(rank) ==> next.layered_by(rank),
            self.quiet(rank, bound) ==> next.quiet(rank, bound),
            self.has_site(site) && self.fed(site, tick) ==> next.fed(site, tick),
    {
        self.lemma_advances_wiring(next, tick);
        if self.layered_by(rank) {
            assert forall|location: PinLocation| #[trigger]
                next.has_entity(location) implies rank(Place::Entity(location)) < rank(
                Place::Unit(location.site),
            ) by {
                assert(self.has_entity(location));
            }
            assert forall|location: PinLocation, k: int|
                next.has_entity(location) && 0 <= k < next.entity(location).links@.len()
                    implies Self::reads_below(rank, location, #[trigger] next.entity(location).links@[k]) by {
                assert(self.has_entity(location));
                assert(Self::reads_below(rank, location, self.entity(location).links@[k]));
            }
        }
        if self.quiet(rank, bound) {
            assert forall|place: Place| rank(place) < bound implies !#[trigger] next.computing(
                place,
            ) by {
                assert(!self.computing(place));
                match place {
                    Place::Unit(at) => {
                        if next.has_site(at) {
                            assert(self.has_site(at));
                            assert(self.unit(at).advances_to(next.unit(at), tick));
                        }
                    },
                    Place::Entity(location) => {
                        if next.has_entity(location) {
                            assert(self.has_entity(location));
                            assert(self.has_site(location.site));
                            assert(self.unit(location.site).all_pins@[location.pin - 1].advances_to(
                                next.unit(location.site).all_pins@[location.pin - 1],
                                tick,
                            ));
                        }
                    },
                }
            }
        }
        if self.has_site(site) && self.fed(site, tick) {
            assert(self.unit(site).advances_to(next.unit(site), tick));
            assert forall|pin: PinNumber|
                next.unit(site).has_pin(pin) && (#[trigger] next.unit(site).pin(pin)).input()
                    is Some implies next.unit(site).pin(pin).input().unwrap().input_state
                == PinState::Available(tick) by {
                assert(self.unit(site).all_pins@[pin - 1].advances_to(
                    next.unit(site).all_pins@[pin - 1],
                    tick,
                ));
                assert(self.unit(site).pin(pin).input() is Some);
            }
        }
    }

    /// Setting the state of the pins at a site whose evaluation was not
    /// over leaves what has settled settled.
    pub proof fn lemma_state_set_settled(
        self,
        next: Board,
        site: Site,
        state: PinState,
        rank: spec_fn(Place) -> nat,
        tick: Tick,
    )
        requires
            self.has_site(site),
            self.links_ok(),
            self.state_set(next, site, state),
            self.unit(site).state != PinState::Available(tick),
        ensures
            self.all_settled(tick) ==> next.all_settled(tick),
            self.layered_by(rank) ==> next.layered_by(rank),
            forall|other: Site| self.has_site(other) && self.fed(other, tick) ==> next.fed(other, tick),
            forall|place: Place|
                place != Place::Unit(site) && #[trigger] next.computing(place) ==> self.computing(
                    place,
                ),
    {
        self.lemma_unit_changed(next, site, tick);
        assert forall|location: PinLocation| #[trigger]
            self.has_entity(location) <==> next.has_entity(location) by {
            if self.has_site(location.site) && location.site != site {
                assert(next.unit(location.site) == self.unit(location.site));
            }
        }
        assert forall|location: PinLocation| #[trigger]
            self.has_entity(location) implies next.entity(location) == self.entity(location) by {
            if location.site != site {
                assert(next.unit(location.site) == self.unit(location.site));
            }
        }
        if self.all_settled(tick) {
            assert forall|location: PinLocation|
                next.has_entity(location) && (#[trigger] next.entity(location)).input_state
                    == PinState::Available(tick) implies next.settled(location, tick) by {
                assert(self.has_entity(location));
                assert(self.entity(location).input_state == PinState::Available(tick));
                assert(self.settled(location, tick));
                assert forall|k: int|
                    0 <= k < self.entity(location).links@.len() implies self.reads_same(
                    next,
                    location.site,
                    #[trigger] self.entity(location).links@[k],
                    tick,
                ) by {
                    let link = self.entity(location).links@[k];
                    assert(self.link_ok(location.site, link));
                    let target = location.site.follow(link.component);
                    if target != site {
                        assert(self.has_site(target));
                        assert(next.unit(target) == self.unit(target));
                    }
                }
                self.lemma_settled_kept(next, location, tick);
            }
        }
        if self.layered_by(rank) {
            assert forall|location: PinLocation, k: int|
                next.has_entity(location) && 0 <= k < next.entity(location).links@.len()
                    implies Self::reads_below(rank, location, #[trigger] next.entity(location).links@[k]) by {
                assert(self.has_entity(location));
                assert(Self::reads_below(rank, location, self.entity(location).links@[k]));
            }
            assert forall|location: PinLocation| #[trigger]
                next.has_entity(location) implies rank(Place::Entity(location)) < rank(
                Place::Unit(location.site),
            ) by {
                assert(self.has_entity(location));
            }
        }
        assert forall|other: Site| self.has_site(other) && self.fed(other, tick) implies next.fed(
            other,
            tick,
        ) by {
            if other != site {
                assert(next.unit(other) == self.unit(other));
            }
            assert forall|pin: PinNumber|
                next.unit(other).has_pin(pin) && (#[trigger] next.unit(other).pin(pin)).input()
                    is Some implies next.unit(other).pin(pin).input().unwrap().input_state
                == PinState::Available(tick) by {
                assert(next.unit(other).pin(pin) == self.unit(other).pin(pin));
            }
        }
        assert forall|place: Place|
            place != Place::Unit(site) && #[trigger] next.computing(place) implies self.computing(
            place,
        ) by {
            match place {
                Place::Unit(at) => {
                    assert(self.has_site(at));
                    assert(next.unit(at) == self.unit(at));
                },
                Place::Entity(location) => {
                    assert(self.has_entity(location));
                },
            }
        }
    }
}

impl Board {
    /// Where every place of `next` is a place of this board with the same
    /// links, a layering of this board is a layering of `next`.
    pub proof fn lemma_layered_kept(self, next: Board, rank: spec_fn(Place) -> nat)
        requires
            self.layered_by(rank),
            forall|location: PinLocation| #[trigger]
                next.has_entity(location) ==> self.has_entity(location) && next.entity(
                    location,
                ).links@ == self.entity(location).links@,
        ensures
            next.layered_by(rank),
    {
        assert forall|location: PinLocation, k: int|
            next.has_entity(location) && 0 <= k < next.entity(location).links@.len()
                implies Self::reads_below(rank, location, #[trigger] next.entity(location).links@[k]) by {
            assert(self.has_entity(location));
            assert(Self::reads_below(rank, location, self.entity(location).links@[k]));
        }
        assert forall|location: PinLocation| #[trigger]
            next.has_entity(location) implies rank(Place::Entity(location)) < rank(
            Place::Unit(location.site),
        ) by {
            assert(self.has_entity(location));
        }
    }

    /// Setting the state and the value of an aggregating place whose
    /// evaluation was not over leaves what has settled settled; and the
    /// place itself has settled if it is set to the disjunction of what it
    /// reads, once the evaluation of all that is over.
    pub proof fn lemma_entity_set_settled(
        self,
        next: Board,
        location: PinLocation,
        state: PinState,
        value: Tristate,
        rank: spec_fn(Place) -> nat,
        tick: Tick,
    )
        requires
            self.within(tick),
            self.has_entity(location),
            self.links_ok(),
            self.unit(location.site).state == PinState::Computing(tick),
            self.entity_set(next, location, state, value),
            self.entity(location).input_state != PinState::Available(tick),
            state == PinState::Computing(tick) || state == PinState::Available(tick),
            state == PinState::Available(tick) ==> value == or_all(self.readings(location))
                && forall|k: int|
                0 <= k < self.entity(location).links@.len() ==> self.peer_done(
                    location.site,
                    #[trigger] self.entity(location).links@[k],
                    tick,
                ),
        ensures
            self.all_settled(tick) ==> next.all_settled(tick),
            self.layered_by(rank) ==> next.layered_by(rank),
            forall|other: Site| self.has_site(other) && self.fed(other, tick) ==> next.fed(other, tick),
            forall|place: Place|
                place != Place::Entity(location) && #[trigger] next.computing(place)
                    ==> self.computing(place),
    {
        let site = location.site;
        let a = self.unit(site);
        let b = next.unit(site);
        self.lemma_entity_set(next, location, state, value, tick);
        self.lemma_unit_changed(next, site, tick);
        assert forall|other: PinLocation| #[trigger] next.has_entity(other) implies self.has_entity(
            other,
        ) && next.entity(other).links@ == self.entity(other).links@ && (other != location
            ==> next.entity(other) == self.entity(other)) by {
            assert(self.has_site(other.site));
            if other.site != site {
                assert(next.unit(other.site) == self.unit(other.site));
            } else if other.pin != location.pin {
                assert(b.all_pins@[other.pin - 1] == a.all_pins@[other.pin - 1]);
            }
        }
        assert forall|holder: Site, link: PinLink|
            self.has_site(holder) && self.link_ok(holder, link) implies #[trigger] self.reads_same(
            next,
            holder,
            link,
            tick,
        ) by {
            let target = holder.follow(link.component);
            assert(self.has_site(target));
            if target != site {
                assert(next.unit(target) == self.unit(target));
            } else if link.pin != location.pin {
                assert(b.all_pins@[link.pin - 1] == a.all_pins@[link.pin - 1]);
            } else {
                assert(b.pin(link.pin).external_value() == a.pin(link.pin).external_value());
            }
        }
        if self.all_settled(tick) {
            assert forall|other: PinLocation|
                next.has_entity(other) && (#[trigger] next.entity(other)).input_state
                    == PinState::Available(tick) implies next.settled(other, tick) by {
                assert(self.has_entity(other));
                assert(self.has_site(other.site));
                assert forall|k: int|
                    0 <= k < self.entity(other).links@.len() implies self.reads_same(
                    next,
                    other.site,
                    #[trigger] self.entity(other).links@[k],
                    tick,
                ) by {
                    assert(self.link_ok(other.site, self.entity(other).links@[k]));
                }
                if other != location {
                    assert(self.settled(other, tick));
                    self.lemma_settled_kept(next, other, tick);
                } else {
                    let links = self.entity(location).links@;
                    assert forall|k: int| 0 <= k < links.len() implies next.peer_done(
                        site,
                        #[trigger] next.entity(location).links@[k],
                        tick,
                    ) && next.readings(location)[k] == self.readings(location)[k] by {
                        assert(self.peer_done(site, self.entity(location).links@[k], tick));
                        assert(self.reads_same(next, site, self.entity(location).links@[k], tick));
                    }
                    assert(next.readings(location) =~= self.readings(location));
                    assert(next.entity(location).input_value == value);
                    assert(state == PinState::Available(tick));
                }
            }
        }
        if self.layered_by(rank) {
            self.lemma_layered_kept(next, rank);
        }
        assert forall|other: Site| self.has_site(other) && self.fed(other, tick) implies next.fed(
            other,
            tick,
        ) by {
            if other != site {
                assert(next.unit(other) == self.unit(other));
            }
            assert forall|pin: PinNumber|
                next.unit(other).has_pin(pin) && (#[trigger] next.unit(other).pin(pin)).input()
                    is Some implies next.unit(other).pin(pin).input().unwrap().input_state
                == PinState::Available(tick) by {
                if other == site && pin != location.pin {
                    assert(b.all_pins@[pin - 1] == a.all_pins@[pin - 1]);
                }
                assert(self.unit(other).pin(pin).input() is Some);
            }
        }
        assert forall|place: Place|
            place != Place::Entity(location) && #[trigger] next.computing(place)
                implies self.computing(place) by {
            match place {
                Place::Unit(at) => {
                    assert(self.has_site(at));
                    if at != site {
                        assert(next.unit(at) == self.unit(at));
                    }
                },
                Place::Entity(other) => {
                    assert(self.has_entity(other));
                },
            }
        }
    }

    /// Making an output show what it sampled, while its container is
    /// being evaluated, leaves what has settled settled.
    pub proof fn lemma_result_set_settled(
        self,
        next: Board,
        site: Site,
        pin: PinNumber,
        rank: spec_fn(Place) -> nat,
        tick: Tick,
    )
        requires
            self.within(tick),
            self.links_ok(),
            self.has_entity(PinLocation { site, pin, internal: true }),
            self.unit(site).state == PinState::Computing(tick),
            self.result_set(next, site, pin),
        ensures
            self.all_settled(tick) ==> next.all_settled(tick),
            self.layered_by(rank) ==> next.layered_by(rank),
            forall|other: Site| self.has_site(other) && self.fed(other, tick) ==> next.fed(other, tick),
            forall|place: Place| #[trigger] next.computing(place) ==> self.computing(place),
    {
        let a = self.unit(site);
        let b = next.unit(site);
        self.lemma_result_set(next, site, pin, tick);
        self.lemma_unit_changed(next, site, tick);
        self.lemma_advances_wiring(next, tick);
        assert forall|other: PinLocation| #[trigger] next.has_entity(other) implies self.has_entity(
            other,
        ) && next.entity(other) == self.entity(other) by {
            assert(self.has_entity(other) <==> next.has_entity(other));
            assert(self.has_site(other.site));
            if other.site != site {
                assert(next.unit(other.site) == self.unit(other.site));
            } else if other.pin != pin {
                assert(b.all_pins@[other.pin - 1] == a.all_pins@[other.pin - 1]);
            }
        }
        if self.all_settled(tick) {
            assert forall|other: PinLocation|
                next.has_entity(other) && (#[trigger] next.entity(other)).input_state
                    == PinState::Available(tick) implies next.settled(other, tick) by {
                assert(self.has_entity(other));
                assert(self.settled(other, tick));
                assert forall|k: int|
                    0 <= k < self.entity(other).links@.len() implies self.reads_same(
                    next,
                    other.site,
                    #[trigger] self.entity(other).links@[k],
                    tick,
                ) by {
                    let link = self.entity(other).links@[k];
                    assert(self.link_ok(other.site, link));
                    let target = other.site.follow(link.component);
                    assert(self.has_site(target));
                    if target != site {
                        assert(next.unit(target) == self.unit(target));
                    } else if link.pin != pin {
                        assert(b.all_pins@[link.pin - 1] == a.all_pins@[link.pin - 1]);
                    }
                }
                self.lemma_settled_kept(next, other, tick);
            }
        }
        if self.layered_by(rank) {
            self.lemma_layered_kept(next, rank);
        }
        assert forall|other: Site| self.has_site(other) && self.fed(other, tick) implies next.fed(
            other,
            tick,
        ) by {
            if other != site {
                assert(next.unit(other) == self.unit(other));
            }
            assert forall|q: PinNumber|
                next.unit(other).has_pin(q) && (#[trigger] next.unit(other).pin(q)).input()
                    is Some implies next.unit(other).pin(q).input().unwrap().input_state
                == PinState::Available(tick) by {
                if other == site && q != pin {
                    assert(b.all_pins@[q - 1] == a.all_pins@[q - 1]);
                }
                assert(self.unit(other).pin(q).input() is Some);
            }
        }
        assert forall|place: Place| #[trigger] next.computing(place) implies self.computing(
            place,
        ) by {
            match place {
                Place::Unit(at) => {
                    assert(self.has_site(at));
                    if at != site {
                        assert(next.unit(at) == self.unit(at));
                    }
                },
                Place::Entity(other) => {
                    assert(self.has_entity(other));
                },
            }
        }
    }

    /// The evaluation proper of a component, while it is being evaluated,
    /// leaves what has settled settled.
    pub proof fn lemma_driven_settled(
        self,
        next: Board,
        site: Site,
        rank: spec_fn(Place) -> nat,
        tick: Tick,
    )
        requires
            self.well_formed(),
            self.has_site(site),
            self.unit(site).state == PinState::Computing(tick),
            self.driven(next, site),
        ensures
            self.all_settled(tick) ==> next.all_settled(tick),
            self.layered_by(rank) ==> next.layered_by(rank),
            forall|other: Site| self.has_site(other) && self.fed(other, tick) ==> next.fed(other, tick),
            forall|place: Place| #[trigger] next.computing(place) ==> self.computing(place),
    {
        let a = self.unit(site);
        let b = next.unit(site);
        self.lemma_driven(next, site, tick);
        a.lemma_rewritten(b, tick);
        assert forall|other: PinLocation| #[trigger] next.has_entity(other) implies self.has_entity(
            other,
        ) && next.entity(other) == self.entity(other) by {
            self.lemma_same_wiring_entity(next, other);
            assert(self.has_site(other.site));
            if other.site != site {
                assert(next.unit(other.site) == self.unit(other.site));
            } else {
                assert(b.all_pins@[other.pin - 1].input() == a.all_pins@[other.pin - 1].input());
            }
        }
        if self.all_settled(tick) {
            assert forall|other: PinLocation|
                next.has_entity(other) && (#[trigger] next.entity(other)).input_state
                    == PinState::Available(tick) implies next.settled(other, tick) by {
                assert(self.has_entity(other));
                assert(self.settled(other, tick));
                assert forall|k: int|
                    0 <= k < self.entity(other).links@.len() implies self.reads_same(
                    next,
                    other.site,
                    #[trigger] self.entity(other).links@[k],
                    tick,
                ) by {
                    let link = self.entity(other).links@[k];
                    assert(self.link_ok(other.site, link));
                    let target = other.site.follow(link.component);
                    assert(self.has_site(target));
                    if target != site {
                        assert(next.unit(target) == self.unit(target));
                    } else {
                        assert(b.all_pins@[link.pin - 1].input() == a.all_pins@[link.pin - 1].input());
                    }
                }
                self.lemma_settled_kept(next, other, tick);
            }
        }
        if self.layered_by(rank) {
            self.lemma_layered_kept(next, rank);
        }
        assert forall|other: Site| self.has_site(other) && self.fed(other, tick) implies next.fed(
            other,
            tick,
        ) by {
            if other != site {
                assert(next.unit(other) == self.unit(other));
            }
            assert forall|q: PinNumber|
                next.unit(other).has_pin(q) && (#[trigger] next.unit(other).pin(q)).input()
                    is Some implies next.unit(other).pin(q).input().unwrap().input_state
                == PinState::Available(tick) by {
                if other == site {
                    assert(b.all_pins@[q - 1].input() == a.all_pins@[q - 1].input());
                }
                assert(self.unit(other).pin(q).input() is Some);
            }
        }
        assert forall|place: Place| #[trigger] next.computing(place) implies self.computing(
            place,
        ) by {
            match place {
                Place::Unit(at) => {
                    assert(self.has_site(at));
                    if at != site {
                        assert(next.unit(at) == self.unit(at));
                    }
                },
                Place::Entity(other) => {
                    assert(self.has_entity(other));
                },
            }
        }
    }
}

impl Board {
    /// On a board at rest everything is quiet.
    pub proof fn lemma_rest_quiet(self, rank: spec_fn(Place) -> nat, bound: nat)
        requires
            self.at_rest(),
        ensures
            self.quiet(rank, bound),
    {
        assert forall|place: Place| rank(place) < bound implies !#[trigger] self.computing(
            place,
        ) by {
            match place {
                Place::Unit(site) => {
                    if self.has_site(site) {
                        assert(self.unit(site).at_rest());
                    }
                },
                Place::Entity(location) => {
                    if self.has_entity(location) {
                        assert(self.has_site(location.site));
                        assert(self.unit(location.site).at_rest());
                        assert(self.unit(location.site).all_pins@[location.pin - 1].at_rest());
                    }
                },
            }
        }
    }

    /// On a board that speaks of no tick up to `tick`, nothing was
    /// evaluated for `tick`, so that everything that was has settled.
    pub proof fn lemma_dated_settled(self, before: Tick, tick: Tick)
        requires
            self.dated(before),
            before < tick,
        ensures
            self.all_settled(tick),
    {
        assert forall|location: PinLocation|
            self.has_entity(location) && (#[trigger] self.entity(location)).input_state
                == PinState::Available(tick) implies self.settled(location, tick) by {
            assert(self.has_site(location.site));
            assert(self.unit(location.site).dated(before));
            assert(self.unit(location.site).all_pins@[location.pin - 1].dated(before));
        }
    }

    /// On a board of which nothing was ever evaluated, everything that
    /// was evaluated has settled.
    pub proof fn lemma_never_settled(self, tick: Tick)
        requires
            forall|c: int|
                0 <= c < self.chipsets@.len() ==> (#[trigger] self.chipsets@[c]).never_computed(),
        ensures
            self.all_settled(tick),
    {
        assert forall|location: PinLocation|
            self.has_entity(location) && (#[trigger] self.entity(location)).input_state
                == PinState::Available(tick) implies self.settled(location, tick) by {
            let x = self.chipsets@[location.site.component as int];
            assert(x.never_computed());
            assert(x.has_part(location.site.inner));
            assert(x.container(location.site.inner).all_pins@[location.pin - 1].entity(
                location.internal,
            ) is Some);
        }
    }

    /// While the links of an aggregating place are read one after the
    /// other: the board is layered, what was evaluated has settled,
    /// nothing below the place is being evaluated, and the evaluation of
    /// what the first `done` links read is over.
    pub open spec fn feeding(
        self,
        rank: spec_fn(Place) -> nat,
        location: PinLocation,
        tick: Tick,
        done: int,
    ) -> bool {
        &&& self.layered_by(rank)
        &&& self.all_settled(tick)
        &&& self.quiet(rank, rank(Place::Entity(location)))
        &&& Self::feeder(location) matches Some(surface) ==> self.fed(surface, tick)
        &&& forall|j: int|
            0 <= j < done ==> self.peer_done(
                location.site,
                #[trigger] self.entity(location).links@[j],
                tick,
            )
    }

    /// Marking a calm place as being evaluated starts the reading of its
    /// links.
    pub proof fn lemma_feeding_starts(
        self,
        marked: Board,
        rank: spec_fn(Place) -> nat,
        location: PinLocation,
        tick: Tick,
    )
        requires
            self.within(tick),
            self.links_ok(),
            self.has_entity(location),
            self.has_site(Site::of(location.site.component)),
            self.unit(location.site).state == PinState::Computing(tick),
            !self.entity(location).input_state.entered(tick),
            self.calm_entity(rank, location, tick),
            self.entity_set(
                marked,
                location,
                PinState::Computing(tick),
                self.entity(location).input_value,
            ),
        ensures
            marked.feeding(rank, location, tick, 0),
    {
        self.lemma_entity_set_settled(
            marked,
            location,
            PinState::Computing(tick),
            self.entity(location).input_value,
            rank,
            tick,
        );
        assert forall|place: Place| rank(place) < rank(Place::Entity(location))
            implies !#[trigger] marked.computing(place) by {
            assert(!self.computing(place));
        }
    }

    /// While the links of a place are read, the next link is read in a
    /// calm situation.
    pub proof fn lemma_feeding_link(
        self,
        rank: spec_fn(Place) -> nat,
        location: PinLocation,
        tick: Tick,
        done: int,
    )
        requires
            self.has_entity(location),
            0 <= done < self.entity(location).links@.len(),
            self.feeding(rank, location, tick, done),
        ensures
            self.calm_link(rank, location.site, self.entity(location).links@[done], tick),
    {
        let link = self.entity(location).links@[done];
        assert(Self::reads_below(rank, location, link));
        assert forall|place: Place| rank(place) < rank(Self::source(location.site, link)) + 1
            implies !#[trigger] self.computing(place) by {
        }
    }

    /// Once one more link was read in a calm situation, the reading of the
    /// links goes on.
    pub proof fn lemma_feeding_goes_on(
        self,
        next: Board,
        rank: spec_fn(Place) -> nat,
        location: PinLocation,
        tick: Tick,
        done: int,
    )
        requires
            self.has_entity(location),
            self.has_site(Site::of(location.site.component)),
            self.links_ok(),
            0 <= done < self.entity(location).links@.len(),
            self.feeding(rank, location, tick, done),
            self.advances_to(next, tick),
            next.all_settled(tick),
            next.peer_done(location.site, self.entity(location).links@[done], tick),
            forall|j: int|
                0 <= j < done ==> self.peer_entered(
                    location.site,
                    #[trigger] self.entity(location).links@[j],
                    tick,
                ),
        ensures
            next.feeding(rank, location, tick, done + 1),
    {
        let site = location.site;
        let links = self.entity(location).links@;
        self.lemma_calm_advances(
            next,
            rank,
            rank(Place::Entity(location)),
            Site::of(location.site.component),
            tick,
        );
        self.lemma_advances_wiring(next, tick);
        assert(next.entity(location).links@ == links);
        assert forall|j: int| 0 <= j < done + 1 implies next.peer_done(
            site,
            #[trigger] next.entity(location).links@[j],
            tick,
        ) by {
            if j < done {
                assert(self.peer_done(site, self.entity(location).links@[j], tick));
                assert(self.peer_entered(site, self.entity(location).links@[j], tick));
                assert(self.link_ok(site, self.entity(location).links@[j]));
                self.lemma_reading_stays(next, site, links[j], tick);
            }
        }
    }

    /// Once all the links of a place were read in calm situations, storing
    /// the disjunction of what was read leaves everything settled.
    pub proof fn lemma_feeding_ends(
        self,
        next: Board,
        rank: spec_fn(Place) -> nat,
        location: PinLocation,
        observed: Seq<Tristate>,
        value: Tristate,
        tick: Tick,
    )
        requires
            self.within(tick),
            self.links_ok(),
            self.has_entity(location),
            self.unit(location.site).state == PinState::Computing(tick),
            self.entity(location).input_state == PinState::Computing(tick),
            self.feeding(rank, location, tick, self.entity(location).links@.len() as int),
            observed.len() == self.entity(location).links@.len(),
            value == or_all(observed),
            forall|j: int|
                0 <= j < observed.len() && self.peer_done(
                    location.site,
                    #[trigger] self.entity(location).links@[j],
                    tick,
                ) ==> observed[j] == self.entity(location).links@[j].reading(self, location.site),
            self.entity_set(next, location, PinState::Available(tick), value),
        ensures
            next.all_settled(tick),
    {
        assert forall|j: int| 0 <= j < observed.len() implies observed[j] == self.readings(
            location,
        )[j] by {
            assert(self.peer_done(location.site, self.entity(location).links@[j], tick));
        }
        assert(observed =~= self.readings(location));
        self.lemma_entity_set_settled(
            next,
            location,
            PinState::Available(tick),
            value,
            rank,
            tick,
        );
    }
}

impl Board {
    /// The first `count` of the pins at `site` that receive were evaluated
    /// for `tick`.
    pub open spec fn fed_up_to(self, site: Site, tick: Tick, count: int) -> bool {
        forall|pin: PinNumber|
            1 <= pin <= count && self.unit(site).has_pin(pin) && (#[trigger] self.unit(site).pin(
                pin,
            )).input() is Some ==> self.unit(site).pin(pin).input().unwrap().input_state
                == PinState::Available(tick)
    }

    /// The board is layered, what was evaluated has settled, and nothing
    /// that the component or sub-component at `site`, which is being
    /// evaluated, may read is being evaluated.
    pub open spec fn calm_body(self, rank: spec_fn(Place) -> nat, site: Site, tick: Tick) -> bool {
        &&& self.layered_by(rank)
        &&& self.all_settled(tick)
        &&& self.quiet(rank, rank(Place::Unit(site)))
        &&& site.inner is Some ==> self.fed(Site::of(site.component), tick)
    }

    /// A pin that receives is evaluated in a calm situation when the pins
    /// of its container are.
    pub proof fn lemma_inputs_entity(
        self,
        rank: spec_fn(Place) -> nat,
        site: Site,
        pin: PinNumber,
        tick: Tick,
    )
        requires
            self.has_entity(PinLocation { site, pin, internal: false }),
            self.calm_inputs(rank, site, tick),
        ensures
            self.calm_entity(rank, PinLocation { site, pin, internal: false }, tick),
    {
        let location = PinLocation { site, pin, internal: false };
        if !self.fed(site, tick) {
            assert forall|place: Place| rank(place) < rank(Place::Entity(location)) + 1
                implies !#[trigger] self.computing(place) by {
            }
        } else {
            assert(self.unit(site).pin(pin).input() is Some);
        }
    }

    /// The evaluation of the pins that receive goes on in a calm
    /// situation.
    pub proof fn lemma_inputs_step(
        self,
        next: Board,
        rank: spec_fn(Place) -> nat,
        site: Site,
        count: int,
        tick: Tick,
    )
        requires
            self.has_site(site),
            self.has_site(Site::of(site.component)),
            0 <= count < self.unit(site).all_pins@.len(),
            self.advances_to(next, tick),
            self.calm_inputs(rank, site, tick),
            self.fed_up_to(site, tick, count),
            next.all_settled(tick),
            next.unit(site).pin((count + 1) as usize).input() is Some ==> next.unit(site).pin(
                (count + 1) as usize,
            ).input().unwrap().input_state == PinState::Available(tick),
        ensures
            next.calm_inputs(rank, site, tick),
            next.fed_up_to(site, tick, count + 1),
    {
        self.lemma_calm_advances(next, rank, rank(Place::Unit(site)), site, tick);
        self.lemma_calm_advances(
            next,
            rank,
            rank(Place::Unit(site)),
            Site::of(site.component),
            tick,
        );
        assert(self.unit(site).advances_to(next.unit(site), tick));
        assert forall|pin: PinNumber|
            1 <= pin <= count + 1 && next.unit(site).has_pin(pin) && (#[trigger] next.unit(
                site,
            ).pin(pin)).input() is Some implies next.unit(site).pin(
            pin,
        ).input().unwrap().input_state == PinState::Available(tick) by {
            if pin <= count {
                assert(self.unit(site).all_pins@[pin - 1].advances_to(
                    next.unit(site).all_pins@[pin - 1],
                    tick,
                ));
                assert(self.unit(site).pin(pin).input() is Some);
            }
        }
    }

    /// An output that samples is evaluated in a calm situation when the
    /// outputs of its container are.
    pub proof fn lemma_outputs_entity(
        self,
        rank: spec_fn(Place) -> nat,
        site: Site,
        pin: PinNumber,
        tick: Tick,
    )
        requires
            self.has_entity(PinLocation { site, pin, internal: true }),
            self.calm_outputs(rank, site, tick),
        ensures
            self.calm_entity(rank, PinLocation { site, pin, internal: true }, tick),
    {
        let location = PinLocation { site, pin, internal: true };
        assert forall|place: Place| rank(place) < rank(Place::Entity(location)) + 1
            implies !#[trigger] self.computing(place) by {
        }
    }

    /// The evaluation of the outputs that sample goes on in a calm
    /// situation.
    pub proof fn lemma_outputs_step(
        self,
        next: Board,
        rank: spec_fn(Place) -> nat,
        site: Site,
        tick: Tick,
    )
        requires
            self.has_site(Site::of(site.component)),
            self.advances_to(next, tick),
            self.calm_outputs(rank, site, tick),
            next.all_settled(tick),
        ensures
            next.calm_outputs(rank, site, tick),
    {
        self.lemma_calm_advances(
            next,
            rank,
            rank(Place::Unit(site)),
            Site::of(site.component),
            tick,
        );
    }

    /// Marking a calm component as being evaluated starts its evaluation
    /// in a calm situation.
    pub proof fn lemma_body_starts(
        self,
        marked: Board,
        rank: spec_fn(Place) -> nat,
        site: Site,
        tick: Tick,
    )
        requires
            self.has_site(site),
            self.has_site(Site::of(site.component)),
            self.links_ok(),
            !self.unit(site).state.entered(tick),
            self.calm_unit(rank, site, tick),
            self.state_set(marked, site, PinState::Computing(tick)),
        ensures
            marked.calm_body(rank, site, tick),
            marked.calm_inputs(rank, site, tick),
    {
        self.lemma_state_set_settled(marked, site, PinState::Computing(tick), rank, tick);
        assert forall|place: Place| rank(place) < rank(Place::Unit(site))
            implies !#[trigger] marked.computing(place) by {
            assert(!self.computing(place));
        }
    }

    /// Once the pins that receive were evaluated, the outputs that sample
    /// are evaluated in a calm situation.
    pub proof fn lemma_body_fed(
        self,
        next: Board,
        rank: spec_fn(Place) -> nat,
        site: Site,
        tick: Tick,
    )
        requires
            self.has_site(site),
            self.has_site(Site::of(site.component)),
            self.advances_to(next, tick),
            self.calm_body(rank, site, tick),
            next.all_settled(tick),
            next.fed(site, tick),
        ensures
            next.calm_body(rank, site, tick),
            next.calm_outputs(rank, site, tick),
    {
        self.lemma_calm_advances(
            next,
            rank,
            rank(Place::Unit(site)),
            Site::of(site.component),
            tick,
        );
    }

    /// Once the outputs that sample were evaluated, the evaluation proper
    /// and the marking of the component as evaluated leave everything
    /// settled.
    pub proof fn lemma_body_ends(
        self,
        fed: Board,
        driven: Board,
        next: Board,
        rank: spec_fn(Place) -> nat,
        site: Site,
        tick: Tick,
    )
        requires
            self.has_site(site),
            self.advances_to(fed, tick),
            self.calm_outputs(rank, site, tick),
            self.unit(site).state == PinState::Computing(tick),
            fed.well_formed(),
            fed.all_settled(tick),
            fed.driven(driven, site),
            driven.state_set(next, site, PinState::Available(tick)),
        ensures
            next.all_settled(tick),
    {
        self.lemma_advances_wiring(fed, tick);
        assert(self.unit(site).advances_to(fed.unit(site), tick));
        fed.lemma_driven_settled(driven, site, rank, tick);
        fed.lemma_driven(driven, site, tick);
        driven.lemma_state_set_settled(next, site, PinState::Available(tick), rank, tick);
    }
}

} // verus!
