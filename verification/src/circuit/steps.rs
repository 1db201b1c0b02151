//! The elementary steps of an evaluation, each with what it keeps.

use vstd::prelude::*;

use crate::circuit::board::{Board, PinLocation, Site};
use crate::components::tristate::Tristate;
use crate::components::{ComponentHandle, PinNumber, Tick};
use crate::pin::container::PinContainer;
use crate::pin::pin::{PinLink, PinState};

verus! {

impl Board {
    /// The number of components.
    pub fn len(&self) -> (r: usize)
        ensures
            r == self.chipsets@.len(),
    {
        self.chipsets.len()
    }

    /// The pins at a site.
    pub fn unit_ref(&self, site: Site) -> (r: &PinContainer)
        requires
            self.has_site(site),
        ensures
            *r == self.unit(site),
    {
        self.chipsets[site.component].container_ref(site.inner)
    }

    /// The pins at a site, to be changed.
    pub fn unit_mut(&mut self, site: Site) -> (r: &mut PinContainer)
        requires
            old(self).has_site(site),
        ensures
            *r == old(self).unit(site),
            final(self).unit(site) == *final(r),
            old(self).unit_changed(*final(self), site),
    {
        self.chipsets[site.component].container_mut(site.inner)
    }

    /// Where the pins at a site stand in the evaluation.
    pub fn unit_state(&self, site: Site) -> (r: PinState)
        requires
            self.has_site(site),
        ensures
            r == self.unit(site).state,
    {
        self.unit_ref(site).state
    }

    /// Whether the board has that aggregating place.
    pub fn contains_entity(&self, location: PinLocation) -> (r: bool)
        requires
            self.has_site(location.site),
            self.unit(location.site).has_pin(location.pin),
        ensures
            r == self.has_entity(location),
    {
        self.unit_ref(location.site).entity_ref(location.pin, location.internal).is_some()
    }

    /// Where an aggregating place stands in the evaluation.
    pub fn entity_state(&self, location: PinLocation) -> (r: PinState)
        requires
            self.has_entity(location),
        ensures
            r == self.entity(location).input_state,
    {
        match self.unit_ref(location.site).entity_ref(location.pin, location.internal) {
            Some(entity) => entity.input_state,
            None => PinState::NeverComputed,
        }
    }

    /// What an aggregating place last aggregated.
    pub fn entity_value(&self, location: PinLocation) -> (r: Tristate)
        requires
            self.has_entity(location),
        ensures
            r == self.entity(location).input_value,
    {
        match self.unit_ref(location.site).entity_ref(location.pin, location.internal) {
            Some(entity) => entity.input_value,
            None => Tristate::Undefined,
        }
    }

    /// How many links an aggregating place has.
    pub fn links_len(&self, location: PinLocation) -> (r: usize)
        requires
            self.has_entity(location),
        ensures
            r == self.entity(location).links@.len(),
    {
        match self.unit_ref(location.site).entity_ref(location.pin, location.internal) {
            Some(entity) => entity.links.len(),
            None => 0,
        }
    }

    /// One of the links of an aggregating place.
    pub fn link_at(&self, location: PinLocation, k: usize) -> (r: PinLink)
        requires
            self.has_entity(location),
            k < self.entity(location).links@.len(),
        ensures
            r == self.entity(location).links@[k as int],
    {
        match self.unit_ref(location.site).entity_ref(location.pin, location.internal) {
            Some(entity) => entity.links[k],
            None => PinLink { component: ComponentHandle::Peer(0), pin: 0 },
        }
    }
}

impl Board {
    /// Marks the pins at a site as being evaluated for `tick`.
    pub fn enter_unit(&mut self, site: Site, tick: Tick)
        requires
            old(self).within(tick),
            old(self).has_site(site),
            !old(self).unit(site).state.entered(tick),
        ensures
            old(self).state_set(*final(self), site, PinState::Computing(tick)),
            old(self).well_formed() ==> final(self).well_formed(),
            final(self).within(tick),
            final(self).weight(tick) + 1 == old(self).weight(tick),
    {
        let unit = self.unit_mut(site);
        unit.state = PinState::Computing(tick);
        proof {
            let before = *old(self);
            let after = *self;
            assert(before.unit(site).within(tick));
            assert(after.unit(site).pin_weights(tick) =~= before.unit(site).pin_weights(tick));
            before.lemma_unit_changed(after, site, tick);
            before.unit(site).lemma_advances_reflexive(tick);
            before.unit(site).lemma_wiring_advances(before.unit(site), tick);
            before.lemma_unit_changed_keeps(after, site, tick);
        }
    }

    /// Marks the pins at a site as evaluated for `tick`.
    pub fn leave_unit(&mut self, site: Site, tick: Tick)
        requires
            old(self).within(tick),
            old(self).has_site(site),
            old(self).unit(site).state == PinState::Computing(tick),
            forall|i: int|
                0 <= i < old(self).unit(site).all_pins@.len() ==> (#[trigger] old(self).unit(
                    site,
                ).all_pins@[i]).settled(tick),
        ensures
            old(self).state_set(*final(self), site, PinState::Available(tick)),
            old(self).well_formed() ==> final(self).well_formed(),
            final(self).within(tick),
            final(self).weight(tick) == old(self).weight(tick),
    {
        let unit = self.unit_mut(site);
        unit.state = PinState::Available(tick);
        proof {
            let before = *old(self);
            let after = *self;
            assert(before.unit(site).within(tick));
            assert(after.unit(site).pin_weights(tick) =~= before.unit(site).pin_weights(tick));
            assert forall|i: int| 0 <= i < after.unit(site).all_pins@.len() implies (
            #[trigger] after.unit(site).all_pins@[i]).at_rest() by {
                assert(before.unit(site).all_pins@[i].settled(tick));
            }
            before.lemma_unit_changed(after, site, tick);
            before.unit(site).lemma_advances_reflexive(tick);
            before.unit(site).lemma_wiring_advances(before.unit(site), tick);
            before.lemma_unit_changed_keeps(after, site, tick);
        }
    }

    /// Marks an aggregating place as being evaluated for `tick`.
    pub fn enter_entity(&mut self, location: PinLocation, tick: Tick)
        requires
            old(self).within(tick),
            old(self).has_entity(location),
            !old(self).entity(location).input_state.entered(tick),
            old(self).unit(location.site).state == PinState::Computing(tick),
        ensures
            old(self).entity_set(
                *final(self),
                location,
                PinState::Computing(tick),
                old(self).entity(location).input_value,
            ),
            old(self).well_formed() ==> final(self).well_formed(),
            final(self).within(tick),
            final(self).weight(tick) + 1 == old(self).weight(tick),
    {
        let value = self.entity_value(location);
        let unit = self.unit_mut(location.site);
        unit.set_evaluation(location.pin, location.internal, PinState::Computing(tick), value);
        proof {
            let before = *old(self);
            let after = *self;
            before.lemma_entity_set(after, location, PinState::Computing(tick), value, tick);
        }
    }

    /// Stores what an aggregating place has aggregated and marks it as
    /// evaluated for `tick`.
    pub fn leave_entity(&mut self, location: PinLocation, value: Tristate, tick: Tick)
        requires
            old(self).within(tick),
            old(self).has_entity(location),
            old(self).entity(location).input_state == PinState::Computing(tick),
            old(self).unit(location.site).state == PinState::Computing(tick),
        ensures
            old(self).entity_set(*final(self), location, PinState::Available(tick), value),
            old(self).well_formed() ==> final(self).well_formed(),
            final(self).within(tick),
            final(self).weight(tick) == old(self).weight(tick),
    {
        let unit = self.unit_mut(location.site);
        unit.set_evaluation(location.pin, location.internal, PinState::Available(tick), value);
        proof {
            let before = *old(self);
            let after = *self;
            before.lemma_entity_set(after, location, PinState::Available(tick), value, tick);
        }
    }

    /// Makes an output that samples a sub-component show what its hidden
    /// input last aggregated.
    pub fn show_sample(&mut self, site: Site, pin: PinNumber, tick: Tick)
        requires
            old(self).within(tick),
            old(self).has_entity(PinLocation { site, pin, internal: true }),
            old(self).unit(site).state == PinState::Computing(tick),
        ensures
            old(self).result_set(*final(self), site, pin),
            old(self).well_formed() ==> final(self).well_formed(),
            final(self).within(tick),
            final(self).weight(tick) == old(self).weight(tick),
            old(self).advances_to(*final(self), tick),
    {
        let value = self.entity_value(PinLocation { site, pin, internal: true });
        let unit = self.unit_mut(site);
        unit.set_result(pin, value);
        proof {
            let before = *old(self);
            let after = *self;
            before.lemma_result_set(after, site, pin, tick);
        }
    }
}

impl Board {
    /// The evaluation proper of the component or sub-component at a site:
    /// from what its pins last received to what they drive.
    pub fn drive(&mut self, site: Site, tick: Tick)
        requires
            old(self).well_formed(),
            old(self).within(tick),
            old(self).has_site(site),
        ensures
            old(self).driven(*final(self), site),
            final(self).well_formed(),
            final(self).within(tick),
            final(self).weight(tick) == old(self).weight(tick),
    {
        self.chipsets[site.component].drive(site.inner);
        proof {
            old(self).lemma_driven(*self, site, tick);
        }
    }
}

impl Board {
    /// What setting the state and the value of an aggregating place keeps
    /// and does to the weight.
    pub proof fn lemma_entity_set(
        self,
        next: Board,
        location: PinLocation,
        state: PinState,
        value: Tristate,
        tick: Tick,
    )
        requires
            self.within(tick),
            self.has_entity(location),
            self.unit(location.site).state == PinState::Computing(tick),
            self.entity_set(next, location, state, value),
            state == PinState::Computing(tick) || state == PinState::Available(tick),
        ensures
            self.well_formed() ==> next.well_formed(),
            next.within(tick),
            next.weight(tick) + self.entity(location).input_state.weight(tick) == self.weight(
                tick,
            ),
            next.has_entity(location),
            next.entity(location).input_state == state,
            next.entity(location).input_value == value,
            next.entity(location).links@ == self.entity(location).links@,
    {
        let site = location.site;
        let a = self.unit(site);
        let b = next.unit(site);
        let i = location.pin - 1;
        assert(self.has_site(site));
        assert(a.within(tick));
        assert(a.all_pins@[i].within(tick));
        a.lemma_weight_pin_changed(b, location.pin, tick);
        self.lemma_unit_changed(next, site, tick);
        assert forall|j: int| 0 <= j < a.all_pins@.len() implies (#[trigger] a.all_pins@[j]).same_wiring(
            b.all_pins@[j],
        ) && a.all_pins@[j].written() == b.all_pins@[j].written() && b.all_pins@[j].within(tick)
            && (a.all_pins@[j].settled(tick) && state == PinState::Available(tick)
            ==> b.all_pins@[j].settled(tick)) by {
            assert(a.all_pins@[j].within(tick));
            if j != i {
                assert(b.all_pins@[j] == a.all_pins@[j]);
            }
        }
        assert(b.within(tick));
        self.lemma_unit_changed_keeps(next, site, tick);
    }

    /// What setting the level that an output samples keeps: it is a step
    /// that evaluating may take while the pins are being evaluated.
    pub proof fn lemma_result_set(self, next: Board, site: Site, pin: PinNumber, tick: Tick)
        requires
            self.within(tick),
            self.has_entity(PinLocation { site, pin, internal: true }),
            self.unit(site).state == PinState::Computing(tick),
            self.result_set(next, site, pin),
        ensures
            self.well_formed() ==> next.well_formed(),
            next.within(tick),
            next.weight(tick) == self.weight(tick),
            self.advances_to(next, tick),
            next.unit(site).pin(pin).shows_sample(),
    {
        let a = self.unit(site);
        let b = next.unit(site);
        let i = pin - 1;
        assert(self.has_site(site));
        assert(a.within(tick));
        a.lemma_weight_pin_changed(b, pin, tick);
        self.lemma_unit_changed(next, site, tick);
        assert forall|j: int| 0 <= j < a.all_pins@.len() implies (#[trigger] a.all_pins@[j]).same_wiring(
            b.all_pins@[j],
        ) && a.all_pins@[j].written() == b.all_pins@[j].written() && b.all_pins@[j].within(tick)
            && a.all_pins@[j].advances_to(b.all_pins@[j], tick) by {
            assert(a.all_pins@[j].within(tick));
            if j != i {
                assert(b.all_pins@[j] == a.all_pins@[j]);
            }
        }
        assert(b.within(tick));
        assert(a.advances_to(b, tick));
        self.lemma_unit_changed_keeps(next, site, tick);
        assert forall|other: Site| #[trigger] self.has_site(other) implies self.unit(
            other,
        ).advances_to(next.unit(other), tick) by {
            if other != site {
                self.unit(other).lemma_advances_reflexive(tick);
            }
        }
        assert forall|c: int| 0 <= c < self.chipsets@.len() implies {
            &&& (#[trigger] self.chipsets@[c]).same_kind(next.chipsets@[c])
            &&& self.chipsets@[c].subs().len() == next.chipsets@[c].subs().len()
            &&& self.chipsets@[c].latch() == next.chipsets@[c].latch()
        } by {
            assert(self.chipsets@[c].same_wiring(next.chipsets@[c]));
        }
    }
}

} // verus!
