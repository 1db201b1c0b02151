//! The component catalog and the values components exchange.

pub mod composite;
pub mod dummy;
pub mod factory;
pub mod gates;
pub mod single_pin;
pub mod tristate;
pub mod types;

pub mod chipset;

use tristate::Tristate;
use vstd::prelude::*;

verus! {

/// A point in simulated time.
pub type Tick = usize;

/// The 1-based number of a pin on its component.
pub type PinNumber = usize;

/// The pin number that a component was asked about and does not have.
#[derive(Debug, Clone, Copy, PartialEq, Eq, Structural)]
pub struct InvalidPin(pub PinNumber);

/// The far end of a link. A handle never keeps a component alive; it is
/// only looked up during evaluation.
#[derive(Debug, Clone, Copy, PartialEq, Eq, Structural)]
pub enum ComponentHandle {
    /// A component of the circuit, by its position: evaluating it runs its
    /// body, and its pins report what they drive.
    Peer(usize),
    /// A sub-component of the composite that holds the link, by its
    /// position among them.
    Inner(usize),
    /// The outside world of the composite that owns the sub-component that
    /// holds the link: the pins report what the composite receives.
    Proxy(crate::pin::container::InternalComponentProxy),
}

/// What every component of the catalog offers by itself, whatever board it
/// stands on. Its evaluation is the business of the board: see
/// [`crate::pin::container::PinContainer::simulate`].
pub trait Component {
    /// The pins that the component shows to the circuit.
    spec fn surface(&self) -> crate::pin::container::PinContainer;

    /// The layout that the catalog gives the component.
    spec fn sound(&self) -> bool;

    /// Records that pin `pin` of the component is wired to pin `other_pin`
    /// of `other_component`. Only a pin that receives keeps the link; a
    /// pin that the component does not have is reported.
    fn set_link(
        &mut self,
        pin: PinNumber,
        other_component: ComponentHandle,
        other_pin: PinNumber,
    ) -> (r: Result<(), InvalidPin>)
        requires
            old(self).sound(),
        ensures
            final(self).sound(),
            old(self).surface().link_recorded(
                final(self).surface(),
                pin,
                other_component,
                other_pin,
                r,
            ),
    ;

    /// The component as one that a user drives, if it is one.
    fn as_input(&self) -> (r: Option<&dyn Input>)
        ensures
            r is Some ==> self.sound() ==> r.unwrap().ready(),
    {
        None
    }

    /// The level that a user observes on the component: what it last
    /// sampled, if it is one that a user observes.
    open spec fn observed(&self) -> Option<Tristate> {
        None
    }

    /// The component as one that a user observes, if it is one: what is
    /// handed out shows the level that the component last sampled. A
    /// component is none unless its kind says otherwise.
    fn as_output(&self) -> (r: Option<&dyn Output>)
        ensures
            r matches Some(output) ==> self.observed() == Some(output.sampled()),
    {
        None
    }
}

/// A component through which a user drives the circuit.
pub trait Input {
    /// The level that the component shows.
    spec fn shown(&self) -> Tristate;

    /// The level that the component will show from its next evaluation on,
    /// if one was set since the last.
    spec fn staged(&self) -> Option<Tristate>;

    /// The component has the pin on which it shows its level.
    spec fn ready(&self) -> bool;

    fn get_current_state(&self) -> (r: Tristate)
        requires
            self.ready(),
        ensures
            r == self.shown(),
    ;

    /// Stages `state` to be shown from the next evaluation on. What the
    /// component shows now is not touched.
    fn set_state_for_next_tick(&mut self, state: Tristate)
        ensures
            final(self).staged() == Some(state),
            final(self).shown() == old(self).shown(),
            final(self).ready() == old(self).ready(),
    ;
}

/// A component on which a user observes the circuit.
pub trait Output {
    /// The level that the component sampled when it was last evaluated.
    spec fn sampled(&self) -> Tristate;

    fn get_value(&self) -> (r: Tristate)
        ensures
            r == self.sampled(),
    ;
}

} // verus!
