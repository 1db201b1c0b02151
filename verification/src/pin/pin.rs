//! Single pins: inputs aggregate what their peers drive, outputs report what
//! their owner computed.

use vstd::prelude::*;

use crate::components::tristate::Tristate;
use crate::components::{ComponentHandle, PinNumber, Tick};

verus! {

/// The direction in which a pin currently works.
#[derive(Debug, Clone, Copy, PartialEq, Eq, Structural)]
pub enum PinMode {
    Input,
    Output,
}

/// Where an input pin, or a whole pin container, stands in the evaluation
/// of a tick.
#[derive(Debug, Clone, Copy, PartialEq, Eq, Structural)]
pub enum PinState {
    NeverComputed,
    Available(Tick),
    Computing(Tick),
}

impl PinState {
    /// The evaluation for `tick` has started, and maybe finished.
    pub open spec fn entered(self, tick: Tick) -> bool {
        self == PinState::Available(tick) || self == PinState::Computing(tick)
    }

    /// 1 while the evaluation for `tick` has yet to start, else 0.
    pub open spec fn weight(self, tick: Tick) -> nat {
        if self.entered(tick) {
            0
        } else {
            1
        }
    }

    /// What the evaluation of other pins and components during `tick` may
    /// turn this state into: a started evaluation is left alone, and one
    /// that has not started may have been carried out in full.
    pub open spec fn advances_to(self, next: PinState, tick: Tick) -> bool {
        next == self || (!self.entered(tick) && next == PinState::Available(tick))
    }

    /// Either at rest, or in an evaluation for `tick`.
    pub open spec fn within(self, tick: Tick) -> bool {
        self is Computing ==> self == PinState::Computing(tick)
    }

    /// The state speaks of no tick after `tick`.
    pub open spec fn until(self, tick: Tick) -> bool {
        match self {
            PinState::NeverComputed => true,
            PinState::Available(at) => at <= tick,
            PinState::Computing(at) => at <= tick,
        }
    }

    /// Whether the evaluation for `tick` has started.
    pub fn is_entered(&self, tick: Tick) -> (r: bool)
        ensures
            r == self.entered(tick),
    {
        match self {
            PinState::NeverComputed => false,
            PinState::Available(current_tick) => *current_tick == tick,
            PinState::Computing(current_tick) => *current_tick == tick,
        }
    }
}

impl Default for PinState {
    fn default() -> (r: PinState)
        ensures
            r == PinState::NeverComputed,
    {
        PinState::NeverComputed
    }
}

/// A link from an input pin to a pin of a peer.
#[derive(Debug, Clone, Copy, PartialEq, Eq, Structural)]
pub struct PinLink {
    pub component: ComponentHandle,
    pub pin: PinNumber,
}

impl PinLink {
    pub fn new(component: ComponentHandle, pin: PinNumber) -> (r: PinLink)
        ensures
            r.component == component,
            r.pin == pin,
    {
        PinLink { component, pin }
    }
}

/// What every pin can do: tell a peer what it drives.
pub trait Pin {
    /// The level that the pin drives towards its peers.
    spec fn external_value(&self) -> Tristate;

    fn compute_for_external(&self) -> (r: Tristate)
        ensures
            r == self.external_value(),
    ;
}

/// What a pin that can receive does besides.
pub trait InputPin: Pin {
    /// The links of the pin, in the order in which they were first made.
    spec fn peers(&self) -> Seq<PinLink>;

    /// The level that the pin hands to its owner.
    spec fn input_value(&self) -> Tristate;

    /// Adds a link to a pin of a peer, unless the pin already has it.
    fn link_to(&mut self, component: ComponentHandle, pin: PinNumber)
        requires
            old(self).peers().no_duplicates(),
        ensures
            final(self).peers() == with_link(old(self).peers(), PinLink { component, pin }),
            final(self).peers().no_duplicates(),
            final(self).input_value() == old(self).input_value(),
            final(self).external_value() == old(self).external_value(),
    ;

    fn compute_input(&self) -> (r: Tristate)
        ensures
            r == self.input_value(),
    ;
}

/// The links of a pin after `link` was asked for: a set in insertion order.
pub open spec fn with_link(links: Seq<PinLink>, link: PinLink) -> Seq<PinLink> {
    if links.contains(link) {
        links
    } else {
        links.push(link)
    }
}

/// A pin that only receives. It remembers the disjunction of what its peers
/// drove when it was last evaluated.
#[derive(Debug)]
pub struct UnidirectionalInputPin {
    pub input_value: Tristate,
    pub input_state: PinState,
    pub links: Vec<PinLink>,
}

impl UnidirectionalInputPin {
    /// No link occurs twice.
    pub open spec fn well_formed(self) -> bool {
        self.links@.no_duplicates()
    }

    /// A pin without links that was never evaluated; it reads low.
    pub fn new() -> (r: UnidirectionalInputPin)
        ensures
            r.links@ == Seq::<PinLink>::empty(),
            r.input_state == PinState::NeverComputed,
            r.input_value == Tristate::State(false),
            r.well_formed(),
    {
        UnidirectionalInputPin {
            input_value: Tristate::State(false),
            input_state: PinState::NeverComputed,
            links: Vec::new(),
        }
    }

    /// 1 while the pin has yet to be evaluated for `tick`, else 0.
    pub open spec fn weight(self, tick: Tick) -> nat {
        self.input_state.weight(tick)
    }

    /// What evaluating other pins and components during `tick` may turn
    /// this pin into: the links stay, and the value stays unless the pin
    /// was evaluated in between.
    pub open spec fn advances_to(self, next: UnidirectionalInputPin, tick: Tick) -> bool {
        &&& next.links@ == self.links@
        &&& self.input_state.advances_to(next.input_state, tick)
        &&& next.input_state == self.input_state ==> next.input_value == self.input_value
    }

    /// The same links as `other`.
    pub open spec fn same_wiring(self, other: UnidirectionalInputPin) -> bool {
        self.links@ == other.links@
    }

    /// Whether the pin already has a link to `link`.
    fn has_link(&self, link: PinLink) -> (r: bool)
        ensures
            r == self.links@.contains(link),
    {
        let mut i: usize = 0;
        while i < self.links.len()
            invariant
                i <= self.links.len(),
                forall|j: int| 0 <= j < i ==> self.links@[j] != link,
            decreases self.links.len() - i,
        {
            if self.links[i] == link {
                return true;
            }
            i += 1;
        }
        false
    }
}

impl Pin for UnidirectionalInputPin {
    /// An input pin drives nothing: its peers read low.
    open spec fn external_value(&self) -> Tristate {
        Tristate::State(false)
    }

    fn compute_for_external(&self) -> (r: Tristate) {
        assert(self.external_value() == Tristate::State(false));
        Tristate::State(false)
    }
}

impl InputPin for UnidirectionalInputPin {
    open spec fn peers(&self) -> Seq<PinLink> {
        self.links@
    }

    open spec fn input_value(&self) -> Tristate {
        self.input_value
    }

    fn link_to(&mut self, component: ComponentHandle, pin: PinNumber)
        ensures
            final(self).input_state == old(self).input_state,
    {
        let link = PinLink::new(component, pin);
        if !self.has_link(link) {
            self.links.push(link);
            assert(self.links@ == old(self).links@.push(link));
            assert(self.links@.no_duplicates()) by {
                assert forall|i: int, j: int|
                    0 <= i < self.links@.len() && 0 <= j < self.links@.len() && i != j implies self.links@[i]
                    != self.links@[j] by {
                    if i < old(self).links@.len() && j < old(self).links@.len() {
                        assert(old(self).links@[i] != old(self).links@[j]);
                    } else if i < old(self).links@.len() {
                        assert(old(self).links@.contains(old(self).links@[i]));
                    } else {
                        assert(old(self).links@.contains(old(self).links@[j]));
                    }
                }
            }
        }
        assert(self.peers() == with_link(old(self).peers(), link));
        assert(self.input_value() == old(self).input_value());
        assert(self.external_value() == old(self).external_value());
    }

    fn compute_input(&self) -> (r: Tristate) {
        assert(self.input_value() == self.input_value);
        self.input_value
    }
}

/// An output whose level is sampled from a pin of a sub-component, through
/// an input pin that only the container sees.
#[derive(Debug)]
pub struct OutputFromInternalComponents {
    pub result: Tristate,
    pub input: UnidirectionalInputPin,
}

impl OutputFromInternalComponents {
    /// An output that still shows `result` and samples nothing yet.
    pub fn new(result: Tristate) -> (r: OutputFromInternalComponents)
        ensures
            r.result == result,
            r.input.links@ == Seq::<PinLink>::empty(),
            r.input.input_state == PinState::NeverComputed,
            r.input.input_value == Tristate::State(false),
            r.input.well_formed(),
    {
        OutputFromInternalComponents { result, input: UnidirectionalInputPin::new() }
    }

    /// Adds a pin of a sub-component to those that the output samples.
    pub fn link_to(&mut self, component: ComponentHandle, pin: PinNumber)
        requires
            old(self).input.well_formed(),
        ensures
            final(self).input.links@ == with_link(
                old(self).input.links@,
                PinLink { component, pin },
            ),
            final(self).input.well_formed(),
            final(self).input.input_state == old(self).input.input_state,
            final(self).input.input_value == old(self).input.input_value,
            final(self).result == old(self).result,
    {
        self.input.link_to(component, pin);
    }
}

/// How the level of an output pin comes about.
#[derive(Debug)]
pub enum OutputComputationMethod {
    /// Nobody drives the pin: it reads undefined.
    Floating,
    /// The owner writes the level when it evaluates.
    Manual(Tristate),
    /// The level is sampled from a sub-component.
    Automatic(OutputFromInternalComponents),
}

impl OutputComputationMethod {
    /// The level that the output shows.
    pub open spec fn value(self) -> Tristate {
        match self {
            OutputComputationMethod::Floating => Tristate::Undefined,
            OutputComputationMethod::Manual(value) => value,
            OutputComputationMethod::Automatic(output) => output.result,
        }
    }

    pub open spec fn well_formed(self) -> bool {
        self matches OutputComputationMethod::Automatic(output) ==> output.input.well_formed()
    }

    /// 1 while the output samples a sub-component and has yet to do so for
    /// `tick`, else 0.
    pub open spec fn weight(self, tick: Tick) -> nat {
        match self {
            OutputComputationMethod::Automatic(output) => output.input.weight(tick),
            _ => 0,
        }
    }

    /// The same kind of output as `other`, sampling the same pins.
    pub open spec fn same_wiring(self, other: OutputComputationMethod) -> bool {
        match self {
            OutputComputationMethod::Floating => other is Floating,
            OutputComputationMethod::Manual(_) => other is Manual,
            OutputComputationMethod::Automatic(output) => other is Automatic
                && output.input.same_wiring(other->Automatic_0.input),
        }
    }

    /// What evaluating other pins and components during `tick` may turn
    /// this output into: one of the same kind, whose hidden input, if it
    /// has one, has advanced. An output that shows what it sampled for
    /// `tick` goes on showing it.
    pub open spec fn advances_to(self, next: OutputComputationMethod, tick: Tick) -> bool {
        match self {
            OutputComputationMethod::Floating => next is Floating,
            OutputComputationMethod::Manual(_) => next is Manual,
            OutputComputationMethod::Automatic(output) => {
                &&& next is Automatic
                &&& output.input.advances_to(next->Automatic_0.input, tick)
                &&& output.input.input_state == PinState::Available(tick) && output.result
                    == output.input.input_value ==> next->Automatic_0.result == output.result
            },
        }
    }

    fn current(&self) -> (r: Tristate)
        ensures
            r == self.value(),
    {
        match self {
            OutputComputationMethod::Floating => Tristate::Undefined,
            OutputComputationMethod::Manual(value) => *value,
            OutputComputationMethod::Automatic(output) => output.result,
        }
    }
}

/// A pin that only drives.
#[derive(Debug)]
pub struct UnidirectionalOutputPin {
    pub driver: OutputComputationMethod,
}

impl UnidirectionalOutputPin {
    pub fn new(driver: OutputComputationMethod) -> (r: UnidirectionalOutputPin)
        ensures
            r.driver == driver,
    {
        UnidirectionalOutputPin { driver }
    }
}

impl Pin for UnidirectionalOutputPin {
    open spec fn external_value(&self) -> Tristate {
        self.driver.value()
    }

    fn compute_for_external(&self) -> (r: Tristate) {
        assert(self.external_value() == self.driver.value());
        self.driver.current()
    }
}

/// A pin that receives or drives, as its mode says. Its links are kept
/// while it drives.
#[derive(Debug)]
pub struct BidirectionalPin {
    pub input_pin: UnidirectionalInputPin,
    pub output_pin: UnidirectionalOutputPin,
    pub mode: PinMode,
}

impl BidirectionalPin {
    pub fn new(driver: OutputComputationMethod, default_mode: PinMode) -> (r: BidirectionalPin)
        ensures
            r.output_pin.driver == driver,
            r.mode == default_mode,
            r.input_pin.links@ == Seq::<PinLink>::empty(),
            r.input_pin.input_state == PinState::NeverComputed,
            r.input_pin.input_value == Tristate::State(false),
            r.input_pin.well_formed(),
    {
        BidirectionalPin {
            input_pin: UnidirectionalInputPin::new(),
            output_pin: UnidirectionalOutputPin::new(driver),
            mode: default_mode,
        }
    }

    pub fn switch_to_mode(&mut self, mode: PinMode)
        ensures
            final(self).mode == mode,
            final(self).input_pin == old(self).input_pin,
            final(self).output_pin == old(self).output_pin,
    {
        self.mode = mode;
    }

    pub fn current_mode(&self) -> (r: PinMode)
        ensures
            r == self.mode,
    {
        self.mode
    }
}

impl Pin for BidirectionalPin {
    /// What the pin drives while in output mode; low while it receives.
    open spec fn external_value(&self) -> Tristate {
        match self.mode {
            PinMode::Input => Tristate::State(false),
            PinMode::Output => self.output_pin.driver.value(),
        }
    }

    fn compute_for_external(&self) -> (r: Tristate) {
        assert(self.external_value() == match self.mode {
            PinMode::Input => self.input_pin.external_value(),
            PinMode::Output => self.output_pin.external_value(),
        });
        match self.mode {
            PinMode::Input => self.input_pin.compute_for_external(),
            PinMode::Output => self.output_pin.compute_for_external(),
        }
    }
}

impl InputPin for BidirectionalPin {
    open spec fn peers(&self) -> Seq<PinLink> {
        self.input_pin.links@
    }

    /// What the pin received while in input mode; low while it drives.
    open spec fn input_value(&self) -> Tristate {
        match self.mode {
            PinMode::Input => self.input_pin.input_value,
            PinMode::Output => Tristate::State(false),
        }
    }

    fn link_to(&mut self, component: ComponentHandle, pin: PinNumber)
        ensures
            final(self).mode == old(self).mode,
            final(self).output_pin == old(self).output_pin,
            final(self).input_pin.input_state == old(self).input_pin.input_state,
            final(self).input_pin.input_value == old(self).input_pin.input_value,
    {
        self.input_pin.link_to(component, pin);
        assert(self.peers() == with_link(old(self).peers(), PinLink { component, pin }));
        assert(self.input_value() == old(self).input_value());
        assert(self.external_value() == old(self).external_value());
    }

    fn compute_input(&self) -> (r: Tristate) {
        assert(self.input_value() == match self.mode {
            PinMode::Input => self.input_pin.input_value(),
            PinMode::Output => Tristate::State(false),
        });
        match self.mode {
            PinMode::Input => self.input_pin.compute_input(),
            PinMode::Output => Tristate::State(false),
        }
    }
}

} // verus!
