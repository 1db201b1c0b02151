//! Circuits: named components and a global tick.

pub mod board;
pub mod builder;
pub mod display;
pub mod parser;
pub mod steps;

pub use builder::{CircuitBuildError, CircuitBuilder};

use vstd::prelude::*;
use vstd::string::*;

use crate::circuit::board::{Board, Site};
use crate::components::Tick;
use crate::components::chipset::Chipset;
use crate::components::tristate::Tristate;
use crate::pin::pin::{Pin, PinState};
use crate::pin::settling::Place;
use crate::text::str_equal;

verus! {

/// Why a value could not be staged on an input.
#[derive(Debug, Clone, Copy)]
pub enum SetInputError<'a> {
    /// No component has that name.
    UnknownName(&'a str),
    /// The component of that name is not one that a user drives.
    NotAnInput(&'a str),
    /// The text is not a level.
    ValueParseError(&'a str),
}

/// A circuit: components under unique names, wired pin to pin, and the
/// number of ticks evaluated so far.
#[derive(Debug)]
pub struct Circuit {
    pub current_tick: Tick,
    pub names: Vec<String>,
    pub board: Board,
}

/// Where a name stands among `names`, if it does.
pub open spec fn index_of(names: Seq<String>, name: Seq<char>) -> Option<int> {
    if exists|i: int| 0 <= i < names.len() && (#[trigger] names[i])@ == name {
        Some(choose|i: int| 0 <= i < names.len() && (#[trigger] names[i])@ == name)
    } else {
        None
    }
}

/// No name stands twice among `names`.
pub open spec fn distinct(names: Seq<String>) -> bool {
    forall|i: int, j: int|
        0 <= i < names.len() && 0 <= j < names.len() && i != j ==> (#[trigger] names[i])@ != (
        #[trigger] names[j])@
}

/// Among distinct names, a name stands where it is found.
pub proof fn lemma_index_of(names: Seq<String>, name: Seq<char>, i: int)
    requires
        distinct(names),
        0 <= i < names.len(),
        names[i]@ == name,
    ensures
        index_of(names, name) == Some(i),
{
}

/// Where a name stands among `names`, if it does.
pub fn find_name(names: &Vec<String>, name: &str) -> (r: Option<usize>)
    ensures
        match r {
            Some(i) => i < names@.len() && names@[i as int]@ == name@,
            None => index_of(names@, name@) is None,
        },
        distinct(names@) ==> (match r {
            Some(i) => index_of(names@, name@) == Some(i as int),
            None => index_of(names@, name@) is None,
        }),
{
    let mut i: usize = 0;
    while i < names.len()
        invariant
            i <= names@.len(),
            forall|j: int| 0 <= j < i ==> (#[trigger] names@[j])@ != name@,
        decreases names@.len() - i,
    {
        if str_equal(names[i].as_str(), name) {
            proof {
                if distinct(names@) {
                    lemma_index_of(names@, name@, i as int);
                }
            }
            return Some(i);
        }
        i += 1;
    }
    None
}

impl Circuit {
    /// The position of the component of that name, if there is one.
    pub open spec fn position(self, name: Seq<char>) -> Option<int> {
        index_of(self.names@, name)
    }

    /// The components of the circuit, by name.
    pub open spec fn components(self) -> Map<Seq<char>, Chipset> {
        Map::new(
            |name: Seq<char>| self.position(name) is Some,
            |name: Seq<char>| self.board.chipsets@[self.position(name).unwrap()],
        )
    }

    /// Every component has one name and no two share one; the board is
    /// well formed and at rest, and speaks of no tick after the current
    /// one.
    pub open spec fn well_formed(self) -> bool {
        &&& self.names@.len() == self.board.chipsets@.len()
        &&& distinct(self.names@)
        &&& self.board.well_formed()
        &&& self.board.at_rest()
        &&& self.board.dated(self.current_tick)
    }

    /// With unique names, the position of a name is where the name stands.
    pub proof fn lemma_position(self, name: Seq<char>, i: int)
        requires
            self.well_formed(),
            0 <= i < self.names@.len(),
            self.names@[i]@ == name,
        ensures
            self.position(name) == Some(i),
            self.components().contains_key(name),
            self.components()[name] == self.board.chipsets@[i],
    {
    }

    /// The position of the component of that name, if there is one.
    pub fn find(&self, name: &str) -> (r: Option<usize>)
        ensures
            match r {
                Some(i) => i < self.names@.len() && self.names@[i as int]@ == name@,
                None => self.position(name@) is None,
            },
            self.well_formed() ==> (match r {
                Some(i) => self.position(name@) == Some(i as int),
                None => self.position(name@) is None,
            }),
    {
        find_name(&self.names, name)
    }

    /// Whether the circuit has a component of that name.
    pub fn has_component(&self, name: &str) -> (r: bool)
        ensures
            r == self.components().contains_key(name@),
    {
        self.find(name).is_some()
    }

    /// The number of ticks evaluated so far.
    pub fn get_tick(&self) -> (r: Tick)
        ensures
            r == self.current_tick,
    {
        self.current_tick
    }

    /// The number of components.
    pub fn len(&self) -> (r: usize)
        ensures
            r == self.names@.len(),
    {
        self.names.len()
    }

    /// The level that the input of that name shows; nothing if no
    /// component has that name or if it is not one that a user drives.
    pub fn input_level(&self, name: &str) -> (r: Option<Tristate>)
        requires
            self.well_formed(),
        ensures
            r == if self.components().contains_key(name@) {
                self.components()[name@].input_state()
            } else {
                None
            },
    {
        match self.find(name) {
            Some(i) => {
                proof {
                    self.lemma_position(name@, i as int);
                }
                self.board.chipsets[i].input_level()
            },
            None => None,
        }
    }

    /// The level that the output of that name last sampled; nothing if no
    /// component has that name or if it is not one that a user observes.
    pub fn output_level(&self, name: &str) -> (r: Option<Tristate>)
        requires
            self.well_formed(),
        ensures
            r == if self.components().contains_key(name@) {
                self.components()[name@].output_value()
            } else {
                None
            },
    {
        match self.find(name) {
            Some(i) => {
                proof {
                    self.lemma_position(name@, i as int);
                }
                self.board.chipsets[i].output_level()
            },
            None => None,
        }
    }

    /// Stages a level on the input of that name: the input shows it from
    /// the next tick on. Nothing is evaluated. An unknown name and a
    /// component that no user drives are reported and leave the circuit
    /// as it is.
    pub fn stage<'a>(&mut self, name: &'a str, state: Tristate) -> (r: Result<(), SetInputError<'a>>)
        requires
            old(self).well_formed(),
        ensures
            final(self).well_formed(),
            match r {
                Ok(()) => {
                    &&& old(self).position(name@) matches Some(i)
                    &&& old(self).board.chipsets@[i].input_state() is Some
                    &&& old(self).staged_at(*final(self), i, state)
                },
                Err(SetInputError::UnknownName(text)) => {
                    &&& old(self).position(name@) is None
                    &&& text@ == name@
                    &&& *final(self) == *old(self)
                },
                Err(SetInputError::NotAnInput(text)) => {
                    &&& old(self).position(name@) matches Some(i)
                    &&& old(self).board.chipsets@[i].input_state() is None
                    &&& text@ == name@
                    &&& *final(self) == *old(self)
                },
                Err(SetInputError::ValueParseError(_)) => false,
            },
    {
        let i = match self.find(name) {
            Some(i) => i,
            None => {
                return Err(SetInputError::UnknownName(name));
            },
        };
        if self.board.chipsets[i].input_level().is_none() {
            return Err(SetInputError::NotAnInput(name));
        }
        let staged = self.board.chipsets[i].stage(state);
        proof {
            old(self).lemma_staged(*self, i as int, state);
        }
        Ok(())
    }

    /// The level that the input of that name shows, as text; nothing if
    /// no component has that name or if it is not one that a user drives.
    pub fn get_input(&self, name: &str) -> (r: Option<String>)
        requires
            self.well_formed(),
        ensures
            match r {
                Some(text) => {
                    &&& self.components().contains_key(name@)
                    &&& self.components()[name@].input_state() matches Some(state)
                    &&& text@ == state.render()
                },
                None => !self.components().contains_key(name@) || self.components()[name@].input_state()
                    is None,
            },
    {
        match self.input_level(name) {
            Some(state) => Some(state.to_string()),
            None => None,
        }
    }

    /// The level that the output of that name last sampled, as text;
    /// nothing if no component has that name or if it is not one that a
    /// user observes.
    pub fn get_output(&self, name: &str) -> (r: Option<String>)
        requires
            self.well_formed(),
        ensures
            match r {
                Some(text) => {
                    &&& self.components().contains_key(name@)
                    &&& self.components()[name@].output_value() matches Some(state)
                    &&& text@ == state.render()
                },
                None => !self.components().contains_key(name@) || self.components()[name@].output_value()
                    is None,
            },
    {
        match self.output_level(name) {
            Some(state) => Some(state.to_string()),
            None => None,
        }
    }

    /// `next` is this circuit with `state` staged on the input at
    /// position `i`, and nothing else touched.
    pub open spec fn staged_at(self, next: Circuit, i: int, state: Tristate) -> bool {
        &&& next.current_tick == self.current_tick
        &&& next.names == self.names
        &&& next.board.chipsets@.len() == self.board.chipsets@.len()
        &&& self.board.chipsets@[i].staging(next.board.chipsets@[i], state)
        &&& forall|c: int|
            0 <= c < self.board.chipsets@.len() && c != i ==> #[trigger] next.board.chipsets@[c]
                == self.board.chipsets@[c]
    }

    /// Stages a level, given as text, on the input of that name: the
    /// input shows it from the next tick on. Nothing is evaluated. A text
    /// that is no level, an unknown name and a component that no user
    /// drives are reported, in this order, and leave the circuit as it
    /// is.
    pub fn set_value<'a>(&mut self, name: &'a str, value: &'a str) -> (r: Result<
        (),
        SetInputError<'a>,
    >)
        requires
            old(self).well_formed(),
        ensures
            final(self).well_formed(),
            match r {
                Ok(()) => {
                    &&& Tristate::parse_spec(value@) matches Some(state)
                    &&& old(self).position(name@) matches Some(i)
                    &&& old(self).board.chipsets@[i].input_state() is Some
                    &&& old(self).staged_at(*final(self), i, state)
                },
                Err(SetInputError::ValueParseError(text)) => {
                    &&& Tristate::parse_spec(value@) is None
                    &&& text@ == value@
                    &&& *final(self) == *old(self)
                },
                Err(SetInputError::UnknownName(text)) => {
                    &&& Tristate::parse_spec(value@) is Some
                    &&& old(self).position(name@) is None
                    &&& text@ == name@
                    &&& *final(self) == *old(self)
                },
                Err(SetInputError::NotAnInput(text)) => {
                    &&& Tristate::parse_spec(value@) is Some
                    &&& old(self).position(name@) matches Some(i)
                    &&& old(self).board.chipsets@[i].input_state() is None
                    &&& text@ == name@
                    &&& *final(self) == *old(self)
                },
            },
    {
        let state: Tristate = match Tristate::parse(value) {
            Ok(state) => state,
            Err(_) => {
                return Err(SetInputError::ValueParseError(value));
            },
        };
        self.stage(name, state)
    }

    /// A constant shows its level at every tick: in a well-formed
    /// circuit, which is what building gives and what staging values and
    /// evaluating ticks keep, the one pin of a constant drives high, or
    /// low, and nothing else.
    pub proof fn constants_show_their_level(self, name: Seq<char>)
        requires
            self.well_formed(),
            self.components().contains_key(name),
        ensures
            self.components()[name] is True ==> self.components()[name].pins().pin(
                1,
            ).external_value() == Tristate::State(true),
            self.components()[name] is False ==> self.components()[name].pins().pin(
                1,
            ).external_value() == Tristate::State(false),
    {
        let i = self.position(name).unwrap();
        assert(self.board.chipsets@[i].well_formed());
    }

    /// Staging a level keeps the circuit well formed.
    pub proof fn lemma_staged(self, next: Circuit, i: int, state: Tristate)
        requires
            self.well_formed(),
            0 <= i < self.names@.len(),
            self.staged_at(next, i, state),
        ensures
            next.well_formed(),
            forall|site: Site| #[trigger] self.board.has_site(site) <==> next.board.has_site(site),
            forall|site: Site| #[trigger]
                self.board.has_site(site) ==> next.board.unit(site) == self.board.unit(site),
    {
        let a = self.board;
        let b = next.board;
        assert forall|site: Site| #[trigger] a.has_site(site) <==> b.has_site(site) by {
        }
        assert forall|site: Site| #[trigger] a.has_site(site) implies b.unit(site) == a.unit(
            site,
        ) by {
        }
        assert forall|c: int| 0 <= c < a.chipsets@.len() implies (#[trigger] a.chipsets@[c]).same_wiring(
            b.chipsets@[c],
        ) && a.chipsets@[c].same_constant(b.chipsets@[c]) by {
            let x = a.chipsets@[c];
            let y = b.chipsets@[c];
            assert(y.pins() == x.pins());
            assert(y.subs() == x.subs());
            x.lemma_same_kind(x, x);
            x.pins().lemma_advances_reflexive(0);
            x.pins().lemma_wiring_advances(x.pins(), 0);
            assert forall|g: int| 0 <= g < x.subs().len() implies (#[trigger] x.subs()[g]).same_wiring(
                y.subs()[g],
            ) by {
                x.subs()[g].lemma_advances_reflexive(0);
                x.subs()[g].lemma_wiring_advances(x.subs()[g], 0);
            }
        }
        a.lemma_well_formed_same_wiring(b);
        assert forall|site: Site| #[trigger] b.has_site(site) implies b.unit(site).at_rest()
            && b.unit(site).dated(self.current_tick) by {
            assert(a.has_site(site));
        }
    }

    /// Evaluates one tick: the tick counter goes up by one, and every
    /// component is evaluated for the new tick, each once.
    ///
    /// Afterwards every component was evaluated for the new tick, and
    /// shows the result that its kind defines from what it held before
    /// and what its pins received. On a circuit without feedback, which
    /// is one whose board can be layered, every pin that receives has
    /// received the disjunction of what its peers drive after the tick.
    pub fn simulate(&mut self)
        requires
            old(self).well_formed(),
            old(self).current_tick < usize::MAX,
        ensures
            final(self).well_formed(),
            final(self).current_tick == old(self).current_tick + 1,
            final(self).names == old(self).names,
            old(self).board.advances_to(final(self).board, final(self).current_tick),
            final(self).board.within(final(self).current_tick),
            forall|c: int|
                0 <= c < final(self).board.chipsets@.len() ==> {
                    &&& (#[trigger] final(self).board.chipsets@[c]).pins().state
                        == PinState::Available(final(self).current_tick)
                    &&& old(self).board.chipsets@[c].evaluated(None, final(self).board.chipsets@[c])
                },
            forall|rank: spec_fn(Place) -> nat| #[trigger]
                old(self).board.layered_by(rank) ==> final(self).board.all_settled(
                    final(self).current_tick,
                ),
    {
        let ghost start = self.board;
        let ghost before = self.current_tick;
        self.current_tick += 1;
        let tick = self.current_tick;
        proof {
            start.lemma_rest_within(before, tick);
            start.lemma_dated_settled(before, tick);
        }
        self.board.simulate_all(tick);
        proof {
            start.lemma_advances_rest(self.board, before, tick);
            assert forall|c: int| 0 <= c < self.board.chipsets@.len() implies start.chipsets@[c].evaluated(
                None,
                #[trigger] self.board.chipsets@[c],
            ) by {
                assert(start.chipsets.len() == start.chipsets@.len());
                assert(start.has_site(Site { component: c as usize, inner: None }));
            }
        }
    }
}

} // verus!
