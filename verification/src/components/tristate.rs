//! Three-valued logic.

use std::ops::{BitAndAssign, BitOrAssign, BitXorAssign};
use std::str::FromStr;
use vstd::prelude::*;
use vstd::string::*;

use crate::text::to_chars;

verus! {

/// The level carried on a wire: low, high or undefined.
#[derive(Debug, PartialEq, Eq, Clone, Copy, Structural)]
pub enum Tristate {
    State(bool),
    Undefined,
}

/// The text that could not be read as a [`Tristate`].
#[derive(Debug)]
pub enum ParseTristateError {
    UnknownValue(String),
}

impl Tristate {
    /// Negation: an undefined level stays undefined.
    pub open spec fn negate(self) -> Tristate {
        match self {
            Tristate::State(b) => Tristate::State(!b),
            Tristate::Undefined => Tristate::Undefined,
        }
    }

    /// Disjunction: a high level on either side wins over an undefined one.
    pub open spec fn or(self, rhs: Tristate) -> Tristate {
        if self == Tristate::State(true) || rhs == Tristate::State(true) {
            Tristate::State(true)
        } else if self == Tristate::Undefined || rhs == Tristate::Undefined {
            Tristate::Undefined
        } else {
            Tristate::State(false)
        }
    }

    /// Conjunction: a low level on either side wins over an undefined one.
    pub open spec fn and(self, rhs: Tristate) -> Tristate {
        if self == Tristate::State(false) || rhs == Tristate::State(false) {
            Tristate::State(false)
        } else if self == Tristate::Undefined || rhs == Tristate::Undefined {
            Tristate::Undefined
        } else {
            Tristate::State(true)
        }
    }

    /// Exclusive or: undefined as soon as one side is.
    pub open spec fn xor(self, rhs: Tristate) -> Tristate {
        match (self, rhs) {
            (Tristate::State(a), Tristate::State(b)) => Tristate::State(a != b),
            _ => Tristate::Undefined,
        }
    }

    /// The textual form of a level: `0`, `1` or `U`.
    pub open spec fn render(self) -> Seq<char> {
        match self {
            Tristate::State(false) => seq!['0'],
            Tristate::State(true) => seq!['1'],
            Tristate::Undefined => seq!['U'],
        }
    }

    /// The level that a text stands for, if it is one of `0`, `1` and `U`.
    pub open spec fn parse_spec(s: Seq<char>) -> Option<Tristate> {
        if s == seq!['0'] {
            Some(Tristate::State(false))
        } else if s == seq!['1'] {
            Some(Tristate::State(true))
        } else if s == seq!['U'] {
            Some(Tristate::Undefined)
        } else {
            None
        }
    }

    /// Reads a level from its textual form. Only `0`, `1` and `U` are
    /// accepted; the error carries the rejected text.
    pub fn parse(s: &str) -> (r: Result<Tristate, ParseTristateError>)
        ensures
            match r {
                Ok(v) => Tristate::parse_spec(s@) == Some(v),
                Err(ParseTristateError::UnknownValue(given)) => Tristate::parse_spec(s@) is None
                    && given@ == s@,
            },
    {
        let chars = to_chars(s);
        if chars.len() == 1 {
            let c = chars[0];
            assert(s@ =~= seq![c]);
            if c == '0' {
                return Ok(Tristate::State(false));
            } else if c == '1' {
                return Ok(Tristate::State(true));
            } else if c == 'U' {
                return Ok(Tristate::Undefined);
            }
            assert(seq!['0'][0] == '0' && seq!['1'][0] == '1' && seq!['U'][0] == 'U');
        } else {
            assert(seq!['0'].len() == 1 && seq!['1'].len() == 1 && seq!['U'].len() == 1);
        }
        Err(ParseTristateError::UnknownValue(s.to_owned()))
    }

    /// The textual form of the level.
    pub fn to_string(&self) -> (r: String)
        ensures
            r@ == self.render(),
    {
        proof {
            reveal_strlit("0");
            reveal_strlit("1");
            reveal_strlit("U");
        }
        let r = match self {
            Tristate::State(false) => "0".to_owned(),
            Tristate::State(true) => "1".to_owned(),
            Tristate::Undefined => "U".to_owned(),
        };
        assert(r@ =~= self.render());
        r
    }

    /// The textual form of the level, as a static string.
    pub fn as_str(&self) -> (r: &'static str)
        ensures
            r@ == self.render(),
    {
        proof {
            reveal_strlit("0");
            reveal_strlit("1");
            reveal_strlit("U");
        }
        let r = match self {
            Tristate::State(false) => "0",
            Tristate::State(true) => "1",
            Tristate::Undefined => "U",
        };
        assert(r@ =~= self.render());
        r
    }

    /// Reading back the textual form of a level gives that level.
    pub proof fn parse_render_roundtrip(v: Tristate)
        ensures
            Tristate::parse_spec(v.render()) == Some(v),
    {
        assert(seq!['0'][0] != seq!['1'][0]);
        assert(seq!['0'][0] != seq!['U'][0]);
        assert(seq!['1'][0] != seq!['U'][0]);
    }

    /// The only texts that stand for a level are the textual forms.
    pub proof fn parse_is_inverse_of_render(s: Seq<char>, v: Tristate)
        ensures
            Tristate::parse_spec(s) == Some(v) <==> s == v.render(),
    {
        Tristate::parse_render_roundtrip(v);
    }

    /// Negating twice gives back a defined level, and an undefined level is
    /// its own negation.
    pub proof fn double_negation(x: Tristate)
        ensures
            x.negate().negate() == x,
            Tristate::Undefined.negate() == Tristate::Undefined,
            x is State ==> x.negate() != x,
    {
    }

    /// Disjunction is commutative and associative, with the low level as
    /// its unit: the order in which driven values are aggregated is
    /// irrelevant.
    pub proof fn or_is_a_commutative_monoid(a: Tristate, b: Tristate, c: Tristate)
        ensures
            a.or(b) == b.or(a),
            a.or(b).or(c) == a.or(b.or(c)),
            a.or(Tristate::State(false)) == a,
            a.or(a) == a,
    {
    }

}

impl FromStr for Tristate {
    type Err = ParseTristateError;

    /// Reads a level from its textual form, as [`Tristate::parse`] does.
    fn from_str(s: &str) -> (r: Result<Tristate, ParseTristateError>)
        ensures
            match r {
                Ok(v) => Tristate::parse_spec(s@) == Some(v),
                Err(ParseTristateError::UnknownValue(given)) => Tristate::parse_spec(s@) is None
                    && given@ == s@,
            },
    {
        Tristate::parse(s)
    }
}

impl vstd::std_specs::convert::FromSpecImpl<bool> for Tristate {
    open spec fn obeys_from_spec() -> bool {
        true
    }

    open spec fn from_spec(value: bool) -> Tristate {
        Tristate::State(value)
    }
}

impl From<bool> for Tristate {
    fn from(value: bool) -> (r: Tristate) {
        Tristate::State(value)
    }
}

impl Default for Tristate {
    fn default() -> (r: Tristate)
        ensures
            r == Tristate::Undefined,
    {
        Tristate::Undefined
    }
}

impl vstd::std_specs::ops::BitOrSpecImpl for Tristate {
    open spec fn obeys_bitor_spec() -> bool {
        true
    }

    open spec fn bitor_req(self, rhs: Tristate) -> bool {
        true
    }

    open spec fn bitor_spec(self, rhs: Tristate) -> Tristate {
        self.or(rhs)
    }
}

impl std::ops::BitOr for Tristate {
    type Output = Tristate;

    fn bitor(self, rhs: Tristate) -> (r: Tristate) {
        match (self, rhs) {
            (Tristate::State(lhs), Tristate::State(rhs)) => Tristate::State(lhs || rhs),
            (Tristate::State(true), _) => Tristate::State(true),
            (_, Tristate::State(true)) => Tristate::State(true),
            _ => Tristate::Undefined,
        }
    }
}

impl BitOrAssign for Tristate {
    fn bitor_assign(&mut self, rhs: Tristate)
        ensures
            *final(self) == old(self).or(rhs),
    {
        *self = *self | rhs;
    }
}

impl vstd::std_specs::ops::BitAndSpecImpl for Tristate {
    open spec fn obeys_bitand_spec() -> bool {
        true
    }

    open spec fn bitand_req(self, rhs: Tristate) -> bool {
        true
    }

    open spec fn bitand_spec(self, rhs: Tristate) -> Tristate {
        self.and(rhs)
    }
}

impl std::ops::BitAnd for Tristate {
    type Output = Tristate;

    fn bitand(self, rhs: Tristate) -> (r: Tristate) {
        match (self, rhs) {
            (Tristate::State(lhs), Tristate::State(rhs)) => Tristate::State(lhs && rhs),
            (Tristate::State(false), _) => Tristate::State(false),
            (_, Tristate::State(false)) => Tristate::State(false),
            _ => Tristate::Undefined,
        }
    }
}

impl BitAndAssign for Tristate {
    fn bitand_assign(&mut self, rhs: Tristate)
        ensures
            *final(self) == old(self).and(rhs),
    {
        *self = *self & rhs;
    }
}

impl vstd::std_specs::ops::BitXorSpecImpl for Tristate {
    open spec fn obeys_bitxor_spec() -> bool {
        true
    }

    open spec fn bitxor_req(self, rhs: Tristate) -> bool {
        true
    }

    open spec fn bitxor_spec(self, rhs: Tristate) -> Tristate {
        self.xor(rhs)
    }
}

impl std::ops::BitXor for Tristate {
    type Output = Tristate;

    fn bitxor(self, rhs: Tristate) -> (r: Tristate) {
        match (self, rhs) {
            (Tristate::State(lhs), Tristate::State(rhs)) => Tristate::State(lhs != rhs),
            _ => Tristate::Undefined,
        }
    }
}

impl BitXorAssign for Tristate {
    fn bitxor_assign(&mut self, rhs: Tristate)
        ensures
            *final(self) == old(self).xor(rhs),
    {
        *self = *self ^ rhs;
    }
}

impl vstd::std_specs::ops::NotSpecImpl for Tristate {
    open spec fn obeys_not_spec() -> bool {
        true
    }

    open spec fn not_req(self) -> bool {
        true
    }

    open spec fn not_spec(self) -> Tristate {
        self.negate()
    }
}

impl std::ops::Not for Tristate {
    type Output = Tristate;

    fn not(self) -> (r: Tristate) {
        if let Tristate::State(state) = self {
            Tristate::State(!state)
        } else {
            Tristate::Undefined
        }
    }
}

} // verus!
