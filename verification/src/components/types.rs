//! The names under which the catalog is known.

use std::str::FromStr;
use vstd::prelude::*;
use vstd::string::*;

use crate::text::str_equal;

verus! {

/// Why a text is not the name of a component type.
#[derive(Debug, Clone, Copy, PartialEq, Eq, Structural)]
pub enum ParseComponentTypeError {
    InvalidValue,
}

/// An entry of the catalog.
#[derive(Debug, PartialEq, Eq, Clone, Copy, Structural)]
pub enum ComponentType {
    /// A user-driven source.
    Input,
    /// A user-observed probe.
    Output,
    /// A source that toggles at each tick.
    Clock,
    /// The constant high level.
    True,
    /// The constant low level.
    False,
    /// Four NOR gates.
    C4001,
    /// Four NAND gates.
    C4011,
    /// Four XOR gates.
    C4030,
    /// Six inverters.
    C4069,
    /// Four OR gates.
    C4071,
    /// Four AND gates.
    C4081,
}

impl ComponentType {
    /// The name of the type.
    pub open spec fn name(self) -> Seq<char> {
        match self {
            ComponentType::Input => "input"@,
            ComponentType::Output => "output"@,
            ComponentType::Clock => "clock"@,
            ComponentType::True => "true"@,
            ComponentType::False => "false"@,
            ComponentType::C4001 => "4001"@,
            ComponentType::C4011 => "4011"@,
            ComponentType::C4030 => "4030"@,
            ComponentType::C4069 => "4069"@,
            ComponentType::C4071 => "4071"@,
            ComponentType::C4081 => "4081"@,
        }
    }

    /// The type that a name stands for, if any.
    pub open spec fn named(name: Seq<char>) -> Option<ComponentType> {
        if name == "input"@ {
            Some(ComponentType::Input)
        } else if name == "output"@ {
            Some(ComponentType::Output)
        } else if name == "clock"@ {
            Some(ComponentType::Clock)
        } else if name == "true"@ {
            Some(ComponentType::True)
        } else if name == "false"@ {
            Some(ComponentType::False)
        } else if name == "4001"@ {
            Some(ComponentType::C4001)
        } else if name == "4011"@ {
            Some(ComponentType::C4011)
        } else if name == "4030"@ {
            Some(ComponentType::C4030)
        } else if name == "4069"@ {
            Some(ComponentType::C4069)
        } else if name == "4071"@ {
            Some(ComponentType::C4071)
        } else if name == "4081"@ {
            Some(ComponentType::C4081)
        } else {
            None
        }
    }

    /// Reads the name of a type. Names are case-sensitive.
    pub fn parse(s: &str) -> (r: Result<ComponentType, ParseComponentTypeError>)
        ensures
            match r {
                Ok(component_type) => ComponentType::named(s@) == Some(component_type),
                Err(_) => ComponentType::named(s@) is None,
            },
    {
        if str_equal(s, "input") {
            Ok(ComponentType::Input)
        } else if str_equal(s, "output") {
            Ok(ComponentType::Output)
        } else if str_equal(s, "clock") {
            Ok(ComponentType::Clock)
        } else if str_equal(s, "true") {
            Ok(ComponentType::True)
        } else if str_equal(s, "false") {
            Ok(ComponentType::False)
        } else if str_equal(s, "4001") {
            Ok(ComponentType::C4001)
        } else if str_equal(s, "4011") {
            Ok(ComponentType::C4011)
        } else if str_equal(s, "4030") {
            Ok(ComponentType::C4030)
        } else if str_equal(s, "4069") {
            Ok(ComponentType::C4069)
        } else if str_equal(s, "4071") {
            Ok(ComponentType::C4071)
        } else if str_equal(s, "4081") {
            Ok(ComponentType::C4081)
        } else {
            Err(ParseComponentTypeError::InvalidValue)
        }
    }

    /// The name of the type, as a static string.
    pub fn as_str(&self) -> (r: &'static str)
        ensures
            r@ == self.name(),
    {
        match self {
            ComponentType::Input => "input",
            ComponentType::Output => "output",
            ComponentType::Clock => "clock",
            ComponentType::True => "true",
            ComponentType::False => "false",
            ComponentType::C4001 => "4001",
            ComponentType::C4011 => "4011",
            ComponentType::C4030 => "4030",
            ComponentType::C4069 => "4069",
            ComponentType::C4071 => "4071",
            ComponentType::C4081 => "4081",
        }
    }

    /// The name of the type.
    pub fn to_string(&self) -> (r: String)
        ensures
            r@ == self.name(),
    {
        self.as_str().to_owned()
    }

    /// Reading the name of a type gives that type: no two types share a
    /// name.
    pub proof fn name_roundtrip(component_type: ComponentType)
        ensures
            ComponentType::named(component_type.name()) == Some(component_type),
    {
        reveal_strlit("input");
        reveal_strlit("output");
        reveal_strlit("clock");
        reveal_strlit("true");
        reveal_strlit("false");
        reveal_strlit("4001");
        reveal_strlit("4011");
        reveal_strlit("4030");
        reveal_strlit("4069");
        reveal_strlit("4071");
        reveal_strlit("4081");
        let name = component_type.name();
        assert("input"@[0] == 'i' && "clock"@[0] == 'c' && "false"@[0] == 'f');
        assert("true"@[0] == 't' && "4001"@[0] == '4' && "4011"@[0] == '4');
        assert("4001"@[2] == '0' && "4011"@[2] == '1' && "4030"@[2] == '3' && "4069"@[2] == '6'
            && "4071"@[2] == '7' && "4081"@[2] == '8');
        assert("4030"@[0] == '4' && "4069"@[0] == '4' && "4071"@[0] == '4' && "4081"@[0] == '4');
    }
}

impl FromStr for ComponentType {
    type Err = ParseComponentTypeError;

    /// Reads the name of a type, as [`ComponentType::parse`] does.
    fn from_str(s: &str) -> (r: Result<ComponentType, ParseComponentTypeError>)
        ensures
            match r {
                Ok(component_type) => ComponentType::named(s@) == Some(component_type),
                Err(_) => ComponentType::named(s@) is None,
            },
    {
        ComponentType::parse(s)
    }
}

} // verus!
