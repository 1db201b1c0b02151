//! The textual description of a circuit.
//!
//! A description is read line by line. A `#` starts a comment that runs to
//! the end of its line, and lines without anything else are skipped. The
//! line `.chipsets:` opens the list of components, one `type name` per
//! line; the line `.links:` opens the list of links, one `name:pin name:pin`
//! per line. The components come first, and neither list is opened twice.

use vstd::prelude::*;
use vstd::string::*;

use crate::circuit::board::Board;
use crate::circuit::builder::{CircuitBuildError, CircuitBuilder};
use crate::circuit::{Circuit, distinct, index_of};
use crate::components::PinNumber;
use crate::components::chipset::Chipset;
use crate::components::factory::{ComponentFactory, DefaultComponentFactory};
use crate::components::types::ComponentType;
use crate::pin::pin::PinState;
use crate::pin::settling::Place;
use crate::text::{
    Scan,
    first_where,
    lemma_first_where,
    number_at,
    number_to_string,
    parse_number,
    scan_for,
    to_chars,
    trim_end,
    trimmed_end,
};

verus! {

/// What is wrong with the form of a description.
#[derive(Debug)]
pub enum SyntaxErrorKind {
    /// A line of the list of components is not `type name`.
    InvalidChipsetFormat,
    /// A line of the list of links is not `name:pin name:pin`.
    InvalidLinkFormat,
    /// What stands for a pin is not a number.
    InvalidLinkPin { pin: String },
    /// Something stands before the list of components.
    FirstDeclarationMismatch,
    /// A list is opened a second time.
    DeclarationDuplicate { declaration: String },
    /// The description opens no list.
    Empty,
}

/// What is wrong with the form of a description, as plain data.
pub enum SyntaxFault {
    InvalidChipsetFormat,
    InvalidLinkFormat,
    InvalidLinkPin { pin: Seq<char> },
    FirstDeclarationMismatch,
    DeclarationDuplicate { declaration: Seq<char> },
    Empty,
}

impl View for SyntaxErrorKind {
    type V = SyntaxFault;

    open spec fn view(&self) -> SyntaxFault {
        match self {
            SyntaxErrorKind::InvalidChipsetFormat => SyntaxFault::InvalidChipsetFormat,
            SyntaxErrorKind::InvalidLinkFormat => SyntaxFault::InvalidLinkFormat,
            SyntaxErrorKind::InvalidLinkPin { pin } => SyntaxFault::InvalidLinkPin { pin: pin@ },
            SyntaxErrorKind::FirstDeclarationMismatch => SyntaxFault::FirstDeclarationMismatch,
            SyntaxErrorKind::DeclarationDuplicate {
                declaration,
            } => SyntaxFault::DeclarationDuplicate { declaration: declaration@ },
            SyntaxErrorKind::Empty => SyntaxFault::Empty,
        }
    }
}

/// One of the two lists of a description.
#[derive(Debug, Clone, Copy, PartialEq, Eq, Structural)]
pub enum Declaration {
    Chipsets,
    Links,
}

/// What a line of a description asks for.
#[derive(Debug, Clone, Copy)]
pub enum Instruction<'a> {
    AddComponent { name: &'a str, component_type: &'a str },
    LinkComponents {
        left_name: &'a str,
        left_pin: PinNumber,
        right_name: &'a str,
        right_pin: PinNumber,
    },
}

/// What a line of a description asks for, as plain data.
pub enum Request {
    AddComponent { name: Seq<char>, component_type: Seq<char> },
    LinkComponents {
        left_name: Seq<char>,
        left_pin: PinNumber,
        right_name: Seq<char>,
        right_pin: PinNumber,
    },
}

impl<'a> View for Instruction<'a> {
    type V = Request;

    open spec fn view(&self) -> Request {
        match self {
            Instruction::AddComponent { name, component_type } => Request::AddComponent {
                name: name@,
                component_type: component_type@,
            },
            Instruction::LinkComponents {
                left_name,
                left_pin,
                right_name,
                right_pin,
            } => Request::LinkComponents {
                left_name: left_name@,
                left_pin: *left_pin,
                right_name: right_name@,
                right_pin: *right_pin,
            },
        }
    }
}

/// An instruction and the number of the line on which it stands, counted
/// from 1.
#[derive(Debug, Clone, Copy)]
pub struct Line<'a> {
    pub index: usize,
    pub instruction: Instruction<'a>,
}

impl<'a> View for Line<'a> {
    type V = (usize, Request);

    open spec fn view(&self) -> (usize, Request) {
        (self.index, self.instruction@)
    }
}

/// The instructions of a list of lines, as plain data.
pub open spec fn requests(lines: Seq<Line>) -> Seq<(usize, Request)> {
    Seq::new(lines.len(), |i: int| lines[i]@)
}

/// Which lists a description has opened so far, and which one it is in.
pub struct Progress {
    pub current: Option<Declaration>,
    pub chipsets: bool,
    pub links: bool,
}

impl Progress {
    /// Before the first line.
    pub open spec fn start() -> Progress {
        Progress { current: None, chipsets: false, links: false }
    }

    /// Whether the list was opened.
    pub open spec fn declared(self, declaration: Declaration) -> bool {
        match declaration {
            Declaration::Chipsets => self.chipsets,
            Declaration::Links => self.links,
        }
    }

    /// After the list was opened.
    pub open spec fn declare(self, declaration: Declaration) -> Progress {
        match declaration {
            Declaration::Chipsets => Progress { current: Some(declaration), chipsets: true, ..self },
            Declaration::Links => Progress { current: Some(declaration), links: true, ..self },
        }
    }
}

/// The list that a line opens, if it opens one.
pub open spec fn declaration_of(content: Seq<char>) -> Option<Declaration> {
    if content == ".chipsets:"@ {
        Some(Declaration::Chipsets)
    } else if content == ".links:"@ {
        Some(Declaration::Links)
    } else {
        None
    }
}

/// Where the first word of a text ends.
pub open spec fn first_word_end(s: Seq<char>) -> int {
    first_where(s, Scan::Space, 0, s.len() as int)
}

/// Where the second word of a text starts; the end of the text if there
/// is none.
pub open spec fn second_word_start(s: Seq<char>) -> int {
    first_where(s, Scan::NonSpace, first_word_end(s), s.len() as int)
}

/// Whether a text, which neither starts nor ends with white space, is two
/// words with white space between them.
pub open spec fn two_words(s: Seq<char>) -> bool {
    &&& second_word_start(s) < s.len()
    &&& first_where(s, Scan::Space, second_word_start(s), s.len() as int) == s.len()
}

/// What a line of the list of components asks for: `type name`.
pub open spec fn chipset_request(s: Seq<char>) -> Result<Request, SyntaxFault> {
    if two_words(s) {
        Ok(
            Request::AddComponent {
                name: s.subrange(second_word_start(s), s.len() as int),
                component_type: s.subrange(0, first_word_end(s)),
            },
        )
    } else {
        Err(SyntaxFault::InvalidChipsetFormat)
    }
}

/// The end of a link that a word names: `name:pin`, with one colon.
pub open spec fn endpoint(s: Seq<char>) -> Result<(Seq<char>, usize), SyntaxFault> {
    let colon = first_where(s, Scan::Char(':'), 0, s.len() as int);
    if colon < s.len() && first_where(s, Scan::Char(':'), colon + 1, s.len() as int) == s.len() {
        match number_at(s, colon + 1, s.len() as int) {
            Some(pin) => Ok((s.subrange(0, colon), pin)),
            None => Err(SyntaxFault::InvalidLinkPin { pin: s.subrange(colon + 1, s.len() as int) }),
        }
    } else {
        Err(SyntaxFault::InvalidLinkFormat)
    }
}

/// What a line of the list of links asks for: `name:pin name:pin`. Of two
/// faults the one further left is reported.
pub open spec fn link_request(s: Seq<char>) -> Result<Request, SyntaxFault> {
    if two_words(s) {
        match endpoint(s.subrange(0, first_word_end(s))) {
            Ok((left_name, left_pin)) => match endpoint(
                s.subrange(second_word_start(s), s.len() as int),
            ) {
                Ok((right_name, right_pin)) => Ok(
                    Request::LinkComponents { left_name, left_pin, right_name, right_pin },
                ),
                Err(fault) => Err(fault),
            },
            Err(fault) => Err(fault),
        }
    } else {
        Err(SyntaxFault::InvalidLinkFormat)
    }
}

/// What is left of a line once its comment and the white space around the
/// rest are cut off, as the positions where it starts and ends in `s`. The
/// line starts at `start` and runs to `end`.
pub open spec fn content_range(s: Seq<char>, start: int, end: int) -> (int, int) {
    let cut = first_where(s, Scan::Char('#'), start, end);
    let a = first_where(s, Scan::NonSpace, start, cut);
    (a, trimmed_end(s, a, cut))
}

/// What the lines of `s` from position `start` on ask for, where the line
/// at `start` has the number `number`, `progress` tells which lists the
/// lines before have opened, and `done` is what they asked for: all the
/// instructions in order, each with its line number, or the first fault
/// with its line number. A description that opens no list is faulty as a
/// whole, which is reported for line 0.
pub open spec fn parse_from(
    s: Seq<char>,
    start: int,
    number: int,
    progress: Progress,
    done: Seq<(usize, Request)>,
) -> Result<Seq<(usize, Request)>, (usize, SyntaxFault)>
    decreases s.len() + 1 - start,
{
    if start < 0 || start > s.len() {
        if !progress.chipsets && !progress.links {
            Err((0, SyntaxFault::Empty))
        } else {
            Ok(done)
        }
    } else {
        let end = first_where(s, Scan::Char('\n'), start, s.len() as int);
        let (a, b) = content_range(s, start, end);
        if end < start || end > s.len() {
            Ok(done)
        } else if a == b {
            parse_from(s, end + 1, number + 1, progress, done)
        } else {
            match declaration_of(s.subrange(a, b)) {
                Some(declaration) => {
                    if progress.declared(declaration) {
                        Err(
                            (
                                number as usize,
                                SyntaxFault::DeclarationDuplicate { declaration: s.subrange(a, b) },
                            ),
                        )
                    } else if progress.current is None && declaration != Declaration::Chipsets {
                        Err((number as usize, SyntaxFault::FirstDeclarationMismatch))
                    } else {
                        parse_from(s, end + 1, number + 1, progress.declare(declaration), done)
                    }
                },
                None => {
                    let request = match progress.current {
                        Some(Declaration::Chipsets) => chipset_request(s.subrange(a, b)),
                        Some(Declaration::Links) => link_request(s.subrange(a, b)),
                        None => Err(SyntaxFault::FirstDeclarationMismatch),
                    };
                    match request {
                        Ok(request) => parse_from(
                            s,
                            end + 1,
                            number + 1,
                            progress,
                            done.push((number as usize, request)),
                        ),
                        Err(fault) => Err((number as usize, fault)),
                    }
                },
            }
        }
    }
}

/// What a description asks for: its instructions in order, each with its
/// line number, or its first fault.
pub open spec fn parse(s: Seq<char>) -> Result<Seq<(usize, Request)>, (usize, SyntaxFault)> {
    parse_from(s, 0, 1, Progress::start(), Seq::empty())
}

/// The outcome of reading a line, as plain data.
pub open spec fn request_outcome(r: Result<Instruction, SyntaxErrorKind>) -> Result<
    Request,
    SyntaxFault,
> {
    match r {
        Ok(instruction) => Ok(instruction@),
        Err(kind) => Err(kind@),
    }
}

/// The outcome of reading one end of a link, as plain data.
pub open spec fn endpoint_outcome(r: Result<(&str, PinNumber), SyntaxErrorKind>) -> Result<
    (Seq<char>, usize),
    SyntaxFault,
> {
    match r {
        Ok((name, pin)) => Ok((name@, pin)),
        Err(kind) => Err(kind@),
    }
}

/// The outcome of reading a description, as plain data.
pub open spec fn lines_outcome(r: Result<Vec<Line>, (usize, SyntaxErrorKind)>) -> Result<
    Seq<(usize, Request)>,
    (usize, SyntaxFault),
> {
    match r {
        Ok(lines) => Ok(requests(lines@)),
        Err((line, kind)) => Err((line, kind@)),
    }
}

impl Progress {
    /// Whether the list was opened.
    pub fn is_declared(&self, declaration: Declaration) -> (r: bool)
        ensures
            r == self.declared(declaration),
    {
        match declaration {
            Declaration::Chipsets => self.chipsets,
            Declaration::Links => self.links,
        }
    }

    /// Opens the list.
    pub fn open(&mut self, declaration: Declaration)
        ensures
            *final(self) == old(self).declare(declaration),
    {
        self.current = Some(declaration);
        match declaration {
            Declaration::Chipsets => {
                self.chipsets = true;
            },
            Declaration::Links => {
                self.links = true;
            },
        }
    }
}

/// Reads the textual description of a circuit.
pub struct Parser;

impl Parser {
    /// Reads a line of the list of components, without its comment and
    /// the white space around it.
    pub fn parse_chipset_line<'a>(content: &'a str) -> (r: Result<
        Instruction<'a>,
        SyntaxErrorKind,
    >)
        ensures
            request_outcome(r) == chipset_request(content@),
    {
        let chars = to_chars(content);
        let n = chars.len();
        let first_end = scan_for(&chars, Scan::Space, 0, n);
        let second_start = scan_for(&chars, Scan::NonSpace, first_end, n);
        if second_start < n && scan_for(&chars, Scan::Space, second_start, n) == n {
            Ok(
                Instruction::AddComponent {
                    name: content.substring_char(second_start, n),
                    component_type: content.substring_char(0, first_end),
                },
            )
        } else {
            Err(SyntaxErrorKind::InvalidChipsetFormat)
        }
    }

    /// Reads one end of a link: `name:pin`.
    pub fn parse_simple_link<'a>(content: &'a str) -> (r: Result<
        (&'a str, PinNumber),
        SyntaxErrorKind,
    >)
        ensures
            endpoint_outcome(r) == endpoint(content@),
    {
        let chars = to_chars(content);
        let n = chars.len();
        let colon = scan_for(&chars, Scan::Char(':'), 0, n);
        if colon < n && scan_for(&chars, Scan::Char(':'), colon + 1, n) == n {
            match parse_number(&chars, colon + 1, n) {
                Some(pin) => Ok((content.substring_char(0, colon), pin)),
                None => Err(
                    SyntaxErrorKind::InvalidLinkPin {
                        pin: content.substring_char(colon + 1, n).to_owned(),
                    },
                ),
            }
        } else {
            Err(SyntaxErrorKind::InvalidLinkFormat)
        }
    }

    /// Reads a line of the list of links, without its comment and the
    /// white space around it.
    pub fn parse_link_line<'a>(content: &'a str) -> (r: Result<Instruction<'a>, SyntaxErrorKind>)
        ensures
            request_outcome(r) == link_request(content@),
    {
        let chars = to_chars(content);
        let n = chars.len();
        let first_end = scan_for(&chars, Scan::Space, 0, n);
        let second_start = scan_for(&chars, Scan::NonSpace, first_end, n);
        if second_start < n && scan_for(&chars, Scan::Space, second_start, n) == n {
            let (left_name, left_pin) = match Self::parse_simple_link(
                content.substring_char(0, first_end),
            ) {
                Ok(found) => found,
                Err(kind) => {
                    return Err(kind);
                },
            };
            let (right_name, right_pin) = match Self::parse_simple_link(
                content.substring_char(second_start, n),
            ) {
                Ok(found) => found,
                Err(kind) => {
                    return Err(kind);
                },
            };
            Ok(Instruction::LinkComponents { left_name, left_pin, right_name, right_pin })
        } else {
            Err(SyntaxErrorKind::InvalidLinkFormat)
        }
    }

    /// Reads a description into its instructions, in order, each with the
    /// number of its line; the first fault ends the reading and is
    /// reported with the number of its line.
    pub fn parse_lines<'a>(input: &'a str) -> (r: Result<Vec<Line<'a>>, (usize, SyntaxErrorKind)>)
        ensures
            lines_outcome(r) == parse(input@),
    {
        let chars = to_chars(input);
        let n = chars.len();
        let mut output: Vec<Line<'a>> = Vec::new();
        let mut progress = Progress { current: None, chipsets: false, links: false };
        let mut start: usize = 0;
        let mut newlines: usize = 0;
        let ghost s = input@;
        assert(requests(output@) =~= Seq::empty());
        loop
            invariant_except_break
                parse(s) == parse_from(
                    s,
                    start as int,
                    newlines + 1,
                    progress,
                    requests(output@),
                ),
            invariant
                chars@ == s,
                s == input@,
                n == s.len(),
                start <= n,
                newlines <= start,
            ensures
                parse(s) == parse_from(s, n + 1, newlines + 2, progress, requests(output@)),
            decreases n - start,
        {
            let end = scan_for(&chars, Scan::Char('\n'), start, n);
            let cut = scan_for(&chars, Scan::Char('#'), start, end);
            let a = scan_for(&chars, Scan::NonSpace, start, cut);
            let b = trim_end(&chars, a, cut);
            proof {
                lemma_first_where(s, Scan::Char('\n'), start as int, n as int);
            }
            if a < b {
                let index = newlines + 1;
                let content = input.substring_char(a, b);
                let declaration = if crate::text::str_equal(content, ".chipsets:") {
                    Some(Declaration::Chipsets)
                } else if crate::text::str_equal(content, ".links:") {
                    Some(Declaration::Links)
                } else {
                    None
                };
                assert(declaration == declaration_of(s.subrange(a as int, b as int)));
                match declaration {
                    Some(declaration) => {
                        if progress.is_declared(declaration) {
                            return Err(
                                (
                                    index,
                                    SyntaxErrorKind::DeclarationDuplicate {
                                        declaration: content.to_owned(),
                                    },
                                ),
                            );
                        }
                        if progress.current.is_none() && declaration != Declaration::Chipsets {
                            return Err((index, SyntaxErrorKind::FirstDeclarationMismatch));
                        }
                        progress.open(declaration);
                    },
                    None => {
                        let instruction: Result<Instruction<'a>, SyntaxErrorKind> =
                            match progress.current {
                            Some(Declaration::Chipsets) => Self::parse_chipset_line(content),
                            Some(Declaration::Links) => Self::parse_link_line(content),
                            None => Err(SyntaxErrorKind::FirstDeclarationMismatch),
                        };
                        match instruction {
                            Ok(instruction) => {
                                let ghost before = output@;
                                output.push(Line { index, instruction });
                                assert(requests(output@) =~= requests(before).push(
                                    (index, instruction@),
                                ));
                            },
                            Err(kind) => {
                                return Err((index, kind));
                            },
                        }
                    },
                }
            }
            if end == n {
                break ;
            }
            start = end + 1;
            newlines = newlines + 1;
        }
        if !progress.chipsets && !progress.links {
            return Err((0, SyntaxErrorKind::Empty));
        }
        Ok(output)
    }
}

/// Why the circuit that a description asks for cannot be built.
#[derive(Debug)]
pub enum BuildErrorKind {
    /// The description lists no component.
    NoChipset,
    /// Two components are listed under one name.
    ComponentNameExists { name: String },
    /// A link names a component that is not listed.
    ComponentNameUnknown { value: String },
    /// A component is of a type that the catalog does not have.
    ComponentTypeUnknown { value: String },
    /// A link names a pin that its component does not have.
    ComponentLinkIssue { name: String, component_type: String, pin: PinNumber },
}

/// Why the circuit that a description asks for cannot be built, as plain
/// data.
pub enum BuildFault {
    NoChipset,
    ComponentNameExists { name: Seq<char> },
    ComponentNameUnknown { value: Seq<char> },
    ComponentTypeUnknown { value: Seq<char> },
    ComponentLinkIssue { name: Seq<char>, component_type: Seq<char>, pin: PinNumber },
}

impl View for BuildErrorKind {
    type V = BuildFault;

    open spec fn view(&self) -> BuildFault {
        match self {
            BuildErrorKind::NoChipset => BuildFault::NoChipset,
            BuildErrorKind::ComponentNameExists { name } => BuildFault::ComponentNameExists {
                name: name@,
            },
            BuildErrorKind::ComponentNameUnknown { value } => BuildFault::ComponentNameUnknown {
                value: value@,
            },
            BuildErrorKind::ComponentTypeUnknown { value } => BuildFault::ComponentTypeUnknown {
                value: value@,
            },
            BuildErrorKind::ComponentLinkIssue {
                name,
                component_type,
                pin,
            } => BuildFault::ComponentLinkIssue {
                name: name@,
                component_type: component_type@,
                pin: *pin,
            },
        }
    }
}

/// Why a description does not give a circuit, and on which line. Line 0
/// stands for the description as a whole.
#[derive(Debug)]
#[allow(inconsistent_fields)]
pub enum ParseCircuitError {
    Syntax { line: usize, kind: SyntaxErrorKind },
    Build { line: usize, kind: BuildErrorKind },
}

/// Why a description does not give a circuit, as plain data.
#[allow(inconsistent_fields)]
pub enum ParseFault {
    Syntax { line: usize, kind: SyntaxFault },
    Build { line: usize, kind: BuildFault },
}

impl View for ParseCircuitError {
    type V = ParseFault;

    open spec fn view(&self) -> ParseFault {
        match self {
            ParseCircuitError::Syntax { line, kind } => ParseFault::Syntax {
                line: *line,
                kind: kind@,
            },
            ParseCircuitError::Build { line, kind } => ParseFault::Build { line: *line, kind: kind@ },
        }
    }
}

impl SyntaxFault {
    /// The fault in words.
    pub open spec fn message(self) -> Seq<char> {
        match self {
            SyntaxFault::InvalidChipsetFormat => "Chipset declaration must respect this form: type name"@,
            SyntaxFault::InvalidLinkFormat => "Link declaration must respect this form: name1:pin1 name2:pin2"@,
            SyntaxFault::InvalidLinkPin { pin } => "\""@ + pin + "\" is not a valid pin number"@,
            SyntaxFault::FirstDeclarationMismatch => "The first instruction must be the chipsets declaration"@,
            SyntaxFault::DeclarationDuplicate { declaration } => "Redeclaration of \""@
                + declaration + "\""@,
            SyntaxFault::Empty => "There is no instructions inside content"@,
        }
    }
}

impl SyntaxErrorKind {
    /// The fault in words.
    pub fn to_string(&self) -> (r: String)
        ensures
            r@ == self@.message(),
    {
        match self {
            SyntaxErrorKind::InvalidChipsetFormat => "Chipset declaration must respect this form: type name".to_owned(),
            SyntaxErrorKind::InvalidLinkFormat => "Link declaration must respect this form: name1:pin1 name2:pin2".to_owned(),
            SyntaxErrorKind::InvalidLinkPin { pin } => {
                let mut r = "\"".to_owned();
                r.append(pin.as_str());
                r.append("\" is not a valid pin number");
                r
            },
            SyntaxErrorKind::FirstDeclarationMismatch => "The first instruction must be the chipsets declaration".to_owned(),
            SyntaxErrorKind::DeclarationDuplicate { declaration } => {
                let mut r = "Redeclaration of \"".to_owned();
                r.append(declaration.as_str());
                r.append("\"");
                r
            },
            SyntaxErrorKind::Empty => "There is no instructions inside content".to_owned(),
        }
    }
}

impl BuildFault {
    /// The fault in words.
    pub open spec fn message(self) -> Seq<char> {
        match self {
            BuildFault::NoChipset => "No chipset in the circuit."@,
            BuildFault::ComponentNameExists { name } => "A component with name \""@ + name
                + "\" already exists."@,
            BuildFault::ComponentNameUnknown { value } => "Unknown component name \""@ + value
                + "\"."@,
            BuildFault::ComponentTypeUnknown { value } => "Unknown component type \""@ + value
                + "\"."@,
            BuildFault::ComponentLinkIssue { name, component_type, pin } => "\""@ + name + "\": "@
                + component_type + " component does not have pin "@ + crate::text::decimal(
                pin as nat,
            ) + "."@,
        }
    }
}

impl BuildErrorKind {
    /// The fault in words.
    pub fn to_string(&self) -> (r: String)
        ensures
            r@ == self@.message(),
    {
        match self {
            BuildErrorKind::NoChipset => "No chipset in the circuit.".to_owned(),
            BuildErrorKind::ComponentNameExists { name } => {
                let mut r = "A component with name \"".to_owned();
                r.append(name.as_str());
                r.append("\" already exists.");
                r
            },
            BuildErrorKind::ComponentNameUnknown { value } => {
                let mut r = "Unknown component name \"".to_owned();
                r.append(value.as_str());
                r.append("\".");
                r
            },
            BuildErrorKind::ComponentTypeUnknown { value } => {
                let mut r = "Unknown component type \"".to_owned();
                r.append(value.as_str());
                r.append("\".");
                r
            },
            BuildErrorKind::ComponentLinkIssue { name, component_type, pin } => {
                let mut r = "\"".to_owned();
                r.append(name.as_str());
                r.append("\": ");
                r.append(component_type.as_str());
                r.append(" component does not have pin ");
                let number = number_to_string(*pin);
                r.append(number.as_str());
                r.append(".");
                r
            },
        }
    }

    /// The fault that a refusal of the builder stands for, with the type
    /// of a component written as `factory` names it.
    pub open spec fn fault_of<Factory: ComponentFactory>(
        value: CircuitBuildError<Factory::Type>,
        factory: Factory,
    ) -> BuildFault {
        match value {
            CircuitBuildError::NoChipset => BuildFault::NoChipset,
            CircuitBuildError::ComponentNameExists(name) => BuildFault::ComponentNameExists {
                name: name@,
            },
            CircuitBuildError::ComponentNameUnknown(value) => BuildFault::ComponentNameUnknown {
                value: value@,
            },
            CircuitBuildError::ComponentTypeUnknown(value) => BuildFault::ComponentTypeUnknown {
                value: value@,
            },
            CircuitBuildError::ComponentLinkIssue(
                name,
                component_type,
                pin,
            ) => BuildFault::ComponentLinkIssue {
                name: name@,
                component_type: factory.name_of(component_type),
                pin,
            },
        }
    }

    /// Turns a refusal of the builder into a fault that owns its texts.
    pub fn from_build_error<Factory: ComponentFactory>(
        value: CircuitBuildError<Factory::Type>,
        factory: &Factory,
    ) -> (r: BuildErrorKind)
        ensures
            r@ == Self::fault_of(value, *factory),
    {
        match value {
            CircuitBuildError::NoChipset => BuildErrorKind::NoChipset,
            CircuitBuildError::ComponentNameExists(name) => BuildErrorKind::ComponentNameExists {
                name: name.to_owned(),
            },
            CircuitBuildError::ComponentNameUnknown(value) => BuildErrorKind::ComponentNameUnknown {
                value: value.to_owned(),
            },
            CircuitBuildError::ComponentTypeUnknown(value) => BuildErrorKind::ComponentTypeUnknown {
                value: value.to_owned(),
            },
            CircuitBuildError::ComponentLinkIssue(
                name,
                component_type,
                pin,
            ) => BuildErrorKind::ComponentLinkIssue {
                name: name.to_owned(),
                component_type: factory.describe(component_type),
                pin,
            },
        }
    }
}

impl<'a> vstd::std_specs::convert::FromSpecImpl<CircuitBuildError<'a, ComponentType>> for BuildErrorKind {
    open spec fn obeys_from_spec() -> bool {
        false
    }

    open spec fn from_spec(value: CircuitBuildError<'a, ComponentType>) -> BuildErrorKind {
        arbitrary()
    }
}

impl<'a> From<CircuitBuildError<'a, ComponentType>> for BuildErrorKind {
    fn from(value: CircuitBuildError<'a, ComponentType>) -> (r: BuildErrorKind) {
        BuildErrorKind::from_build_error(value, &DefaultComponentFactory)
    }
}

impl ParseFault {
    /// The fault in words, after the number of its line.
    pub open spec fn message(self) -> Seq<char> {
        match self {
            ParseFault::Syntax { line, kind } => "line "@ + crate::text::decimal(line as nat)
                + ": Syntax error: "@ + kind.message(),
            ParseFault::Build { line, kind } => "line "@ + crate::text::decimal(line as nat)
                + ": Build error: "@ + kind.message(),
        }
    }
}

impl ParseCircuitError {
    /// The fault in words, after the number of its line.
    pub fn to_string(&self) -> (r: String)
        ensures
            r@ == self@.message(),
    {
        match self {
            ParseCircuitError::Syntax { line, kind } => {
                let mut r = "line ".to_owned();
                let number = number_to_string(*line);
                r.append(number.as_str());
                r.append(": Syntax error: ");
                let text = kind.to_string();
                r.append(text.as_str());
                r
            },
            ParseCircuitError::Build { line, kind } => {
                let mut r = "line ".to_owned();
                let number = number_to_string(*line);
                r.append(number.as_str());
                r.append(": Build error: ");
                let text = kind.to_string();
                r.append(text.as_str());
                r
            },
        }
    }
}

/// The components that a description has listed so far: their names and
/// their types, in order.
pub struct Listing {
    pub names: Seq<Seq<char>>,
    pub types: Seq<ComponentType>,
}

/// How many pins a component of a type has.
pub open spec fn pins_of(component_type: ComponentType) -> nat {
    match component_type {
        ComponentType::Input => 1,
        ComponentType::Output => 1,
        ComponentType::Clock => 1,
        ComponentType::True => 1,
        ComponentType::False => 1,
        _ => 14,
    }
}

impl Listing {
    /// Nothing listed.
    pub open spec fn empty() -> Listing {
        Listing { names: Seq::empty(), types: Seq::empty() }
    }

    /// Why a request cannot be met, if it cannot: a component needs a type
    /// of the catalog and a name that is free; a link needs two listed
    /// components and a pin that each of them has. Of several reasons the
    /// first holds, in this order, the left end of a link before the
    /// right one.
    pub open spec fn fault(self, request: Request) -> Option<BuildFault> {
        match request {
            Request::AddComponent { name, component_type } => match ComponentType::named(
                component_type,
            ) {
                None => Some(BuildFault::ComponentTypeUnknown { value: component_type }),
                Some(_) => if self.names.contains(name) {
                    Some(BuildFault::ComponentNameExists { name })
                } else {
                    None
                },
            },
            Request::LinkComponents { left_name, left_pin, right_name, right_pin } => {
                if !self.names.contains(left_name) {
                    Some(BuildFault::ComponentNameUnknown { value: left_name })
                } else if !self.names.contains(right_name) {
                    Some(BuildFault::ComponentNameUnknown { value: right_name })
                } else {
                    let left = self.types[self.names.index_of(left_name)];
                    let right = self.types[self.names.index_of(right_name)];
                    if !(1 <= left_pin <= pins_of(left)) {
                        Some(
                            BuildFault::ComponentLinkIssue {
                                name: left_name,
                                component_type: left.name(),
                                pin: left_pin,
                            },
                        )
                    } else if !(1 <= right_pin <= pins_of(right)) {
                        Some(
                            BuildFault::ComponentLinkIssue {
                                name: right_name,
                                component_type: right.name(),
                                pin: right_pin,
                            },
                        )
                    } else {
                        None
                    }
                }
            },
        }
    }

    /// What is listed once a request was met.
    pub open spec fn after(self, request: Request) -> Listing {
        match request {
            Request::AddComponent { name, component_type } => Listing {
                names: self.names.push(name),
                types: self.types.push(ComponentType::named(component_type).unwrap()),
            },
            Request::LinkComponents { .. } => self,
        }
    }
}

/// What the requests from the `k`-th on lead to, given what was listed
/// before: the first request that cannot be met is reported with the
/// number of its line, and so is, for line 0, a description that lists no
/// component at all.
pub open spec fn assemble_from(requests: Seq<(usize, Request)>, k: int, listing: Listing) -> Result<
    Listing,
    (usize, BuildFault),
>
    decreases requests.len() - k,
{
    if k < 0 || k >= requests.len() {
        if listing.names.len() == 0 {
            Err((0, BuildFault::NoChipset))
        } else {
            Ok(listing)
        }
    } else {
        match listing.fault(requests[k].1) {
            Some(fault) => Err((requests[k].0, fault)),
            None => assemble_from(requests, k + 1, listing.after(requests[k].1)),
        }
    }
}

/// What a list of requests leads to.
pub open spec fn assemble(requests: Seq<(usize, Request)>) -> Result<Listing, (usize, BuildFault)> {
    assemble_from(requests, 0, Listing::empty())
}

/// What reading a description leads to: the first fault of its form, or
/// else the first request that cannot be met, or else the components of
/// the circuit.
pub open spec fn read_outcome(s: Seq<char>) -> Result<Listing, ParseFault> {
    match parse(s) {
        Err((line, kind)) => Err(ParseFault::Syntax { line, kind }),
        Ok(requests) => match assemble(requests) {
            Err((line, kind)) => Err(ParseFault::Build { line, kind }),
            Ok(listing) => Ok(listing),
        },
    }
}

/// The texts of a list of names.
pub open spec fn texts(names: Seq<String>) -> Seq<Seq<char>> {
    Seq::new(names.len(), |i: int| names[i]@)
}

/// Among distinct names, a name stands in the list of texts where it is
/// found, and nowhere if it is not found.
pub proof fn lemma_texts(names: Seq<String>, name: Seq<char>)
    requires
        distinct(names),
    ensures
        index_of(names, name) is Some <==> texts(names).contains(name),
        index_of(names, name) matches Some(i) ==> texts(names).index_of(name) == i && 0 <= i
            < names.len(),
{
    let t = texts(names);
    if index_of(names, name) is Some {
        let i = index_of(names, name).unwrap();
        assert(t[i] == name);
        let j = t.index_of(name);
        assert(t.contains(name));
        assert(0 <= j < t.len() && t[j] == name);
        if i != j {
            assert(names[i]@ != names[j]@);
        }
    } else {
        if t.contains(name) {
            let j = choose|j: int| 0 <= j < t.len() && t[j] == name;
            assert(names[j]@ == name);
        }
    }
}

/// What the first `k` requests list, if each of them can be met.
pub open spec fn listed(requests: Seq<(usize, Request)>, k: int) -> Listing
    decreases k,
{
    if k <= 0 {
        Listing::empty()
    } else {
        listed(requests, k - 1).after(requests[k - 1].1)
    }
}

/// `after` is the board `before` once a request was met, `listing` being
/// what was listed until then: a new component of the type asked for
/// stands at the end, as the catalog makes it, or the two pins named are
/// wired together.
pub open spec fn met(before: Board, after: Board, listing: Listing, request: Request) -> bool {
    match request {
        Request::AddComponent { name, component_type } => {
            &&& after.chipsets@.len() == before.chipsets@.len() + 1
            &&& after.chipsets@.drop_last() == before.chipsets@
            &&& after.chipsets@.last().is_new()
            &&& after.chipsets@.last().blank()
            &&& DefaultComponentFactory::is_a(
                after.chipsets@.last(),
                ComponentType::named(component_type).unwrap(),
            )
        },
        Request::LinkComponents { left_name, left_pin, right_name, right_pin } => before.wired(
            after,
            listing.names.index_of(left_name),
            left_pin,
            listing.names.index_of(right_name),
            right_pin,
        ),
    }
}

/// The boards `history` are what meeting the first `k` requests one after
/// the other makes of a board without components, step by step.
pub open spec fn assembled(history: Seq<Board>, requests: Seq<(usize, Request)>, k: int) -> bool {
    &&& history.len() == k + 1
    &&& history[0].chipsets@.len() == 0
    &&& forall|i: int|
        0 <= i < k ==> met(
            #[trigger] history[i],
            history[i + 1],
            listed(requests, i),
            requests[i].1,
        )
}

/// `circuit` is what the requests ask for: the board that meeting them
/// one after the other gives, evaluated once for tick 0, each component
/// showing the result that its kind defines and, where the board can be
/// layered, each pin that receives holding the disjunction of what its
/// peers drive.
pub open spec fn realizes(circuit: Circuit, requests: Seq<(usize, Request)>) -> bool {
    exists|history: Seq<Board>|
        {
            &&& #[trigger] assembled(history, requests, requests.len() as int)
            &&& history.last().advances_to(circuit.board, 0)
            &&& forall|rank: spec_fn(Place) -> nat| #[trigger]
                history.last().layered_by(rank) ==> circuit.board.all_settled(0)
            &&& forall|c: int|
                0 <= c < circuit.board.chipsets@.len() ==> history.last().chipsets@[c].evaluated(
                    None,
                    #[trigger] circuit.board.chipsets@[c],
                )
        }
}

impl Parser {
    /// `builder` holds what `listing` lists.
    pub open spec fn holds(builder: CircuitBuilder<DefaultComponentFactory>, listing: Listing) -> bool {
        &&& builder.well_formed()
        &&& texts(builder.names@) == listing.names
        &&& builder.types@ == listing.types
        &&& forall|i: int|
            0 <= i < builder.board.chipsets@.len() ==> DefaultComponentFactory::is_a(
                #[trigger] builder.board.chipsets@[i],
                listing.types[i],
            )
    }

    /// A well-formed component of the catalog has the pins of its type.
    pub proof fn lemma_pins_of(chipset: Chipset, component_type: ComponentType)
        requires
            chipset.well_formed(),
            DefaultComponentFactory::is_a(chipset, component_type),
        ensures
            chipset.pins().size() == pins_of(component_type),
    {
    }

    /// `r` is what reading the description `input` gives: the first fault
    /// of its form, or else the first request that cannot be met, or else
    /// the circuit that its requests ask for, with the components that it
    /// lists under their names, in order, each of its type, and each
    /// evaluated for tick 0.
    pub open spec fn reads(input: Seq<char>, r: Result<Circuit, ParseCircuitError>) -> bool {
        match r {
            Ok(circuit) => {
                &&& read_outcome(input) matches Ok(listing)
                &&& parse(input) matches Ok(requests)
                &&& realizes(circuit, requests)
                &&& circuit.well_formed()
                &&& circuit.current_tick == 0
                &&& texts(circuit.names@) == listing.names
                &&& circuit.board.chipsets@.len() == listing.types.len()
                &&& forall|i: int|
                    0 <= i < circuit.board.chipsets@.len() ==> {
                        &&& DefaultComponentFactory::is_a(
                            #[trigger] circuit.board.chipsets@[i],
                            listing.types[i],
                        )
                        &&& circuit.board.chipsets@[i].pins().state == PinState::Available(0)
                    }
            },
            Err(error) => read_outcome(input) == Err::<Listing, ParseFault>(error@),
        }
    }

    /// Reads a description and builds the circuit that it asks for. The
    /// circuit is evaluated once, for tick 0. The first fault of the form
    /// of the description, or else the first request that cannot be met,
    /// is reported with the number of its line.
    pub fn read(input: &str) -> (r: Result<Circuit, ParseCircuitError>)
        ensures
            Self::reads(input@, r),
    {
        let lines = match Self::parse_lines(input) {
            Ok(lines) => lines,
            Err((line, kind)) => {
                return Err(ParseCircuitError::Syntax { line, kind });
            },
        };
        let ghost all = requests(lines@);
        let mut builder = CircuitBuilder::default();
        let ghost mut listing = Listing::empty();
        let ghost mut history: Seq<Board> = seq![builder.board];
        assert(texts(builder.names@) =~= listing.names);
        assert(builder.types@ =~= listing.types);
        let mut k: usize = 0;
        while k < lines.len()
            invariant
                k <= lines@.len(),
                all == requests(lines@),
                parse(input@) == Ok::<Seq<(usize, Request)>, (usize, SyntaxFault)>(all),
                Self::holds(builder, listing),
                assemble(all) == assemble_from(all, k as int, listing),
                listing == listed(all, k as int),
                assembled(history, all, k as int),
                history.last() == builder.board,
            decreases lines@.len() - k,
        {
            let line = lines[k];
            assert(all[k as int] == line@);
            let ghost before = builder;
            match line.instruction {
                Instruction::AddComponent { name, component_type } => {
                    proof {
                        lemma_texts(builder.names@, name@);
                        assert(builder.factory.recognized(component_type@) == ComponentType::named(
                            component_type@,
                        ));
                    }
                    builder = match builder.add_component(component_type, name) {
                        Ok(next) => next,
                        Err(error) => {
                            let kind = BuildErrorKind::from_build_error(
                                error,
                                &DefaultComponentFactory,
                            );
                            return Err(ParseCircuitError::Build { line: line.index, kind });
                        },
                    };
                    proof {
                        let recognized = ComponentType::named(component_type@).unwrap();
                        assert(builder.factory.makes(recognized, builder.board.chipsets@.last()) == (
                        DefaultComponentFactory::is_a(builder.board.chipsets@.last(), recognized)
                            && builder.board.chipsets@.last().blank()));
                        assert(builder.board.chipsets@.drop_last() == before.board.chipsets@);
                        assert(met(before.board, builder.board, listing, all[k as int].1));
                        history = history.push(builder.board);
                        listing = listing.after(line.instruction@);
                        assert(texts(builder.names@) =~= listing.names) by {
                            assert(builder.names@.drop_last() == before.names@);
                            assert forall|i: int| 0 <= i < builder.names@.len() implies texts(
                                builder.names@,
                            )[i] == listing.names[i] by {
                                if i < before.names@.len() {
                                    assert(builder.names@[i] == builder.names@.drop_last()[i]);
                                }
                            }
                        }
                        assert(builder.factory.makes(recognized, builder.board.chipsets@.last()) == (
                        DefaultComponentFactory::is_a(builder.board.chipsets@.last(), recognized)
                            && builder.board.chipsets@.last().blank()));
                        assert forall|i: int|
                            0 <= i < builder.board.chipsets@.len() implies DefaultComponentFactory::is_a(
                            #[trigger] builder.board.chipsets@[i],
                            listing.types[i],
                        ) by {
                            if i < before.board.chipsets@.len() {
                                assert(builder.board.chipsets@[i]
                                    == builder.board.chipsets@.drop_last()[i]);
                            }
                        }
                    }
                },
                Instruction::LinkComponents { left_name, left_pin, right_name, right_pin } => {
                    proof {
                        lemma_texts(builder.names@, left_name@);
                        lemma_texts(builder.names@, right_name@);
                        if builder.position(left_name@) is Some {
                            let i = builder.position(left_name@).unwrap();
                            Self::lemma_pins_of(builder.board.chipsets@[i], listing.types[i]);
                            assert(builder.factory.name_of(listing.types[i])
                                == listing.types[i].name());
                        }
                        if builder.position(right_name@) is Some {
                            let j = builder.position(right_name@).unwrap();
                            Self::lemma_pins_of(builder.board.chipsets@[j], listing.types[j]);
                            assert(builder.factory.name_of(listing.types[j])
                                == listing.types[j].name());
                        }
                    }
                    builder = match builder.link_components(
                        left_name,
                        left_pin,
                        right_name,
                        right_pin,
                    ) {
                        Ok(next) => next,
                        Err(error) => {
                            let kind = BuildErrorKind::from_build_error(
                                error,
                                &DefaultComponentFactory,
                            );
                            return Err(ParseCircuitError::Build { line: line.index, kind });
                        },
                    };
                    proof {
                        let i = before.position(left_name@).unwrap();
                        let j = before.position(right_name@).unwrap();
                        let middle = choose|middle: Board|
                            {
                                &&& before.board.peer_linked(middle, i, left_pin, j, right_pin)
                                &&& #[trigger] middle.peer_linked(
                                    builder.board,
                                    j,
                                    right_pin,
                                    i,
                                    left_pin,
                                )
                            };
                        assert(listing.names.index_of(left_name@) == i);
                        assert(listing.names.index_of(right_name@) == j);
                        assert(before.board.wired(builder.board, i, left_pin, j, right_pin));
                        assert(met(before.board, builder.board, listing, all[k as int].1));
                        history = history.push(builder.board);
                        assert(listing.after(all[k as int].1) == listing);
                        assert forall|c: int|
                            0 <= c < builder.board.chipsets@.len() implies DefaultComponentFactory::is_a(
                            #[trigger] builder.board.chipsets@[c],
                            listing.types[c],
                        ) by {
                            let x = before.board.chipsets@[c];
                            let y = middle.chipsets@[c];
                            let z = builder.board.chipsets@[c];
                            assert(DefaultComponentFactory::is_a(x, listing.types[c]));
                            assert(x.same_kind(y) || y == x);
                            assert(y.same_kind(z) || z == y);
                        }
                    }
                },
            }
            k += 1;
        }
        match builder.build() {
            Ok(circuit) => {
                proof {
                    assert(assembled(history, all, all.len() as int));
                    assert(realizes(circuit, all));
                    assert forall|i: int|
                        0 <= i < circuit.board.chipsets@.len() implies DefaultComponentFactory::is_a(
                        #[trigger] circuit.board.chipsets@[i],
                        listing.types[i],
                    ) by {
                        assert(builder.board.chipsets@[i].same_kind(circuit.board.chipsets@[i]));
                    }
                }
                Ok(circuit)
            },
            Err(error) => {
                let kind = BuildErrorKind::from_build_error(error, &DefaultComponentFactory);
                Err(ParseCircuitError::Build { line: 0, kind })
            },
        }
    }
}

impl std::str::FromStr for Circuit {
    type Err = ParseCircuitError;

    /// Reads a description and builds the circuit that it asks for, as
    /// [`Parser::read`] does.
    fn from_str(s: &str) -> (r: Result<Circuit, ParseCircuitError>)
        ensures
            Parser::reads(s@, r),
    {
        Parser::read(s)
    }
}

} // verus!
