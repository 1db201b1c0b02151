use nanotekspice::circuit::parser::{Instruction, Line};
use nanotekspice::{BuildErrorKind, Circuit, ParseCircuitError, Parser, SyntaxErrorKind};

const INPUT_OUTPUT: &str = "# A wire\n.chipsets:\ninput in\noutput out\n\n.links:\nin:1 out:1\n";

#[test]
fn read_a_nts_file() {
    assert!(matches!(INPUT_OUTPUT.parse::<Circuit>(), Ok(_)))
}

#[test]
fn chipset_name_override_error() {
    for content in [".chipsets:\ninput a\ninput a\n", ".chipsets:\ninput a\noutput a\n.links:\n"] {
        assert!(matches!(
            content.parse::<Circuit>(),
            Err(ParseCircuitError::Build { line: 3, kind: BuildErrorKind::ComponentNameExists { name } }) if name == "a"
        ))
    }
}

#[test]
fn chipset_syntax_error() {
    for content in [".chipsets:\ninput\n", ".chipsets:\ninput a b\n", ".chipsets:\ninput a output b\n"] {
        assert!(matches!(
            content.parse::<Circuit>(),
            Err(ParseCircuitError::Syntax { line: 2, kind: SyntaxErrorKind::InvalidChipsetFormat })
        ))
    }
}

#[test]
fn chipset_type_unknown() {
    assert!(matches!(
        ".chipsets:\n\n  4242 a\n".parse::<Circuit>(),
        Err(ParseCircuitError::Build { line: 3, kind: BuildErrorKind::ComponentTypeUnknown { value } }) if value == "4242"
    ))
}

#[test]
fn empty() {
    for content in ["", "\n", "\n\n   \n", "# nothing\n", "  # nothing\n\t\n#.chipsets:", "\r\n\r\n"] {
        assert!(matches!(
            content.parse::<Circuit>(),
            Err(ParseCircuitError::Syntax { line: 0, kind: SyntaxErrorKind::Empty })
        ))
    }
}

#[test]
fn links_before_chipsets() {
    assert!(matches!(
        ".links:\n a:1 b:1".parse::<Circuit>(),
        Err(ParseCircuitError::Syntax { line: 1, kind: SyntaxErrorKind::FirstDeclarationMismatch })
    ));
    assert!(matches!(
        "\n# first\ninput a\n.chipsets:\n".parse::<Circuit>(),
        Err(ParseCircuitError::Syntax { line: 3, kind: SyntaxErrorKind::FirstDeclarationMismatch })
    ));
}

#[test]
fn links_name_unknown() {
    assert!(matches!(
        ".chipsets:\ninput a\n.links:\nb:1 a:1\n".parse::<Circuit>(),
        Err(ParseCircuitError::Build { line: 4, kind: BuildErrorKind::ComponentNameUnknown { value } }) if value == "b"
    ));
    assert!(matches!(
        ".chipsets:\ninput a\n.links:\na:1 c:1\n".parse::<Circuit>(),
        Err(ParseCircuitError::Build { line: 4, kind: BuildErrorKind::ComponentNameUnknown { value } }) if value == "c"
    ));
    assert!(matches!(
        ".chipsets:\ninput a\n.links:\n:1 a:1\n".parse::<Circuit>(),
        Err(ParseCircuitError::Build { line: 4, kind: BuildErrorKind::ComponentNameUnknown { value } }) if value.is_empty()
    ));
}

#[test]
fn links_pin_not_assignable() {
    assert!(matches!(
        ".chipsets:\ninput a\noutput b\n.links:\na:2 b:1\n".parse::<Circuit>(),
        Err(ParseCircuitError::Build {
            line: 5,
            kind: BuildErrorKind::ComponentLinkIssue { name, component_type, pin: 2 }
        }) if name == "a" && component_type == "input"
    ));
    assert!(matches!(
        ".chipsets:\ninput a\n4081 b\n.links:\na:1 b:15\n".parse::<Circuit>(),
        Err(ParseCircuitError::Build {
            line: 5,
            kind: BuildErrorKind::ComponentLinkIssue { name, component_type, pin: 15 }
        }) if name == "b" && component_type == "4081"
    ));
    assert!(matches!(
        ".chipsets:\ninput a\n4081 b\n.links:\na:0 b:15\n".parse::<Circuit>(),
        Err(ParseCircuitError::Build {
            line: 5,
            kind: BuildErrorKind::ComponentLinkIssue { name, component_type, pin: 0 }
        }) if name == "a" && component_type == "input"
    ));
}

#[test]
fn links_pin_not_number() {
    assert!(matches!(
        ".chipsets:\n input a\n.links:\n a:foo b:1".parse::<Circuit>(),
        Err(ParseCircuitError::Syntax { line: 4, kind: SyntaxErrorKind::InvalidLinkPin { pin } }) if pin == "foo"
    ));
    for (text, pin) in
        [("a: b:1", ""), ("a:-1 b:1", "-1"), ("a:1 b:1x", "1x"), ("a:+ b:1", "+"), ("a:1 b:0x1", "0x1")]
    {
        let content = format!(".chipsets:\ninput a\n.links:\n{text}\n");
        assert!(matches!(
            content.parse::<Circuit>(),
            Err(ParseCircuitError::Syntax { line: 4, kind: SyntaxErrorKind::InvalidLinkPin { pin: found } }) if found == pin
        ));
    }
    let content = format!(".chipsets:\ninput a\n.links:\na:{}0 a:1\n", usize::MAX);
    assert!(matches!(
        content.parse::<Circuit>(),
        Err(ParseCircuitError::Syntax { line: 4, kind: SyntaxErrorKind::InvalidLinkPin { pin: _ } })
    ));
}

#[test]
fn links_syntax_error() {
    for text in ["a:1", "a:1 b:1 c:1", "a b", "a:1 b", "a:1:1 b:1", "a b:1", "a:x:1 b:y"] {
        let content = format!(".chipsets:\ninput a\n.links:\n{text}\n");
        assert!(
            matches!(
                content.parse::<Circuit>(),
                Err(ParseCircuitError::Syntax { line: 4, kind: SyntaxErrorKind::InvalidLinkFormat })
            ),
            "{text}"
        );
    }
}

#[test]
fn no_chipsets() {
    for content in [".chipsets:\n", ".chipsets:\n.links:\n", ".chipsets:\n# input a\n"] {
        assert!(matches!(
            content.parse::<Circuit>(),
            Err(ParseCircuitError::Build { line: 0, kind: BuildErrorKind::NoChipset })
        ))
    }
}

#[test]
fn redeclaration() {
    assert!(matches!(
        ".chipsets:\ninput a\n.chipsets:\n".parse::<Circuit>(),
        Err(ParseCircuitError::Syntax { line: 3, kind: SyntaxErrorKind::DeclarationDuplicate { declaration } }) if declaration == ".chipsets:"
    ));
    assert!(matches!(
        ".chipsets:\ninput a\n.links:\n  .links:  # again\n".parse::<Circuit>(),
        Err(ParseCircuitError::Syntax { line: 4, kind: SyntaxErrorKind::DeclarationDuplicate { declaration } }) if declaration == ".links:"
    ));
    assert!(matches!(
        ".chipsets:\ninput a\n.links:\n.chipsets:\n".parse::<Circuit>(),
        Err(ParseCircuitError::Syntax { line: 4, kind: SyntaxErrorKind::DeclarationDuplicate { declaration } }) if declaration == ".chipsets:"
    ));
}

#[test]
fn the_first_fault_is_reported() {
    assert!(matches!(
        ".chipsets:\nnothing a\ninput\n".parse::<Circuit>(),
        Err(ParseCircuitError::Syntax { line: 3, kind: SyntaxErrorKind::InvalidChipsetFormat })
    ));
    assert!(matches!(
        ".chipsets:\ninput a\n.links:\na:x b\n".parse::<Circuit>(),
        Err(ParseCircuitError::Syntax { line: 4, kind: SyntaxErrorKind::InvalidLinkPin { pin } }) if pin == "x"
    ));
    assert!(matches!(
        ".chipsets:\ninput a\n.links:\na b:x\n".parse::<Circuit>(),
        Err(ParseCircuitError::Syntax { line: 4, kind: SyntaxErrorKind::InvalidLinkFormat })
    ));
}

#[test]
fn lines_are_read_with_their_numbers() {
    let lines: Vec<Line> =
        Parser::parse_lines("\n.chipsets: # list\n\tinput   a\u{a0}\r\n\n.links:\na:+1\ta:01#x y z\n")
            .unwrap();
    assert_eq!(lines.len(), 2);
    assert_eq!(lines[0].index, 3);
    assert!(matches!(lines[0].instruction, Instruction::AddComponent { name: "a", component_type: "input" }));
    assert_eq!(lines[1].index, 6);
    assert!(matches!(
        lines[1].instruction,
        Instruction::LinkComponents { left_name: "a", left_pin: 1, right_name: "a", right_pin: 1 }
    ));
}

#[test]
fn a_line_is_two_words() {
    assert!(matches!(
        Parser::parse_chipset_line("4011 \t  gate#1"),
        Ok(Instruction::AddComponent { name: "gate#1", component_type: "4011" })
    ));
    assert!(matches!(Parser::parse_chipset_line("one"), Err(SyntaxErrorKind::InvalidChipsetFormat)));
    assert!(matches!(
        Parser::parse_link_line("a:18446744073709551615 \u{3000}b:0"),
        Ok(Instruction::LinkComponents { left_name: "a", left_pin: usize::MAX, right_name: "b", right_pin: 0 })
    ));
    assert!(matches!(Parser::parse_simple_link("é:12"), Ok(("é", 12))));
    assert!(matches!(Parser::parse_simple_link(":007"), Ok(("", 7))));
}

#[test]
fn faults_are_put_in_words() {
    assert_eq!(
        ".links:".parse::<Circuit>().unwrap_err().to_string(),
        "line 1: Syntax error: The first instruction must be the chipsets declaration"
    );
    assert_eq!(
        "".parse::<Circuit>().unwrap_err().to_string(),
        "line 0: Syntax error: There is no instructions inside content"
    );
    assert_eq!(
        ".chipsets:\n\n\n\n\n\n\n\n\n\n\n4081 ic\n.links:\nic:1 ic:120\n".parse::<Circuit>().unwrap_err().to_string(),
        "line 14: Build error: \"ic\": 4081 component does not have pin 120."
    );
    assert_eq!(
        SyntaxErrorKind::InvalidChipsetFormat.to_string(),
        "Chipset declaration must respect this form: type name"
    );
    assert_eq!(
        SyntaxErrorKind::InvalidLinkFormat.to_string(),
        "Link declaration must respect this form: name1:pin1 name2:pin2"
    );
    assert_eq!(
        SyntaxErrorKind::InvalidLinkPin { pin: "x".to_owned() }.to_string(),
        "\"x\" is not a valid pin number"
    );
    assert_eq!(
        SyntaxErrorKind::DeclarationDuplicate { declaration: ".links:".to_owned() }.to_string(),
        "Redeclaration of \".links:\""
    );
    assert_eq!(BuildErrorKind::NoChipset.to_string(), "No chipset in the circuit.");
    assert_eq!(
        BuildErrorKind::ComponentNameExists { name: "a".to_owned() }.to_string(),
        "A component with name \"a\" already exists."
    );
    assert_eq!(
        BuildErrorKind::ComponentNameUnknown { value: "a".to_owned() }.to_string(),
        "Unknown component name \"a\"."
    );
    assert_eq!(
        BuildErrorKind::ComponentTypeUnknown { value: "a".to_owned() }.to_string(),
        "Unknown component type \"a\"."
    );
}
