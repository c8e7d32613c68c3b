use dialogue_box::text::{flatten_groups, TextMod, TypeWriterCommand};
use dialogue_box::tokens::parse::{de_duplicate_spaces, parse_groups, process_nodes, TokenGroup};
use dialogue_box::tokens::{
    parse_fixed, DialogueBoxToken, IntoDialogueBoxToken, ParseError, TextColor, TextCommand,
    TextEffect, TextSection,
};

#[test]
fn test_simple() {
    let input = "Hello, world!";

    let mut output = parse_groups(input).unwrap();
    let first = output.remove(0);

    assert!(matches!(first, TokenGroup::Bare(_)));
}

#[test]
fn parse_plain_text_is_one_section() {
    let out = parse_groups("Hello, world!").unwrap();
    assert_eq!(out.len(), 1);
    match &out[0] {
        TokenGroup::Bare(DialogueBoxToken::Section(s)) => {
            assert_eq!(s.text, "Hello, world!");
            assert!(s.color.is_none());
            assert!(s.effects.is_empty());
        }
        other => panic!("expected a bare section, got {:?}", other),
    }
}

#[test]
fn parse_nested_group() {
    let out = parse_groups("a{b}c").unwrap();
    assert_eq!(out.len(), 3);
    match &out[0] {
        TokenGroup::Bare(DialogueBoxToken::Section(s)) => assert_eq!(s.text, "a"),
        other => panic!("expected section `a`, got {:?}", other),
    }
    match &out[1] {
        TokenGroup::Group(children) => {
            assert_eq!(children.len(), 1);
            match &children[0] {
                TokenGroup::Bare(DialogueBoxToken::Section(s)) => assert_eq!(s.text, "b"),
                other => panic!("expected section `b`, got {:?}", other),
            }
        }
        other => panic!("expected a group, got {:?}", other),
    }
    match &out[2] {
        TokenGroup::Bare(DialogueBoxToken::Section(s)) => assert_eq!(s.text, "c"),
        other => panic!("expected section `c`, got {:?}", other),
    }
}

#[test]
fn parse_styled_command_section() {
    let out = parse_groups("[hello](red)").unwrap();
    assert_eq!(out.len(), 1);
    match &out[0] {
        TokenGroup::Bare(DialogueBoxToken::Section(s)) => {
            assert_eq!(s.text, "hello");
            assert_eq!(s.color, Some(TextColor::Red));
            assert!(s.effects.is_empty());
        }
        other => panic!("expected a styled section, got {:?}", other),
    }
}

#[test]
fn parse_wave_effect_section() {
    let out = parse_groups("[hey](wave)").unwrap();
    match &out[0] {
        TokenGroup::Bare(DialogueBoxToken::Section(s)) => {
            assert_eq!(s.text, "hey");
            assert!(s.color.is_none());
            assert_eq!(s.effects, vec![TextEffect::Wave]);
        }
        other => panic!("expected a wave section, got {:?}", other),
    }
}

#[test]
fn parse_pause_command_fixed_point() {
    let out = parse_groups("[1.5](pause)").unwrap();
    assert_eq!(out.len(), 1);
    match &out[0] {
        TokenGroup::Bare(DialogueBoxToken::Command(TextCommand::Pause(v))) => {
            assert_eq!(*v, 1500);
        }
        other => panic!("expected a pause command, got {:?}", other),
    }
}

#[test]
fn parse_unknown_command_fails() {
    let err = parse_groups("[x](bogus)").unwrap_err();
    assert_eq!(err, ParseError::UnknownCommand { name: "bogus".to_owned() });
}

#[test]
fn parse_invalid_argument_fails() {
    let err = parse_groups("[abc](pause)").unwrap_err();
    assert_eq!(
        err,
        ParseError::InvalidArgument {
            command: "pause".to_owned(),
            raw_argument: "abc".to_owned()
        }
    );
}

#[test]
fn parse_missing_argument_fails() {
    let err = DialogueBoxToken::parse_command(None, "red").unwrap_err();
    assert_eq!(
        err,
        ParseError::InvalidArgument { command: "red".to_owned(), raw_argument: String::new() }
    );
}

#[test]
fn parse_unterminated_group_fails() {
    let err = parse_groups("a{b").unwrap_err();
    assert_eq!(err, ParseError::UnterminatedGroup { position: 1 });
}

#[test]
fn parse_stray_close_brace_truncates() {
    let out = parse_groups("a}b").unwrap();
    assert_eq!(out.len(), 1);
    match &out[0] {
        TokenGroup::Bare(DialogueBoxToken::Section(s)) => assert_eq!(s.text, "a"),
        other => panic!("expected only section `a`, got {:?}", other),
    }
}

#[test]
fn parse_empty_styled_section_is_pruned() {
    let out = parse_groups("[](red)").unwrap();
    assert!(out.is_empty());
}

#[test]
fn fixed_point_literals() {
    assert_eq!(parse_fixed("2"), Some(2000));
    assert_eq!(parse_fixed("0.5"), Some(500));
    assert_eq!(parse_fixed(".5"), Some(500));
    assert_eq!(parse_fixed("3."), Some(3000));
    assert_eq!(parse_fixed("1.2345"), Some(1234));
    assert_eq!(parse_fixed(""), None);
    assert_eq!(parse_fixed("."), None);
    assert_eq!(parse_fixed("1.2.3"), None);
    assert_eq!(parse_fixed("abc"), None);
    assert_eq!(parse_fixed("-1"), None);
    assert_eq!(parse_fixed("99999999999999999999"), None);
}

#[test]
fn normalize_collapses_whitespace() {
    let out = parse_groups("a   b").unwrap();
    assert_eq!(out.len(), 1);
    match &out[0] {
        TokenGroup::Bare(DialogueBoxToken::Section(s)) => assert_eq!(s.text, "a b"),
        other => panic!("expected collapsed section, got {:?}", other),
    }
}

#[test]
fn de_duplicate_spaces_examples() {
    assert_eq!(de_duplicate_spaces("a   b", false), ("a b".to_owned(), false));
    assert_eq!(de_duplicate_spaces("  ", false), (" ".to_owned(), true));
    assert_eq!(de_duplicate_spaces(" x", true), ("x".to_owned(), false));
    assert_eq!(de_duplicate_spaces("a\t\n b", false), ("a b".to_owned(), false));
}

#[test]
fn normalize_removes_empty_sections_and_groups() {
    let section = |t: &str| {
        TokenGroup::Bare(DialogueBoxToken::Section(TextSection {
            text: t.to_owned(),
            color: None,
            effects: Vec::new(),
        }))
    };
    let forest = vec![section("   "), TokenGroup::Group(vec![section(" \t ")]), section("x")];
    let (normed, _) = process_nodes(forest, true);
    assert_eq!(normed.len(), 1);
    match &normed[0] {
        TokenGroup::Bare(DialogueBoxToken::Section(s)) => assert_eq!(s.text, "x"),
        other => panic!("expected only `x` to survive, got {:?}", other),
    }
}

#[test]
fn normalize_is_idempotent_on_example() {
    let forest = parse_groups("a   b {  c } [d](red)  e").unwrap();
    let copy = parse_groups("a   b {  c } [d](red)  e").unwrap();
    let (again, flag) = process_nodes(copy, false);
    assert_eq!(again, forest);
    assert!(!flag);
}

#[test]
fn flatten_text_commands_and_spans() {
    let forest = parse_groups("ab[1](pause)cd[2.5](speed)").unwrap();
    let flat = flatten_groups(&forest);
    assert_eq!(flat.text.value, "abcd");
    assert_eq!(flat.len(), 4);
    assert!(!flat.is_empty());
    assert_eq!(flat.commands.len(), 2);
    assert_eq!(flat.commands[0].index, 2);
    assert_eq!(flat.commands[0].command, TypeWriterCommand::Pause(1000));
    assert_eq!(flat.commands[1].index, 4);
    assert_eq!(flat.commands[1].command, TypeWriterCommand::Speed(2500));
    // Ascending offsets, each within the buffer.
    let mut last = 0;
    for c in &flat.commands {
        assert!(c.index >= last);
        assert!(c.index <= flat.text.value.chars().count());
        last = c.index;
    }
    // Total visible length equals the sum of the section lengths.
    assert_eq!(flat.text.value.chars().count(), 2 + 2);
}

#[test]
fn flatten_records_styling_spans() {
    let forest = parse_groups("[hi](red)x{[yo](wave)}").unwrap();
    let flat = flatten_groups(&forest);
    assert_eq!(flat.text.value, "hixyo");
    assert_eq!(flat.text.modifiers.len(), 2);
    let m0 = &flat.text.modifiers[0];
    assert_eq!(m0.start, 0);
    assert_eq!(m0.end, 2);
    assert_eq!(m0.text_mod, TextMod::Color(TextColor::Red));
    assert!(!m0.text_mod.is_shader_effect());
    let m1 = &flat.text.modifiers[1];
    assert_eq!(m1.start, 3);
    assert_eq!(m1.end, 5);
    assert_eq!(m1.text_mod, TextMod::Wave);
    assert!(m1.text_mod.is_shader_effect());
}

#[test]
fn bare_reports_groups() {
    let flat = vec!["a".into_token()].into_iter().map(TokenGroup::Bare).collect::<Vec<_>>();
    assert!(TokenGroup::bare(&flat));
    let nested = vec![TokenGroup::Group(Vec::new())];
    assert!(!TokenGroup::bare(&nested));
}

#[test]
fn into_token_conversions() {
    match "abc".into_token() {
        DialogueBoxToken::Section(s) => assert_eq!(s.text, "abc"),
        other => panic!("expected a section, got {:?}", other),
    }
    match "owned".to_owned().into_token() {
        DialogueBoxToken::Section(s) => assert_eq!(s.text, "owned"),
        other => panic!("expected a section, got {:?}", other),
    }
    let tok = DialogueBoxToken::Command(TextCommand::Clear);
    assert_eq!(tok.into_token(), DialogueBoxToken::Command(TextCommand::Clear));
}
