use std::rc::Rc;
use verilox::source_text::{Lexeme, SourceText};
use verilox::{EscapedIdentifier, ParseOutcome, ParserErr, SimpleIdentifier, WhiteSpace, AST};

fn white(i: &str) -> ParseOutcome<'_, WhiteSpace> {
    WhiteSpace::gen_ast(i)
}

#[test]
fn white_space() {
    assert!(matches!(white(" "), ParseOutcome::Parsed("", WhiteSpace::Space)));
    assert!(matches!(white("\t"), ParseOutcome::Parsed("", WhiteSpace::Tab)));
    assert!(matches!(white("\n"), ParseOutcome::Parsed("", WhiteSpace::Newline)));
    assert!(matches!(white("\x0C"), ParseOutcome::Parsed("", WhiteSpace::Formfeed)));
    assert!(matches!(white(""), ParseOutcome::NeedsMoreInput(1)));
    assert!(matches!(white("x"), ParseOutcome::Failed(ParserErr::WhiteSpace)));
}

#[test]
fn white_space_leaves_the_rest() {
    assert!(matches!(white(" \tab"), ParseOutcome::Parsed("\tab", WhiteSpace::Space)));
    assert!(matches!(white("\r"), ParseOutcome::Failed(ParserErr::WhiteSpace)));
}

#[test]
fn simple_identifier() {
    match SimpleIdentifier::gen_ast("foo_bar1 ") {
        ParseOutcome::Parsed(rest, id) => {
            assert_eq!(rest, " ");
            assert_eq!(id.body, "foo_bar1");
        }
        other => panic!("unexpected {:?}", other),
    }
    assert!(matches!(
        SimpleIdentifier::gen_ast("1abc"),
        ParseOutcome::Failed(ParserErr::SimpleIdentifier)
    ));
    assert!(matches!(SimpleIdentifier::gen_ast("abc"), ParseOutcome::NeedsMoreInput(1)));
}

#[test]
fn simple_identifier_edges() {
    assert!(matches!(SimpleIdentifier::gen_ast(""), ParseOutcome::NeedsMoreInput(1)));
    assert!(matches!(
        SimpleIdentifier::gen_ast("$a "),
        ParseOutcome::Failed(ParserErr::SimpleIdentifier)
    ));
    match SimpleIdentifier::gen_ast("_a$9+b") {
        ParseOutcome::Parsed(rest, id) => {
            assert_eq!(rest, "+b");
            assert_eq!(id.body, "_a$9");
        }
        other => panic!("unexpected {:?}", other),
    }
}

#[test]
fn escaped_identifier() {
    match EscapedIdentifier::gen_ast("\\a+b ") {
        ParseOutcome::Parsed(rest, id) => {
            assert_eq!(rest, " ");
            assert_eq!(id.body, "a+b");
        }
        other => panic!("unexpected {:?}", other),
    }
    assert!(matches!(
        EscapedIdentifier::gen_ast("x"),
        ParseOutcome::Failed(ParserErr::EscapedIdentifier)
    ));
}

#[test]
fn escaped_identifier_edges() {
    assert!(matches!(EscapedIdentifier::gen_ast(""), ParseOutcome::NeedsMoreInput(1)));
    assert!(matches!(EscapedIdentifier::gen_ast("\\abc"), ParseOutcome::NeedsMoreInput(1)));
    assert!(matches!(
        EscapedIdentifier::gen_ast("\\ab\rc "),
        ParseOutcome::Failed(ParserErr::EscapedIdentifier)
    ));
    match EscapedIdentifier::gen_ast("\\bus[3]\n") {
        ParseOutcome::Parsed(rest, id) => {
            assert_eq!(rest, "\n");
            assert_eq!(id.body, "bus[3]");
        }
        other => panic!("unexpected {:?}", other),
    }
}

#[test]
fn identifiers_are_maximal() {
    // A run that reaches the end of the buffer may still grow.
    assert!(matches!(SimpleIdentifier::gen_ast("ab"), ParseOutcome::NeedsMoreInput(1)));
    match SimpleIdentifier::gen_ast("abcd;") {
        ParseOutcome::Parsed(rest, id) => {
            assert_eq!(rest, ";");
            assert_eq!(id.body, "abcd");
        }
        other => panic!("unexpected {:?}", other),
    }
}

#[test]
fn failure_leaves_input_as_it_was() {
    let input = "9x";
    assert!(matches!(SimpleIdentifier::gen_ast(input), ParseOutcome::Failed(_)));
    assert!(matches!(
        SimpleIdentifier::gen_ast(input),
        ParseOutcome::Failed(ParserErr::SimpleIdentifier)
    ));
    assert!(matches!(white(input), ParseOutcome::Failed(ParserErr::WhiteSpace)));
}

#[test]
fn resumption_matches_single_shot() {
    let mut buffer = String::from("ab");
    assert!(matches!(SimpleIdentifier::gen_ast(&buffer), ParseOutcome::NeedsMoreInput(1)));
    buffer.push_str("_c x");
    let resumed = match SimpleIdentifier::gen_ast(&buffer) {
        ParseOutcome::Parsed(rest, id) => (rest.to_string(), id.body),
        other => panic!("unexpected {:?}", other),
    };
    let single = match SimpleIdentifier::gen_ast("ab_c x") {
        ParseOutcome::Parsed(rest, id) => (rest.to_string(), id.body),
        other => panic!("unexpected {:?}", other),
    };
    assert_eq!(resumed, single);
    assert_eq!(single, (" x".to_string(), "ab_c".to_string()));
}

#[test]
fn source_text_tracks_locations() {
    let source = Rc::new(String::from("top.sv"));
    match SourceText::parse_from("module  \\a+b\n  x(", source.clone()) {
        ParseOutcome::Parsed(rest, text) => {
            assert_eq!(rest, "(");
            let spans: Vec<(usize, usize, usize)> = text
                .items
                .iter()
                .map(|l| (l.location.line, l.location.head, l.location.tail))
                .collect();
            assert_eq!(
                spans,
                vec![
                    (1, 0, 6),
                    (1, 6, 7),
                    (1, 7, 8),
                    (1, 8, 12),
                    (1, 12, 13),
                    (2, 13, 14),
                    (2, 14, 15),
                    (2, 15, 16)
                ]
            );
            assert!(matches!(&text.items[0].lexeme, Lexeme::SimpleIdentifier(id) if id.body == "module"));
            assert!(matches!(&text.items[3].lexeme, Lexeme::EscapedIdentifier(id) if id.body == "a+b"));
            assert!(matches!(text.items[4].lexeme, Lexeme::WhiteSpace(WhiteSpace::Newline)));
            assert!(text.items.iter().all(|l| Rc::ptr_eq(&l.location.source, &source)));
        }
        other => panic!("unexpected {:?}", other),
    }
}

#[test]
fn source_text_waits_for_more_input() {
    assert!(matches!(SourceText::gen_ast(""), ParseOutcome::NeedsMoreInput(1)));
    assert!(matches!(SourceText::gen_ast("a b "), ParseOutcome::NeedsMoreInput(1)));
    match SourceText::gen_ast("(a") {
        ParseOutcome::Parsed(rest, text) => {
            assert_eq!(rest, "(a");
            assert!(text.items.is_empty());
        }
        other => panic!("unexpected {:?}", other),
    }
}

#[test]
fn lexical_item_choice() {
    assert!(matches!(
        Lexeme::gen_ast("(x"),
        ParseOutcome::Failed(ParserErr::LexicalItem)
    ));
    assert!(matches!(
        Lexeme::gen_ast("\t"),
        ParseOutcome::Parsed("", Lexeme::WhiteSpace(WhiteSpace::Tab))
    ));
    assert!(matches!(Lexeme::gen_ast("\\ab"), ParseOutcome::NeedsMoreInput(1)));
    match Lexeme::gen_ast("\\ab cd") {
        ParseOutcome::Parsed(rest, Lexeme::EscapedIdentifier(id)) => {
            assert_eq!(rest, " cd");
            assert_eq!(id.body, "ab");
        }
        other => panic!("unexpected {:?}", other),
    }
}

#[test]
fn multi_byte_characters() {
    assert!(matches!(white("é"), ParseOutcome::Failed(ParserErr::WhiteSpace)));
    match SimpleIdentifier::gen_ast("aé") {
        ParseOutcome::Parsed(rest, id) => {
            assert_eq!(rest, "é");
            assert_eq!(id.body, "a");
        }
        other => panic!("unexpected {:?}", other),
    }
    assert!(matches!(
        EscapedIdentifier::gen_ast("\\aé "),
        ParseOutcome::Failed(ParserErr::EscapedIdentifier)
    ));
}

#[test]
fn escaped_identifier_with_empty_run() {
    match EscapedIdentifier::gen_ast("\\ x") {
        ParseOutcome::Parsed(rest, id) => {
            assert_eq!(rest, " x");
            assert_eq!(id.body, "");
        }
        other => panic!("unexpected {:?}", other),
    }
}
