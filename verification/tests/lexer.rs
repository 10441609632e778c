use underpass_turbo::pbf_source::{PbfSource, ReadAction, ReadEvent};
use underpass_turbo::process_node::{Process, ProcessNode};
use underpass_turbo::ql::parser::{parse, parse_tokens, ParseError, ParseErrorKind, ScriptError};
use underpass_turbo::ql::tokens::{
    input_starts_with, parse_bare_literal, parse_number, parse_string_literal, tokenize, LexError,
    LexErrorKind, Token, Tokenizer,
};
use underpass_turbo::ql::{Decimal, Filter, QueryType, RecurseType, SetName, Statement, TagSpec};
use underpass_turbo::query::QueryTarget;
use underpass_turbo::text::{chars_of, string_of};
use std::rc::Rc;

fn chars(s: &str) -> Vec<char> {
    s.chars().collect()
}

#[test]
fn characters_and_strings() {
    assert_eq!(chars_of("a→b"), vec!['a', '→', 'b']);
    assert_eq!(string_of(&vec!['a', '→', 'b']), "a→b");
    assert_eq!(chars_of(""), Vec::<char>::new());
}

#[test]
fn longer_operators_win() {
    let kinds: Vec<Token> =
        tokenize("-> - :: : << < >> > != !~ ! = ~ , . ( ) [ ] ;").unwrap().into_iter().map(|t| t.1).collect();
    assert_eq!(
        kinds,
        vec![
            Token::Arrow,
            Token::Difference,
            Token::DoubleColon,
            Token::Colon,
            Token::RecurseUpRelations,
            Token::RecurseUp,
            Token::RecurseDownRelations,
            Token::RecurseDown,
            Token::EqualsNot,
            Token::MatchesNot,
            Token::Not,
            Token::Equals,
            Token::Matches,
            Token::Comma,
            Token::Period,
            Token::ParenthesisOpen,
            Token::ParenthesisClose,
            Token::BracketOpen,
            Token::BracketClose,
            Token::Semicolon,
        ]
    );
    let tight: Vec<Token> = tokenize("->>-<<<").unwrap().into_iter().map(|t| t.1).collect();
    assert_eq!(
        tight,
        vec![
            Token::Arrow,
            Token::RecurseDown,
            Token::Difference,
            Token::RecurseUpRelations,
            Token::RecurseUp
        ]
    );
}

#[test]
fn tokens_carry_their_positions() {
    assert_eq!(
        tokenize("  node ( 12 ) ;"),
        Ok(vec![
            (2, Token::StringLiteral("node".to_string())),
            (7, Token::ParenthesisOpen),
            (9, Token::Number(Decimal::whole(12))),
            (12, Token::ParenthesisClose),
            (14, Token::Semicolon),
        ])
    );
    assert_eq!(tokenize(""), Ok(vec![]));
    assert_eq!(tokenize(" \n\t "), Ok(vec![]));
    assert_eq!(tokenize("é_1"), Ok(vec![(0, Token::StringLiteral("é_1".to_string()))]));
    assert_eq!(tokenize("node"), Ok(vec![(0, Token::StringLiteral("node".to_string()))]));
    assert_eq!(tokenize("-"), Ok(vec![(0, Token::Difference)]));
}

#[test]
fn lexical_errors() {
    assert_eq!(
        tokenize("node # ;"),
        Err(LexError { position: 5, kind: LexErrorKind::IllegalCharacter })
    );
    assert_eq!(
        tokenize("['abc"),
        Err(LexError { position: 1, kind: LexErrorKind::UnterminatedString })
    );
    assert_eq!(
        tokenize("\"abc\\"),
        Err(LexError { position: 0, kind: LexErrorKind::UnterminatedString })
    );
    assert_eq!(
        tokenize("(18446744073709551616)"),
        Err(LexError { position: 1, kind: LexErrorKind::MalformedNumber })
    );
    assert_eq!(
        parse("node 'x"),
        Err(ScriptError::Lex(LexError { position: 5, kind: LexErrorKind::UnterminatedString }))
    );
    let mut tokenizer = Tokenizer::new("#");
    assert_eq!(tokenizer.input_len(), 1);
    let error = Some(Err(LexError { position: 0, kind: LexErrorKind::IllegalCharacter }));
    assert_eq!(tokenizer.next(), error);
    assert_eq!(tokenizer.next(), error);
    let mut tokenizer = Tokenizer::new("a");
    assert!(tokenizer.next().is_some());
    assert_eq!(tokenizer.next(), None);
    assert_eq!(tokenizer.next(), None);
}

#[test]
fn numbers_in_detail() {
    let number = |s: &str| parse_number(&chars(s), 0);
    assert_eq!(number("23.5"), Some((4, Decimal { units: 23, nanos: 500_000_000 })));
    assert_eq!(number("5."), Some((2, Decimal { units: 5, nanos: 0 })));
    assert_eq!(number("5.x"), Some((2, Decimal { units: 5, nanos: 0 })));
    assert_eq!(number("0.000000001"), Some((11, Decimal { units: 0, nanos: 1 })));
    assert_eq!(number("7.1234567891"), Some((12, Decimal { units: 7, nanos: 123_456_789 })));
    assert_eq!(number("7.9999999999"), Some((12, Decimal { units: 7, nanos: 999_999_999 })));
    assert_eq!(number("007"), Some((3, Decimal { units: 7, nanos: 0 })));
    assert_eq!(
        number("18446744073709551615"),
        Some((20, Decimal { units: u64::MAX, nanos: 0 }))
    );
    assert_eq!(number("18446744073709551616"), None);
    assert_eq!(number("99999999999999999999999.5"), None);
    assert_eq!(number("x1"), None);
    assert_eq!(number(".5"), None);
    assert_eq!(number(""), None);
    assert_eq!(parse_number(&chars("ab12c"), 2), Some((4, Decimal::whole(12))));
    assert_eq!(parse_number(&chars("12"), 2), None);
    assert_eq!(parse_number(&chars("12"), 9), None);
}

#[test]
fn literals_in_detail() {
    assert!(input_starts_with(&chars("->x"), "->"));
    assert!(input_starts_with(&chars("->"), "->"));
    assert!(!input_starts_with(&chars("-"), "->"));
    assert!(!input_starts_with(&chars("=>"), "->"));
    assert!(input_starts_with(&chars("abc"), ""));
    assert!(!input_starts_with(&chars(""), "a"));
    assert_eq!(parse_bare_literal(&chars("way_1(x"), 0), Some((5, "way_1".to_string())));
    assert_eq!(parse_bare_literal(&chars("way"), 0), Some((3, "way".to_string())));
    assert_eq!(parse_bare_literal(&chars("(way"), 0), None);
    assert_eq!(parse_bare_literal(&chars("way"), 3), None);
    assert_eq!(parse_bare_literal(&chars("way"), 4), None);
    assert_eq!(parse_string_literal('"', &chars("ab\"c"), 0), Some((3, "ab".to_string())));
    assert_eq!(parse_string_literal('\'', &chars("a\"b'"), 0), Some((4, "a\"b".to_string())));
    assert_eq!(parse_string_literal('"', &chars("a\\\"b\\\\\""), 0), Some((7, "a\"b\\".to_string())));
    assert_eq!(parse_string_literal('"', &chars("\""), 0), Some((1, "".to_string())));
    assert_eq!(parse_string_literal('"', &chars("abc"), 0), None);
    assert_eq!(parse_string_literal('"', &chars("abc\\"), 0), None);
    assert_eq!(parse_string_literal('"', &chars("abc\""), 9), None);
}

fn parse_error(position: usize, kind: ParseErrorKind) -> ScriptError {
    ScriptError::Parse(ParseError { position, kind })
}

#[test]
fn syntax_errors() {
    assert_eq!(parse(";"), Err(parse_error(0, ParseErrorKind::UnexpectedToken)));
    assert_eq!(parse("node"), Err(parse_error(4, ParseErrorKind::MissingSemicolon)));
    assert_eq!(parse("node way;"), Err(parse_error(5, ParseErrorKind::MissingSemicolon)));
    assert_eq!(parse("( node;"), Err(parse_error(7, ParseErrorKind::UnterminatedGroup)));
    assert_eq!(parse("( node"), Err(parse_error(6, ParseErrorKind::UnterminatedGroup)));
    assert_eq!(parse("node["), Err(parse_error(5, ParseErrorKind::UnterminatedGroup)));
    assert_eq!(parse("node(1"), Err(parse_error(6, ParseErrorKind::UnterminatedGroup)));
    assert_eq!(parse("node(1,2);"), Err(parse_error(8, ParseErrorKind::UnexpectedToken)));
    assert_eq!(parse("node(a);"), Err(parse_error(5, ParseErrorKind::UnexpectedToken)));
    assert_eq!(parse("node[a,i];"), Err(parse_error(6, ParseErrorKind::UnexpectedToken)));
    assert_eq!(parse("node[a!b];"), Err(parse_error(7, ParseErrorKind::UnexpectedToken)));
    assert_eq!(parse("node ->"), Err(parse_error(7, ParseErrorKind::MissingSemicolon)));
    assert_eq!(parse("node -> m;"), Err(parse_error(8, ParseErrorKind::UnexpectedToken)));
    assert_eq!(parse("node -> .;"), Err(parse_error(9, ParseErrorKind::UnexpectedToken)));
    assert_eq!(parse(".a out"), Err(parse_error(6, ParseErrorKind::MissingSemicolon)));
    assert_eq!(parse(".;"), Err(parse_error(1, ParseErrorKind::UnexpectedToken)));
    assert_eq!(parse("(node; - way; out;);"), Err(parse_error(14, ParseErrorKind::UnexpectedToken)));
    assert_eq!(parse("(node; way; - way;);"), Err(parse_error(12, ParseErrorKind::UnexpectedToken)));
    assert_eq!(parse("foo;"), Err(parse_error(0, ParseErrorKind::UnexpectedToken)));
    assert_eq!(
        parse_tokens(&vec![(3, Token::StringLiteral("out".to_string()))], 40),
        Err(parse_error(40, ParseErrorKind::MissingSemicolon))
    );
}

#[test]
fn an_invalid_regex_in_a_script() {
    match parse("node[name=~\"(\"];") {
        Err(ScriptError::Regex(error)) => {
            assert_eq!(error.source, "(");
            assert!(!error.cause.is_empty());
        }
        other => panic!("{:?}", other),
    }
    assert!(parse("node[name=\"(\"];").is_ok());
}

#[test]
fn more_of_the_grammar() {
    let filters = |script: &str| match parse(script).unwrap().remove(0).statement {
        Statement::Query { filters } => filters,
        other => panic!("{:?}", other),
    };
    assert_eq!(filters("node(7.9);"), vec![Filter::QueryType(QueryType::Node), Filter::Id(7)]);
    assert_eq!(
        filters("relation(1.5, 2.25, 3, 4.125);")[1],
        Filter::BoundingBox {
            s: Decimal { units: 1, nanos: 500_000_000 },
            w: Decimal { units: 2, nanos: 250_000_000 },
            n: Decimal::whole(3),
            e: Decimal { units: 4, nanos: 125_000_000 },
        }
    );
    assert_eq!(filters("derived;"), vec![Filter::QueryType(QueryType::Derived)]);
    assert_eq!(
        filters("way[a!=b];")[1],
        Filter::TagNotEqual { k: TagSpec::from_string("a"), v: TagSpec::from_string("b") }
    );
    assert_eq!(
        filters("way[a!~b,i];")[1],
        Filter::TagNotEqual {
            k: TagSpec::from_string("a"),
            v: TagSpec::from_regex("b", true).unwrap()
        }
    );
    assert_eq!(
        filters("way[a ! ~ b];")[1],
        Filter::TagNotEqual {
            k: TagSpec::from_string("a"),
            v: TagSpec::from_regex("b", false).unwrap()
        }
    );
    assert_eq!(
        filters("way[~\"^a\",i = ~b];")[1],
        Filter::TagEqual {
            k: TagSpec::from_regex("^a", true).unwrap(),
            v: TagSpec::from_regex("b", false).unwrap()
        }
    );
    let script = parse(".a node -> .b; ( (node; way;); - .a; ) -> .c; out -> .d; ").unwrap();
    assert_eq!(script.len(), 3);
    assert_eq!(script[0].inputs, vec![SetName::from("a".to_string())]);
    assert_eq!(script[0].output, SetName::from("b".to_string()));
    match &script[1].statement {
        Statement::Difference { source, remove } => {
            assert!(matches!(&source.statement, Statement::Union { members } if members.len() == 2));
            assert_eq!(remove.statement, Statement::Item);
            assert_eq!(remove.inputs, vec![SetName::from("a".to_string())]);
        }
        other => panic!("{:?}", other),
    }
    assert_eq!(script[1].output, SetName::from("c".to_string()));
    assert_eq!(script[2].statement, Statement::Output);
    assert_eq!(script[2].inputs, vec![SetName::default()]);
    assert_eq!(script[2].output, SetName::from("d".to_string()));
    assert_eq!(parse(""), Ok(vec![]));
    assert_eq!(SetName::default(), SetName::from("_".to_string()));
    assert!(SetName::default().same(&SetName::from("_".to_string())));
    assert!(!SetName::default().same(&SetName::from("a".to_string())));
}

#[test]
fn the_files_are_walked_from_the_last_to_the_first() {
    let source = PbfSource::new(vec!["a.pbf".to_string(), "b.pbf".to_string()]);
    let mut all = source.all();
    assert_eq!(all.next(ReadEvent::Start), ReadAction::Open("b.pbf".to_string()));
    assert_eq!(all.next(ReadEvent::Opened), ReadAction::Read);
    assert_eq!(all.next(ReadEvent::Blob), ReadAction::Read);
    assert_eq!(all.next(ReadEvent::EndOfFile), ReadAction::Open("a.pbf".to_string()));
    assert_eq!(all.next(ReadEvent::Opened), ReadAction::Read);
    assert_eq!(all.next(ReadEvent::EndOfFile), ReadAction::Finish);
    assert_eq!(all.next(ReadEvent::EndOfFile), ReadAction::Finish);
    assert_eq!(PbfSource::new(vec![]).all().next(ReadEvent::Start), ReadAction::Finish);
    assert_eq!(source.paths.len(), 2);
}

#[test]
fn process_nodes_and_query_targets() {
    let mut node = ProcessNode::new(Process::Union);
    assert_eq!(node.targets().len(), 0);
    node.add_target(Rc::new(ProcessNode::new(Process::Output)));
    assert_eq!(node.targets().len(), 1);
    assert_eq!(node.targets()[0].process, Process::Output);
    assert_eq!(node.process, Process::Union);
    let query = Process::Query { filters: vec![Filter::Id(4)] };
    match query.query_target() {
        Some(QueryTarget::Query { filters }) => assert_eq!(*filters, vec![Filter::Id(4)]),
        _ => panic!("a query takes a scan"),
    }
    assert!(matches!(
        Process::Recurse(RecurseType::Up).query_target(),
        Some(QueryTarget::Recurse(RecurseType::Up))
    ));
    assert!(Process::Union.query_target().is_none());
    assert!(Process::Output.query_target().is_none());
    assert!(query.is_query_family() && !query.is_output());
    assert!(!Process::Output.is_query_family() && Process::Output.is_output());
    assert_eq!(query.clone(), query);
}
