use cogs::error::{Error, ErrorKind, ParseError, SyntaxKind};
use cogs::parser::parse_cog;

#[test]
fn or_keeps_both_lists_and_first_message() {
    let a = Error::single(1, ErrorKind::Char('<')).with_note("n1".to_string());
    let b = Error::make_custom(5, "boom".to_string())
        .with_note("n2".to_string())
        .with_help("try this".to_string());
    let m = a.or(b);
    assert_eq!(m.errors.len(), 2);
    assert_eq!(m.errors[0].0, 1);
    assert!(matches!(m.errors[0].1, ErrorKind::Char('<')));
    assert_eq!(m.errors[1].0, 5);
    assert_eq!(m.notes, vec!["n1".to_string(), "n2".to_string()]);
    assert_eq!(m.message.as_deref(), Some("boom"));
    assert_eq!(m.help.as_deref(), Some("try this"));
}

#[test]
fn or_prefers_the_first_message() {
    let a = Error::single(0, ErrorKind::Char('a')).with_message("first".to_string());
    let b = Error::single(0, ErrorKind::Char('b')).with_message("second".to_string());
    assert_eq!(a.or(b).message.as_deref(), Some("first"));
}

#[test]
fn builders_set_and_clear() {
    let e = Error::default()
        .with_message("m".to_string())
        .with_help("h".to_string())
        .with_note("x".to_string())
        .clear_message();
    assert!(e.message.is_none());
    assert_eq!(e.help.as_deref(), Some("h"));
    assert_eq!(e.notes.len(), 1);
    assert!(e.errors.is_empty());
}

#[test]
fn context_and_append_push_to_the_trail() {
    let e = Error::from_error_kind(3, SyntaxKind::TakeWhile1);
    let e = Error::add_context(2, "attributes".to_string(), e);
    let e = Error::append(1, SyntaxKind::Alt, e);
    assert_eq!(e.errors.len(), 3);
    assert!(matches!(e.errors[0].1, ErrorKind::Syntax(SyntaxKind::TakeWhile1)));
    assert!(matches!(&e.errors[1].1, ErrorKind::Context(c) if c == "attributes"));
    assert!(matches!(e.errors[2].1, ErrorKind::Syntax(SyntaxKind::Alt)));
}

#[test]
fn error_constructors_pick_severity() {
    assert!(matches!(Error::eof(4), ParseError::Recoverable(_)));
    assert!(matches!(Error::custom(4, "x".to_string()), ParseError::Recoverable(_)));
    match Error::custom_failure(4, "bad".to_string()) {
        ParseError::Fatal(e) => {
            assert_eq!(e.message.as_deref(), Some("bad"));
            assert!(matches!(&e.errors[0].1, ErrorKind::Custom(s) if s == "bad"));
        }
        _ => panic!("expected fatal"),
    }
    assert!(matches!(ErrorKind::custom("c".to_string()), ErrorKind::Custom(_)));
}

#[test]
fn spans_run_to_the_end_of_the_input() {
    let main = "<a><b></a>";
    let e = match parse_cog(main) {
        Err(ParseError::Fatal(e)) => e,
        _ => panic!("expected fatal"),
    };
    let (spans, info) = e.resolve_spans(main);
    assert_eq!(spans.len(), 1);
    assert_eq!(spans[0].0, 10);
    assert_eq!(spans[0].1, 10);
    assert_eq!(info.message.as_deref(), Some("expected closing tag `</b>`, got `</a>`"));
}

#[test]
fn spans_are_byte_offsets() {
    let main = "é<a></b>";
    let e = match parse_cog(main) {
        Err(ParseError::Fatal(e)) => e,
        _ => panic!("expected fatal"),
    };
    let (spans, _) = e.resolve_spans(main);
    assert_eq!(spans[0].0, 9);
    assert_eq!(spans[0].1, main.len());
    let e = Error::single(2, ErrorKind::Char('x'));
    let (spans, _) = e.resolve_spans("a\u{1F600}b");
    assert_eq!(spans[0].0, 5);
    assert_eq!(spans[0].1, 6);
    let e = Error::single(2, ErrorKind::Char('x'));
    let (spans, _) = e.resolve_spans("\u{800}\u{80}z");
    assert_eq!((spans[0].0, spans[0].1), (5, 6));
}

#[test]
fn spans_keep_order() {
    let e = Error::single(2, ErrorKind::Char('x')).or(Error::single(0, ErrorKind::Char('y')));
    let (spans, _) = e.resolve_spans("héllo");
    assert_eq!(spans.len(), 2);
    assert_eq!((spans[0].0, spans[0].1), (3, 6));
    assert_eq!((spans[1].0, spans[1].1), (0, 6));
    assert!(matches!(spans[1].2, ErrorKind::Char('y')));
}
