use cogs::ast::{CodeElement, Element, Expression};
use cogs::compile::{compile, parse_component, CompileError};
use cogs::error::ParseError;
use cogs::generate::{quoted, COMPONENT_HEAD, COMPONENT_TAIL};
use cogs::parser::parse_cog;

fn render_of(source: &str) -> String {
    let out = compile(source).ok().expect("compiles");
    assert!(out.starts_with(COMPONENT_HEAD));
    assert!(out.ends_with(COMPONENT_TAIL));
    out[COMPONENT_HEAD.len()..out.len() - COMPONENT_TAIL.len()].to_string()
}

#[test]
fn empty_tag_parses_and_self_closes() {
    let (end, c) = parse_cog("<div></div>").ok().unwrap();
    assert_eq!(end, 11);
    assert_eq!(c.elements.len(), 1);
    match &c.elements[0] {
        Element::Html(t) => {
            assert_eq!(t.tag, "div");
            assert!(t.attributes.is_empty());
            assert!(t.content.is_empty());
        }
        _ => panic!("expected a tag"),
    }
    assert_eq!(render_of("<div></div>"), "let __rendered = format!(r#\"<div/>\"#, );");
}

#[test]
fn literal_attribute_is_an_argument() {
    let c = parse_component("<div class=\"a\"></div>").ok().unwrap();
    match &c.elements[0] {
        Element::Html(t) => {
            assert_eq!(t.attributes.len(), 1);
            assert_eq!(t.attributes[0].name, "class");
            match &t.attributes[0].value {
                Some(Expression::Text(v)) => assert_eq!(v, "a"),
                _ => panic!("expected a literal value"),
            }
        }
        _ => panic!("expected a tag"),
    }
    assert_eq!(
        render_of("<div class=\"a\"></div>"),
        "let __rendered = format!(r#\"<div class=\"{}\"/>\"#, r#\"a\"#);"
    );
}

#[test]
fn code_attribute_is_a_placeholder() {
    assert_eq!(
        render_of("<a href={ url }></a>"),
        "let __rendered = format!(r#\"<a href={}/>\"#,  url );"
    );
}

#[test]
fn attributes_are_separated_by_one_space() {
    assert_eq!(
        render_of("<input a=\"x\", b disabled></input>"),
        "let __rendered = format!(r#\"<input a=\"{}\" b disabled/>\"#, r#\"x\"#);"
    );
}

#[test]
fn code_inside_tag_becomes_an_argument() {
    let c = parse_component("<p>{name}</p>").ok().unwrap();
    match &c.elements[0] {
        Element::Html(t) => match &t.content[0] {
            Element::Block(b) => {
                assert_eq!(b.content.len(), 1);
                match &b.content[0] {
                    CodeElement::Code(code) => assert_eq!(code, "name"),
                    _ => panic!("expected code"),
                }
            }
            _ => panic!("expected a code block"),
        },
        _ => panic!("expected a tag"),
    }
    assert_eq!(render_of("<p>{name}</p>"), "let __rendered = format!(r#\"<p>{}</p>\"#, name);");
}

#[test]
fn top_level_text_is_one_quoted_argument() {
    let c = parse_component("hello").ok().unwrap();
    match &c.elements[0] {
        Element::Text(t) => assert_eq!(t, "hello"),
        _ => panic!("expected text"),
    }
    assert_eq!(render_of("hello"), "let __rendered = format!(r#\"{}\"#, r#\"hello\"#);");
}

#[test]
fn text_is_trimmed() {
    assert_eq!(
        render_of("<div> hi </div>"),
        "let __rendered = format!(r#\"<div>{}</div>\"#, r#\"hi\"#);"
    );
}

#[test]
fn mismatched_closing_tag_is_fatal() {
    match parse_cog("<a><b></a>") {
        Err(ParseError::Fatal(e)) => {
            assert_eq!(e.message.as_deref(), Some("expected closing tag `</b>`, got `</a>`"));
        }
        _ => panic!("expected a fatal error"),
    }
    match compile("<a><b></a>") {
        Err(CompileError::Parse(ParseError::Fatal(_))) => {}
        _ => panic!("expected a fatal error"),
    }
}

#[test]
fn mismatch_inside_text_is_still_fatal() {
    match compile("hello <a></b>") {
        Err(CompileError::Parse(ParseError::Fatal(e))) => {
            assert_eq!(e.message.as_deref(), Some("expected closing tag `</a>`, got `</b>`"));
        }
        _ => panic!("expected a fatal error"),
    }
}

#[test]
fn empty_input_renders_empty_string() {
    let (end, c) = parse_cog("").ok().unwrap();
    assert_eq!(end, 0);
    assert!(c.elements.is_empty());
    assert_eq!(render_of(""), "let __rendered = format!(r#\"\"#, );");
}

#[test]
fn leftover_input_is_an_error() {
    match compile("</x>") {
        Err(CompileError::Leftover(at)) => assert_eq!(at, 0),
        _ => panic!("expected leftover input"),
    }
    match compile("<a></a>}") {
        Err(CompileError::Leftover(at)) => assert_eq!(at, 7),
        _ => panic!("expected leftover input"),
    }
}

#[test]
fn top_level_code_goes_first() {
    assert_eq!(
        render_of("{ let x = 1; }<b>{x}</b>"),
        "let x = 1;let __rendered = format!(r#\"<b>{}</b>\"#, x);"
    );
}

#[test]
fn code_block_with_markup_formats_its_own_markup() {
    assert_eq!(
        render_of("<ul>{ let y = 2; <li>x</li> }</ul>"),
        "let __rendered = format!(r#\"<ul>{}</ul>\"#, {let y = 2;\nformat!(r#\"<li>{}</li>\"#, r#\"x\"#)\n});"
    );
}

#[test]
fn top_level_code_block_with_markup_is_an_argument() {
    assert_eq!(
        render_of("{ <i>a</i> }"),
        "let __rendered = format!(r#\"{}\"#, {\nformat!(r#\"<i>{}</i>\"#, r#\"a\"#)\n});"
    );
}

#[test]
fn nested_tags_and_text() {
    assert_eq!(
        render_of("<div><p>a</p><br></br>b</div>"),
        "let __rendered = format!(r#\"<div><p>{}</p><br/>{}</div>\"#, r#\"a\"#,r#\"b\"#);"
    );
}

#[test]
fn quoting_survives_raw_string_terminators() {
    assert_eq!(quoted("hello"), "r#\"hello\"#");
    assert_eq!(quoted("a\"#b"), "r##\"a\"#b\"##");
    assert_eq!(quoted("##"), "r###\"##\"###");
    assert_eq!(
        render_of("say \"# now"),
        "let __rendered = format!(r#\"{}\"#, r##\"say \"# now\"##);"
    );
}

#[test]
fn generated_component_wraps_render() {
    let out = compile("hi").ok().unwrap();
    assert!(out.contains("impl cogs_runtime::Component for Cog"));
    assert!(out.contains("Ok(__rendered)"));
}

#[test]
fn unicode_text_is_kept() {
    assert_eq!(
        render_of("<p>héllo wörld</p>"),
        "let __rendered = format!(r#\"<p>{}</p>\"#, r#\"héllo wörld\"#);"
    );
}
