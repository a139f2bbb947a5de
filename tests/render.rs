use cogs::compile::compile;
use cogs::generate::{COMPONENT_HEAD, COMPONENT_TAIL};
use cogs::render::Render;

#[test]
fn render_impls_give_their_text() {
    assert_eq!(().render(), "");
    assert_eq!("abc".render(), "abc");
    assert_eq!(String::from("x y").render(), "x y");
    let s = String::from("ref");
    assert_eq!((&s).render(), "ref");
    assert_eq!(Box::new(String::from("boxed")).render(), "boxed");
}

/// Reads raw string literals separated by commas.
fn decode_arguments(mut rest: &str) -> Vec<String> {
    let mut out = Vec::new();
    while !rest.is_empty() {
        assert!(rest.starts_with('r'));
        let hashes = rest[1..].chars().take_while(|c| *c == '#').count();
        let fence: String = std::iter::repeat('#').take(hashes).collect();
        let body_start = 1 + hashes + 1;
        let end_marker = format!("\"{fence}");
        let end = rest[body_start..].find(&end_marker).unwrap() + body_start;
        out.push(rest[body_start..end].to_string());
        rest = &rest[end + end_marker.len()..];
        rest = rest.strip_prefix(',').unwrap_or(rest);
    }
    out
}

fn fill(template: &str, values: &[String]) -> String {
    let mut out = String::new();
    let mut parts = template.split("{}");
    out.push_str(parts.next().unwrap());
    for (part, value) in parts.zip(values) {
        out.push_str(value);
        out.push_str(part);
    }
    out
}

fn round_trip(source: &str) -> String {
    let out = compile(source).ok().unwrap();
    let body = &out[COMPONENT_HEAD.len()..out.len() - COMPONENT_TAIL.len()];
    let body = body.strip_prefix("let __rendered = format!(r#\"").unwrap();
    let split = body.find("\"#, ").unwrap();
    let template = &body[..split];
    let args = body[split + 4..].strip_suffix(");").unwrap();
    fill(template, &decode_arguments(args))
}

#[test]
fn markup_round_trips_through_the_template() {
    assert_eq!(
        round_trip("<div id=\"main\"><p> hi, there </p><br></br>tail</div>"),
        "<div id=\"main\"><p>hi, there</p><br/>tail</div>"
    );
}

#[test]
fn hostile_text_round_trips() {
    assert_eq!(round_trip("<p>a \"# b \"## c</p>"), "<p>a \"# b \"## c</p>");
}
