use cogs::ast;
use cogs::generate::{generate, Generator};
use cogs::ir::{handles_equal, CodeBlock, Expression, Tree};
use intern_arc::HashInterner;

fn tag(name: &str, attributes: Vec<ast::Attribute>, content: Vec<ast::Element>) -> ast::HtmlTag {
    ast::HtmlTag { tag: name.to_string(), attributes, content }
}

#[test]
fn equal_texts_share_one_handle() {
    let pool = HashInterner::<str>::new();
    let element = ast::Element::Html(tag(
        "a",
        vec![ast::Attribute { name: "a".to_string(), value: Some(ast::Expression::Text("a".to_string())) }],
        vec![ast::Element::Text("b".to_string())],
    ));
    let tree = Tree::from_ast(&element, &pool);
    assert_eq!(pool.len(), 2);
    match &tree {
        Tree::HtmlTag(h) => {
            assert!(handles_equal(&h.tag, &h.attributes[0].name));
            assert!(h.tag == h.attributes[0].name);
            match &h.attributes[0].value {
                Some(Expression::Literal(l)) => assert!(handles_equal(l, &h.tag)),
                _ => panic!("expected a literal"),
            }
            match &h.content[0] {
                Tree::HtmlText(t) => {
                    assert!(!handles_equal(t, &h.tag));
                    assert_eq!(&**t, "b");
                }
                _ => panic!("expected text"),
            }
        }
        _ => panic!("expected a tag"),
    }
}

#[test]
fn equal_texts_across_trees_compare_equal() {
    let pool = HashInterner::<str>::new();
    let a = ast::Element::Html(tag("div", vec![], vec![ast::Element::Text("div".to_string())]));
    let b = ast::Element::Text("div".to_string());
    let c = ast::Element::Text("span".to_string());
    let (ta, tb, tc) = (Tree::from_ast(&a, &pool), Tree::from_ast(&b, &pool), Tree::from_ast(&c, &pool));
    let (Tree::HtmlTag(h), Tree::HtmlText(x), Tree::HtmlText(y)) = (&ta, &tb, &tc) else {
        panic!("unexpected shapes");
    };
    let Tree::HtmlText(inner) = &h.content[0] else {
        panic!("expected text");
    };
    assert!(handles_equal(&h.tag, inner));
    assert!(handles_equal(&h.tag, x));
    assert!(!handles_equal(x, y));
    assert_eq!(pool.len(), 2);
}

#[test]
fn has_html_follows_contents() {
    let pool = HashInterner::<str>::new();
    let with_tag = ast::CodeBlock {
        content: vec![
            ast::CodeElement::Code("if x {".to_string()),
            ast::CodeElement::Html(tag("b", vec![], vec![])),
            ast::CodeElement::Code("}".to_string()),
        ],
    };
    assert!(CodeBlock::from_ast(&with_tag, &pool).has_html);
    let code_only = ast::CodeBlock {
        content: vec![ast::CodeElement::Code("let a = 1;".to_string())],
    };
    assert!(!CodeBlock::from_ast(&code_only, &pool).has_html);
    let empty = ast::CodeBlock { content: vec![] };
    assert!(!CodeBlock::from_ast(&empty, &pool).has_html);
}

#[test]
fn to_format_of_built_trees() {
    let pool = HashInterner::<str>::new();
    let elements = vec![
        ast::Element::Block(ast::CodeBlock { content: vec![ast::CodeElement::Code(" let n = 3; ".to_string())] }),
        ast::Element::Html(tag("p", vec![], vec![ast::Element::Text(" n ".to_string())])),
    ];
    let trees: Vec<Tree> = elements.iter().map(|e| Tree::from_ast(e, &pool)).collect();
    let generator = Generator { trees, intern_str: pool };
    assert_eq!(
        generator.to_format(),
        "let n = 3;let __rendered = format!(r#\"<p>{}</p>\"#, r#\"n\"#);"
    );
}

#[test]
fn names_check_follows_the_grammar() {
    let good = ast::Component {
        elements: vec![ast::Element::Html(tag(
            "my-div",
            vec![ast::Attribute { name: "data_x".to_string(), value: None }],
            vec![ast::Element::Block(ast::CodeBlock {
                content: vec![ast::CodeElement::Html(tag("b", vec![], vec![]))],
            })],
        ))],
    };
    assert!(good.names_ok());
    let bad_tag = ast::Component { elements: vec![ast::Element::Html(tag("a{}", vec![], vec![]))] };
    assert!(!bad_tag.names_ok());
    let bad_attr = ast::Component {
        elements: vec![ast::Element::Html(tag(
            "a",
            vec![ast::Attribute { name: "x\"#".to_string(), value: None }],
            vec![],
        ))],
    };
    assert!(!bad_attr.names_ok());
    let nested_bad = ast::Component {
        elements: vec![ast::Element::Block(ast::CodeBlock {
            content: vec![ast::CodeElement::Html(tag("", vec![], vec![]))],
        })],
    };
    assert!(!nested_bad.names_ok());
}

#[test]
fn generate_from_built_ast() {
    let component = ast::Component { elements: vec![ast::Element::Text("hi".to_string())] };
    let out = generate(&component);
    assert!(out.contains("let __rendered = format!(r#\"{}\"#, r#\"hi\"#);"));
}
