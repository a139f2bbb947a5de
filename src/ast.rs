//! The syntax tree produced by the parser, and its mathematical model.

use vstd::prelude::*;
use crate::grammar::names_ok_elements;

verus! {

/// One compiled template unit: its top-level elements, in rendering order.
#[derive(Debug)]
pub struct Component {
    pub elements: Vec<Element>,
}

#[derive(Debug)]
pub enum Element {
    Html(HtmlTag),
    Block(CodeBlock),
    Text(String),
}

#[derive(Debug)]
pub struct HtmlTag {
    pub tag: String,
    pub attributes: Vec<Attribute>,
    pub content: Vec<Element>,
}

#[derive(Debug)]
pub struct Attribute {
    pub name: String,
    pub value: Option<Expression>,
}

/// A block of opaque code; tags inside it are still markup.
#[derive(Debug)]
pub struct CodeBlock {
    pub content: Vec<CodeElement>,
}

#[derive(Debug)]
pub enum Expression {
    Code(String),
    Text(String),
}

#[derive(Debug)]
pub enum CodeElement {
    Html(HtmlTag),
    Code(String),
}

// The model: the same shapes, with every string seen as its characters.
pub enum ElementV {
    Html(TagV),
    Block(Seq<CodeElementV>),
    Text(Seq<char>),
}

pub struct TagV {
    pub tag: Seq<char>,
    pub attributes: Seq<AttributeV>,
    pub content: Seq<ElementV>,
}

pub struct AttributeV {
    pub name: Seq<char>,
    pub value: Option<ExpressionV>,
}

pub enum ExpressionV {
    Code(Seq<char>),
    Text(Seq<char>),
}

pub enum CodeElementV {
    Html(TagV),
    Code(Seq<char>),
}

pub open spec fn expression_v(e: Expression) -> ExpressionV {
    match e {
        Expression::Code(c) => ExpressionV::Code(c@),
        Expression::Text(t) => ExpressionV::Text(t@),
    }
}

pub open spec fn attribute_v(a: Attribute) -> AttributeV {
    AttributeV {
        name: a.name@,
        value: match a.value {
            Some(e) => Some(expression_v(e)),
            None => None,
        },
    }
}

pub open spec fn attributes_v(s: Seq<Attribute>) -> Seq<AttributeV> {
    s.map_values(|a: Attribute| attribute_v(a))
}

pub open spec fn tag_v(t: HtmlTag) -> TagV
    decreases t,
{
    TagV {
        tag: t.tag@,
        attributes: attributes_v(t.attributes@),
        content: elements_v(t.content@),
    }
}

pub open spec fn element_v(e: Element) -> ElementV
    decreases e,
{
    match e {
        Element::Html(t) => ElementV::Html(tag_v(t)),
        Element::Block(b) => ElementV::Block(code_elements_v(b.content@)),
        Element::Text(s) => ElementV::Text(s@),
    }
}

pub open spec fn elements_v(s: Seq<Element>) -> Seq<ElementV>
    decreases s,
{
    if s.len() == 0 {
        Seq::empty()
    } else {
        elements_v(s.drop_last()).push(element_v(s.last()))
    }
}

pub open spec fn code_element_v(e: CodeElement) -> CodeElementV
    decreases e,
{
    match e {
        CodeElement::Html(t) => CodeElementV::Html(tag_v(t)),
        CodeElement::Code(c) => CodeElementV::Code(c@),
    }
}

pub open spec fn code_elements_v(s: Seq<CodeElement>) -> Seq<CodeElementV>
    decreases s,
{
    if s.len() == 0 {
        Seq::empty()
    } else {
        code_elements_v(s.drop_last()).push(code_element_v(s.last()))
    }
}

impl Component {
    /// Every tag and attribute name is of the grammar's class, as in every
    /// component the parser yields.
    pub open spec fn wf(&self) -> bool {
        names_ok_elements(self@)
    }
}

impl View for Component {
    type V = Seq<ElementV>;

    open spec fn view(&self) -> Seq<ElementV> {
        elements_v(self.elements@)
    }
}

impl View for Element {
    type V = ElementV;

    open spec fn view(&self) -> ElementV {
        element_v(*self)
    }
}

impl View for HtmlTag {
    type V = TagV;

    open spec fn view(&self) -> TagV {
        tag_v(*self)
    }
}

impl View for CodeElement {
    type V = CodeElementV;

    open spec fn view(&self) -> CodeElementV {
        code_element_v(*self)
    }
}

impl View for CodeBlock {
    type V = Seq<CodeElementV>;

    open spec fn view(&self) -> Seq<CodeElementV> {
        code_elements_v(self.content@)
    }
}

impl View for Attribute {
    type V = AttributeV;

    open spec fn view(&self) -> AttributeV {
        attribute_v(*self)
    }
}

impl View for Expression {
    type V = ExpressionV;

    open spec fn view(&self) -> ExpressionV {
        expression_v(*self)
    }
}

} // verus!
