//! The intermediate tree: the syntax tree with every string interned, and
//! each code block marked with whether it holds markup.

use vstd::prelude::*;
use intern_arc::{HashInterner, InternedHash};
use crate::ast;
use crate::ast::{AttributeV, CodeElementV, ElementV, ExpressionV, TagV};

verus! {

#[verifier::external_type_specification]
#[verifier::external_body]
#[verifier::reject_recursive_types(T)]
pub struct ExHashInterner<T: ?Sized + Eq + std::hash::Hash>(HashInterner<T>);

#[verifier::external_type_specification]
#[verifier::external_body]
#[verifier::reject_recursive_types(T)]
pub struct ExInternedHash<T: ?Sized + Eq + std::hash::Hash>(InternedHash<T>);

/// The text that an interned handle holds.
pub uninterp spec fn interned_text(h: InternedHash<str>) -> Seq<char>;

/// Relies on `HashInterner::new`: a fresh, empty pool.
#[verifier::external_body]
pub(crate) fn new_pool() -> HashInterner<str> {
    HashInterner::new()
}

/// Relies on `HashInterner::intern_ref`: the handle it returns, new or
/// shared, holds text equal to `s`.
#[verifier::external_body]
pub(crate) fn intern_ref(pool: &HashInterner<str>, s: &str) -> (r: InternedHash<str>)
    ensures
        interned_text(r) == s@,
{
    pool.intern_ref(s)
}

/// Relies on `InternedHash`'s `Deref`: the text the handle holds.
#[verifier::external_body]
pub(crate) fn text_of(h: &InternedHash<str>) -> (r: &str)
    ensures
        r@ == interned_text(*h),
{
    h
}

/// Relies on `InternedHash`'s `PartialEq`: two handles are equal when they
/// share one allocation or hold equal text, so exactly when their texts are
/// equal.
#[verifier::external_body]
fn eq_handles(a: &InternedHash<str>, b: &InternedHash<str>) -> (r: bool)
    ensures
        r == (interned_text(*a) == interned_text(*b)),
{
    a == b
}

/// Whether two handles compare equal: exactly when they hold equal text.
pub fn handles_equal(a: &InternedHash<str>, b: &InternedHash<str>) -> (r: bool)
    ensures
        r == (interned_text(*a) == interned_text(*b)),
{
    eq_handles(a, b)
}

pub enum Expression {
    Literal(InternedHash<str>),
    Code(InternedHash<str>),
}

pub struct HtmlAttribute {
    pub name: InternedHash<str>,
    pub value: Option<Expression>,
}

pub struct HtmlTag {
    pub tag: InternedHash<str>,
    pub attributes: Vec<HtmlAttribute>,
    pub content: Vec<Tree>,
}

pub enum CodeTree {
    HtmlTag(HtmlTag),
    Code(InternedHash<str>),
}

/// A block of opaque code; `has_html` tells whether any of its elements is a
/// tag.
pub struct CodeBlock {
    pub has_html: bool,
    pub content: Vec<CodeTree>,
}

pub enum Tree {
    HtmlText(InternedHash<str>),
    HtmlTag(HtmlTag),
    CodeBlock(CodeBlock),
}

pub open spec fn expression_v(e: Expression) -> ExpressionV {
    match e {
        Expression::Literal(t) => ExpressionV::Text(interned_text(t)),
        Expression::Code(c) => ExpressionV::Code(interned_text(c)),
    }
}

pub open spec fn attribute_v(a: HtmlAttribute) -> AttributeV {
    AttributeV {
        name: interned_text(a.name),
        value: match a.value {
            Some(e) => Some(expression_v(e)),
            None => None,
        },
    }
}

pub open spec fn attributes_v(s: Seq<HtmlAttribute>) -> Seq<AttributeV> {
    s.map_values(|a: HtmlAttribute| attribute_v(a))
}

pub open spec fn tag_v(t: HtmlTag) -> TagV
    decreases t,
{
    TagV {
        tag: interned_text(t.tag),
        attributes: attributes_v(t.attributes@),
        content: trees_v(t.content@),
    }
}

pub open spec fn tree_v(t: Tree) -> ElementV
    decreases t,
{
    match t {
        Tree::HtmlText(s) => ElementV::Text(interned_text(s)),
        Tree::HtmlTag(h) => ElementV::Html(tag_v(h)),
        Tree::CodeBlock(b) => ElementV::Block(code_trees_v(b.content@)),
    }
}

pub open spec fn trees_v(s: Seq<Tree>) -> Seq<ElementV>
    decreases s,
{
    if s.len() == 0 {
        Seq::empty()
    } else {
        trees_v(s.drop_last()).push(tree_v(s.last()))
    }
}

pub open spec fn code_tree_v(t: CodeTree) -> CodeElementV
    decreases t,
{
    match t {
        CodeTree::HtmlTag(h) => CodeElementV::Html(tag_v(h)),
        CodeTree::Code(c) => CodeElementV::Code(interned_text(c)),
    }
}

pub open spec fn code_trees_v(s: Seq<CodeTree>) -> Seq<CodeElementV>
    decreases s,
{
    if s.len() == 0 {
        Seq::empty()
    } else {
        code_trees_v(s.drop_last()).push(code_tree_v(s.last()))
    }
}

/// Whether any element of a code block is a tag.
pub open spec fn has_markup(s: Seq<CodeElementV>) -> bool {
    exists|i: int| 0 <= i < s.len() && s[i] is Html
}

// Well-formedness: every code block's flag agrees with its contents.
pub open spec fn tag_wf(t: HtmlTag) -> bool
    decreases t,
{
    trees_wf(t.content@)
}

pub open spec fn tree_wf(t: Tree) -> bool
    decreases t,
{
    match t {
        Tree::HtmlText(_) => true,
        Tree::HtmlTag(h) => tag_wf(h),
        Tree::CodeBlock(b) => {
            &&& b.has_html == has_markup(code_trees_v(b.content@))
            &&& code_trees_wf(b.content@)
        },
    }
}

pub open spec fn trees_wf(s: Seq<Tree>) -> bool
    decreases s,
{
    s.len() > 0 ==> trees_wf(s.drop_last()) && tree_wf(s.last())
}

pub open spec fn code_tree_wf(t: CodeTree) -> bool
    decreases t,
{
    match t {
        CodeTree::HtmlTag(h) => tag_wf(h),
        CodeTree::Code(_) => true,
    }
}

pub open spec fn code_trees_wf(s: Seq<CodeTree>) -> bool
    decreases s,
{
    s.len() > 0 ==> code_trees_wf(s.drop_last()) && code_tree_wf(s.last())
}

impl Tree {
    pub open spec fn wf(&self) -> bool {
        tree_wf(*self)
    }

    /// Lowers one element of the syntax tree, interning every string in `intern`.
    pub fn from_ast(value: &ast::Element, intern: &HashInterner<str>) -> (r: Self)
        ensures
            tree_v(r) == value@,
            r.wf(),
        decreases value,
    {
        match value {
            ast::Element::Text(text) => Tree::HtmlText(intern_ref(intern, text.as_str())),
            ast::Element::Html(html) => Tree::HtmlTag(HtmlTag::from_ast(html, intern)),
            ast::Element::Block(block) => Tree::CodeBlock(CodeBlock::from_ast(block, intern)),
        }
    }
}

impl HtmlTag {
    /// Lowers a tag with its attributes and children.
    pub fn from_ast(value: &ast::HtmlTag, intern: &HashInterner<str>) -> (r: Self)
        ensures
            tag_v(r) == value@,
            tag_wf(r),
        decreases value,
    {
        let tag = intern_ref(intern, value.tag.as_str());
        let mut attributes: Vec<HtmlAttribute> = Vec::new();
        let mut i: usize = 0;
        while i < value.attributes.len()
            invariant
                i <= value.attributes.len(),
                attributes@.len() == i,
                forall|k: int| 0 <= k < i ==> attribute_v(#[trigger] attributes@[k])
                    == ast::attribute_v(value.attributes@[k]),
            decreases value.attributes.len() - i,
        {
            attributes.push(HtmlAttribute::from_ast(&value.attributes[i], intern));
            i = i + 1;
        }
        let mut content: Vec<Tree> = Vec::new();
        let mut j: usize = 0;
        while j < value.content.len()
            invariant
                j <= value.content.len(),
                trees_v(content@) == ast::elements_v(value.content@.subrange(0, j as int)),
                trees_wf(content@),
            decreases value.content.len() - j,
        {
            proof {
                assert(decreases_to!(*value => value.content));
                assert(decreases_to!(value.content => value.content@[j as int]));
            }
            let t = Tree::from_ast(&value.content[j], intern);
            proof {
                let s = value.content@.subrange(0, j + 1);
                assert(s.drop_last() == value.content@.subrange(0, j as int));
                assert(content@.push(t).drop_last() == content@);
            }
            content.push(t);
            j = j + 1;
        }
        proof {
            assert(value.content@.subrange(0, value.content@.len() as int) == value.content@);
            assert(attributes_v(attributes@) == ast::attributes_v(value.attributes@));
        }
        HtmlTag { tag, attributes, content }
    }
}

impl HtmlAttribute {
    /// Lowers an attribute and its value, if any.
    pub fn from_ast(value: &ast::Attribute, intern: &HashInterner<str>) -> (r: Self)
        ensures
            attribute_v(r) == value@,
    {
        let name = intern_ref(intern, value.name.as_str());
        let value = match &value.value {
            Some(v) => Some(Expression::from_ast(v, intern)),
            None => None,
        };
        HtmlAttribute { name, value }
    }
}

impl CodeBlock {
    /// Lowers a code block, and records whether any of its elements is a tag.
    pub fn from_ast(value: &ast::CodeBlock, intern: &HashInterner<str>) -> (r: Self)
        ensures
            code_trees_v(r.content@) == value@,
            r.has_html == has_markup(value@),
            code_trees_wf(r.content@),
        decreases value,
    {
        let mut has_html = false;
        let mut content: Vec<CodeTree> = Vec::new();
        let mut j: usize = 0;
        while j < value.content.len()
            invariant
                j <= value.content.len(),
                code_trees_v(content@) == ast::code_elements_v(value.content@.subrange(0, j as int)),
                code_trees_wf(content@),
                has_html == has_markup(code_trees_v(content@)),
            decreases value.content.len() - j,
        {
            proof {
                assert(decreases_to!(*value => value.content));
                assert(decreases_to!(value.content => value.content@[j as int]));
            }
            let elem = &value.content[j];
            if let ast::CodeElement::Html(_) = elem {
                has_html = true;
            }
            let t = CodeTree::from_ast(elem, intern);
            proof {
                let s = value.content@.subrange(0, j + 1);
                assert(s.drop_last() == value.content@.subrange(0, j as int));
                assert(content@.push(t).drop_last() == content@);
                let v = code_trees_v(content@.push(t));
                assert(v == code_trees_v(content@).push(code_tree_v(t)));
                if has_html {
                    if elem is Html {
                        assert(v[v.len() - 1] is Html);
                    } else {
                        let w = code_trees_v(content@);
                        let k = choose|k: int| 0 <= k < w.len() && w[k] is Html;
                        assert(v[k] is Html);
                    }
                } else {
                    assert forall|k: int| 0 <= k < v.len() implies !(v[k] is Html) by {
                        if k < v.len() - 1 {
                            assert(v[k] == code_trees_v(content@)[k]);
                        }
                    }
                }
            }
            content.push(t);
            j = j + 1;
        }
        proof {
            assert(value.content@.subrange(0, value.content@.len() as int) == value.content@);
        }
        CodeBlock { content, has_html }
    }
}

impl Expression {
    /// Lowers an attribute value.
    pub fn from_ast(value: &ast::Expression, intern: &HashInterner<str>) -> (r: Self)
        ensures
            expression_v(r) == value@,
    {
        match value {
            ast::Expression::Text(text) => Expression::Literal(intern_ref(intern, text.as_str())),
            ast::Expression::Code(code) => Expression::Code(intern_ref(intern, code.as_str())),
        }
    }
}

impl CodeTree {
    /// Lowers one element of a code block.
    pub fn from_ast(value: &ast::CodeElement, intern: &HashInterner<str>) -> (r: Self)
        ensures
            code_tree_v(r) == value@,
            code_tree_wf(r),
            (r is HtmlTag) == (value is Html),
        decreases value,
    {
        match value {
            ast::CodeElement::Code(code) => CodeTree::Code(intern_ref(intern, code.as_str())),
            ast::CodeElement::Html(html) => CodeTree::HtmlTag(HtmlTag::from_ast(html, intern)),
        }
    }
}

/// Every handle a lowered tree holds, in order: names, values, text and code.
pub open spec fn expression_handle(e: Expression) -> InternedHash<str> {
    match e {
        Expression::Literal(h) => h,
        Expression::Code(h) => h,
    }
}

pub open spec fn attribute_handles(a: HtmlAttribute) -> Seq<InternedHash<str>> {
    seq![a.name] + match a.value {
        Some(e) => seq![expression_handle(e)],
        None => Seq::empty(),
    }
}

pub open spec fn attributes_handles(s: Seq<HtmlAttribute>) -> Seq<InternedHash<str>>
    decreases s.len(),
{
    if s.len() == 0 {
        Seq::empty()
    } else {
        attributes_handles(s.drop_last()) + attribute_handles(s.last())
    }
}

pub open spec fn tag_handles(t: HtmlTag) -> Seq<InternedHash<str>>
    decreases t,
{
    seq![t.tag] + attributes_handles(t.attributes@) + trees_handles(t.content@)
}

pub open spec fn tree_handles(t: Tree) -> Seq<InternedHash<str>>
    decreases t,
{
    match t {
        Tree::HtmlText(h) => seq![h],
        Tree::HtmlTag(h) => tag_handles(h),
        Tree::CodeBlock(b) => code_trees_handles(b.content@),
    }
}

pub open spec fn trees_handles(s: Seq<Tree>) -> Seq<InternedHash<str>>
    decreases s,
{
    if s.len() == 0 {
        Seq::empty()
    } else {
        trees_handles(s.drop_last()) + tree_handles(s.last())
    }
}

pub open spec fn code_tree_handles(t: CodeTree) -> Seq<InternedHash<str>>
    decreases t,
{
    match t {
        CodeTree::HtmlTag(h) => tag_handles(h),
        CodeTree::Code(c) => seq![c],
    }
}

pub open spec fn code_trees_handles(s: Seq<CodeTree>) -> Seq<InternedHash<str>>
    decreases s,
{
    if s.len() == 0 {
        Seq::empty()
    } else {
        code_trees_handles(s.drop_last()) + code_tree_handles(s.last())
    }
}

/// Every string of a tree's model, in the order `tree_handles` lists handles.
pub open spec fn expression_string(e: ExpressionV) -> Seq<char> {
    match e {
        ExpressionV::Text(t) => t,
        ExpressionV::Code(c) => c,
    }
}

pub open spec fn attribute_strings(a: AttributeV) -> Seq<Seq<char>> {
    seq![a.name] + match a.value {
        Some(e) => seq![expression_string(e)],
        None => Seq::empty(),
    }
}

pub open spec fn attributes_strings(s: Seq<AttributeV>) -> Seq<Seq<char>>
    decreases s.len(),
{
    if s.len() == 0 {
        Seq::empty()
    } else {
        attributes_strings(s.drop_last()) + attribute_strings(s.last())
    }
}

pub open spec fn tag_strings(t: TagV) -> Seq<Seq<char>>
    decreases t,
{
    seq![t.tag] + attributes_strings(t.attributes) + elements_strings(t.content)
}

pub open spec fn element_strings(e: ElementV) -> Seq<Seq<char>>
    decreases e,
{
    match e {
        ElementV::Text(s) => seq![s],
        ElementV::Html(t) => tag_strings(t),
        ElementV::Block(b) => code_elements_strings(b),
    }
}

pub open spec fn elements_strings(s: Seq<ElementV>) -> Seq<Seq<char>>
    decreases s,
{
    if s.len() == 0 {
        Seq::empty()
    } else {
        elements_strings(s.drop_last()) + element_strings(s.last())
    }
}

pub open spec fn code_element_strings(e: CodeElementV) -> Seq<Seq<char>>
    decreases e,
{
    match e {
        CodeElementV::Html(t) => tag_strings(t),
        CodeElementV::Code(c) => seq![c],
    }
}

pub open spec fn code_elements_strings(s: Seq<CodeElementV>) -> Seq<Seq<char>>
    decreases s,
{
    if s.len() == 0 {
        Seq::empty()
    } else {
        code_elements_strings(s.drop_last()) + code_element_strings(s.last())
    }
}

pub open spec fn texts_of(hs: Seq<InternedHash<str>>) -> Seq<Seq<char>> {
    hs.map_values(|h: InternedHash<str>| interned_text(h))
}

proof fn lemma_texts_concat(a: Seq<InternedHash<str>>, b: Seq<InternedHash<str>>)
    ensures
        texts_of(a + b) == texts_of(a) + texts_of(b),
{
    assert(texts_of(a + b) =~= texts_of(a) + texts_of(b));
}

proof fn lemma_attributes_texts(s: Seq<HtmlAttribute>)
    ensures
        texts_of(attributes_handles(s)) == attributes_strings(attributes_v(s)),
    decreases s.len(),
{
    if s.len() > 0 {
        lemma_attributes_texts(s.drop_last());
        lemma_texts_concat(attributes_handles(s.drop_last()), attribute_handles(s.last()));
        assert(attributes_v(s).drop_last() == attributes_v(s.drop_last()));
        let a = s.last();
        lemma_texts_concat(seq![a.name], attribute_handles(a).subrange(1, attribute_handles(a).len() as int));
        assert(seq![a.name] + attribute_handles(a).subrange(1, attribute_handles(a).len() as int) == attribute_handles(a));
        assert(texts_of(attribute_handles(a)) == attribute_strings(attribute_v(a)));
    }
}

proof fn lemma_tag_texts(t: HtmlTag)
    ensures
        texts_of(tag_handles(t)) == tag_strings(tag_v(t)),
    decreases t,
{
    lemma_attributes_texts(t.attributes@);
    lemma_trees_texts(t.content@);
    lemma_texts_concat(seq![t.tag], attributes_handles(t.attributes@));
    lemma_texts_concat(seq![t.tag] + attributes_handles(t.attributes@), trees_handles(t.content@));
    assert(texts_of(seq![t.tag]) == seq![interned_text(t.tag)]);
}

proof fn lemma_tree_texts(t: Tree)
    ensures
        texts_of(tree_handles(t)) == element_strings(tree_v(t)),
    decreases t,
{
    match t {
        Tree::HtmlText(h) => {
            assert(texts_of(seq![h]) == seq![interned_text(h)]);
        },
        Tree::HtmlTag(h) => lemma_tag_texts(h),
        Tree::CodeBlock(b) => lemma_code_trees_texts(b.content@),
    }
}

proof fn lemma_trees_texts(s: Seq<Tree>)
    ensures
        texts_of(trees_handles(s)) == elements_strings(trees_v(s)),
    decreases s,
{
    if s.len() > 0 {
        lemma_trees_texts(s.drop_last());
        lemma_tree_texts(s.last());
        lemma_texts_concat(trees_handles(s.drop_last()), tree_handles(s.last()));
        assert(trees_v(s).drop_last() == trees_v(s.drop_last()));
    }
}

proof fn lemma_code_tree_texts(t: CodeTree)
    ensures
        texts_of(code_tree_handles(t)) == code_element_strings(code_tree_v(t)),
    decreases t,
{
    match t {
        CodeTree::HtmlTag(h) => lemma_tag_texts(h),
        CodeTree::Code(c) => {
            assert(texts_of(seq![c]) == seq![interned_text(c)]);
        },
    }
}

proof fn lemma_code_trees_texts(s: Seq<CodeTree>)
    ensures
        texts_of(code_trees_handles(s)) == code_elements_strings(code_trees_v(s)),
    decreases s,
{
    if s.len() > 0 {
        lemma_code_trees_texts(s.drop_last());
        lemma_code_tree_texts(s.last());
        lemma_texts_concat(code_trees_handles(s.drop_last()), code_tree_handles(s.last()));
        assert(code_trees_v(s).drop_last() == code_trees_v(s.drop_last()));
    }
}

/// Interning: take every handle two lowered trees hold, and the strings of
/// the syntax trees they were lowered from, in the same order. Each handle
/// holds its string, and two handles compare equal (`handles_equal`) exactly
/// when their strings are equal.
pub proof fn lemma_interning(t1: Tree, t2: Tree, e1: ElementV, e2: ElementV, i: int, j: int)
    requires
        tree_v(t1) == e1,
        tree_v(t2) == e2,
        0 <= i < (tree_handles(t1) + tree_handles(t2)).len(),
        0 <= j < (tree_handles(t1) + tree_handles(t2)).len(),
    ensures
        ({
            let hs = tree_handles(t1) + tree_handles(t2);
            let ss = element_strings(e1) + element_strings(e2);
            &&& hs.len() == ss.len()
            &&& interned_text(hs[i]) == ss[i]
            &&& (interned_text(hs[i]) == interned_text(hs[j]) <==> ss[i] == ss[j])
        }),
{
    lemma_tree_texts(t1);
    lemma_tree_texts(t2);
    lemma_texts_concat(tree_handles(t1), tree_handles(t2));
    let hs = tree_handles(t1) + tree_handles(t2);
    assert(texts_of(hs)[i] == interned_text(hs[i]));
    assert(texts_of(hs)[j] == interned_text(hs[j]));
}

} // verus!
