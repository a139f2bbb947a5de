//! Emission: the intermediate tree becomes one host-language expression built
//! around a single formatting call.

use vstd::prelude::*;
use intern_arc::HashInterner;
use crate::ast::{elements_v, AttributeV, CodeElementV, Component, ElementV, ExpressionV, TagV};
use crate::ir::{
    interned_text,
    code_tree_v, code_tree_wf, code_trees_v, code_trees_wf, expression_v, has_markup, new_pool, tag_v,
    tag_wf, text_of, tree_v, tree_wf, trees_v, trees_wf, CodeBlock, CodeTree, Expression, HtmlTag, Tree,
};
use crate::grammar::names_ok_elements;
use vstd::string::StringExecFns;
use crate::text::{chars_of, push_char, trim, trimmed};

verus! {

/// The three parts of emission under construction: statements to run first,
/// a format template, and the arguments its placeholders take in order.
pub struct Acc {
    pub pre: Seq<char>,
    pub format: Seq<char>,
    pub args: Seq<Seq<char>>,
}

pub open spec fn empty_acc() -> Acc {
    Acc { pre: Seq::empty(), format: Seq::empty(), args: Seq::empty() }
}

pub open spec fn placeholder() -> Seq<char> {
    "{}"@
}

pub open spec fn with_format(a: Acc, f: Seq<char>) -> Acc {
    Acc { format: a.format + f, ..a }
}

pub open spec fn with_arg(a: Acc, v: Seq<char>) -> Acc {
    Acc { format: a.format + placeholder(), args: a.args.push(v), ..a }
}

pub open spec fn with_pre(a: Acc, code: Seq<char>) -> Acc {
    if trimmed(code).len() == 0 {
        a
    } else {
        Acc { pre: a.pre + trimmed(code), ..a }
    }
}

/// `n` hash signs.
pub open spec fn hashes(n: nat) -> Seq<char> {
    Seq::new(n, |i: int| '#')
}

/// How many hash signs `s` holds.
pub open spec fn hash_count(s: Seq<char>) -> nat
    decreases s.len(),
{
    if s.len() == 0 {
        0
    } else {
        hash_count(s.drop_last()) + if s.last() == '#' { 1nat } else { 0nat }
    }
}

/// The raw string literal for `s`: its fence has one hash sign more than `s`
/// holds, so no run of hash signs inside `s` can close it early.
pub open spec fn quoted_spec(s: Seq<char>) -> Seq<char> {
    let h = hashes(hash_count(s) + 1);
    "r"@ + h + "\""@ + s + "\""@ + h
}

/// Whether a quote at `j` in `q`, followed by `k` hash signs, would end a raw
/// string literal there.
pub open spec fn closes_at(q: Seq<char>, j: int, k: nat) -> bool {
    &&& q[j] == '"'
    &&& forall|m: int| 1 <= m <= k ==> #[trigger] q[j + m] == '#'
}

/// Whether `q` is a raw string literal whose contents are `body`: `r`, `k`
/// hash signs, a quote, `body`, a quote and `k` hash signs, where no quote
/// inside `body` is followed by `k` hash signs and so ends the literal early.
pub open spec fn is_raw_literal(q: Seq<char>, body: Seq<char>) -> bool {
    exists|k: nat|
        {
            &&& q == "r"@ + hashes(k) + "\""@ + body + "\""@ + hashes(k)
            &&& forall|j: int| k + 2 <= j < k + 2 + body.len() ==> !#[trigger] closes_at(q, j, k)
        }
}

/// A run of `k` hash signs in `t` makes `hash_count(t)` at least `k`.
pub proof fn lemma_hash_run(t: Seq<char>, a: int, k: nat)
    requires
        0 <= a,
        a + k <= t.len(),
        forall|m: int| 0 <= m < k ==> #[trigger] t[a + m] == '#',
    ensures
        hash_count(t) >= k,
    decreases t.len(),
{
    if k == 0 {
    } else if t.len() == a + k {
        let u = t.drop_last();
        assert(t.last() == t[a + (k - 1)]);
        assert forall|m: int| 0 <= m < (k - 1) as nat implies #[trigger] u[a + m] == '#' by {
            assert(u[a + m] == t[a + m]);
        }
        lemma_hash_run(u, a, (k - 1) as nat);
    } else {
        let u = t.drop_last();
        assert forall|m: int| 0 <= m < k implies #[trigger] u[a + m] == '#' by {
            assert(u[a + m] == t[a + m]);
        }
        lemma_hash_run(u, a, k);
    }
}

/// Quoting is safe: whatever `t` holds, `quoted_spec(t)` is a raw string
/// literal whose contents are exactly `t`.
pub proof fn lemma_quoted_decodes(t: Seq<char>)
    ensures
        is_raw_literal(quoted_spec(t), t),
{
    reveal_strlit("r");
    reveal_strlit("\"");
    let k = hash_count(t) + 1;
    let q = quoted_spec(t);
    let start: int = k as int + 2;
    assert(q.len() == 2 * k + 3 + t.len());
    assert forall|i: int| 0 <= i < t.len() implies q[start + i] == t[i] by {}
    assert(q[start + t.len() as int] == '"');
    assert forall|j: int| k + 2 <= j < k + 2 + t.len() implies !#[trigger] closes_at(q, j, k) by {
        if closes_at(q, j, k) {
            if j + k >= start + t.len() {
                let m = start + t.len() - j;
                assert(1 <= m <= k);
                assert(q[j + m] == '#');
            } else {
                let a = j - start + 1;
                assert forall|m: int| 0 <= m < k implies #[trigger] t[a + m] == '#' by {
                    assert(q[j + (m + 1)] == '#');
                    assert(q[start + (a + m)] == t[a + m]);
                }
                lemma_hash_run(t, a, k);
            }
        }
    }
}

pub open spec fn expression_out(e: ExpressionV, a: Acc) -> Acc {
    match e {
        ExpressionV::Text(t) => with_format(with_arg(with_format(a, "\""@), quoted_spec(t)), "\""@),
        ExpressionV::Code(c) => with_arg(a, c),
    }
}

/// The argument a text node adds to the template is a raw string literal
/// whose contents are exactly its trimmed text.
pub proof fn lemma_text_argument_decodes(s: Seq<char>, a: Acc)
    ensures
        element_out(ElementV::Text(s), a).args.len() == a.args.len() + 1,
        is_raw_literal(element_out(ElementV::Text(s), a).args.last(), trimmed(s)),
{
    lemma_quoted_decodes(trimmed(s));
}

pub open spec fn attribute_out(at: AttributeV, a: Acc) -> Acc {
    let named = with_format(with_format(a, " "@), at.name);
    match at.value {
        Some(e) => expression_out(e, with_format(named, "="@)),
        None => named,
    }
}

pub open spec fn attributes_out(s: Seq<AttributeV>, a: Acc) -> Acc
    decreases s.len(),
{
    if s.len() == 0 {
        a
    } else {
        attribute_out(s.last(), attributes_out(s.drop_last(), a))
    }
}

pub open spec fn tag_out(t: TagV, a: Acc) -> Acc
    decreases t,
{
    let opened = attributes_out(t.attributes, with_format(with_format(a, "<"@), t.tag));
    if t.content.len() == 0 {
        with_format(opened, "/>"@)
    } else {
        let inner = elements_out(t.content, with_format(opened, ">"@));
        with_format(with_format(with_format(inner, "</"@), t.tag), ">"@)
    }
}

pub open spec fn element_out(e: ElementV, a: Acc) -> Acc
    decreases e,
{
    match e {
        ElementV::Text(s) => with_arg(a, quoted_spec(trimmed(s))),
        ElementV::Html(t) => tag_out(t, a),
        ElementV::Block(b) => with_arg(a, block_expr(code_elements_out(b, empty_acc()))),
    }
}

pub open spec fn elements_out(s: Seq<ElementV>, a: Acc) -> Acc
    decreases s,
{
    if s.len() == 0 {
        a
    } else {
        element_out(s.last(), elements_out(s.drop_last(), a))
    }
}

pub open spec fn code_element_out(e: CodeElementV, a: Acc) -> Acc
    decreases e,
{
    match e {
        CodeElementV::Code(c) => with_pre(a, c),
        CodeElementV::Html(t) => tag_out(t, a),
    }
}

pub open spec fn code_elements_out(s: Seq<CodeElementV>, a: Acc) -> Acc
    decreases s,
{
    if s.len() == 0 {
        a
    } else {
        code_element_out(s.last(), code_elements_out(s.drop_last(), a))
    }
}

/// The arguments, separated by commas.
pub open spec fn joined(args: Seq<Seq<char>>) -> Seq<char>
    decreases args.len(),
{
    if args.len() == 0 {
        Seq::empty()
    } else if args.len() == 1 {
        args[0]
    } else {
        joined(args.drop_last()) + ","@ + args.last()
    }
}

/// `format!(r#"<format>"#, <arguments>)`.
pub open spec fn format_call(a: Acc) -> Seq<char> {
    "format!(r#\""@ + a.format + "\"#, "@ + joined(a.args) + ")"@
}

/// The one expression a code block becomes, from what its elements emitted:
/// its code alone when they put nothing in the template, else a block that runs its code and then formats its markup.
pub open spec fn block_expr(n: Acc) -> Seq<char> {
    if n.format.len() == 0 {
        n.pre
    } else {
        "{"@ + n.pre + "\n"@ + format_call(n) + "\n}"@
    }
}

/// The emission of the top-level elements: a code block without markup only
/// adds its code to the statements that run first.
pub open spec fn root_element_out(e: ElementV, a: Acc) -> Acc {
    match e {
        ElementV::Block(b) => if has_markup(b) {
            element_out(e, a)
        } else {
            code_elements_out(b, a)
        },
        _ => element_out(e, a),
    }
}

pub open spec fn root_elements_out(s: Seq<ElementV>, a: Acc) -> Acc
    decreases s.len(),
{
    if s.len() == 0 {
        a
    } else {
        root_element_out(s.last(), root_elements_out(s.drop_last(), a))
    }
}

/// The statements of a component followed by the binding of its rendered
/// string.
pub open spec fn render_source(s: Seq<ElementV>) -> Seq<char> {
    let a = root_elements_out(s, empty_acc());
    a.pre + "let __rendered = "@ + format_call(a) + ";"@
}

pub proof fn lemma_trees_wf(s: Seq<Tree>)
    requires
        trees_wf(s),
    ensures
        forall|i: int| 0 <= i < s.len() ==> tree_wf(#[trigger] s[i]),
    decreases s.len(),
{
    if s.len() > 0 {
        lemma_trees_wf(s.drop_last());
        assert forall|i: int| 0 <= i < s.len() implies tree_wf(#[trigger] s[i]) by {
            if i < s.len() - 1 {
                assert(s[i] == s.drop_last()[i]);
            }
        }
    }
}

pub proof fn lemma_code_trees_wf(s: Seq<CodeTree>)
    requires
        code_trees_wf(s),
    ensures
        forall|i: int| 0 <= i < s.len() ==> code_tree_wf(#[trigger] s[i]),
    decreases s.len(),
{
    if s.len() > 0 {
        lemma_code_trees_wf(s.drop_last());
        assert forall|i: int| 0 <= i < s.len() implies code_tree_wf(#[trigger] s[i]) by {
            if i < s.len() - 1 {
                assert(s[i] == s.drop_last()[i]);
            }
        }
    }
}

pub struct AppendContext {
    pub pre: String,
    pub format: String,
    pub arguments: Vec<String>,
}

impl View for AppendContext {
    type V = Acc;

    open spec fn view(&self) -> Acc {
        Acc { pre: self.pre@, format: self.format@, args: self.arguments@.map_values(|s: String| s@) }
    }
}

impl AppendContext {
    pub fn new() -> (r: Self)
        ensures
            r@ == empty_acc(),
    {
        let r = AppendContext { pre: String::new(), format: String::new(), arguments: Vec::new() };
        assert(r@.args =~= Seq::<Seq<char>>::empty());
        r
    }

    /// Adds `format` to the template.
    pub fn push(&mut self, format: &str)
        ensures
            final(self)@ == with_format(old(self)@, format@),
    {
        self.format.append(format);
    }

    /// Adds a placeholder to the template, whose value is `value`.
    pub fn push_arg(&mut self, value: String)
        ensures
            final(self)@ == with_arg(old(self)@, value@),
    {
        self.push("{}");
        let ghost before = self.arguments@;
        self.arguments.push(value);
        assert(self.arguments@.map_values(|s: String| s@) =~= before.map_values(|s: String| s@).push(value@));
    }

    /// Adds a code fragment, trimmed, to the statements that run first.
    fn push_code(&mut self, code: &str)
        ensures
            final(self)@ == with_pre(old(self)@, code@),
    {
        let t = trim(code);
        if t.is_empty() {
            return;
        }
        self.pre.append(t);
    }
}

/// `s` as a raw string literal that no character of `s` can close early.
pub fn quoted(s: &str) -> (r: String)
    ensures
        r@ == quoted_spec(s@),
{
    let cs = chars_of(s);
    let mut n: usize = 0;
    let mut i: usize = 0;
    while i < cs.len()
        invariant
            i <= cs.len(),
            cs@ == s@,
            n == hash_count(cs@.subrange(0, i as int)),
            n <= i,
        decreases cs.len() - i,
    {
        assert(cs@.subrange(0, i + 1).drop_last() == cs@.subrange(0, i as int));
        if cs[i] == '#' {
            n = n + 1;
        }
        i = i + 1;
    }
    assert(cs@.subrange(0, cs.len() as int) == s@);
    let mut fence = String::new();
    push_char(&mut fence, '#');
    assert(fence@ =~= hashes(1));
    let mut k: usize = 0;
    while k < n
        invariant
            k <= n,
            n == hash_count(s@),
            fence@ == hashes((k + 1) as nat),
        decreases n - k,
    {
        push_char(&mut fence, '#');
        assert(fence@ =~= hashes((k + 2) as nat));
        k = k + 1;
    }
    let mut r = String::new();
    r.append("r");
    r.append(fence.as_str());
    r.append("\"");
    r.append(s);
    r.append("\"");
    r.append(fence.as_str());
    r
}

/// The arguments, separated by commas.
fn join_args(args: &Vec<String>) -> (r: String)
    ensures
        r@ == joined(args@.map_values(|s: String| s@)),
{
    let ghost all = args@.map_values(|s: String| s@);
    let mut r = String::new();
    let mut i: usize = 0;
    while i < args.len()
        invariant
            i <= args.len(),
            all == args@.map_values(|s: String| s@),
            r@ == joined(all.subrange(0, i as int)),
        decreases args.len() - i,
    {
        assert(all.subrange(0, i + 1).drop_last() == all.subrange(0, i as int));
        if i > 0 {
            r.append(",");
        }
        r.append(args[i].as_str());
        i = i + 1;
    }
    assert(all.subrange(0, args.len() as int) == all);
    r
}

/// Appends `format!(r#"<template>"#, <arguments>)` for `cx` to `out`.
fn push_format_call(out: &mut String, cx: &AppendContext)
    ensures
        final(out)@ == old(out)@ + format_call(cx@),
{
    out.append("format!(r#\"");
    out.append(cx.format.as_str());
    out.append("\"#, ");
    let args = join_args(&cx.arguments);
    out.append(args.as_str());
    out.append(")");
}

impl Expression {
    fn append(&self, cx: &mut AppendContext)
        ensures
            final(cx)@ == expression_out(expression_v(*self), old(cx)@),
    {
        match self {
            Expression::Literal(literal) => {
                cx.push("\"");
                cx.push_arg(quoted(text_of(literal)));
                cx.push("\"");
            },
            Expression::Code(code) => cx.push_arg(text_of(code).to_owned()),
        }
    }
}

impl HtmlTag {
    fn append(&self, cx: &mut AppendContext)
        requires
            tag_wf(*self),
        ensures
            final(cx)@ == tag_out(tag_v(*self), old(cx)@),
        decreases self,
    {
        let ghost a0 = cx@;
        let ghost t = tag_v(*self);
        cx.push("<");
        cx.push(text_of(&self.tag));
        let ghost a1 = cx@;
        let mut i: usize = 0;
        while i < self.attributes.len()
            invariant
                i <= self.attributes.len(),
                t == tag_v(*self),
                cx@ == attributes_out(t.attributes.subrange(0, i as int), a1),
            decreases self.attributes.len() - i,
        {
            assert(t.attributes.subrange(0, i + 1).drop_last() == t.attributes.subrange(0, i as int));
            let attr = &self.attributes[i];
            cx.push(" ");
            cx.push(text_of(&attr.name));
            match &attr.value {
                Some(value) => {
                    cx.push("=");
                    value.append(cx);
                },
                None => {},
            }
            i = i + 1;
        }
        assert(t.attributes.subrange(0, self.attributes.len() as int) == t.attributes);
        if self.content.len() == 0 {
            cx.push("/>");
            return;
        }
        cx.push(">");
        let ghost a2 = cx@;
        proof {
            lemma_trees_wf(self.content@);
        }
        let mut j: usize = 0;
        while j < self.content.len()
            invariant
                j <= self.content.len(),
                t == tag_v(*self),
                trees_wf(self.content@),
                forall|k: int| 0 <= k < self.content@.len() ==> tree_wf(#[trigger] self.content@[k]),
                cx@ == elements_out(trees_v(self.content@.subrange(0, j as int)), a2),
            decreases self.content.len() - j,
        {
            proof {
                assert(decreases_to!(*self => self.content));
                assert(decreases_to!(self.content => self.content@[j as int]));
                let s = self.content@.subrange(0, j + 1);
                assert(s.drop_last() == self.content@.subrange(0, j as int));
                assert(s.last() == self.content@[j as int]);
                let v = trees_v(s);
                assert(v.drop_last() == trees_v(self.content@.subrange(0, j as int)));
                assert(v.last() == tree_v(self.content@[j as int]));
            }
            self.content[j].append(cx);
            j = j + 1;
        }
        assert(self.content@.subrange(0, self.content.len() as int) == self.content@);
        cx.push("</");
        cx.push(text_of(&self.tag));
        cx.push(">");
    }
}

impl CodeTree {
    fn append(&self, cx: &mut AppendContext)
        requires
            code_tree_wf(*self),
        ensures
            final(cx)@ == code_element_out(code_tree_v(*self), old(cx)@),
        decreases self,
    {
        match self {
            CodeTree::Code(code) => cx.push_code(text_of(code)),
            CodeTree::HtmlTag(html_tag) => html_tag.append(cx),
        }
    }
}

/// Emits each element of `content` into `cx`, in order.
fn append_code_trees(content: &Vec<CodeTree>, cx: &mut AppendContext)
    requires
        code_trees_wf(content@),
    ensures
        final(cx)@ == code_elements_out(code_trees_v(content@), old(cx)@),
    decreases content,
{
    let ghost a0 = cx@;
    proof {
        lemma_code_trees_wf(content@);
    }
    let mut j: usize = 0;
    while j < content.len()
        invariant
            j <= content.len(),
            forall|k: int| 0 <= k < content@.len() ==> code_tree_wf(#[trigger] content@[k]),
            cx@ == code_elements_out(code_trees_v(content@.subrange(0, j as int)), a0),
        decreases content.len() - j,
    {
        proof {
            assert(decreases_to!(*content => content@[j as int]));
            let s = content@.subrange(0, j + 1);
            assert(s.drop_last() == content@.subrange(0, j as int));
            assert(s.last() == content@[j as int]);
            let v = code_trees_v(s);
            assert(v.drop_last() == code_trees_v(content@.subrange(0, j as int)));
            assert(v.last() == code_tree_v(content@[j as int]));
        }
        content[j].append(cx);
        j = j + 1;
    }
    assert(content@.subrange(0, content.len() as int) == content@);
}

impl CodeBlock {
    fn append(&self, cx: &mut AppendContext)
        requires
            code_trees_wf(self.content@),
        ensures
            final(cx)@ == with_arg(
                old(cx)@,
                block_expr(code_elements_out(code_trees_v(self.content@), empty_acc())),
            ),
        decreases self,
    {
        let mut my_cx = AppendContext::new();
        proof {
            assert(decreases_to!(*self => self.content));
        }
        append_code_trees(&self.content, &mut my_cx);
        let fmt = if my_cx.format.as_str().is_empty() {
            my_cx.pre
        } else {
            let mut f = String::new();
            f.append("{");
            f.append(my_cx.pre.as_str());
            f.append("\n");
            push_format_call(&mut f, &my_cx);
            f.append("\n}");
            f
        };
        cx.push_arg(fmt);
    }
}

impl Tree {
    fn append(&self, cx: &mut AppendContext)
        requires
            tree_wf(*self),
        ensures
            final(cx)@ == element_out(tree_v(*self), old(cx)@),
            *self matches Tree::HtmlText(h) ==> is_raw_literal(final(cx)@.args.last(), trimmed(interned_text(h))),
        decreases self,
    {
        match self {
            Tree::HtmlText(text) => {
                proof {
                    lemma_text_argument_decodes(interned_text(*text), cx@);
                }
                let t = trim(text_of(text));
                cx.push_arg(quoted(t));
            },
            Tree::HtmlTag(html_tag) => html_tag.append(cx),
            Tree::CodeBlock(code_block) => code_block.append(cx),
        }
    }
}

/// The intermediate trees of one component and the pool their strings are
/// interned in.
pub struct Generator {
    pub trees: Vec<Tree>,
    pub intern_str: HashInterner<str>,
}

impl Generator {
    pub open spec fn wf(&self) -> bool {
        &&& trees_wf(self.trees@)
        &&& names_ok_elements(trees_v(self.trees@))
    }

    /// The component's statements, then `let __rendered = format!(..);`.
    pub fn to_format(&self) -> (r: String)
        requires
            self.wf(),
        ensures
            r@ == render_source(trees_v(self.trees@)),
    {
        let mut cx = AppendContext::new();
        proof {
            lemma_trees_wf(self.trees@);
        }
        let mut j: usize = 0;
        while j < self.trees.len()
            invariant
                j <= self.trees.len(),
                forall|k: int| 0 <= k < self.trees@.len() ==> tree_wf(#[trigger] self.trees@[k]),
                cx@ == root_elements_out(trees_v(self.trees@.subrange(0, j as int)), empty_acc()),
            decreases self.trees.len() - j,
        {
            proof {
                let s = self.trees@.subrange(0, j + 1);
                assert(s.drop_last() == self.trees@.subrange(0, j as int));
                assert(s.last() == self.trees@[j as int]);
                let v = trees_v(s);
                assert(v.drop_last() == trees_v(self.trees@.subrange(0, j as int)));
                assert(v.last() == tree_v(self.trees@[j as int]));
            }
            let tree = &self.trees[j];
            match tree {
                Tree::CodeBlock(code_block) => {
                    if code_block.has_html {
                        tree.append(&mut cx);
                    } else {
                        append_code_trees(&code_block.content, &mut cx);
                    }
                },
                _ => tree.append(&mut cx),
            }
            j = j + 1;
        }
        assert(self.trees@.subrange(0, self.trees.len() as int) == self.trees@);
        let mut r = String::new();
        r.append(cx.pre.as_str());
        r.append("let __rendered = ");
        push_format_call(&mut r, &cx);
        r.append(";");
        r
    }
}

pub const COMPONENT_HEAD: &'static str = "
#[derive(Default)]
pub struct Cog;

impl cogs_runtime::Component for Cog {
    type Props = ();
    type Error = core::convert::Infallible;
    fn render(&self, props: Self::Props) -> impl core::future::Future<Output = Result<String, Self::Error>> + core::marker::Send + '_ {
        async move {
            ";

pub const COMPONENT_TAIL: &'static str = "
            Ok(__rendered)
        }
    }
}
";

/// The source of a component type whose `render` runs `render` and returns
/// `__rendered`.
pub open spec fn component_source(render: Seq<char>) -> Seq<char> {
    COMPONENT_HEAD@ + render + COMPONENT_TAIL@
}

/// Compiles a parsed component into host-language source: its elements are
/// lowered with a fresh string pool, then emitted.
pub fn generate(ast: &Component) -> (r: String)
    requires
        ast.wf(),
    ensures
        r@ == component_source(render_source(ast@)),
{
    let mut generator = Generator { trees: Vec::new(), intern_str: new_pool() };
    let mut j: usize = 0;
    while j < ast.elements.len()
        invariant
            j <= ast.elements.len(),
            trees_v(generator.trees@) == elements_v(ast.elements@.subrange(0, j as int)),
            trees_wf(generator.trees@),
        decreases ast.elements.len() - j,
    {
        let t = Tree::from_ast(&ast.elements[j], &generator.intern_str);
        proof {
            let s = ast.elements@.subrange(0, j + 1);
            assert(s.drop_last() == ast.elements@.subrange(0, j as int));
            assert(generator.trees@.push(t).drop_last() == generator.trees@);
        }
        generator.trees.push(t);
        j = j + 1;
    }
    assert(ast.elements@.subrange(0, ast.elements.len() as int) == ast.elements@);
    let render = generator.to_format();
    let mut r = String::new();
    r.append(COMPONENT_HEAD);
    r.append(render.as_str());
    r.append(COMPONENT_TAIL);
    r
}

} // verus!
