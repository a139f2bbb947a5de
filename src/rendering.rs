//! What an emitted template renders to. For markup without code, filling the
//! template's placeholders with the contents of its arguments gives back the
//! markup, with text trimmed and tags without children self-closed.

use vstd::prelude::*;
use crate::ast::{AttributeV, ElementV, ExpressionV, TagV};
use crate::generate::{
    attribute_out, attributes_out, element_out, elements_out, empty_acc, placeholder, quoted_spec,
    root_element_out, root_elements_out, tag_out, with_arg, with_format, Acc,
};
use crate::grammar::{names_ok_element, 
    elements, in_class, lemma_parsed_names_ok, names_ok_elements, names_ok_tag, valid_name, CharClass,
    Parsed,
};
use crate::text::trimmed;

verus! {

/// Whether the template `f` holds no `{` but those of `{}` placeholders.
pub open spec fn well_bracketed(f: Seq<char>) -> bool
    decreases f.len(),
{
    if f.len() == 0 {
        true
    } else if f.len() >= 2 && f[0] == '{' && f[1] == '}' {
        well_bracketed(f.subrange(2, f.len() as int))
    } else {
        f[0] != '{' && well_bracketed(f.subrange(1, f.len() as int))
    }
}

/// How many placeholders the template `f` holds.
pub open spec fn holes(f: Seq<char>) -> nat
    decreases f.len(),
{
    if f.len() == 0 {
        0
    } else if f.len() >= 2 && f[0] == '{' && f[1] == '}' {
        holes(f.subrange(2, f.len() as int)) + 1
    } else {
        holes(f.subrange(1, f.len() as int))
    }
}

/// Formatting: `f` with each `{}` replaced by the next of `vals`, and the
/// values left over.
pub open spec fn fill(f: Seq<char>, vals: Seq<Seq<char>>) -> (Seq<char>, Seq<Seq<char>>)
    decreases f.len(),
{
    if f.len() == 0 {
        (Seq::empty(), vals)
    } else if f.len() >= 2 && f[0] == '{' && f[1] == '}' {
        if vals.len() == 0 {
            fill(f.subrange(2, f.len() as int), vals)
        } else {
            let rest = fill(f.subrange(2, f.len() as int), vals.drop_first());
            (vals[0] + rest.0, rest.1)
        }
    } else {
        let rest = fill(f.subrange(1, f.len() as int), vals);
        (seq![f[0]] + rest.0, rest.1)
    }
}

pub open spec fn brace_free(s: Seq<char>) -> bool {
    forall|i: int| 0 <= i < s.len() ==> s[i] != '{'
}

/// Markup with no code in it: no code blocks, and no attribute value that is
/// code.
pub open spec fn code_free_tag(t: TagV) -> bool
    decreases t,
{
    &&& forall|i: int| 0 <= i < t.attributes.len() ==> !(#[trigger] t.attributes[i].value matches Some(ExpressionV::Code(_)))
    &&& code_free_elements(t.content)
}

pub open spec fn code_free_element(e: ElementV) -> bool
    decreases e,
{
    match e {
        ElementV::Html(t) => code_free_tag(t),
        ElementV::Text(_) => true,
        ElementV::Block(_) => false,
    }
}

pub open spec fn code_free_elements(s: Seq<ElementV>) -> bool
    decreases s,
{
    s.len() > 0 ==> code_free_elements(s.drop_last()) && code_free_element(s.last())
}

/// The markup an attribute stands for.
pub open spec fn attribute_markup(a: AttributeV) -> Seq<char> {
    " "@ + a.name + match a.value {
        Some(ExpressionV::Text(v)) => "="@ + "\""@ + v + "\""@,
        _ => Seq::empty(),
    }
}

pub open spec fn attributes_markup(s: Seq<AttributeV>) -> Seq<char>
    decreases s.len(),
{
    if s.len() == 0 {
        Seq::empty()
    } else {
        attributes_markup(s.drop_last()) + attribute_markup(s.last())
    }
}

/// The markup a tag stands for; a tag without children closes itself.
pub open spec fn tag_markup(t: TagV) -> Seq<char>
    decreases t,
{
    let open = "<"@ + t.tag + attributes_markup(t.attributes);
    if t.content.len() == 0 {
        open + "/>"@
    } else {
        open + ">"@ + elements_markup(t.content) + "</"@ + t.tag + ">"@
    }
}

pub open spec fn element_markup(e: ElementV) -> Seq<char>
    decreases e,
{
    match e {
        ElementV::Html(t) => tag_markup(t),
        ElementV::Text(s) => trimmed(s),
        ElementV::Block(_) => Seq::empty(),
    }
}

pub open spec fn elements_markup(s: Seq<ElementV>) -> Seq<char>
    decreases s,
{
    if s.len() == 0 {
        Seq::empty()
    } else {
        elements_markup(s.drop_last()) + element_markup(s.last())
    }
}

/// The values the placeholders of markup take, in order.
pub open spec fn attribute_literals(a: AttributeV) -> Seq<Seq<char>> {
    match a.value {
        Some(ExpressionV::Text(v)) => seq![v],
        _ => Seq::empty(),
    }
}

pub open spec fn attributes_literals(s: Seq<AttributeV>) -> Seq<Seq<char>>
    decreases s.len(),
{
    if s.len() == 0 {
        Seq::empty()
    } else {
        attributes_literals(s.drop_last()) + attribute_literals(s.last())
    }
}

pub open spec fn tag_literals(t: TagV) -> Seq<Seq<char>>
    decreases t,
{
    attributes_literals(t.attributes) + if t.content.len() == 0 {
        Seq::empty()
    } else {
        elements_literals(t.content)
    }
}

pub open spec fn element_literals(e: ElementV) -> Seq<Seq<char>>
    decreases e,
{
    match e {
        ElementV::Html(t) => tag_literals(t),
        ElementV::Text(s) => seq![trimmed(s)],
        ElementV::Block(_) => Seq::empty(),
    }
}

pub open spec fn elements_literals(s: Seq<ElementV>) -> Seq<Seq<char>>
    decreases s,
{
    if s.len() == 0 {
        Seq::empty()
    } else {
        elements_literals(s.drop_last()) + element_literals(s.last())
    }
}

pub open spec fn quoted_all(vals: Seq<Seq<char>>) -> Seq<Seq<char>> {
    vals.map_values(|t: Seq<char>| quoted_spec(t))
}

/// An accumulator whose template, filled with `vals`, renders `r`, and whose
/// arguments are `vals` quoted.
pub open spec fn renders(a: Acc, vals: Seq<Seq<char>>, r: Seq<char>) -> bool {
    &&& well_bracketed(a.format)
    &&& holes(a.format) == vals.len()
    &&& a.args == quoted_all(vals)
    &&& fill(a.format, vals).0 == r
}

proof fn lemma_concat(f1: Seq<char>, f2: Seq<char>, vals: Seq<Seq<char>>)
    requires
        well_bracketed(f1),
    ensures
        fill(f1 + f2, vals) == ({
            let (o1, v1) = fill(f1, vals);
            let (o2, v2) = fill(f2, v1);
            (o1 + o2, v2)
        }),
        well_bracketed(f2) ==> well_bracketed(f1 + f2),
        holes(f1 + f2) == holes(f1) + holes(f2),
    decreases f1.len(),
{
    let f = f1 + f2;
    if f1.len() == 0 {
        assert(f == f2);
    } else if f1.len() >= 2 && f1[0] == '{' && f1[1] == '}' {
        let t1 = f1.subrange(2, f1.len() as int);
        assert(f.subrange(2, f.len() as int) == t1 + f2);
        if vals.len() == 0 {
            lemma_concat(t1, f2, vals);
        } else {
            lemma_concat(t1, f2, vals.drop_first());
            let (o, v) = fill(t1, vals.drop_first());
            assert(vals[0] + (o + fill(f2, v).0) == (vals[0] + o) + fill(f2, v).0);
        }
    } else {
        let t1 = f1.subrange(1, f1.len() as int);
        assert(f.subrange(1, f.len() as int) == t1 + f2);
        lemma_concat(t1, f2, vals);
        let (o, v) = fill(t1, vals);
        assert(seq![f1[0]] + (o + fill(f2, v).0) == (seq![f1[0]] + o) + fill(f2, v).0);
    }
}

proof fn lemma_split(f: Seq<char>, v1: Seq<Seq<char>>, v2: Seq<Seq<char>>)
    requires
        well_bracketed(f),
        holes(f) == v1.len(),
    ensures
        fill(f, v1 + v2) == (fill(f, v1).0, v2),
        fill(f, v1).1.len() == 0,
    decreases f.len(),
{
    if f.len() == 0 {
        assert(v1 + v2 == v2);
    } else if f.len() >= 2 && f[0] == '{' && f[1] == '}' {
        let t = f.subrange(2, f.len() as int);
        assert((v1 + v2).drop_first() == v1.drop_first() + v2);
        assert((v1 + v2)[0] == v1[0]);
        lemma_split(t, v1.drop_first(), v2);
    } else {
        lemma_split(f.subrange(1, f.len() as int), v1, v2);
    }
}

proof fn lemma_brace_free(s: Seq<char>, vals: Seq<Seq<char>>)
    requires
        brace_free(s),
    ensures
        well_bracketed(s),
        holes(s) == 0,
        fill(s, vals) == (s, vals),
    decreases s.len(),
{
    if s.len() > 0 {
        let t = s.subrange(1, s.len() as int);
        assert(brace_free(t)) by {
            assert forall|i: int| 0 <= i < t.len() implies t[i] != '{' by {
                assert(t[i] == s[i + 1]);
            }
        }
        lemma_brace_free(t, vals);
        assert(seq![s[0]] + t == s);
    }
}

proof fn lemma_with_format(a: Acc, vals: Seq<Seq<char>>, r: Seq<char>, lit: Seq<char>)
    requires
        renders(a, vals, r),
        brace_free(lit),
    ensures
        renders(with_format(a, lit), vals, r + lit),
{
    lemma_concat(a.format, lit, vals);
    lemma_split(a.format, vals, Seq::empty());
    assert(vals + Seq::<Seq<char>>::empty() == vals);
    lemma_brace_free(lit, fill(a.format, vals).1);
}

proof fn lemma_with_arg(a: Acc, vals: Seq<Seq<char>>, r: Seq<char>, v: Seq<char>)
    requires
        renders(a, vals, r),
    ensures
        renders(with_arg(a, quoted_spec(v)), vals.push(v), r + v),
{
    reveal_strlit("{}");
    let p = placeholder();
    assert(p.len() == 2 && p[0] == '{' && p[1] == '}');
    assert(p.subrange(2, 2) == Seq::<char>::empty());
    assert(well_bracketed(Seq::<char>::empty()));
    assert(holes(Seq::<char>::empty()) == 0);
    assert(well_bracketed(p));
    assert(holes(p) == 1);
    let vs = vals.push(v);
    assert(vs == vals + seq![v]);
    lemma_concat(a.format, p, vs);
    lemma_split(a.format, vals, seq![v]);
    assert(seq![v].drop_first() == Seq::<Seq<char>>::empty());
    assert(fill(Seq::<char>::empty(), Seq::<Seq<char>>::empty()) == (Seq::<char>::empty(), Seq::<Seq<char>>::empty()));
    assert(seq![v][0] == v);
    assert(fill(p, seq![v]).0 == v + Seq::<char>::empty());
    assert(v + Seq::<char>::empty() == v);
    assert(quoted_all(vs) == quoted_all(vals).push(quoted_spec(v)));
}

proof fn lemma_literal_chars()
    ensures
        brace_free(" "@),
        brace_free("="@),
        brace_free("\""@),
        brace_free("<"@),
        brace_free("/>"@),
        brace_free(">"@),
        brace_free("</"@),
{
    reveal_strlit(" ");
    reveal_strlit("=");
    reveal_strlit("\"");
    reveal_strlit("<");
    reveal_strlit("/>");
    reveal_strlit(">");
    reveal_strlit("</");
}

proof fn lemma_attribute(at: AttributeV, a: Acc, vals: Seq<Seq<char>>, r: Seq<char>)
    requires
        renders(a, vals, r),
        valid_name(at.name, CharClass::AttrName),
        !(at.value matches Some(ExpressionV::Code(_))),
    ensures
        renders(attribute_out(at, a), vals + attribute_literals(at), r + attribute_markup(at)),
        attribute_out(at, a).pre == a.pre,
{
    lemma_literal_chars();
    lemma_name_brace_free(at.name, CharClass::AttrName);
    let a1 = with_format(a, " "@);
    lemma_with_format(a, vals, r, " "@);
    let a2 = with_format(a1, at.name);
    lemma_with_format(a1, vals, r + " "@, at.name);
    match at.value {
        Some(ExpressionV::Text(v)) => {
            let a3 = with_format(a2, "="@);
            lemma_with_format(a2, vals, r + " "@ + at.name, "="@);
            let a4 = with_format(a3, "\""@);
            lemma_with_format(a3, vals, r + " "@ + at.name + "="@, "\""@);
            let a5 = with_arg(a4, quoted_spec(v));
            lemma_with_arg(a4, vals, r + " "@ + at.name + "="@ + "\""@, v);
            lemma_with_format(a5, vals.push(v), r + " "@ + at.name + "="@ + "\""@ + v, "\""@);
            assert(vals.push(v) == vals + attribute_literals(at));
            assert(r + " "@ + at.name + "="@ + "\""@ + v + "\""@ == r + attribute_markup(at));
        },
        _ => {
            assert(vals + attribute_literals(at) == vals);
            assert(r + " "@ + at.name == r + attribute_markup(at));
        },
    }
}

proof fn lemma_attributes(s: Seq<AttributeV>, a: Acc, vals: Seq<Seq<char>>, r: Seq<char>)
    requires
        renders(a, vals, r),
        forall|i: int| 0 <= i < s.len() ==> valid_name(#[trigger] s[i].name, CharClass::AttrName),
        forall|i: int| 0 <= i < s.len() ==> !(#[trigger] s[i].value matches Some(ExpressionV::Code(_))),
    ensures
        renders(attributes_out(s, a), vals + attributes_literals(s), r + attributes_markup(s)),
        attributes_out(s, a).pre == a.pre,
    decreases s.len(),
{
    if s.len() == 0 {
        assert(vals + attributes_literals(s) == vals);
        assert(r + attributes_markup(s) == r);
    } else {
        let init = s.drop_last();
        assert forall|i: int| 0 <= i < init.len() implies valid_name(#[trigger] init[i].name, CharClass::AttrName)
            && !(init[i].value matches Some(ExpressionV::Code(_))) by {
            assert(init[i] == s[i]);
        }
        assert(valid_name(s[s.len() - 1].name, CharClass::AttrName));
        assert(!(s[s.len() - 1].value matches Some(ExpressionV::Code(_))));
        lemma_attributes(init, a, vals, r);
        let a1 = attributes_out(init, a);
        lemma_attribute(s.last(), a1, vals + attributes_literals(init), r + attributes_markup(init));
        assert(vals + attributes_literals(init) + attribute_literals(s.last()) == vals + attributes_literals(s));
        assert(r + attributes_markup(init) + attribute_markup(s.last()) == r + attributes_markup(s));
    }
}

proof fn lemma_tag(t: TagV, a: Acc, vals: Seq<Seq<char>>, r: Seq<char>)
    requires
        renders(a, vals, r),
        names_ok_tag(t),
        code_free_tag(t),
    ensures
        renders(tag_out(t, a), vals + tag_literals(t), r + tag_markup(t)),
        tag_out(t, a).pre == a.pre,
    decreases t,
{
    lemma_literal_chars();
    lemma_name_brace_free(t.tag, CharClass::TagName);
    let a1 = with_format(a, "<"@);
    lemma_with_format(a, vals, r, "<"@);
    let a2 = with_format(a1, t.tag);
    lemma_with_format(a1, vals, r + "<"@, t.tag);
    lemma_attributes(t.attributes, a2, vals, r + "<"@ + t.tag);
    let opened = attributes_out(t.attributes, a2);
    let v1 = vals + attributes_literals(t.attributes);
    let r1 = r + "<"@ + t.tag + attributes_markup(t.attributes);
    if t.content.len() == 0 {
        lemma_with_format(opened, v1, r1, "/>"@);
        assert(v1 == vals + tag_literals(t));
        assert(r1 + "/>"@ == r + tag_markup(t));
    } else {
        let a3 = with_format(opened, ">"@);
        lemma_with_format(opened, v1, r1, ">"@);
        lemma_elements(t.content, a3, v1, r1 + ">"@);
        let inner = elements_out(t.content, a3);
        let v2 = v1 + elements_literals(t.content);
        let r2 = r1 + ">"@ + elements_markup(t.content);
        let a4 = with_format(inner, "</"@);
        lemma_with_format(inner, v2, r2, "</"@);
        let a5 = with_format(a4, t.tag);
        lemma_with_format(a4, v2, r2 + "</"@, t.tag);
        lemma_with_format(a5, v2, r2 + "</"@ + t.tag, ">"@);
        assert(v2 == vals + tag_literals(t));
        assert(r2 + "</"@ + t.tag + ">"@ == r + tag_markup(t));
    }
}

proof fn lemma_element(e: ElementV, a: Acc, vals: Seq<Seq<char>>, r: Seq<char>)
    requires
        renders(a, vals, r),
        names_ok_element(e),
        code_free_element(e),
    ensures
        renders(element_out(e, a), vals + element_literals(e), r + element_markup(e)),
        element_out(e, a).pre == a.pre,
    decreases e,
{
    match e {
        ElementV::Html(t) => lemma_tag(t, a, vals, r),
        ElementV::Text(s) => {
            lemma_with_arg(a, vals, r, trimmed(s));
            assert(vals.push(trimmed(s)) == vals + element_literals(e));
        },
        ElementV::Block(_) => {},
    }
}

proof fn lemma_elements(s: Seq<ElementV>, a: Acc, vals: Seq<Seq<char>>, r: Seq<char>)
    requires
        renders(a, vals, r),
        names_ok_elements(s),
        code_free_elements(s),
    ensures
        renders(elements_out(s, a), vals + elements_literals(s), r + elements_markup(s)),
        elements_out(s, a).pre == a.pre,
    decreases s,
{
    if s.len() == 0 {
        assert(vals + elements_literals(s) == vals);
        assert(r + elements_markup(s) == r);
    } else {
        let init = s.drop_last();
        lemma_elements(init, a, vals, r);
        lemma_element(s.last(), elements_out(init, a), vals + elements_literals(init), r + elements_markup(init));
        assert(vals + elements_literals(init) + element_literals(s.last()) == vals + elements_literals(s));
        assert(r + elements_markup(init) + element_markup(s.last()) == r + elements_markup(s));
    }
}

proof fn lemma_root(s: Seq<ElementV>, a: Acc)
    requires
        code_free_elements(s),
    ensures
        root_elements_out(s, a) == elements_out(s, a),
    decreases s.len(),
{
    if s.len() > 0 {
        lemma_root(s.drop_last(), a);
        let e = s.last();
        assert(code_free_element(e));
        let b = elements_out(s.drop_last(), a);
        assert(root_element_out(e, b) == element_out(e, b)) by {
            match e {
                ElementV::Block(_) => {},
                _ => {},
            }
        }
    }
}

/// Round trip: markup without code, with names of the grammar's classes,
/// emits no statements, one quoted argument
/// per literal (each a raw string literal of exactly that literal), and a
/// template that, filled with those literals, is the markup again.
pub proof fn lemma_round_trip(s: Seq<ElementV>)
    requires
        names_ok_elements(s),
        code_free_elements(s),
    ensures
        root_elements_out(s, empty_acc()).pre.len() == 0,
        root_elements_out(s, empty_acc()).args == quoted_all(elements_literals(s)),
        fill(root_elements_out(s, empty_acc()).format, elements_literals(s)).0 == elements_markup(s),
{
    lemma_root(s, empty_acc());
    let a = empty_acc();
    assert(well_bracketed(a.format));
    assert(quoted_all(Seq::empty()) == Seq::<Seq<char>>::empty());
    assert(renders(a, Seq::empty(), Seq::empty()));
    lemma_elements(s, a, Seq::empty(), Seq::empty());
    assert(Seq::<Seq<char>>::empty() + elements_literals(s) == elements_literals(s));
    assert(Seq::<char>::empty() + elements_markup(s) == elements_markup(s));
}

proof fn lemma_name_brace_free(s: Seq<char>, k: CharClass)
    requires
        valid_name(s, k),
        k == CharClass::TagName || k == CharClass::AttrName,
    ensures
        brace_free(s),
{
    assert forall|i: int| 0 <= i < s.len() implies s[i] != '{' by {
        assert(in_class(k, s[i]));
    }
}

/// Round trip from source: whatever a whole input parses into, when it holds
/// no code, renders back to its markup as `lemma_round_trip` says.
pub proof fn lemma_parsed_markup_round_trips(s: Seq<char>)
    requires
        elements(s, 0) matches Parsed::Done(v, _) && code_free_elements(v),
    ensures
        elements(s, 0) matches Parsed::Done(v, _) && ({
            let out = root_elements_out(v, empty_acc());
            &&& out.pre.len() == 0
            &&& out.args == quoted_all(elements_literals(v))
            &&& fill(out.format, elements_literals(v)).0 == elements_markup(v)
        }),
{
    lemma_parsed_names_ok(s);
    lemma_round_trip(elements(s, 0)->Done_0);
}

} // verus!
