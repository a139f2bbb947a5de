//! The template grammar as ordered-choice parsing over the input's
//! characters. Each function says what the parser yields at a position:
//! a value and the position after it, a recoverable miss, or a closing tag
//! whose name differs from its opening tag's, which ends the whole parse.
//! The checks that positions move forward make each definition's termination
//! plain from its text.

use vstd::prelude::*;
use crate::ast::{AttributeV, CodeElementV, ElementV, ExpressionV, TagV};

verus! {

pub enum Parsed<T> {
    Done(T, int),
    Backtrack,
    Mismatch(Seq<char>, Seq<char>),
}

/// The sets of characters the grammar takes runs of.
#[derive(Clone, Copy, PartialEq, Eq)]
pub enum CharClass {
    /// Space, tab, carriage return, line feed.
    Multispace,
    /// Space and tab.
    Space,
    /// Letters, digits and `-`.
    TagName,
    /// Letters, digits, `-` and `_`.
    AttrName,
    /// All but `{` and `}`.
    Code,
    /// All but `"`.
    Quoted,
}

pub open spec fn is_ascii_alnum(c: char) -> bool {
    ('a' <= c && c <= 'z') || ('A' <= c && c <= 'Z') || ('0' <= c && c <= '9')
}

pub open spec fn in_class(k: CharClass, c: char) -> bool {
    match k {
        CharClass::Multispace => c == ' ' || c == '\t' || c == '\r' || c == '\n',
        CharClass::Space => c == ' ' || c == '\t',
        CharClass::TagName => is_ascii_alnum(c) || c == '-',
        CharClass::AttrName => is_ascii_alnum(c) || c == '-' || c == '_',
        CharClass::Code => c != '{' && c != '}',
        CharClass::Quoted => c != '"',
    }
}

/// The end of the longest run of characters of class `k` from `p`.
pub open spec fn class_end(s: Seq<char>, p: int, k: CharClass) -> int
    decreases s.len() - p,
{
    if 0 <= p < s.len() && in_class(k, s[p]) {
        class_end(s, p + 1, k)
    } else {
        p
    }
}

pub open spec fn char_at(s: Seq<char>, p: int, c: char) -> bool {
    0 <= p < s.len() && s[p] == c
}

/// A tag name from `p`: its end, when the run is not empty.
pub open spec fn tag_name(s: Seq<char>, p: int) -> Option<int> {
    let e = class_end(s, p, CharClass::TagName);
    if e > p {
        Some(e)
    } else {
        None
    }
}

/// A run of at least one character of class `k`, between `open` and `close`.
pub open spec fn delimited(s: Seq<char>, p: int, open: char, k: CharClass, close: char) -> Option<int> {
    let e = class_end(s, p + 1, k);
    if char_at(s, p, open) && e > p + 1 && char_at(s, e, close) {
        Some(e)
    } else {
        None
    }
}

/// `{code}` or `"text"`.
pub open spec fn expression(s: Seq<char>, p: int) -> Option<(ExpressionV, int)> {
    match delimited(s, p, '{', CharClass::Code, '}') {
        Some(e) => Some((ExpressionV::Code(s.subrange(p + 1, e)), e + 1)),
        None => match delimited(s, p, '"', CharClass::Quoted, '"') {
            Some(e) => Some((ExpressionV::Text(s.subrange(p + 1, e)), e + 1)),
            None => None,
        },
    }
}

/// A name, then optionally `=`, spaces and a value. A value that does not
/// parse leaves the `=` unread.
pub open spec fn attribute(s: Seq<char>, p: int) -> Option<(AttributeV, int)> {
    let e = class_end(s, p, CharClass::AttrName);
    if e <= p {
        None
    } else {
        let name = s.subrange(p, e);
        let bare = Some((AttributeV { name, value: None }, e));
        if char_at(s, e, '=') {
            match expression(s, class_end(s, e + 1, CharClass::Space)) {
                Some((v, q)) => Some((AttributeV { name, value: Some(v) }, q)),
                None => bare,
            }
        } else {
            bare
        }
    }
}

/// The attributes after the one that ended at `p`: each one follows a `,` or
/// a space and then spaces. Ends before a separator not followed by one.
pub open spec fn more_attributes(s: Seq<char>, p: int) -> (Seq<AttributeV>, int)
    decreases s.len() - p,
{
    if (char_at(s, p, ',') || char_at(s, p, ' ')) {
        match attribute(s, class_end(s, p + 1, CharClass::Space)) {
            Some((a, q)) => if p < q <= s.len() {
                let rest = more_attributes(s, q);
                (seq![a] + rest.0, rest.1)
            } else {
                (Seq::empty(), p)
            },
            None => (Seq::empty(), p),
        }
    } else {
        (Seq::empty(), p)
    }
}

/// The attribute list of an opening tag, and trailing spaces.
pub open spec fn attributes(s: Seq<char>, p: int) -> (Seq<AttributeV>, int) {
    match attribute(s, p) {
        Some((a, q)) => {
            let rest = more_attributes(s, q);
            (seq![a] + rest.0, class_end(s, rest.1, CharClass::Space))
        },
        None => (Seq::empty(), class_end(s, p, CharClass::Space)),
    }
}

/// `<name attributes>`: the name, the attributes and the end.
pub open spec fn opening_tag(s: Seq<char>, p: int) -> Option<(Seq<char>, Seq<AttributeV>, int)> {
    if char_at(s, p, '<') {
        match tag_name(s, p + 1) {
            Some(e) => {
                let at = attributes(s, class_end(s, e, CharClass::Space));
                if char_at(s, at.1, '>') {
                    Some((s.subrange(p + 1, e), at.0, at.1 + 1))
                } else {
                    None
                }
            },
            None => None,
        }
    } else {
        None
    }
}

/// `</name>`: the name and the end.
pub open spec fn closing_tag(s: Seq<char>, p: int) -> Option<(Seq<char>, int)> {
    if char_at(s, p, '<') && char_at(s, p + 1, '/') {
        match tag_name(s, p + 2) {
            Some(e) => if char_at(s, e, '>') {
                Some((s.subrange(p + 2, e), e + 1))
            } else {
                None
            },
            None => None,
        }
    } else {
        None
    }
}

/// White space, a tag, its children, and its closing tag, which must name it.
pub open spec fn html_tag(s: Seq<char>, p: int) -> Parsed<TagV>
    decreases s.len() - p, 3int,
{
    let q = class_end(s, p, CharClass::Multispace);
    if !(p <= q <= s.len()) {
        Parsed::Backtrack
    } else {
        match opening_tag(s, q) {
            None => Parsed::Backtrack,
            Some((name, attrs, r)) => if !(q < r <= s.len()) {
                Parsed::Backtrack
            } else {
                match elements(s, r) {
                    Parsed::Done(children, r2) => match closing_tag(s, r2) {
                        None => Parsed::Backtrack,
                        Some((close, r3)) => if close == name {
                            Parsed::Done(TagV { tag: name, attributes: attrs, content: children }, r3)
                        } else {
                            Parsed::Mismatch(name, close)
                        },
                    },
                    Parsed::Backtrack => Parsed::Backtrack,
                    Parsed::Mismatch(a, b) => Parsed::Mismatch(a, b),
                }
            },
        }
    }
}

/// `{`, code elements, `}`.
pub open spec fn code_block(s: Seq<char>, p: int) -> Parsed<Seq<CodeElementV>>
    decreases s.len() - p, 3int,
{
    if !(0 <= p < s.len() && s[p] == '{') {
        Parsed::Backtrack
    } else {
        match code_elements(s, p + 1) {
            Parsed::Done(content, q) => if char_at(s, q, '}') {
                Parsed::Done(content, q + 1)
            } else {
                Parsed::Backtrack
            },
            Parsed::Backtrack => Parsed::Backtrack,
            Parsed::Mismatch(a, b) => Parsed::Mismatch(a, b),
        }
    }
}

/// White space, then a tag or else a code block.
pub open spec fn element(s: Seq<char>, p: int) -> Parsed<ElementV>
    decreases s.len() - p, 5int,
{
    let q = class_end(s, p, CharClass::Multispace);
    if !(p <= q <= s.len()) {
        Parsed::Backtrack
    } else {
        match html_tag(s, q) {
            Parsed::Done(t, r) => Parsed::Done(ElementV::Html(t), r),
            Parsed::Mismatch(a, b) => Parsed::Mismatch(a, b),
            Parsed::Backtrack => match code_block(s, q) {
                Parsed::Done(b, r) => Parsed::Done(ElementV::Block(b), r),
                Parsed::Mismatch(a, b) => Parsed::Mismatch(a, b),
                Parsed::Backtrack => Parsed::Backtrack,
            },
        }
    }
}

/// Whether text stops at `i`: an element, an opening tag, a closing tag or a
/// `}` starts there.
pub open spec fn text_stops(s: Seq<char>, i: int) -> bool
    decreases s.len() - i, 6int,
{
    &&& 0 <= i <= s.len()
    &&& {
        ||| element(s, i) is Done
        ||| opening_tag(s, i) is Some
        ||| closing_tag(s, i) is Some
        ||| char_at(s, i, '}')
    }
}

/// Where text that starts at or before `i` ends: the first stop from `i`, or
/// the end of the input.
pub open spec fn text_end(s: Seq<char>, i: int) -> int
    decreases s.len() - i, 7int,
{
    if !(0 <= i < s.len()) {
        i
    } else if text_stops(s, i) {
        i
    } else {
        text_end(s, i + 1)
    }
}

/// The longest run of text from `p` that is not empty.
pub open spec fn text(s: Seq<char>, p: int) -> Parsed<Seq<char>>
    decreases s.len() - p, 8int,
{
    let e = text_end(s, p);
    if p < e <= s.len() {
        Parsed::Done(s.subrange(p, e), e)
    } else {
        Parsed::Backtrack
    }
}

/// An element, or else text.
pub open spec fn proper_element(s: Seq<char>, p: int) -> Parsed<ElementV>
    decreases s.len() - p, 9int,
{
    match element(s, p) {
        Parsed::Backtrack => match text(s, p) {
            Parsed::Done(t, q) => Parsed::Done(ElementV::Text(t), q),
            _ => Parsed::Backtrack,
        },
        r => r,
    }
}

/// Proper elements from `p` for as long as one parses.
pub open spec fn elements_from(s: Seq<char>, p: int) -> Parsed<Seq<ElementV>>
    decreases s.len() - p, 10int,
{
    match proper_element(s, p) {
        Parsed::Done(e, q) => if p < q <= s.len() {
            match elements_from(s, q) {
                Parsed::Done(es, r) => Parsed::Done(seq![e] + es, r),
                other => other,
            }
        } else {
            Parsed::Backtrack
        },
        Parsed::Backtrack => Parsed::Done(Seq::empty(), p),
        Parsed::Mismatch(a, b) => Parsed::Mismatch(a, b),
    }
}

/// White space, then proper elements.
pub open spec fn elements(s: Seq<char>, p: int) -> Parsed<Seq<ElementV>>
    decreases s.len() - p, 11int,
{
    let q = class_end(s, p, CharClass::Multispace);
    if !(p <= q <= s.len()) {
        Parsed::Backtrack
    } else {
        elements_from(s, q)
    }
}

/// A tag, or else text taken as code.
pub open spec fn code_element(s: Seq<char>, p: int) -> Parsed<CodeElementV>
    decreases s.len() - p, 9int,
{
    match html_tag(s, p) {
        Parsed::Done(t, q) => Parsed::Done(CodeElementV::Html(t), q),
        Parsed::Mismatch(a, b) => Parsed::Mismatch(a, b),
        Parsed::Backtrack => match text(s, p) {
            Parsed::Done(t, q) => Parsed::Done(CodeElementV::Code(t), q),
            _ => Parsed::Backtrack,
        },
    }
}

/// Code elements from `p` for as long as one parses.
pub open spec fn code_elements_from(s: Seq<char>, p: int) -> Parsed<Seq<CodeElementV>>
    decreases s.len() - p, 10int,
{
    match code_element(s, p) {
        Parsed::Done(e, q) => if p < q <= s.len() {
            match code_elements_from(s, q) {
                Parsed::Done(es, r) => Parsed::Done(seq![e] + es, r),
                other => other,
            }
        } else {
            Parsed::Backtrack
        },
        Parsed::Backtrack => Parsed::Done(Seq::empty(), p),
        Parsed::Mismatch(a, b) => Parsed::Mismatch(a, b),
    }
}

/// White space, then code elements.
pub open spec fn code_elements(s: Seq<char>, p: int) -> Parsed<Seq<CodeElementV>>
    decreases s.len() - p, 11int,
{
    let q = class_end(s, p, CharClass::Multispace);
    if !(p <= q <= s.len()) {
        Parsed::Backtrack
    } else {
        code_elements_from(s, q)
    }
}

pub proof fn lemma_class_end(s: Seq<char>, p: int, k: CharClass)
    requires
        0 <= p <= s.len(),
    ensures
        p <= class_end(s, p, k) <= s.len(),
        class_end(s, class_end(s, p, k), k) == class_end(s, p, k),
    decreases s.len() - p,
{
    if p < s.len() && in_class(k, s[p]) {
        lemma_class_end(s, p + 1, k);
    }
}

pub proof fn lemma_more_attributes(s: Seq<char>, p: int)
    requires
        0 <= p <= s.len(),
    ensures
        p <= more_attributes(s, p).1 <= s.len(),
    decreases s.len() - p,
{
    if char_at(s, p, ',') || char_at(s, p, ' ') {
        let q = class_end(s, p + 1, CharClass::Space);
        lemma_class_end(s, p + 1, CharClass::Space);
        match attribute(s, q) {
            Some((a, r)) => if p < r <= s.len() {
                lemma_more_attributes(s, r);
            },
            None => {},
        }
    }
}

/// An opening tag ends after where it starts.
pub proof fn lemma_opening_tag(s: Seq<char>, p: int)
    requires
        0 <= p <= s.len(),
        opening_tag(s, p) is Some,
    ensures
        opening_tag(s, p) matches Some((_, _, e)) && p < e <= s.len(),
{
    let e = class_end(s, p + 1, CharClass::TagName);
    lemma_class_end(s, p + 1, CharClass::TagName);
    let q = class_end(s, e, CharClass::Space);
    lemma_class_end(s, e, CharClass::Space);
    match attribute(s, q) {
        Some((a, r)) => {
            lemma_class_end(s, q, CharClass::AttrName);
            let e2 = class_end(s, q, CharClass::AttrName);
            if char_at(s, e2, '=') {
                lemma_class_end(s, e2 + 1, CharClass::Space);
            }
            lemma_more_attributes(s, r);
            lemma_class_end(s, more_attributes(s, r).1, CharClass::Space);
        },
        None => {
            lemma_class_end(s, q, CharClass::Space);
        },
    }
}

/// A tag named `a` whose children parse and whose closing tag names `b`,
/// another tag, is a fatal mismatch naming both; no alternative is tried
/// after it.
pub proof fn lemma_mismatch_is_fatal(s: Seq<char>, p: int, a: Seq<char>, b: Seq<char>)
    requires
        0 <= p <= s.len(),
        a != b,
        opening_tag(s, class_end(s, p, CharClass::Multispace)) matches Some((open, _, r)) && (open == a
            && (elements(s, r) matches Parsed::Done(_, r2) && (closing_tag(s, r2) matches Some((close, _))
            && close == b))),
    ensures
        html_tag(s, p) == Parsed::<TagV>::Mismatch(a, b),
        element(s, p) == Parsed::<ElementV>::Mismatch(a, b),
{
    let q = class_end(s, p, CharClass::Multispace);
    lemma_class_end(s, p, CharClass::Multispace);
    lemma_opening_tag(s, q);
}

/// An input that starts, after white space, with a tag named `a` whose
/// closing tag names `b`, another tag, does not parse: the whole parse ends in
/// that mismatch.
pub proof fn lemma_mismatch_fails_parse(s: Seq<char>, a: Seq<char>, b: Seq<char>)
    requires
        a != b,
        opening_tag(s, class_end(s, 0, CharClass::Multispace)) matches Some((open, _, r)) && (open == a
            && (elements(s, r) matches Parsed::Done(_, r2) && (closing_tag(s, r2) matches Some((close, _))
            && close == b))),
    ensures
        elements(s, 0) == Parsed::<Seq<ElementV>>::Mismatch(a, b),
{
    let q = class_end(s, 0, CharClass::Multispace);
    lemma_class_end(s, 0, CharClass::Multispace);
    lemma_mismatch_is_fatal(s, q, a, b);
}

/// Whether `s` is a name of class `k`: not empty, and of that class only.
pub open spec fn valid_name(s: Seq<char>, k: CharClass) -> bool {
    &&& s.len() > 0
    &&& forall|i: int| 0 <= i < s.len() ==> in_class(k, #[trigger] s[i])
}

/// Whether every tag and attribute name in a tree is of the grammar's class,
/// as in every tree the parser yields.
pub open spec fn names_ok_tag(t: TagV) -> bool
    decreases t,
{
    &&& valid_name(t.tag, CharClass::TagName)
    &&& forall|i: int| 0 <= i < t.attributes.len() ==> valid_name(#[trigger] t.attributes[i].name, CharClass::AttrName)
    &&& names_ok_elements(t.content)
}

pub open spec fn names_ok_element(e: ElementV) -> bool
    decreases e,
{
    match e {
        ElementV::Html(t) => names_ok_tag(t),
        ElementV::Block(b) => names_ok_code_elements(b),
        ElementV::Text(_) => true,
    }
}

pub open spec fn names_ok_elements(s: Seq<ElementV>) -> bool
    decreases s,
{
    s.len() > 0 ==> names_ok_elements(s.drop_last()) && names_ok_element(s.last())
}

pub open spec fn names_ok_code_element(e: CodeElementV) -> bool
    decreases e,
{
    match e {
        CodeElementV::Html(t) => names_ok_tag(t),
        CodeElementV::Code(_) => true,
    }
}

pub open spec fn names_ok_code_elements(s: Seq<CodeElementV>) -> bool
    decreases s,
{
    s.len() > 0 ==> names_ok_code_elements(s.drop_last()) && names_ok_code_element(s.last())
}

proof fn lemma_names_cons(e: ElementV, s: Seq<ElementV>)
    requires
        names_ok_element(e),
        names_ok_elements(s),
    ensures
        names_ok_elements(seq![e] + s),
    decreases s.len(),
{
    let all = seq![e] + s;
    if s.len() == 0 {
        assert(all.drop_last() == Seq::<ElementV>::empty());
        assert(names_ok_elements(all.drop_last()));
        assert(all.last() == e);
    } else {
        assert(all.drop_last() == seq![e] + s.drop_last());
        assert(all.last() == s.last());
        assert(names_ok_elements(s.drop_last()) && names_ok_element(s.last()));
        lemma_names_cons(e, s.drop_last());
    }
}

proof fn lemma_code_names_cons(e: CodeElementV, s: Seq<CodeElementV>)
    requires
        names_ok_code_element(e),
        names_ok_code_elements(s),
    ensures
        names_ok_code_elements(seq![e] + s),
    decreases s.len(),
{
    let all = seq![e] + s;
    if s.len() == 0 {
        assert(all.drop_last() == Seq::<CodeElementV>::empty());
        assert(names_ok_code_elements(all.drop_last()));
        assert(all.last() == e);
    } else {
        assert(all.drop_last() == seq![e] + s.drop_last());
        assert(all.last() == s.last());
        assert(names_ok_code_elements(s.drop_last()) && names_ok_code_element(s.last()));
        lemma_code_names_cons(e, s.drop_last());
    }
}

proof fn lemma_class_chars(s: Seq<char>, p: int, k: CharClass)
    requires
        0 <= p <= s.len(),
    ensures
        forall|i: int| p <= i < class_end(s, p, k) ==> in_class(k, #[trigger] s[i]),
    decreases s.len() - p,
{
    if p < s.len() && in_class(k, s[p]) {
        lemma_class_chars(s, p + 1, k);
    }
}

proof fn lemma_run_is_name(s: Seq<char>, p: int, k: CharClass)
    requires
        0 <= p <= s.len(),
        class_end(s, p, k) > p,
    ensures
        valid_name(s.subrange(p, class_end(s, p, k)), k),
{
    lemma_class_chars(s, p, k);
    lemma_class_end(s, p, k);
    let n = s.subrange(p, class_end(s, p, k));
    assert forall|i: int| 0 <= i < n.len() implies in_class(k, #[trigger] n[i]) by {
        assert(n[i] == s[p + i]);
    }
}

proof fn lemma_attribute_name(s: Seq<char>, p: int)
    requires
        0 <= p <= s.len(),
        attribute(s, p) is Some,
    ensures
        attribute(s, p) matches Some((a, q)) && valid_name(a.name, CharClass::AttrName) && p < q <= s.len(),
{
    lemma_run_is_name(s, p, CharClass::AttrName);
    lemma_class_end(s, p, CharClass::AttrName);
    let e = class_end(s, p, CharClass::AttrName);
    if char_at(s, e, '=') {
        lemma_class_end(s, e + 1, CharClass::Space);
        let q = class_end(s, e + 1, CharClass::Space);
        if delimited(s, q, '{', CharClass::Code, '}') is Some {
            lemma_class_end(s, q + 1, CharClass::Code);
        } else if delimited(s, q, '"', CharClass::Quoted, '"') is Some {
            lemma_class_end(s, q + 1, CharClass::Quoted);
        }
    }
}

proof fn lemma_more_attributes_names(s: Seq<char>, p: int)
    requires
        0 <= p <= s.len(),
    ensures
        forall|i: int| 0 <= i < more_attributes(s, p).0.len()
            ==> valid_name(#[trigger] more_attributes(s, p).0[i].name, CharClass::AttrName),
    decreases s.len() - p,
{
    if char_at(s, p, ',') || char_at(s, p, ' ') {
        let q = class_end(s, p + 1, CharClass::Space);
        lemma_class_end(s, p + 1, CharClass::Space);
        match attribute(s, q) {
            Some((a, r)) => if p < r <= s.len() {
                lemma_attribute_name(s, q);
                lemma_more_attributes_names(s, r);
                let rest = more_attributes(s, r).0;
                let all = seq![a] + rest;
                assert forall|i: int| 0 <= i < all.len() implies valid_name(#[trigger] all[i].name, CharClass::AttrName) by {
                    if i > 0 {
                        assert(all[i] == rest[i - 1]);
                    }
                }
            },
            None => {},
        }
    }
}

proof fn lemma_attributes_names(s: Seq<char>, p: int)
    requires
        0 <= p <= s.len(),
    ensures
        forall|i: int| 0 <= i < attributes(s, p).0.len()
            ==> valid_name(#[trigger] attributes(s, p).0[i].name, CharClass::AttrName),
{
    match attribute(s, p) {
        Some((a, q)) => {
            lemma_attribute_name(s, p);
            lemma_more_attributes_names(s, q);
            let rest = more_attributes(s, q).0;
            let all = seq![a] + rest;
            assert forall|i: int| 0 <= i < all.len() implies valid_name(#[trigger] all[i].name, CharClass::AttrName) by {
                if i > 0 {
                    assert(all[i] == rest[i - 1]);
                }
            }
        },
        None => {},
    }
}

proof fn lemma_parsed_tag(s: Seq<char>, p: int)
    requires
        0 <= p <= s.len(),
        html_tag(s, p) is Done,
    ensures
        html_tag(s, p) matches Parsed::Done(t, _) && names_ok_tag(t),
    decreases s.len() - p, 0int,
{
    let q = class_end(s, p, CharClass::Multispace);
    lemma_class_end(s, p, CharClass::Multispace);
    lemma_opening_tag(s, q);
    lemma_run_is_name(s, q + 1, CharClass::TagName);
    let e = class_end(s, q + 1, CharClass::TagName);
    lemma_class_end(s, q + 1, CharClass::TagName);
    lemma_class_end(s, e, CharClass::Space);
    lemma_attributes_names(s, class_end(s, e, CharClass::Space));
    let (_, _, r) = opening_tag(s, q)->Some_0;
    lemma_parsed_elements(s, r);
}

proof fn lemma_parsed_code_block(s: Seq<char>, p: int)
    requires
        0 <= p <= s.len(),
        code_block(s, p) is Done,
    ensures
        code_block(s, p) matches Parsed::Done(b, _) && names_ok_code_elements(b),
    decreases s.len() - p, 0int,
{
    lemma_parsed_code_elements(s, p + 1);
}

proof fn lemma_parsed_element(s: Seq<char>, p: int)
    requires
        0 <= p <= s.len(),
        element(s, p) is Done,
    ensures
        element(s, p) matches Parsed::Done(e, _) && names_ok_element(e),
    decreases s.len() - p, 1int,
{
    let q = class_end(s, p, CharClass::Multispace);
    lemma_class_end(s, p, CharClass::Multispace);
    if html_tag(s, q) is Done {
        lemma_parsed_tag(s, q);
    } else if code_block(s, q) is Done {
        lemma_parsed_code_block(s, q);
    }
}

proof fn lemma_parsed_elements_from(s: Seq<char>, p: int)
    requires
        0 <= p <= s.len(),
        elements_from(s, p) is Done,
    ensures
        elements_from(s, p) matches Parsed::Done(v, _) && names_ok_elements(v),
    decreases s.len() - p, 2int,
{
    match proper_element(s, p) {
        Parsed::Done(e, q) => {
            if element(s, p) is Done {
                lemma_parsed_element(s, p);
            }
            if p < q <= s.len() {
                lemma_parsed_elements_from(s, q);
                lemma_names_cons(e, elements_from(s, q)->Done_0);
            }
        },
        _ => {},
    }
}

proof fn lemma_parsed_elements(s: Seq<char>, p: int)
    requires
        0 <= p <= s.len(),
        elements(s, p) is Done,
    ensures
        elements(s, p) matches Parsed::Done(v, _) && names_ok_elements(v),
    decreases s.len() - p, 3int,
{
    lemma_class_end(s, p, CharClass::Multispace);
    lemma_parsed_elements_from(s, class_end(s, p, CharClass::Multispace));
}

proof fn lemma_parsed_code_elements_from(s: Seq<char>, p: int)
    requires
        0 <= p <= s.len(),
        code_elements_from(s, p) is Done,
    ensures
        code_elements_from(s, p) matches Parsed::Done(v, _) && names_ok_code_elements(v),
    decreases s.len() - p, 2int,
{
    match code_element(s, p) {
        Parsed::Done(e, q) => {
            if html_tag(s, p) is Done {
                lemma_parsed_tag(s, p);
            }
            if p < q <= s.len() {
                lemma_parsed_code_elements_from(s, q);
                lemma_code_names_cons(e, code_elements_from(s, q)->Done_0);
            }
        },
        _ => {},
    }
}

proof fn lemma_parsed_code_elements(s: Seq<char>, p: int)
    requires
        0 <= p <= s.len(),
        code_elements(s, p) is Done,
    ensures
        code_elements(s, p) matches Parsed::Done(v, _) && names_ok_code_elements(v),
    decreases s.len() - p, 3int,
{
    lemma_class_end(s, p, CharClass::Multispace);
    lemma_parsed_code_elements_from(s, class_end(s, p, CharClass::Multispace));
}

/// Whatever the parser yields names its tags and attributes by the grammar's
/// classes.
pub proof fn lemma_parsed_names_ok(s: Seq<char>)
    requires
        elements(s, 0) is Done,
    ensures
        elements(s, 0) matches Parsed::Done(v, _) && names_ok_elements(v),
{
    lemma_parsed_elements(s, 0);
}

/// Text never runs over an opening tag: from any position at or before one,
/// text ends at or before it.
pub proof fn lemma_text_stops_before_tags(s: Seq<char>, p: int, i: int)
    requires
        0 <= p <= i < s.len(),
        opening_tag(s, i) is Some,
    ensures
        text_end(s, p) <= i,
    decreases i - p,
{
    if !text_stops(s, p) {
        lemma_text_stops_before_tags(s, p + 1, i);
    }
}

/// A mismatch is never swallowed: every rule that meets one in a part it
/// tries (a child, an alternative, a repetition) ends in that same mismatch.
/// With `lemma_mismatch_is_fatal` and `lemma_text_stops_before_tags`, a tag
/// whose closing tag names another tag, reached at any depth, ends the whole
/// parse.
pub proof fn lemma_mismatch_propagates(s: Seq<char>, p: int, a: Seq<char>, b: Seq<char>)
    requires
        0 <= p <= s.len(),
    ensures
        ({
            let q = class_end(s, p, CharClass::Multispace);
            html_tag(s, q) == Parsed::<TagV>::Mismatch(a, b) ==> element(s, p) == Parsed::<ElementV>::Mismatch(a, b)
        }),
        ({
            let q = class_end(s, p, CharClass::Multispace);
            html_tag(s, q) is Backtrack && code_block(s, q) == Parsed::<Seq<CodeElementV>>::Mismatch(a, b)
                ==> element(s, p) == Parsed::<ElementV>::Mismatch(a, b)
        }),
        element(s, p) == Parsed::<ElementV>::Mismatch(a, b) ==> proper_element(s, p) == Parsed::<ElementV>::Mismatch(a, b),
        proper_element(s, p) == Parsed::<ElementV>::Mismatch(a, b)
            ==> elements_from(s, p) == Parsed::<Seq<ElementV>>::Mismatch(a, b),
        (proper_element(s, p) matches Parsed::Done(_, q) && p < q <= s.len()
            && elements_from(s, q) == Parsed::<Seq<ElementV>>::Mismatch(a, b))
            ==> elements_from(s, p) == Parsed::<Seq<ElementV>>::Mismatch(a, b),
        elements_from(s, class_end(s, p, CharClass::Multispace)) == Parsed::<Seq<ElementV>>::Mismatch(a, b)
            ==> elements(s, p) == Parsed::<Seq<ElementV>>::Mismatch(a, b),
        (opening_tag(s, class_end(s, p, CharClass::Multispace)) matches Some((_, _, r))
            && elements(s, r) == Parsed::<Seq<ElementV>>::Mismatch(a, b))
            ==> html_tag(s, p) == Parsed::<TagV>::Mismatch(a, b),
        html_tag(s, p) == Parsed::<TagV>::Mismatch(a, b)
            ==> code_element(s, p) == Parsed::<CodeElementV>::Mismatch(a, b),
        code_element(s, p) == Parsed::<CodeElementV>::Mismatch(a, b)
            ==> code_elements_from(s, p) == Parsed::<Seq<CodeElementV>>::Mismatch(a, b),
        (code_element(s, p) matches Parsed::Done(_, q) && p < q <= s.len()
            && code_elements_from(s, q) == Parsed::<Seq<CodeElementV>>::Mismatch(a, b))
            ==> code_elements_from(s, p) == Parsed::<Seq<CodeElementV>>::Mismatch(a, b),
        code_elements_from(s, class_end(s, p, CharClass::Multispace)) == Parsed::<Seq<CodeElementV>>::Mismatch(a, b)
            ==> code_elements(s, p) == Parsed::<Seq<CodeElementV>>::Mismatch(a, b),
        (char_at(s, p, '{') && code_elements(s, p + 1) == Parsed::<Seq<CodeElementV>>::Mismatch(a, b))
            ==> code_block(s, p) == Parsed::<Seq<CodeElementV>>::Mismatch(a, b),
{
    lemma_class_end(s, p, CharClass::Multispace);
    let q = class_end(s, p, CharClass::Multispace);
    if opening_tag(s, q) is Some {
        lemma_opening_tag(s, q);
    }
}

} // verus!
