//! The parser: recursive descent over the input's characters, proved to
//! yield what the grammar says at every position.

use vstd::prelude::*;
use crate::ast::{
    attributes_v, code_element_v, code_elements_v, element_v, elements_v, Attribute, AttributeV, CodeBlock, CodeElement,
    CodeElementV, Component, Element, ElementV, Expression, HtmlTag, TagV,
};
use crate::error::{positions_within, Error, ErrorKind, ParseError, SyntaxKind};
use crate::grammar::{
    lemma_parsed_names_ok, names_ok_code_element, names_ok_code_elements, names_ok_element, names_ok_elements, names_ok_tag, valid_name,
    attribute, attributes, char_at, class_end, closing_tag, code_block, code_element, code_elements,
    code_elements_from, delimited, element, elements, elements_from, expression, html_tag, in_class,
    more_attributes, opening_tag, proper_element, tag_name, text, text_end, text_stops, CharClass, Parsed,
};
use vstd::string::StringExecFns;
use crate::text::{chars_of, string_from};

verus! {

/// A parse from a position: the position after what was read, and its value.
pub type PResult<T> = Result<(usize, T), ParseError>;

/// The message of the fatal error for a closing tag that names another tag.
pub open spec fn mismatch_message(open: Seq<char>, close: Seq<char>) -> Seq<char> {
    "expected closing tag `</"@ + open + ">`, got `</"@ + close + ">`"@
}

/// The mismatch message names the opening tag, then the closing tag.
pub proof fn lemma_mismatch_message_names_both(a: Seq<char>, b: Seq<char>)
    ensures
        mismatch_message(a, b).subrange(24, 24 + a.len() as int) == a,
        mismatch_message(a, b).subrange(35 + a.len() as int, 35 + a.len() + b.len() as int) == b,
{
    reveal_strlit("expected closing tag `</");
    reveal_strlit(">`, got `</");
    reveal_strlit(">`");
    let m = mismatch_message(a, b);
    assert(m.subrange(24, 24 + a.len() as int) =~= a);
    assert(m.subrange(35 + a.len() as int, 35 + a.len() + b.len() as int) =~= b);
}

/// Whether a result is the one the grammar gives, its value seen through `f`.
pub open spec fn agrees<T, V>(r: PResult<T>, g: Parsed<V>, f: spec_fn(T) -> V) -> bool {
    match g {
        Parsed::Done(v, q) => r matches Ok((e, t)) && e == q && f(t) == v,
        Parsed::Backtrack => r matches Err(ParseError::Recoverable(_)),
        Parsed::Mismatch(a, b) => r matches Err(ParseError::Fatal(err)) && err.message matches Some(m)
            && m@ == mismatch_message(a, b),
    }
}

/// Whether a result is the one a rule that cannot fail fatally gives.
pub open spec fn agrees_opt<T, V>(r: PResult<T>, g: Option<(V, int)>, f: spec_fn(T) -> V) -> bool {
    match g {
        Some((v, q)) => r matches Ok((e, t)) && e == q && f(t) == v,
        None => r matches Err(ParseError::Recoverable(_)),
    }
}

/// Every error of a failed result was raised within `0..=n`.
pub open spec fn errors_within<T>(r: Result<T, ParseError>, n: int) -> bool {
    match r {
        Ok(_) => true,
        Err(ParseError::Recoverable(e)) => positions_within(e, n),
        Err(ParseError::Fatal(e)) => positions_within(e, n),
    }
}

/// The end position of a result that succeeded lies in `p..=n`.
pub open spec fn ends_within<T>(r: PResult<T>, p: int, n: int) -> bool {
    r matches Ok((e, _)) ==> p <= e <= n
}

pub open spec fn prefixed<V>(pre: Seq<V>, g: Parsed<Seq<V>>) -> Parsed<Seq<V>> {
    match g {
        Parsed::Done(vs, q) => Parsed::Done(pre + vs, q),
        other => other,
    }
}

pub fn class_has(k: CharClass, c: char) -> (r: bool)
    ensures
        r == in_class(k, c),
{
    let alnum = ('a' <= c && c <= 'z') || ('A' <= c && c <= 'Z') || ('0' <= c && c <= '9');
    match k {
        CharClass::Multispace => c == ' ' || c == '\t' || c == '\r' || c == '\n',
        CharClass::Space => c == ' ' || c == '\t',
        CharClass::TagName => alnum || c == '-',
        CharClass::AttrName => alnum || c == '-' || c == '_',
        CharClass::Code => c != '{' && c != '}',
        CharClass::Quoted => c != '"',
    }
}

/// The end of the run of characters of class `k` from `p`.
pub fn skip_class(s: &Vec<char>, p: usize, k: CharClass) -> (r: usize)
    requires
        p <= s.len(),
    ensures
        r == class_end(s@, p as int, k),
        p <= r <= s.len(),
{
    let mut i = p;
    while i < s.len() && class_has(k, s[i])
        invariant
            p <= i <= s.len(),
            class_end(s@, p as int, k) == class_end(s@, i as int, k),
        decreases s.len() - i,
    {
        i = i + 1;
    }
    i
}

fn at_char(s: &Vec<char>, p: usize, c: char) -> (r: bool)
    ensures
        r == char_at(s@, p as int, c),
{
    p < s.len() && s[p] == c
}

fn expected(p: usize, c: char) -> (r: ParseError)
    ensures
        r matches ParseError::Recoverable(e) && e.errors@ == seq![(p, ErrorKind::Char(c))],
{
    ParseError::Recoverable(Error::single(p, ErrorKind::Char(c)))
}

fn parse_tag_name(s: &Vec<char>, p: usize) -> (r: Result<usize, ParseError>)
    requires
        p <= s.len(),
    ensures
        errors_within(r, s.len() as int),
        match tag_name(s@, p as int) {
            Some(e) => r == Ok::<usize, ParseError>(e as usize) && p < e <= s.len(),
            None => r matches Err(ParseError::Recoverable(_)),
        },
{
    let e = skip_class(s, p, CharClass::TagName);
    if e > p {
        Ok(e)
    } else {
        Err(ParseError::Recoverable(Error::from_error_kind(p, SyntaxKind::TakeWhile1)))
    }
}

/// A run of one or more characters of class `k` between `open` and `close`:
/// the end of the run.
fn parse_delimited(s: &Vec<char>, p: usize, open: char, k: CharClass, close: char) -> (r: Result<usize, ParseError>)
    requires
        p <= s.len(),
    ensures
        errors_within(r, s.len() as int),
        match delimited(s@, p as int, open, k, close) {
            Some(e) => r == Ok::<usize, ParseError>(e as usize) && p + 1 < e < s.len(),
            None => r matches Err(ParseError::Recoverable(_)),
        },
{
    if !at_char(s, p, open) {
        return Err(expected(p, open));
    }
    let e = skip_class(s, p + 1, k);
    if e <= p + 1 {
        return Err(ParseError::Recoverable(Error::from_error_kind(p + 1, SyntaxKind::IsNot)));
    }
    if !at_char(s, e, close) {
        return Err(expected(e, close));
    }
    Ok(e)
}

fn parse_expression(s: &Vec<char>, p: usize) -> (r: PResult<Expression>)
    requires
        p <= s.len(),
    ensures
        errors_within(r, s.len() as int),
        agrees_opt(r, expression(s@, p as int), |e: Expression| e@),
        ends_within(r, p as int, s.len() as int),
{
    match parse_delimited(s, p, '{', CharClass::Code, '}') {
        Ok(e) => Ok((e + 1, Expression::Code(string_from(s, p + 1, e)))),
        Err(ParseError::Recoverable(first)) => match parse_delimited(s, p, '"', CharClass::Quoted, '"') {
            Ok(e) => Ok((e + 1, Expression::Text(string_from(s, p + 1, e)))),
            Err(ParseError::Recoverable(second)) => Err(
                ParseError::Recoverable(Error::append(p, SyntaxKind::Alt, first.or(second))),
            ),
            Err(fatal) => Err(fatal),
        },
        Err(fatal) => Err(fatal),
    }
}

fn parse_attribute(s: &Vec<char>, p: usize) -> (r: PResult<Attribute>)
    requires
        p <= s.len(),
    ensures
        errors_within(r, s.len() as int),
        agrees_opt(r, attribute(s@, p as int), |a: Attribute| a@),
        r matches Ok((e, _)) ==> p < e <= s.len(),
        r is Ok || r matches Err(ParseError::Recoverable(_)),
{
    let e = skip_class(s, p, CharClass::AttrName);
    if e <= p {
        return Err(ParseError::Recoverable(Error::from_error_kind(p, SyntaxKind::TakeWhile1)));
    }
    if at_char(s, e, '=') {
        let q = skip_class(s, e + 1, CharClass::Space);
        if let Ok((end, value)) = parse_expression(s, q) {
            return Ok((end, Attribute { name: string_from(s, p, e), value: Some(value) }));
        }
    }
    Ok((e, Attribute { name: string_from(s, p, e), value: None }))
}

/// The attribute list of an opening tag, and the spaces after it.
fn parse_attributes(s: &Vec<char>, p: usize) -> (r: (usize, Vec<Attribute>))
    requires
        p <= s.len(),
    ensures
        (attributes_v(r.1@), r.0 as int) == attributes(s@, p as int),
        p <= r.0 <= s.len(),
{
    let mut attrs: Vec<Attribute> = Vec::new();
    match parse_attribute(s, p) {
        Err(_) => {
            let end = skip_class(s, p, CharClass::Space);
            return (end, attrs);
        },
        Ok((q, a)) => {
            attrs.push(a);
            let mut cur = q;
            proof {
                assert(attributes_v(attrs@) == seq![a@]);
            }
            loop
                invariant
                    p < cur <= s.len(),
                    attributes(s@, p as int) == ({
                        let rest = more_attributes(s@, cur as int);
                        (attributes_v(attrs@) + rest.0, class_end(s@, rest.1, CharClass::Space))
                    }),
                ensures
                    p < cur <= s.len(),
                    attributes(s@, p as int) == (attributes_v(attrs@), class_end(s@, cur as int, CharClass::Space)),
                decreases s.len() - cur,
            {
                if !(at_char(s, cur, ',') || at_char(s, cur, ' ')) {
                    assert(attributes_v(attrs@) + Seq::<AttributeV>::empty() == attributes_v(attrs@));
                    break;
                }
                let q = skip_class(s, cur + 1, CharClass::Space);
                match parse_attribute(s, q) {
                    Ok((next, a)) => {
                        let ghost before = attrs@;
                        attrs.push(a);
                        proof {
                            assert(attributes_v(attrs@) == attributes_v(before).push(a@));
                            let rest = more_attributes(s@, next as int);
                            assert(attributes_v(before) + (seq![a@] + rest.0) == attributes_v(attrs@) + rest.0);
                        }
                        cur = next;
                    },
                    Err(_) => {
                        assert(attributes_v(attrs@) + Seq::<AttributeV>::empty() == attributes_v(attrs@));
                        break;
                    },
                }
            }
            let end = skip_class(s, cur, CharClass::Space);
            return (end, attrs);
        },
    }
}

/// A tag's name, spaces and attributes: a tag with no children yet.
pub fn parse_inside_html_opening_tag(s: &Vec<char>, p: usize) -> (r: PResult<HtmlTag>)
    requires
        p <= s.len(),
    ensures
        errors_within(r, s.len() as int),
        match tag_name(s@, p as int) {
            Some(e) => r matches Ok((end, t)) && ({
                let at = attributes(s@, class_end(s@, e, CharClass::Space));
                end == at.1 && t@ == (TagV { tag: s@.subrange(p as int, e), attributes: at.0, content: Seq::empty() })
            }),
            None => r matches Err(ParseError::Recoverable(_)),
        },
        r matches Ok((e, _)) ==> p < e <= s.len(),
{
    let e = match parse_tag_name(s, p) {
        Ok(e) => e,
        Err(err) => return Err(err),
    };
    let q = skip_class(s, e, CharClass::Space);
    let (end, attributes) = parse_attributes(s, q);
    let t = HtmlTag { tag: string_from(s, p, e), attributes, content: Vec::new() };
    proof {
        assert(elements_v(t.content@) == Seq::<ElementV>::empty());
    }
    Ok((end, t))
}

/// `<name attributes>`: a tag with no children yet.
pub fn parse_html_opening_tag(s: &Vec<char>, p: usize) -> (r: PResult<HtmlTag>)
    requires
        p <= s.len(),
    ensures
        errors_within(r, s.len() as int),
        match opening_tag(s@, p as int) {
            Some((name, attrs, q)) => r matches Ok((e, t)) && e == q && t@ == (TagV {
                tag: name,
                attributes: attrs,
                content: Seq::empty(),
            }),
            None => r matches Err(ParseError::Recoverable(_)),
        },
        r matches Ok((e, _)) ==> p < e <= s.len(),
{
    if !at_char(s, p, '<') {
        return Err(expected(p, '<'));
    }
    let (end, t) = match parse_inside_html_opening_tag(s, p + 1) {
        Ok(x) => x,
        Err(err) => return Err(err),
    };
    if !at_char(s, end, '>') {
        return Err(expected(end, '>'));
    }
    Ok((end + 1, t))
}

/// `</name>`: the name.
pub fn parse_html_closing_tag(s: &Vec<char>, p: usize) -> (r: PResult<String>)
    requires
        p <= s.len(),
    ensures
        errors_within(r, s.len() as int),
        agrees_opt(r, closing_tag(s@, p as int), |n: String| n@),
        r matches Ok((e, _)) ==> p < e <= s.len(),
{
    if !(at_char(s, p, '<') && at_char(s, p + 1, '/')) {
        return Err(expected(p, '<'));
    }
    let e = match parse_tag_name(s, p + 2) {
        Ok(e) => e,
        Err(ParseError::Recoverable(err)) => {
            return Err(ParseError::Recoverable(Error::add_context(p + 2, "html tag name".to_string(), err)));
        },
        Err(fatal) => return Err(fatal),
    };
    if !at_char(s, e, '>') {
        return Err(expected(e, '>'));
    }
    Ok((e + 1, string_from(s, p + 2, e)))
}

/// White space, a tag, its children and its closing tag. A closing tag that
/// names another tag is a fatal error.
pub fn parse_html_tag(s: &Vec<char>, p: usize) -> (r: PResult<HtmlTag>)
    requires
        p <= s.len(),
    ensures
        errors_within(r, s.len() as int),
        agrees(r, html_tag(s@, p as int), |t: HtmlTag| t@),
        ends_within(r, p as int, s.len() as int),
    decreases s.len() - p, 3int,
{
    let q = skip_class(s, p, CharClass::Multispace);
    let (r1, mut htag) = match parse_html_opening_tag(s, q) {
        Ok(x) => x,
        Err(err) => return Err(err),
    };
    let (r2, content) = match parse_consecutive_proper_elements(s, r1) {
        Ok(x) => x,
        Err(err) => return Err(err),
    };
    let (r3, close_name) = match parse_html_closing_tag(s, r2) {
        Ok(x) => x,
        Err(err) => return Err(err),
    };
    if htag.tag != close_name {
        let mut message = String::new();
        message.append("expected closing tag `</");
        message.append(htag.tag.as_str());
        message.append(">`, got `</");
        message.append(close_name.as_str());
        message.append(">`");
        return Err(Error::custom_failure(r3, message));
    }
    htag.content = content;
    Ok((r3, htag))
}

/// `{`, code elements, `}`.
pub fn parse_code_block(s: &Vec<char>, p: usize) -> (r: PResult<CodeBlock>)
    requires
        p <= s.len(),
    ensures
        errors_within(r, s.len() as int),
        agrees(r, code_block(s@, p as int), |b: CodeBlock| b@),
        ends_within(r, p as int, s.len() as int),
    decreases s.len() - p, 3int,
{
    if !at_char(s, p, '{') {
        return Err(expected(p, '{'));
    }
    let (q, content) = match parse_code_elements(s, p + 1) {
        Ok(x) => x,
        Err(err) => return Err(err),
    };
    if !at_char(s, q, '}') {
        return Err(expected(q, '}'));
    }
    Ok((q + 1, CodeBlock { content }))
}

/// White space, then a tag or else a code block.
pub fn parse_element(s: &Vec<char>, p: usize) -> (r: PResult<Element>)
    requires
        p <= s.len(),
    ensures
        errors_within(r, s.len() as int),
        agrees(r, element(s@, p as int), |e: Element| e@),
        ends_within(r, p as int, s.len() as int),
    decreases s.len() - p, 5int,
{
    let q = skip_class(s, p, CharClass::Multispace);
    match parse_html_tag(s, q) {
        Ok((e, t)) => Ok((e, Element::Html(t))),
        Err(ParseError::Recoverable(first)) => match parse_code_block(s, q) {
            Ok((e, b)) => Ok((e, Element::Block(b))),
            Err(ParseError::Recoverable(second)) => {
                let second = Error::add_context(q, "code block".to_string(), second);
                Err(ParseError::Recoverable(Error::append(q, SyntaxKind::Alt, first.or(second))))
            },
            Err(ParseError::Fatal(err)) => Err(ParseError::Fatal(Error::add_context(q, "code block".to_string(), err))),
        },
        Err(fatal) => Err(fatal),
    }
}

/// Whether text stops at `i`.
fn stops_text(s: &Vec<char>, i: usize) -> (r: bool)
    requires
        i < s.len(),
    ensures
        r == text_stops(s@, i as int),
    decreases s.len() - i, 6int,
{
    if parse_element(s, i).is_ok() {
        return true;
    }
    parse_html_opening_tag(s, i).is_ok() || parse_html_closing_tag(s, i).is_ok() || s[i] == '}'
}

/// The longest run of text from `p` that no element, opening tag, closing
/// tag or `}` interrupts; an empty run is a recoverable error.
pub fn parse_text(s: &Vec<char>, p: usize) -> (r: PResult<String>)
    requires
        p <= s.len(),
    ensures
        errors_within(r, s.len() as int),
        agrees(r, text(s@, p as int), |t: String| t@),
        ends_within(r, p as int, s.len() as int),
    decreases s.len() - p, 8int,
{
    let mut index = p;
    while index < s.len()
        invariant
            p <= index <= s.len(),
            text_end(s@, p as int) == text_end(s@, index as int),
        ensures
            p <= index <= s.len(),
            text_end(s@, p as int) == index,
        decreases s.len() - index,
    {
        if stops_text(s, index) {
            break;
        }
        index = index + 1;
    }
    if index == p {
        return Err(Error::eof(p));
    }
    Ok((index, string_from(s, p, index)))
}

/// An element, or else text.
fn parse_proper_element(s: &Vec<char>, p: usize) -> (r: PResult<Element>)
    requires
        p <= s.len(),
    ensures
        errors_within(r, s.len() as int),
        agrees(r, proper_element(s@, p as int), |e: Element| e@),
        ends_within(r, p as int, s.len() as int),
    decreases s.len() - p, 9int,
{
    match parse_element(s, p) {
        Err(ParseError::Recoverable(first)) => match parse_text(s, p) {
            Ok((e, t)) => Ok((e, Element::Text(t))),
            Err(ParseError::Recoverable(second)) => Err(
                ParseError::Recoverable(Error::append(p, SyntaxKind::Alt, first.or(second))),
            ),
            Err(fatal) => Err(fatal),
        },
        other => other,
    }
}

/// White space, then proper elements for as long as one parses.
pub fn parse_consecutive_proper_elements(s: &Vec<char>, p: usize) -> (r: PResult<Vec<Element>>)
    requires
        p <= s.len(),
    ensures
        errors_within(r, s.len() as int),
        agrees(r, elements(s@, p as int), |v: Vec<Element>| elements_v(v@)),
        ends_within(r, p as int, s.len() as int),
    decreases s.len() - p, 11int,
{
    let q = skip_class(s, p, CharClass::Multispace);
    let mut out: Vec<Element> = Vec::new();
    let mut cur = q;
    loop
        invariant
            p <= q <= cur <= s.len(),
            q == class_end(s@, p as int, CharClass::Multispace),
            elements_from(s@, q as int) == prefixed(elements_v(out@), elements_from(s@, cur as int)),
        decreases s.len() - cur,
    {
        match parse_proper_element(s, cur) {
            Ok((next, e)) => {
                if next <= cur {
                    return Err(ParseError::Recoverable(Error::from_error_kind(cur, SyntaxKind::Many0)));
                }
                proof {
                    let g = elements_from(s@, next as int);
                    assert(out@.push(e).drop_last() == out@);
                    assert(elements_v(out@.push(e)) == elements_v(out@).push(e@));
                    if g is Done {
                        assert(elements_v(out@) + (seq![e@] + g->Done_0) == elements_v(out@).push(e@) + g->Done_0);
                    }
                }
                out.push(e);
                cur = next;
            },
            Err(ParseError::Recoverable(_)) => {
                assert(elements_v(out@) + Seq::<ElementV>::empty() == elements_v(out@));
                return Ok((cur, out));
            },
            Err(fatal) => return Err(fatal),
        }
    }
}

/// A tag, or else text taken as code.
fn parse_code_element(s: &Vec<char>, p: usize) -> (r: PResult<CodeElement>)
    requires
        p <= s.len(),
    ensures
        errors_within(r, s.len() as int),
        agrees(r, code_element(s@, p as int), |e: CodeElement| e@),
        ends_within(r, p as int, s.len() as int),
    decreases s.len() - p, 9int,
{
    match parse_html_tag(s, p) {
        Ok((e, t)) => Ok((e, CodeElement::Html(t))),
        Err(ParseError::Recoverable(first)) => match parse_text(s, p) {
            Ok((e, t)) => Ok((e, CodeElement::Code(t))),
            Err(ParseError::Recoverable(second)) => Err(
                ParseError::Recoverable(Error::append(p, SyntaxKind::Alt, first.or(second))),
            ),
            Err(fatal) => Err(fatal),
        },
        Err(fatal) => Err(fatal),
    }
}

/// White space, then code elements for as long as one parses.
fn parse_code_elements(s: &Vec<char>, p: usize) -> (r: PResult<Vec<CodeElement>>)
    requires
        p <= s.len(),
    ensures
        errors_within(r, s.len() as int),
        agrees(r, code_elements(s@, p as int), |v: Vec<CodeElement>| code_elements_v(v@)),
        ends_within(r, p as int, s.len() as int),
    decreases s.len() - p, 11int,
{
    let q = skip_class(s, p, CharClass::Multispace);
    let mut out: Vec<CodeElement> = Vec::new();
    let mut cur = q;
    loop
        invariant
            p <= q <= cur <= s.len(),
            q == class_end(s@, p as int, CharClass::Multispace),
            code_elements_from(s@, q as int) == prefixed(code_elements_v(out@), code_elements_from(s@, cur as int)),
        decreases s.len() - cur,
    {
        match parse_code_element(s, cur) {
            Ok((next, e)) => {
                if next <= cur {
                    return Err(ParseError::Recoverable(Error::from_error_kind(cur, SyntaxKind::Many0)));
                }
                proof {
                    let g = code_elements_from(s@, next as int);
                    assert(out@.push(e).drop_last() == out@);
                    assert(code_elements_v(out@.push(e)) == code_elements_v(out@).push(e@));
                    if g is Done {
                        assert(code_elements_v(out@) + (seq![e@] + g->Done_0) == code_elements_v(out@).push(e@) + g->Done_0);
                    }
                }
                out.push(e);
                cur = next;
            },
            Err(ParseError::Recoverable(_)) => {
                assert(code_elements_v(out@) + Seq::<CodeElementV>::empty() == code_elements_v(out@));
                return Ok((cur, out));
            },
            Err(fatal) => return Err(fatal),
        }
    }
}

/// Parses a whole component from the start of `input`. Positions count
/// characters of `input`; the first one of the result is where parsing
/// stopped, which callers check is the end.
pub fn parse_cog(input: &str) -> (r: PResult<Component>)
    ensures
        r matches Ok((_, c)) ==> c.wf(),
        errors_within(r, input@.len() as int),
        agrees(r, elements(input@, 0), |c: Component| c@),
        ends_within(r, 0, input@.len() as int),
{
    let s = chars_of(input);
    match parse_consecutive_proper_elements(&s, 0) {
        Ok((end, elements)) => {
            proof {
                lemma_parsed_names_ok(s@);
            }
            Ok((end, Component { elements }))
        },
        Err(err) => Err(err),
    }
}

/// Whether `s` is a name of class `k`.
fn is_name(s: &String, k: CharClass) -> (r: bool)
    ensures
        r == valid_name(s@, k),
{
    let cs = chars_of(s.as_str());
    if cs.len() == 0 {
        return false;
    }
    let mut i: usize = 0;
    while i < cs.len()
        invariant
            cs@ == s@,
            i <= cs.len(),
            forall|j: int| 0 <= j < i ==> in_class(k, #[trigger] cs@[j]),
        decreases cs.len() - i,
    {
        if !class_has(k, cs[i]) {
            return false;
        }
        i = i + 1;
    }
    true
}

fn tag_names_ok(t: &HtmlTag) -> (r: bool)
    ensures
        r == names_ok_tag(t@),
    decreases t,
{
    if !is_name(&t.tag, CharClass::TagName) {
        return false;
    }
    let mut i: usize = 0;
    while i < t.attributes.len()
        invariant
            i <= t.attributes.len(),
            forall|j: int| 0 <= j < i ==> valid_name(#[trigger] attributes_v(t.attributes@)[j].name, CharClass::AttrName),
        decreases t.attributes.len() - i,
    {
        if !is_name(&t.attributes[i].name, CharClass::AttrName) {
            assert(attributes_v(t.attributes@)[i as int].name == t.attributes@[i as int].name@);
            return false;
        }
        i = i + 1;
    }
    proof {
        assert(decreases_to!(*t => t.content));
    }
    elements_names_ok(&t.content)
}

fn elements_names_ok(v: &Vec<Element>) -> (r: bool)
    ensures
        r == names_ok_elements(elements_v(v@)),
    decreases v,
{
    let mut i: usize = 0;
    while i < v.len()
        invariant
            i <= v.len(),
            names_ok_elements(elements_v(v@.subrange(0, i as int))),
        decreases v.len() - i,
    {
        proof {
            assert(decreases_to!(*v => v@[i as int]));
            let sub = v@.subrange(0, i + 1);
            assert(sub.drop_last() == v@.subrange(0, i as int));
            assert(sub.last() == v@[i as int]);
            assert(elements_v(sub).drop_last() == elements_v(v@.subrange(0, i as int)));
        }
        let ok = match &v[i] {
            Element::Html(t) => tag_names_ok(t),
            Element::Block(b) => code_names_ok(&b.content),
            Element::Text(_) => true,
        };
        proof {
            let x = elements_v(v@.subrange(0, i + 1));
            assert(ok == names_ok_element(element_v(v@[i as int])));
            assert(x.last() == element_v(v@[i as int]));
            assert(names_ok_elements(x) == (names_ok_elements(x.drop_last()) && names_ok_element(x.last())));
        }
        if !ok {
            proof {
                if names_ok_elements(elements_v(v@)) {
                    lemma_elements_v_prefix(v@, i + 1);
                    lemma_names_prefix(elements_v(v@), i + 1);
                }
            }
            return false;
        }
        i = i + 1;
    }
    assert(v@.subrange(0, v@.len() as int) == v@);
    true
}

fn code_names_ok(v: &Vec<CodeElement>) -> (r: bool)
    ensures
        r == names_ok_code_elements(code_elements_v(v@)),
    decreases v,
{
    let mut i: usize = 0;
    while i < v.len()
        invariant
            i <= v.len(),
            names_ok_code_elements(code_elements_v(v@.subrange(0, i as int))),
        decreases v.len() - i,
    {
        proof {
            assert(decreases_to!(*v => v@[i as int]));
            let sub = v@.subrange(0, i + 1);
            assert(sub.drop_last() == v@.subrange(0, i as int));
            assert(sub.last() == v@[i as int]);
            assert(code_elements_v(sub).drop_last() == code_elements_v(v@.subrange(0, i as int)));
        }
        let ok = match &v[i] {
            CodeElement::Html(t) => tag_names_ok(t),
            CodeElement::Code(_) => true,
        };
        proof {
            let x = code_elements_v(v@.subrange(0, i + 1));
            assert(ok == names_ok_code_element(code_element_v(v@[i as int])));
            assert(x.last() == code_element_v(v@[i as int]));
            assert(names_ok_code_elements(x) == (names_ok_code_elements(x.drop_last()) && names_ok_code_element(x.last())));
        }
        if !ok {
            proof {
                if names_ok_code_elements(code_elements_v(v@)) {
                    lemma_code_elements_v_prefix(v@, i + 1);
                    lemma_code_names_prefix(code_elements_v(v@), i + 1);
                }
            }
            return false;
        }
        i = i + 1;
    }
    assert(v@.subrange(0, v@.len() as int) == v@);
    true
}

proof fn lemma_elements_v_prefix(v: Seq<Element>, n: int)
    requires
        0 <= n <= v.len(),
    ensures
        elements_v(v.subrange(0, n)) == elements_v(v).subrange(0, n),
        elements_v(v).len() == v.len(),
    decreases v.len(),
{
    if v.len() > 0 {
        if n == v.len() {
            assert(v.subrange(0, n) == v);
            lemma_elements_v_prefix(v.drop_last(), 0);
        } else {
            lemma_elements_v_prefix(v.drop_last(), n);
            assert(v.drop_last().subrange(0, n) == v.subrange(0, n));
        }
        assert(elements_v(v).subrange(0, n) =~= elements_v(v.drop_last()).push(element_v(v.last())).subrange(0, n));
    }
}

proof fn lemma_code_elements_v_prefix(v: Seq<CodeElement>, n: int)
    requires
        0 <= n <= v.len(),
    ensures
        code_elements_v(v.subrange(0, n)) == code_elements_v(v).subrange(0, n),
        code_elements_v(v).len() == v.len(),
    decreases v.len(),
{
    if v.len() > 0 {
        if n == v.len() {
            assert(v.subrange(0, n) == v);
            lemma_code_elements_v_prefix(v.drop_last(), 0);
        } else {
            lemma_code_elements_v_prefix(v.drop_last(), n);
            assert(v.drop_last().subrange(0, n) == v.subrange(0, n));
        }
        assert(code_elements_v(v).subrange(0, n) =~= code_elements_v(v.drop_last()).push(code_element_v(v.last())).subrange(0, n));
    }
}

proof fn lemma_names_prefix(s: Seq<ElementV>, n: int)
    requires
        0 <= n <= s.len(),
        names_ok_elements(s),
    ensures
        names_ok_elements(s.subrange(0, n)),
    decreases s.len(),
{
    if n < s.len() {
        assert(s.drop_last().subrange(0, n) == s.subrange(0, n));
        lemma_names_prefix(s.drop_last(), n);
    } else {
        assert(s.subrange(0, n) == s);
    }
}

proof fn lemma_code_names_prefix(s: Seq<CodeElementV>, n: int)
    requires
        0 <= n <= s.len(),
        names_ok_code_elements(s),
    ensures
        names_ok_code_elements(s.subrange(0, n)),
    decreases s.len(),
{
    if n < s.len() {
        assert(s.drop_last().subrange(0, n) == s.subrange(0, n));
        lemma_code_names_prefix(s.drop_last(), n);
    } else {
        assert(s.subrange(0, n) == s);
    }
}

impl Component {
    /// Whether every tag and attribute name is of the grammar's class, which
    /// emission needs of a component that was not parsed.
    pub fn names_ok(&self) -> (r: bool)
        ensures
            r == self.wf(),
    {
        elements_names_ok(&self.elements)
    }
}

} // verus!
