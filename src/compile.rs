//! The whole pipeline: parse a template, check that all of it was read,
//! lower it and emit host-language source.

use vstd::prelude::*;
use crate::ast::Component;
use crate::error::{positions_within, ParseError};
use crate::generate::{component_source, generate, render_source};
use crate::grammar::{elements, Parsed};
use crate::parser::{mismatch_message, parse_cog};
use crate::text::chars_of;

verus! {

pub enum CompileError {
    /// The parser failed.
    Parse(ParseError),
    /// The parser stopped before the end of the input, at this character.
    Leftover(usize),
}

/// Parses `source` as a whole component.
pub fn parse_component(source: &str) -> (r: Result<Component, CompileError>)
    ensures
        r matches Ok(c) ==> c.wf(),
        r matches Err(CompileError::Parse(ParseError::Recoverable(e))) ==> positions_within(e, source@.len() as int),
        r matches Err(CompileError::Parse(ParseError::Fatal(e))) ==> positions_within(e, source@.len() as int),
        match elements(source@, 0) {
            Parsed::Done(v, q) => if q == source@.len() {
                r matches Ok(c) && c@ == v
            } else {
                r == Err::<Component, CompileError>(CompileError::Leftover(q as usize))
            },
            Parsed::Backtrack => r matches Err(CompileError::Parse(ParseError::Recoverable(_))),
            Parsed::Mismatch(a, b) => r matches Err(CompileError::Parse(ParseError::Fatal(e)))
                && e.message matches Some(m) && m@ == mismatch_message(a, b),
        },
{
    match parse_cog(source) {
        Ok((end, component)) => {
            if end == chars_of(source).len() {
                Ok(component)
            } else {
                Err(CompileError::Leftover(end))
            }
        },
        Err(err) => Err(CompileError::Parse(err)),
    }
}

/// Compiles `source` into the host-language source of a component.
pub fn compile(source: &str) -> (r: Result<String, CompileError>)
    ensures
        r matches Err(CompileError::Parse(ParseError::Recoverable(e))) ==> positions_within(e, source@.len() as int),
        r matches Err(CompileError::Parse(ParseError::Fatal(e))) ==> positions_within(e, source@.len() as int),
        match elements(source@, 0) {
            Parsed::Done(v, q) => if q == source@.len() {
                r matches Ok(out) && out@ == component_source(render_source(v))
            } else {
                r == Err::<String, CompileError>(CompileError::Leftover(q as usize))
            },
            Parsed::Backtrack => r matches Err(CompileError::Parse(ParseError::Recoverable(_))),
            Parsed::Mismatch(a, b) => r matches Err(CompileError::Parse(ParseError::Fatal(e)))
                && e.message matches Some(m) && m@ == mismatch_message(a, b),
        },
{
    match parse_component(source) {
        Ok(component) => Ok(generate(&component)),
        Err(err) => Err(err),
    }
}

} // verus!
