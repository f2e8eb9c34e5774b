//! Errors of the configuration parser.

use vstd::prelude::*;

use crate::config_parser::token::TokenKind;

verus! {

/// A parse error: what went wrong and the text where it did.
#[derive(Debug)]
pub struct Error<'a> {
    pub kind: ErrorKind,
    pub slice: &'a str,
}

/// What went wrong.
#[derive(Debug)]
pub enum ErrorKind {
    UnexpectedToken { expected: Expected, got: TokenKind },
    Unexpected(Expected),
}

/// What the parser expected instead.
#[derive(Debug)]
pub enum Expected {
    TokenKind(TokenKind),
    Tag(&'static str),
}

impl<'a> Error<'a> {
    /// Whether the error is an unexpected end of the input.
    pub open spec fn is_eof_error_spec(&self) -> bool {
        match self.kind {
            ErrorKind::Unexpected(Expected::TokenKind(kind)) => kind == TokenKind::Eof,
            ErrorKind::UnexpectedToken { got, .. } => got == TokenKind::Eof,
            _ => false,
        }
    }

    pub fn new(kind: ErrorKind, slice: &'a str) -> (r: Self)
        ensures
            r.kind == kind,
            r.slice == slice,
    {
        Self { kind, slice }
    }

    /// Whether parsing may go on after the error: it is not at the end of the input.
    pub fn is_recoverable(&self) -> (r: bool)
        ensures
            r == !self.is_eof_error_spec(),
    {
        !self.is_eof_error()
    }

    /// Whether the error is an unexpected end of the input.
    pub fn is_eof_error(&self) -> (r: bool)
        ensures
            r == self.is_eof_error_spec(),
    {
        match self.kind {
            ErrorKind::Unexpected(Expected::TokenKind(kind)) => kind == TokenKind::Eof,
            ErrorKind::UnexpectedToken { got, .. } => got == TokenKind::Eof,
            _ => false,
        }
    }
}

impl From<TokenKind> for Expected {
    fn from(value: TokenKind) -> (r: Self) {
        Expected::TokenKind(value)
    }
}

impl vstd::std_specs::convert::FromSpecImpl<TokenKind> for Expected {
    open spec fn obeys_from_spec() -> bool {
        true
    }

    open spec fn from_spec(v: TokenKind) -> Self {
        Expected::TokenKind(v)
    }
}

} // verus!
