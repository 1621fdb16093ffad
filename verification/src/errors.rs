//! The error taxonomy of the core grammar.
//!
//! Lexical errors carry the offending character or lexeme; parse
//! errors name the rule that was violated; the one semantic error says
//! that the document root was not an object.  Every error aborts the
//! call that produced it: no partial document is ever returned.

use vstd::prelude::*;

verus! {

/// An error from parsing or emitting a configuration document.
#[derive(Debug)]
pub enum ConvError {
    /// A character no token can start with.
    InvalidChar(char),
    /// A string literal with no closing quote.
    UnterminatedString,
    /// A numeric literal the grammar does not accept.
    InvalidNumber(String),
    /// A word starting like `true` or `false` that is neither.
    InvalidBoolean(String),
    /// A word starting with `n` that is not `null`.
    InvalidNull(String),
    /// A word starting with `i` that is not the reserved keyword.
    InvalidKeyword(String),
    /// A token where no value can start.
    InvalidValue,
    /// An object key that is not a string literal.
    KeyMustBeString,
    /// A member without `:` or `=` between key and value.
    ExpectedSeparator,
    /// Trailing content after a complete document.
    ParseIncomplete,
    /// A document whose root value is not an object.
    RootNotObject,
}

/// The mathematical model of a [`ConvError`].
pub enum ErrSpec {
    InvalidChar(char),
    UnterminatedString,
    InvalidNumber(Seq<char>),
    InvalidBoolean(Seq<char>),
    InvalidNull(Seq<char>),
    InvalidKeyword(Seq<char>),
    InvalidValue,
    KeyMustBeString,
    ExpectedSeparator,
    ParseIncomplete,
    RootNotObject,
}

impl View for ConvError {
    type V = ErrSpec;

    open spec fn view(&self) -> ErrSpec {
        match self {
            ConvError::InvalidChar(c) => ErrSpec::InvalidChar(*c),
            ConvError::UnterminatedString => ErrSpec::UnterminatedString,
            ConvError::InvalidNumber(s) => ErrSpec::InvalidNumber(s@),
            ConvError::InvalidBoolean(s) => ErrSpec::InvalidBoolean(s@),
            ConvError::InvalidNull(s) => ErrSpec::InvalidNull(s@),
            ConvError::InvalidKeyword(s) => ErrSpec::InvalidKeyword(s@),
            ConvError::InvalidValue => ErrSpec::InvalidValue,
            ConvError::KeyMustBeString => ErrSpec::KeyMustBeString,
            ConvError::ExpectedSeparator => ErrSpec::ExpectedSeparator,
            ConvError::ParseIncomplete => ErrSpec::ParseIncomplete,
            ConvError::RootNotObject => ErrSpec::RootNotObject,
        }
    }
}

impl ConvError {
    /// A short description, for callers that present errors as text.
    pub fn describe(&self) -> (r: String)
        ensures
            r@.len() > 0,
    {
        let msg: &str = match self {
            ConvError::InvalidChar(_) => "invalid character",
            ConvError::UnterminatedString => "unterminated string",
            ConvError::InvalidNumber(_) => "malformed number",
            ConvError::InvalidBoolean(_) => "malformed boolean",
            ConvError::InvalidNull(_) => "malformed null",
            ConvError::InvalidKeyword(_) => "malformed keyword",
            ConvError::InvalidValue => "invalid value",
            ConvError::KeyMustBeString => "object key must be a string",
            ConvError::ExpectedSeparator => "expected : or = after object key",
            ConvError::ParseIncomplete => "parse incomplete: trailing content",
            ConvError::RootNotObject => "root must be an object",
        };
        proof {
            reveal_strlit("invalid character");
            reveal_strlit("unterminated string");
            reveal_strlit("malformed number");
            reveal_strlit("malformed boolean");
            reveal_strlit("malformed null");
            reveal_strlit("malformed keyword");
            reveal_strlit("invalid value");
            reveal_strlit("object key must be a string");
            reveal_strlit("expected : or = after object key");
            reveal_strlit("parse incomplete: trailing content");
            reveal_strlit("root must be an object");
        }
        msg.to_owned()
    }
}

} // verus!
