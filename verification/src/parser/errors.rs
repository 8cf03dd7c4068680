//! The parser's error taxonomy.
//!
//! Exactly two kinds of parse failure exist: a command or subcommand token
//! that is not recognised, and a recognised command whose arguments are
//! structurally invalid.  Every error carries a static description and may
//! carry a dynamic detail (such as the text that failed to convert).
//! Equality compares the kind alone: consumers assert on kind, and the
//! description and detail are informational.

use vstd::prelude::*;
use vstd::string::StringExecFns;

verus! {

/// The two kinds of parse failure.
#[derive(PartialEq, Eq, Structural, Clone, Copy, Debug)]
pub enum ErrorKind {
    /// The command or subcommand token is not part of the protocol.
    UnknownCommand,
    /// The command is recognised but its arguments have the wrong shape.
    MalformedCommand,
}

/// A parse failure: kind, static description, optional dynamic detail.
#[derive(Debug)]
pub struct ParseError {
    kind: ErrorKind,
    description: &'static str,
    detail: Option<String>,
}

impl ParseError {
    /// The kind of this error.
    pub closed spec fn spec_kind(&self) -> ErrorKind {
        self.kind
    }

    /// The static description of this error.
    pub closed spec fn spec_description(&self) -> Seq<char> {
        self.description@
    }

    /// The dynamic detail of this error, if any.
    pub closed spec fn spec_detail(&self) -> Option<Seq<char>> {
        match self.detail {
            Option::None => Option::None,
            Option::Some(d) => Option::Some(d@),
        }
    }

    /// Returns the kind of the error.
    pub fn kind(&self) -> (r: ErrorKind)
        ensures
            r == self.spec_kind(),
    {
        self.kind
    }

    /// Returns the static description of the error.
    pub fn description(&self) -> (r: &'static str)
        ensures
            r@ == self.spec_description(),
    {
        self.description
    }

    /// An error with a description alone.
    pub fn with_description(kind: ErrorKind, description: &'static str) -> (r: ParseError)
        ensures
            r.spec_kind() == kind,
            r.spec_description() == description@,
            r.spec_detail() is None,
    {
        ParseError { kind, description, detail: Option::None }
    }

    /// An error that also carries dynamic detail.
    pub fn with_detail(kind: ErrorKind, description: &'static str, detail: String) -> (r:
        ParseError)
        ensures
            r.spec_kind() == kind,
            r.spec_description() == description@,
            r.spec_detail() == Option::Some(detail@),
    {
        ParseError { kind, description, detail: Option::Some(detail) }
    }

    /// The full text of the error: the description, followed by the detail
    /// when one is present.
    pub open spec fn spec_message(&self) -> Seq<char> {
        match self.spec_detail() {
            Option::None => self.spec_description(),
            Option::Some(d) => self.spec_description() + ": "@ + d,
        }
    }

    /// Renders the error as one line of text.
    pub fn message(&self) -> (r: String)
        ensures
            r@ == self.spec_message(),
    {
        match &self.detail {
            Option::None => self.description.to_owned(),
            Option::Some(d) => {
                let mut m = self.description.to_owned();
                m.append(": ");
                m.append(d.as_str());
                m
            },
        }
    }
}

impl PartialEq for ParseError {
    /// Two errors are equal when their kinds are: detail is informational.
    fn eq(&self, other: &ParseError) -> (r: bool) {
        self.kind == other.kind
    }
}

impl vstd::std_specs::cmp::PartialEqSpecImpl for ParseError {
    open spec fn obeys_eq_spec() -> bool {
        true
    }

    open spec fn eq_spec(&self, other: &ParseError) -> bool {
        self.spec_kind() == other.spec_kind()
    }
}

} // verus!
