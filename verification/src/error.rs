//! The two-level error model: recoverable and fatal failures, each with
//! an error kind, a source position and a context trail.

use vstd::prelude::*;

verus! {

/// What went wrong. The kinds follow the grammar's failure modes.
#[derive(Clone, Copy, Debug, PartialEq, Eq, Structural)]
pub enum ErrorKind {
    /// An expected keyword or numeric literal is absent at the current
    /// position. Recoverable: an enclosing choice that has not yet
    /// committed may still try an alternative.
    LiteralMismatch,
    /// A missing closing bracket, brace or quote, a missing separator,
    /// or a disallowed trailing comma. Fatal.
    StructuralViolation,
    /// An unrecognized escape designator or a malformed `\uXXXX`
    /// escape (non-hex digits, or input ending inside the escape). Fatal.
    InvalidEscape,
    /// Surrogate arithmetic yields no valid scalar value: a lone high
    /// surrogate, or a low surrogate where a high surrogate or a direct
    /// value was expected. Fatal.
    InvalidCodepoint,
    /// The value dispatcher's lookahead character starts none of the six
    /// productions. Fatal.
    UnexpectedCharacter,
    /// A structurally valid value was parsed, but non-whitespace input
    /// remains after it.
    TrailingInput,
    /// The configured nesting limit was exceeded. Fatal.
    DepthExceeded,
}

/// The name of a grammar production, as recorded in a context trail.
#[derive(Clone, Copy, Debug, PartialEq, Eq, Structural)]
pub enum Rule {
    StringLit,
    Array,
    Object,
}

impl Rule {
    /// The rule's name as it appears in diagnostics.
    pub open spec fn spec_name(self) -> Seq<char> {
        match self {
            Rule::StringLit => "string"@,
            Rule::Array => "array"@,
            Rule::Object => "map"@,
        }
    }

    /// Returns the rule's diagnostic name.
    pub fn name(self) -> (r: &'static str)
        ensures
            r@ == self.spec_name(),
    {
        match self {
            Rule::StringLit => "string",
            Rule::Array => "array",
            Rule::Object => "map",
        }
    }
}

/// The mathematical form of a parse error: kind, position (a character
/// index into the input, or the input length for end-of-input faults),
/// whether the failure is fatal, and the trail of enclosing grammar
/// rules, innermost first.
pub struct SpecError {
    pub kind: ErrorKind,
    pub pos: int,
    pub fatal: bool,
    pub trail: Seq<Rule>,
}

/// A parse failure: its kind, the character index at which it was
/// detected, whether it is fatal (no enclosing alternative may retry),
/// and the context trail of enclosing grammar rules, innermost first.
#[derive(Debug, PartialEq, Eq)]
pub struct ParseError {
    pub kind: ErrorKind,
    pub pos: usize,
    pub fatal: bool,
    pub trail: Vec<Rule>,
}

impl View for ParseError {
    type V = SpecError;

    open spec fn view(&self) -> SpecError {
        SpecError { kind: self.kind, pos: self.pos as int, fatal: self.fatal, trail: self.trail@ }
    }
}

impl ParseError {
    /// Builds a fresh error with an empty context trail.
    pub fn new(kind: ErrorKind, pos: usize, fatal: bool) -> (r: ParseError)
        ensures
            r@ == (SpecError { kind, pos: pos as int, fatal, trail: Seq::<Rule>::empty() }),
    {
        let r = ParseError { kind, pos, fatal, trail: Vec::new() };
        proof {
            assert(r@.trail =~= Seq::<Rule>::empty());
        }
        r
    }

    /// Records that the failure escaped the given enclosing production,
    /// which had already passed its commitment point: the production's
    /// rule is appended to the trail and the failure becomes fatal.
    pub fn committed_in(self, rule: Rule) -> (r: ParseError)
        ensures
            r@ == crate::error::spec_committed_in(self@, rule),
    {
        let mut e = self;
        e.fatal = true;
        e.trail.push(rule);
        e
    }
}

/// The mathematical form of [`ParseError::committed_in`]: promote a
/// failure to fatal and append the enclosing rule to its trail.
pub open spec fn spec_committed_in(e: SpecError, rule: Rule) -> SpecError {
    SpecError { kind: e.kind, pos: e.pos, fatal: true, trail: e.trail.push(rule) }
}

} // verus!
