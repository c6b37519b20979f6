//! What the lexer complains about, and where.

use std::sync::Arc;

use codemap::CodeMap;
use codemap::Span;
use gazebo::dupe::Dupe;
use vstd::prelude::*;

verus! {

/// The range of bytes of one source text, as positions in the code map that holds it.
#[verifier::external_type_specification]
#[verifier::external_body]
pub struct ExSpan(codemap::Span);

/// The table of all source texts.
#[verifier::external_type_specification]
#[verifier::external_body]
pub struct ExCodeMap(codemap::CodeMap);

/// The position at which `span` starts. It says where one span lies relative to another.
pub uninterp spec fn span_low(span: Span) -> nat;

/// What [`Span::len`] returns of `span`: the number of bytes that it covers.
pub uninterp spec fn span_len(span: Span) -> nat;

/// [`Span::len`] is the number of bytes of the span.
pub assume_specification[ Span::len ](span: &Span) -> (n: u64)
    ensures
        n == span_len(*span),
;

/// [`Span::subspan`] covers the bytes `begin..end` of the span, counted from its start. It panics
/// where `begin` is after `end`, and where `end` is beyond the span.
pub assume_specification[ Span::subspan ](span: &Span, begin: u64, end: u64) -> (r: Span)
    requires
        begin <= end,
        end <= span_len(*span),
    ensures
        span_low(r) == span_low(*span) + begin,
        span_len(r) == end - begin,
;

/// [`Dupe::dupe`] of an `Arc` is another handle on the same code map.
#[verifier::external_body]
pub(crate) fn dupe_codemap(codemap: &Arc<CodeMap>) -> (r: Arc<CodeMap>)
    ensures
        r == *codemap,
{
    codemap.dupe()
}

/// What can be wrong with a piece of source text.
#[derive(Debug, Clone, Copy, PartialEq, Eq, Structural)]
pub enum LexemeError {
    Indentation,
    InvalidCharacter,
    InvalidTab,
    UnfinishedStringLiteral,
    InvalidEscapeSequence,
}

impl LexemeError {
    /// The text of the message.
    pub open spec fn text(self) -> Seq<char> {
        match self {
            LexemeError::Indentation => "Parse error: incorrect indentation"@,
            LexemeError::InvalidCharacter =>
                "Parse error: Character not valid at present location"@,
            LexemeError::InvalidTab => "Parse error: tabs are not allowed in the dialect"@,
            LexemeError::UnfinishedStringLiteral => "Parse error: unfinished string literal"@,
            LexemeError::InvalidEscapeSequence => "Parse error: invalid string escape sequence"@,
        }
    }

    /// The message.
    pub fn to_string(&self) -> (s: String)
        ensures
            s@ == self.text(),
    {
        match self {
            LexemeError::Indentation => "Parse error: incorrect indentation".to_owned(),
            LexemeError::InvalidCharacter =>
                "Parse error: Character not valid at present location".to_owned(),
            LexemeError::InvalidTab =>
                "Parse error: tabs are not allowed in the dialect".to_owned(),
            LexemeError::UnfinishedStringLiteral =>
                "Parse error: unfinished string literal".to_owned(),
            LexemeError::InvalidEscapeSequence =>
                "Parse error: invalid string escape sequence".to_owned(),
        }
    }
}

/// A complaint with the piece of source text that it is about.
pub struct Diagnostic {
    pub message: LexemeError,
    pub span: Span,
    pub codemap: Arc<CodeMap>,
}

impl Diagnostic {
    /// Puts a message together with its place.
    pub fn add_span(message: LexemeError, span: Span, codemap: Arc<CodeMap>) -> (d: Diagnostic)
        ensures
            d == (Diagnostic { message, span, codemap }),
    {
        Diagnostic { message, span, codemap }
    }
}

} // verus!
