//! Edits of a text, and the state that a parser of edits keeps.

use std::sync::mpsc::RecvError;
use std::sync::Arc;

use vstd::prelude::*;
use vstd::string::StringSliceAdditionalSpecFns;
use vstd::utf8::encode_utf8;
use vstd::utf8::is_char_boundary;

use crate::grammar::Grammar;
use crate::grammar::GrammarErrorView;
use crate::tree::placeholder;
use crate::tree::GreenView;
use crate::tree::RedNode;
use crate::tree::TreeAlloc;
use crate::utils::Span;

verus! {

/// `std::sync::mpsc::RecvError`: what a receiver gives once its channel is
/// closed.
#[verifier::external_type_specification]
#[verifier::external_body]
pub struct ExRecvError(RecvError);

/// `RecvError::clone`: a copy of the error, which holds nothing.
pub assume_specification[ <RecvError as Clone>::clone ](error: &RecvError) -> (copy: RecvError)
;

/// A change of the text.
#[derive(Debug, Clone, PartialEq, Eq)]
pub enum Edit {
    Update { span: Span, new_text: String },
    Insert { position: usize, new_text: String },
    Delete { span: Span },
}

/// Why an edit was not taken.
#[derive(Debug, Clone)]
#[allow(inconsistent_fields)]
pub enum ParserError {
    /// The channel of edits is closed.
    LostConnection(RecvError),
    /// The span of the edit ends behind the text, which covers `actual`.
    SpanOutOfBounds { expected: Span, actual: Span },
    /// The position of the edit lies behind the text, which covers
    /// `expected`.
    PositionOutOfBounds { expected: Span, actual: usize },
}

/// What parsing gave.
pub enum ParserResult {
    Complete(Arc<RedNode>),
    Incomplete(ParserError),
}

/// Replaces the bytes from `start` up to `end` of `text` by `with`.
///
/// Stands for `String::replace_range`, which the standard library documents
/// to remove the range and put the given text in its place, and to panic
/// where the range is reversed or an end of it does not lie on a character
/// boundary; the `requires` leaves those out.
#[verifier::external_body]
fn replace_range(text: &mut String, start: usize, end: usize, with: &str)
    requires
        start <= end,
        is_char_boundary(encode_utf8(old(text)@), start as int),
        is_char_boundary(encode_utf8(old(text)@), end as int),
    ensures
        encode_utf8(final(text)@) == replaced(
            encode_utf8(old(text)@),
            start as int,
            end as int,
            encode_utf8(with@),
        ),
{
    text.replace_range(start..end, with)
}

/// The bytes of a text with those from `start` up to `end` replaced by
/// `with`.
pub open spec fn replaced(bytes: Seq<u8>, start: int, end: int, with: Seq<u8>) -> Seq<u8> {
    bytes.subrange(0, start) + with + bytes.subrange(end, bytes.len() as int)
}

/// Whether `span` is a stretch of the text with the given bytes: it is not
/// reversed, ends inside the text, and cuts no character.
pub open spec fn lies_in(span: Span, bytes: Seq<u8>) -> bool {
    &&& span.start <= span.end <= bytes.len()
    &&& is_char_boundary(bytes, span.start as int)
    &&& is_char_boundary(bytes, span.end as int)
}

/// What a text of the given bytes covers.
pub open spec fn whole(bytes: Seq<u8>) -> Span {
    Span { start: 0, end: bytes.len() as usize }
}

/// Whether `span` is a stretch of `text`; where it is not, the error tells
/// the span and what the text covers.
pub fn is_valid_span(span: Span, text: &str) -> (out: Result<(), ParserError>)
    ensures
        out is Ok <==> lies_in(span, text.spec_bytes()),
        out matches Err(e) ==> e == (ParserError::SpanOutOfBounds {
            expected: span,
            actual: whole(text.spec_bytes()),
        }),
{
    let len = text.as_bytes().len();
    if span.start <= span.end && span.end <= len && text.is_char_boundary(span.start)
        && text.is_char_boundary(span.end) {
        Ok(())
    } else {
        Err(ParserError::SpanOutOfBounds { expected: span, actual: Span { start: 0, end: len } })
    }
}

/// Whether `position` is a place in `text` where text can be put: it lies
/// inside the text or at its end, and inside no character. Where it is not,
/// the error tells what the text covers and the position.
pub fn is_valid_position(position: usize, text: &str) -> (out: Result<(), ParserError>)
    ensures
        out is Ok <==> lies_in(Span { start: position, end: position }, text.spec_bytes()),
        out matches Err(e) ==> e == (ParserError::PositionOutOfBounds {
            expected: whole(text.spec_bytes()),
            actual: position,
        }),
{
    let len = text.as_bytes().len();
    if position <= len && text.is_char_boundary(position) {
        Ok(())
    } else {
        Err(
            ParserError::PositionOutOfBounds {
                expected: Span { start: 0, end: len },
                actual: position,
            },
        )
    }
}

impl Edit {
    /// The stretch of the text that the edit replaces: the span of an update
    /// or a deletion, and the empty span at the position of an insertion.
    pub open spec fn target(&self) -> Span {
        match *self {
            Edit::Update { span, new_text } => span,
            Edit::Insert { position, new_text } => Span { start: position, end: position },
            Edit::Delete { span } => span,
        }
    }

    /// The text that the edit puts in place of its target: nothing for a
    /// deletion.
    pub open spec fn inserted(&self) -> Seq<char> {
        match *self {
            Edit::Update { span, new_text } => new_text@,
            Edit::Insert { position, new_text } => new_text@,
            Edit::Delete { span } => Seq::empty(),
        }
    }

    /// Whether the edit applies to a text of the given bytes: its target is
    /// a stretch of the text.
    pub open spec fn applies(&self, bytes: Seq<u8>) -> bool {
        lies_in(self.target(), bytes)
    }

    /// The error that the edit gives on a text of the given bytes to which
    /// it does not apply.
    pub open spec fn refusal(&self, bytes: Seq<u8>) -> ParserError {
        match *self {
            Edit::Insert { position, new_text } => ParserError::PositionOutOfBounds {
                expected: whole(bytes),
                actual: position,
            },
            _ => ParserError::SpanOutOfBounds { expected: self.target(), actual: whole(bytes) },
        }
    }

    /// Checks the edit against `text` and gives the stretch of the text that
    /// it replaces.
    pub fn validate(&self, text: &str) -> (out: Result<Span, ParserError>)
        ensures
            out is Ok <==> self.applies(text.spec_bytes()),
            out matches Ok(span) ==> span == self.target(),
            out matches Err(e) ==> e == self.refusal(text.spec_bytes()),
    {
        match self {
            Edit::Update { span, new_text } => {
                match is_valid_span(*span, text) {
                    Ok(()) => Ok(*span),
                    Err(e) => Err(e),
                }
            },
            Edit::Insert { position, new_text } => {
                match is_valid_position(*position, text) {
                    Ok(()) => Ok(Span { start: *position, end: *position }),
                    Err(e) => Err(e),
                }
            },
            Edit::Delete { span } => {
                match is_valid_span(*span, text) {
                    Ok(()) => Ok(*span),
                    Err(e) => Err(e),
                }
            },
        }
    }

    /// Applies the edit to `text`: where the edit applies, its target is
    /// replaced by the text that it inserts; where it does not, the text
    /// stays as it is and the error tells why.
    pub fn apply(&self, text: &mut String) -> (out: Result<(), ParserError>)
        ensures
            out is Ok <==> self.applies(encode_utf8(old(text)@)),
            out is Ok ==> encode_utf8(final(text)@) == replaced(
                encode_utf8(old(text)@),
                self.target().start as int,
                self.target().end as int,
                encode_utf8(self.inserted()),
            ),
            out is Err ==> final(text)@ == old(text)@,
            out matches Err(e) ==> e == self.refusal(encode_utf8(old(text)@)),
    {
        let span = match self.validate(text.as_str()) {
            Ok(span) => span,
            Err(e) => {
                return Err(e);
            },
        };
        match self {
            Edit::Update { span: _, new_text } => {
                replace_range(text, span.start, span.end, new_text.as_str());
            },
            Edit::Insert { position: _, new_text } => {
                replace_range(text, span.start, span.end, new_text.as_str());
            },
            Edit::Delete { span: _ } => {
                proof {
                    reveal_strlit("");
                    assert(""@ =~= Seq::<char>::empty());
                }
                replace_range(text, span.start, span.end, "");
            },
        }
        Ok(())
    }
}

/// What a parser of edits keeps: the grammar, the arena of its tree, the root
/// of the tree, and the text.
pub struct ParserState {
    pub grammar: Grammar,
    pub arena: TreeAlloc,
    pub ast: RedNode,
    pub text: String,
}

impl ParserState {
    /// The state before any edit: the text is empty, and the tree is one
    /// placeholder of width zero, at offset zero.
    pub fn new(grammar: Grammar) -> (state: ParserState)
        ensures
            state.grammar == grammar,
            state.arena.wf(),
            state.arena.canonical(),
            state.arena.nodes() == seq![placeholder(0)],
            state.ast.parent is None,
            state.ast.offset == 0,
            state.ast.green == 0,
            state.text@ == Seq::<char>::empty(),
    {
        let mut arena = TreeAlloc::new();
        let placeholder_id = arena.new_placeholder(0);
        proof {
            assert(!Seq::<GreenView>::empty().contains(placeholder(0)));
            assert(arena.nodes() =~= seq![placeholder(0)]);
        }
        ParserState { grammar, arena, ast: RedNode::root(placeholder_id), text: String::new() }
    }

    /// The root of the tree.
    pub fn ast(&self) -> (root: &RedNode)
        ensures
            *root == self.ast,
    {
        &self.ast
    }
}

} // verus!
