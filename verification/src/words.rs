//! Terminal matchers: the closed set of patterns that a grammar's terminals
//! are made of, and the state they match against.

use vstd::prelude::*;
use vstd::slice::slice_index_get;
use vstd::std_specs::convert::FromSpec;
use vstd::string::StringExecFns;
use vstd::string::StringSliceAdditionalSpecFns;
use vstd::utf8::encode_utf8;

use crate::utils::Range;
use crate::utils::Span;

verus! {

/// Appends one character to a string.
///
/// Stands for `String::push`, of which it claims what the standard library
/// documents: the string afterwards is the string before followed by `c`.
#[verifier::external_body]
fn push_char(s: &mut String, c: char)
    ensures
        final(s)@ == old(s)@.push(c),
{
    s.push(c)
}

/// A text of items of any kind, of which stretches can be taken.
pub trait Lexical<T> {
    /// The items of the text.
    spec fn items(&self) -> Seq<T>;

    /// The number of items.
    fn len(&self) -> (n: usize)
        ensures
            n == self.items().len(),
    ;

    /// The span of the whole text.
    fn span(&self) -> (span: Span)
        ensures
            span.start == 0,
            span.end == self.items().len(),
    {
        Span { start: 0, end: self.len() }
    }

    /// The items that `span` covers.
    fn slice(&self, span: Span) -> (part: &[T])
        requires
            span.start <= span.end <= self.items().len(),
        ensures
            part@ == self.items().subrange(span.start as int, span.end as int),
    ;
}

impl<T> Lexical<T> for Vec<T> {
    open spec fn items(&self) -> Seq<T> {
        self@
    }

    fn len(&self) -> (n: usize) {
        Vec::len(self)
    }

    fn slice(&self, span: Span) -> (part: &[T]) {
        vstd::slice::slice_subrange(self.as_slice(), span.start, span.end)
    }
}

/// An input text and a byte position in it.
pub struct State<'a> {
    input: &'a str,
    position: usize,
}

impl<'a> State<'a> {
    /// The bytes of the input text.
    pub closed spec fn bytes(&self) -> Seq<u8> {
        self.input.spec_bytes()
    }

    /// The current position, as a byte offset.
    pub closed spec fn pos(&self) -> int {
        self.position as int
    }

    /// A state at the start of `input`.
    pub fn new(input: &'a str) -> (state: State<'a>)
        ensures
            state.bytes() == input.spec_bytes(),
            state.pos() == 0,
    {
        State { input, position: 0 }
    }

    /// A state at byte offset `position` of `input`.
    pub fn at(input: &'a str, position: usize) -> (state: State<'a>)
        ensures
            state.bytes() == input.spec_bytes(),
            state.pos() == position,
    {
        State { input, position }
    }

    pub fn position(&self) -> (p: usize)
        ensures
            p == self.pos(),
    {
        self.position
    }

    pub fn input(&self) -> (s: &'a str)
        ensures
            s.spec_bytes() == self.bytes(),
    {
        self.input
    }
}

/// Whether `token` stands in `input` at offset `pos`.
pub open spec fn token_at(input: Seq<u8>, pos: int, token: Seq<u8>) -> bool {
    &&& 0 <= pos
    &&& pos + token.len() <= input.len()
    &&& input.subrange(pos, pos + token.len()) == token
}

/// A terminal matcher.
#[derive(Debug)]
pub enum Pattern {
    /// A literal text.
    Literal(String),
    /// A single character.
    Char(char),
    /// The start of the input.
    StartOfInput,
    /// The end of the input.
    EndOfInput,
    /// The first pattern or, where it fails, the second.
    Alternative(Box<Pattern>, Box<Pattern>),
    /// The first pattern and then the second.
    Sequence(Box<Pattern>, Box<Pattern>),
    /// A pattern repeated greedily, a number of times within a range.
    Repeat(Box<Pattern>, Range),
}

/// What a pattern is, with its literal text as a sequence of characters.
pub enum PatternView {
    Literal(Seq<char>),
    Char(char),
    StartOfInput,
    EndOfInput,
    Alternative(Box<PatternView>, Box<PatternView>),
    Sequence(Box<PatternView>, Box<PatternView>),
    Repeat(Box<PatternView>, Range),
}

impl View for Pattern {
    type V = PatternView;

    open spec fn view(&self) -> PatternView
        decreases self,
    {
        match *self {
            Pattern::Literal(s) => PatternView::Literal(s@),
            Pattern::Char(c) => PatternView::Char(c),
            Pattern::StartOfInput => PatternView::StartOfInput,
            Pattern::EndOfInput => PatternView::EndOfInput,
            Pattern::Alternative(a, b) => PatternView::Alternative(
                Box::new((*a).view()),
                Box::new((*b).view()),
            ),
            Pattern::Sequence(a, b) => PatternView::Sequence(
                Box::new((*a).view()),
                Box::new((*b).view()),
            ),
            Pattern::Repeat(x, range) => PatternView::Repeat(Box::new((*x).view()), range),
        }
    }
}

impl PatternView {
    /// The bytes that a literal or a character stands for.
    pub open spec fn token(self) -> Seq<u8> {
        match self {
            PatternView::Literal(s) => encode_utf8(s),
            PatternView::Char(c) => encode_utf8(seq![c]),
            _ => Seq::empty(),
        }
    }

    /// Whether the pattern accepts the empty text. A repetition does so where
    /// its range holds a count at all, and either holds zero or repeats a
    /// pattern that accepts the empty text.
    pub open spec fn nullable(self) -> bool
        decreases self,
    {
        match self {
            PatternView::Literal(s) => s.len() == 0,
            PatternView::Char(_) => false,
            PatternView::StartOfInput => true,
            PatternView::EndOfInput => true,
            PatternView::Alternative(a, b) => a.nullable() || b.nullable(),
            PatternView::Sequence(a, b) => a.nullable() && b.nullable(),
            PatternView::Repeat(x, range) => range.spec_min() <= range.spec_max() && (range.start
                == 0 || x.nullable()),
        }
    }

    /// What one attempt to match does from offset `pos` of `input`: whether
    /// it succeeds, and the offset it leaves. A failed attempt may leave an
    /// offset past `pos`: a sequence whose first part matched stays behind
    /// that part.
    pub open spec fn run(self, input: Seq<u8>, pos: int) -> (bool, int)
        decreases self, 0int,
    {
        match self {
            PatternView::Literal(_) => if token_at(input, pos, self.token()) {
                (true, pos + self.token().len())
            } else {
                (false, pos)
            },
            PatternView::Char(_) => if token_at(input, pos, self.token()) {
                (true, pos + self.token().len())
            } else {
                (false, pos)
            },
            PatternView::StartOfInput => (pos == 0, pos),
            PatternView::EndOfInput => (pos >= input.len(), pos),
            PatternView::Alternative(a, b) => {
                let first = a.run(input, pos);
                if first.0 {
                    first
                } else {
                    b.run(input, pos)
                }
            },
            PatternView::Sequence(a, b) => {
                let first = a.run(input, pos);
                if first.0 {
                    b.run(input, first.1)
                } else {
                    first
                }
            },
            PatternView::Repeat(x, range) => {
                let (end, count) = Self::repeat_run(*x, input, pos, 0, range.spec_max());
                if count >= range.spec_min() {
                    (true, end)
                } else {
                    (false, pos)
                }
            },
        }
    }

    /// The greedy loop of a repetition: `count` attempts have succeeded and
    /// left offset `pos`; attempts go on until one fails or `max` is reached.
    /// The result is the offset left and the number of attempts that
    /// succeeded.
    pub open spec fn repeat_run(x: PatternView, input: Seq<u8>, pos: int, count: int, max: int) -> (
        int,
        int,
    )
        decreases x, 1 + max - count,
    {
        if count < max {
            let attempt = x.run(input, pos);
            if attempt.0 {
                Self::repeat_run(x, input, attempt.1, count + 1, max)
            } else {
                (attempt.1, count)
            }
        } else {
            (pos, count)
        }
    }

    /// How the pattern is shown in diagnostics.
    pub open spec fn display_spec(self) -> Seq<char> {
        match self {
            PatternView::Literal(s) => seq!['"'] + s + seq!['"'],
            PatternView::Char(c) => seq!['\'', c, '\''],
            PatternView::StartOfInput => "SOF"@,
            PatternView::EndOfInput => "EOF"@,
            _ => "<terminal>"@,
        }
    }
}

/// Whether `token` stands in `input` at offset `pos`.
fn bytes_at(input: &[u8], pos: usize, token: &[u8]) -> (found: bool)
    ensures
        found == token_at(input@, pos as int, token@),
        found ==> pos + token@.len() <= usize::MAX,
{
    let n = token.len();
    let total = input.len();
    if pos > total || n > total - pos {
        return false;
    }
    let mut i: usize = 0;
    while i < n
        invariant
            i <= n,
            n == token@.len(),
            total == input@.len(),
            pos + n <= total,
            forall|k: int| 0 <= k < i ==> input@[pos + k] == token@[k],
        decreases n - i,
    {
        if *slice_index_get(input, pos + i) != *slice_index_get(token, i) {
            proof {
                let part = input@.subrange(pos as int, pos + n);
                assert(part[i as int] == input@[pos + i]);
            }
            return false;
        }
        i = i + 1;
    }
    proof {
        assert(input@.subrange(pos as int, pos + n) =~= token@);
    }
    true
}

impl Pattern {
    /// A copy of the pattern.
    pub fn duplicate(&self) -> (copy: Pattern)
        ensures
            copy@ == self@,
        decreases *self,
    {
        match self {
            Pattern::Literal(s) => Pattern::Literal(s.clone()),
            Pattern::Char(c) => Pattern::Char(*c),
            Pattern::StartOfInput => Pattern::StartOfInput,
            Pattern::EndOfInput => Pattern::EndOfInput,
            Pattern::Alternative(a, b) => Pattern::Alternative(
                Box::new(a.duplicate()),
                Box::new(b.duplicate()),
            ),
            Pattern::Sequence(a, b) => Pattern::Sequence(
                Box::new(a.duplicate()),
                Box::new(b.duplicate()),
            ),
            Pattern::Repeat(x, range) => Pattern::Repeat(Box::new(x.duplicate()), *range),
        }
    }

    /// Whether the pattern accepts the empty text.
    pub fn is_nullable(&self) -> (b: bool)
        ensures
            b == self@.nullable(),
        decreases *self,
    {
        match self {
            Pattern::Literal(s) => s.as_str().is_empty(),
            Pattern::Char(_) => false,
            Pattern::StartOfInput => true,
            Pattern::EndOfInput => true,
            Pattern::Alternative(a, b) => a.is_nullable() || b.is_nullable(),
            Pattern::Sequence(a, b) => a.is_nullable() && b.is_nullable(),
            Pattern::Repeat(x, range) => range.min() <= range.max() && (range.min() == 0
                || x.is_nullable()),
        }
    }

    /// Whether a match must consume input.
    pub fn is_consuming(&self) -> (b: bool)
        ensures
            b == !self@.nullable(),
    {
        !self.is_nullable()
    }

    /// Tries the pattern at the state's position and moves the position as
    /// `run` says.
    pub fn matches(&self, state: &mut State) -> (ok: bool)
        ensures
            final(state).bytes() == old(state).bytes(),
            (ok, final(state).pos()) == self@.run(old(state).bytes(), old(state).pos()),
        decreases *self, 0int,
    {
        match self {
            Pattern::Literal(s) => {
                let token = s.as_str().as_bytes();
                if bytes_at(state.input.as_bytes(), state.position, token) {
                    state.position = state.position + token.len();
                    true
                } else {
                    false
                }
            },
            Pattern::Char(c) => {
                let mut text = String::new();
                push_char(&mut text, *c);
                assert(text@ =~= seq![*c]);
                let token = text.as_str().as_bytes();
                if bytes_at(state.input.as_bytes(), state.position, token) {
                    state.position = state.position + token.len();
                    true
                } else {
                    false
                }
            },
            Pattern::StartOfInput => state.position == 0,
            Pattern::EndOfInput => state.position >= state.input.as_bytes().len(),
            Pattern::Alternative(a, b) => {
                let original_position = state.position;
                if a.matches(state) {
                    true
                } else {
                    state.position = original_position;
                    b.matches(state)
                }
            },
            Pattern::Sequence(a, b) => a.matches(state) && b.matches(state),
            Pattern::Repeat(x, range) => {
                let original_position = state.position;
                let count = Self::repeat_matches(x, state, range.max());
                if count >= range.min() {
                    true
                } else {
                    state.position = original_position;
                    false
                }
            },
        }
    }

    /// The greedy loop of a repetition: tries `x` until an attempt fails or
    /// `max` attempts have succeeded, and returns how many did.
    fn repeat_matches(x: &Pattern, state: &mut State, max: usize) -> (count: usize)
        ensures
            final(state).bytes() == old(state).bytes(),
            (final(state).pos(), count as int) == PatternView::repeat_run(
                x@,
                old(state).bytes(),
                old(state).pos(),
                0,
                max as int,
            ),
        decreases *x, 1int,
    {
        let mut count: usize = 0;
        let mut going = true;
        while going && count < max
            invariant
                count <= max,
                state.bytes() == old(state).bytes(),
                going ==> PatternView::repeat_run(x@, state.bytes(), state.pos(), count as int, max as int)
                    == PatternView::repeat_run(x@, old(state).bytes(), old(state).pos(), 0, max as int),
                !going ==> (state.pos(), count as int) == PatternView::repeat_run(
                    x@,
                    old(state).bytes(),
                    old(state).pos(),
                    0,
                    max as int,
                ),
            decreases max - count + (if going { 1int } else { 0int }),
        {
            if x.matches(state) {
                count = count + 1;
            } else {
                going = false;
            }
        }
        count
    }

    /// How the pattern is shown in diagnostics.
    pub fn display(&self) -> (text: String)
        ensures
            text@ == self@.display_spec(),
    {
        match self {
            Pattern::Literal(s) => {
                let mut text = String::new();
                push_char(&mut text, '"');
                text.append(s.as_str());
                push_char(&mut text, '"');
                text
            },
            Pattern::Char(c) => {
                let mut text = String::new();
                push_char(&mut text, '\'');
                push_char(&mut text, *c);
                push_char(&mut text, '\'');
                assert(text@ =~= seq!['\'', *c, '\'']);
                text
            },
            Pattern::StartOfInput => String::from_str("SOF"),
            Pattern::EndOfInput => String::from_str("EOF"),
            _ => String::from_str("<terminal>"),
        }
    }
}

/// The end of the input.
#[derive(Debug, Clone)]
pub struct EndOfInput;

/// The start of the input.
#[derive(Debug, Clone)]
pub struct StartOfInput;

/// The first matcher or, where it fails, the second.
#[derive(Debug, Clone)]
pub struct Alternative<T, U>(pub T, pub U);

/// The first matcher and then the second.
#[derive(Debug, Clone)]
pub struct Sequence<T, U>(pub T, pub U);

/// A matcher repeated greedily, a number of times within a range.
#[derive(Debug, Clone)]
pub struct Repeat<T>(pub T, pub Range);

/// What can stand as a terminal of a grammar: a value that denotes a pattern.
pub trait Matcher: Sized {
    /// The pattern that the matcher denotes.
    spec fn pattern(&self) -> PatternView;

    /// The pattern that the matcher denotes, as a value.
    fn to_pattern(&self) -> (p: Pattern)
        ensures
            p@ == self.pattern(),
    ;

    /// Tries the matcher at the state's position.
    fn matches(&self, state: &mut State) -> (ok: bool)
        ensures
            final(state).bytes() == old(state).bytes(),
            (ok, final(state).pos()) == self.pattern().run(old(state).bytes(), old(state).pos()),
    {
        let p = self.to_pattern();
        p.matches(state)
    }

    /// How the matcher is shown in diagnostics.
    fn display(&self) -> (text: String)
        ensures
            text@ == self.pattern().display_spec(),
    {
        let p = self.to_pattern();
        p.display()
    }

    /// Whether the matcher accepts the empty text.
    fn is_nullable(&self) -> (b: bool)
        ensures
            b == self.pattern().nullable(),
    {
        let p = self.to_pattern();
        p.is_nullable()
    }

    /// Whether a match must consume input.
    fn is_consuming(&self) -> (b: bool)
        ensures
            b == !self.pattern().nullable(),
    {
        !self.is_nullable()
    }
}

/// The combinators that join two matchers.
pub trait Combine: Matcher {
    /// This matcher and then `other`.
    fn and_then<U: Matcher>(self, other: U) -> (m: Sequence<Self, U>)
        ensures
            m.0 == self,
            m.1 == other,
    ;

    /// This matcher or, where it fails, `other`.
    fn or<U: Matcher>(self, other: U) -> (m: Alternative<Self, U>)
        ensures
            m.0 == self,
            m.1 == other,
    ;

    /// This matcher repeated a number of times within `range`.
    fn times<R>(self, range: R) -> (m: Repeat<Self>) where Range: From<R>
        ensures
            m.0 == self,
            <Range as FromSpec<R>>::obeys_from_spec() ==> m.1 == <Range as FromSpec<R>>::from_spec(
                range,
            ),
    ;
}

impl<T: Matcher> Combine for T {
    fn and_then<U: Matcher>(self, other: U) -> (m: Sequence<Self, U>) {
        Sequence(self, other)
    }

    fn or<U: Matcher>(self, other: U) -> (m: Alternative<Self, U>) {
        Alternative(self, other)
    }

    fn times<R>(self, range: R) -> (m: Repeat<Self>) where Range: From<R> {
        Repeat(self, Range::from(range))
    }
}

impl<'a> Matcher for &'a str {
    open spec fn pattern(&self) -> PatternView {
        PatternView::Literal((*self)@)
    }

    fn to_pattern(&self) -> (p: Pattern) {
        Pattern::Literal(String::from_str(*self))
    }
}

/// The pattern of a single character.
fn char_pattern(c: char) -> (p: Pattern)
    ensures
        p@ == PatternView::Char(c),
{
    Pattern::Char(c)
}

impl Matcher for char {
    open spec fn pattern(&self) -> PatternView {
        PatternView::Char(*self)
    }

    fn to_pattern(&self) -> (p: Pattern) {
        char_pattern(*self)
    }
}

impl Matcher for EndOfInput {
    open spec fn pattern(&self) -> PatternView {
        PatternView::EndOfInput
    }

    fn to_pattern(&self) -> (p: Pattern) {
        Pattern::EndOfInput
    }
}

impl Matcher for StartOfInput {
    open spec fn pattern(&self) -> PatternView {
        PatternView::StartOfInput
    }

    fn to_pattern(&self) -> (p: Pattern) {
        Pattern::StartOfInput
    }
}

impl<T: Matcher, U: Matcher> Matcher for Alternative<T, U> {
    open spec fn pattern(&self) -> PatternView {
        PatternView::Alternative(Box::new(self.0.pattern()), Box::new(self.1.pattern()))
    }

    fn to_pattern(&self) -> (p: Pattern) {
        Pattern::Alternative(Box::new(self.0.to_pattern()), Box::new(self.1.to_pattern()))
    }
}

impl<T: Matcher, U: Matcher> Matcher for Sequence<T, U> {
    open spec fn pattern(&self) -> PatternView {
        PatternView::Sequence(Box::new(self.0.pattern()), Box::new(self.1.pattern()))
    }

    fn to_pattern(&self) -> (p: Pattern) {
        Pattern::Sequence(Box::new(self.0.to_pattern()), Box::new(self.1.to_pattern()))
    }
}

impl<T: Matcher> Matcher for Repeat<T> {
    open spec fn pattern(&self) -> PatternView {
        PatternView::Repeat(Box::new(self.0.pattern()), self.1)
    }

    fn to_pattern(&self) -> (p: Pattern) {
        Pattern::Repeat(Box::new(self.0.to_pattern()), self.1)
    }
}

impl Matcher for Pattern {
    open spec fn pattern(&self) -> PatternView {
        self@
    }

    fn to_pattern(&self) -> (p: Pattern) {
        self.duplicate()
    }
}

/// A text has an empty encoding exactly when it is empty.
pub proof fn lemma_encoding_empty(chars: Seq<char>)
    ensures
        encode_utf8(chars).len() == 0 <==> chars.len() == 0,
{
    if chars.len() > 0 {
        assert(vstd::utf8::encode_scalar(chars[0] as u32).len() >= 1);
    }
}

/// An attempt never moves the position backwards, and from a position inside
/// the input it never leaves the input.
pub proof fn lemma_run_bounds(p: PatternView, input: Seq<u8>, pos: int)
    ensures
        p.run(input, pos).1 >= pos,
        0 <= pos <= input.len() ==> p.run(input, pos).1 <= input.len(),
    decreases p, 0int,
{
    match p {
        PatternView::Alternative(a, b) => {
            lemma_run_bounds(*a, input, pos);
            lemma_run_bounds(*b, input, pos);
        },
        PatternView::Sequence(a, b) => {
            lemma_run_bounds(*a, input, pos);
            lemma_run_bounds(*b, input, a.run(input, pos).1);
        },
        PatternView::Repeat(x, range) => {
            lemma_repeat_bounds(*x, input, pos, 0, range.spec_max());
        },
        _ => {},
    }
}

/// The greedy loop never moves the position backwards, never leaves the
/// input, and never counts past `max`.
pub proof fn lemma_repeat_bounds(x: PatternView, input: Seq<u8>, pos: int, count: int, max: int)
    requires
        count <= max,
    ensures
        PatternView::repeat_run(x, input, pos, count, max).0 >= pos,
        0 <= pos <= input.len() ==> PatternView::repeat_run(x, input, pos, count, max).0 <= input.len(),
        count <= PatternView::repeat_run(x, input, pos, count, max).1 <= max,
    decreases x, 1 + max - count,
{
    if count < max {
        lemma_run_bounds(x, input, pos);
        let attempt = x.run(input, pos);
        if attempt.0 {
            lemma_repeat_bounds(x, input, attempt.1, count + 1, max);
        }
    }
}

/// Where the greedy loop ends at the position it began at and some attempt
/// succeeded, one attempt succeeded without consuming.
proof fn lemma_repeat_still(x: PatternView, input: Seq<u8>, pos: int, count: int, max: int)
    requires
        count <= max,
        PatternView::repeat_run(x, input, pos, count, max).0 == pos,
        PatternView::repeat_run(x, input, pos, count, max).1 > count,
    ensures
        x.run(input, pos) == (true, pos),
    decreases max - count,
{
    lemma_run_bounds(x, input, pos);
    let attempt = x.run(input, pos);
    lemma_repeat_bounds(x, input, attempt.1, count + 1, max);
}

/// A pattern that succeeds somewhere without consuming is nullable.
pub proof fn lemma_still_match_nullable(p: PatternView, input: Seq<u8>, pos: int)
    requires
        p.run(input, pos) == (true, pos),
    ensures
        p.nullable(),
    decreases p,
{
    match p {
        PatternView::Literal(s) => {
            lemma_encoding_empty(s);
        },
        PatternView::Char(c) => {
            lemma_encoding_empty(seq![c]);
        },
        PatternView::Alternative(a, b) => {
            if a.run(input, pos).0 {
                lemma_still_match_nullable(*a, input, pos);
            } else {
                lemma_still_match_nullable(*b, input, pos);
            }
        },
        PatternView::Sequence(a, b) => {
            let mid = a.run(input, pos).1;
            lemma_run_bounds(*a, input, pos);
            lemma_run_bounds(*b, input, mid);
            lemma_still_match_nullable(*a, input, pos);
            lemma_still_match_nullable(*b, input, pos);
        },
        PatternView::Repeat(x, range) => {
            lemma_repeat_bounds(*x, input, pos, 0, range.spec_max());
            if range.start != 0 {
                lemma_repeat_still(*x, input, pos, 0, range.spec_max());
                lemma_still_match_nullable(*x, input, pos);
            }
        },
        _ => {},
    }
}

/// On the empty text, the greedy loop of a pattern that matches the empty
/// text runs to `max`.
proof fn lemma_repeat_empty(x: PatternView, count: int, max: int)
    requires
        count <= max,
        x.run(Seq::empty(), 0) == (true, 0int),
    ensures
        PatternView::repeat_run(x, Seq::empty(), 0, count, max) == (0int, max),
    decreases max - count,
{
    if count < max {
        lemma_repeat_empty(x, count + 1, max);
    }
}

/// A nullable pattern matches the empty text.
pub proof fn lemma_nullable_matches_empty(p: PatternView)
    requires
        p.nullable(),
    ensures
        p.run(Seq::empty(), 0) == (true, 0int),
    decreases p,
{
    let input = Seq::<u8>::empty();
    match p {
        PatternView::Literal(s) => {
            lemma_encoding_empty(s);
            assert(input.subrange(0, 0) =~= p.token());
        },
        PatternView::Alternative(a, b) => {
            lemma_run_bounds(*a, input, 0);
            lemma_run_bounds(*b, input, 0);
            if a.nullable() {
                lemma_nullable_matches_empty(*a);
            } else {
                lemma_nullable_matches_empty(*b);
            }
        },
        PatternView::Sequence(a, b) => {
            lemma_nullable_matches_empty(*a);
            lemma_nullable_matches_empty(*b);
        },
        PatternView::Repeat(x, range) => {
            lemma_repeat_bounds(*x, input, 0, 0, range.spec_max());
            if range.start != 0 {
                lemma_nullable_matches_empty(*x);
                lemma_repeat_empty(*x, 0, range.spec_max());
            }
        },
        _ => {},
    }
}

/// A pattern is nullable exactly when a match can succeed without
/// consuming: a nullable one does so on the empty text, and one that is not
/// nullable does so from no position of any input.
pub proof fn lemma_nullable_iff_still_match(p: PatternView)
    ensures
        p.nullable() <==> p.run(Seq::empty(), 0) == (true, 0int),
        p.nullable() <==> exists|input: Seq<u8>, pos: int|
            0 <= pos <= input.len() && #[trigger] p.run(input, pos) == (true, pos),
        !p.nullable() ==> forall|input: Seq<u8>, pos: int| #[trigger]
            p.run(input, pos) != (true, pos),
{
    if p.nullable() {
        lemma_nullable_matches_empty(p);
        assert(0 <= 0 <= Seq::<u8>::empty().len() && p.run(Seq::empty(), 0) == (true, 0int));
    } else {
        assert forall|input: Seq<u8>, pos: int| #[trigger] p.run(input, pos) != (true, pos) by {
            if p.run(input, pos) == (true, pos) {
                lemma_still_match_nullable(p, input, pos);
            }
        }
    }
}

} // verus!
