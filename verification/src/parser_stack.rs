//! A stack of parsers: events are read from the parser pushed last, and
//! when it is done the one below it takes over.
use vstd::prelude::*;

use crate::event::{Event, ParseResult};
use crate::parser::{EventParser, SpannedEventReceiver};
use crate::scanner::{Marker, ScanError, Span};

verus! {

/// A parser on the stack, with the name it was pushed under.
pub enum AnyParser<S, B, C> {
    /// A parser over a string.
    String { parser: S, name: String },
    /// A parser over a character iterator.
    Iter { parser: B, name: String },
    /// A parser over a caller-provided input.
    Custom { parser: C, name: String },
}

/// The state of a parser on the stack, and its name.
pub enum ParserModel<SV, BV, CV> {
    String { state: SV, name: Seq<char> },
    Iter { state: BV, name: Seq<char> },
    Custom { state: CV, name: Seq<char> },
}

impl<S: View, B: View, C: View> View for AnyParser<S, B, C> {
    type V = ParserModel<S::V, B::V, C::V>;

    open spec fn view(&self) -> Self::V {
        match self {
            AnyParser::String { parser, name } => ParserModel::String {
                state: parser@,
                name: name@,
            },
            AnyParser::Iter { parser, name } => ParserModel::Iter { state: parser@, name: name@ },
            AnyParser::Custom { parser, name } => ParserModel::Custom {
                state: parser@,
                name: name@,
            },
        }
    }
}

impl<S: EventParser, B: EventParser, C: EventParser> AnyParser<S, B, C> {
    /// What the parser hands out next.
    pub open spec fn upcoming_of(p: ParserModel<S::V, B::V, C::V>) -> Option<ParseResult> {
        match p {
            ParserModel::String { state, .. } => S::upcoming(state),
            ParserModel::Iter { state, .. } => B::upcoming(state),
            ParserModel::Custom { state, .. } => C::upcoming(state),
        }
    }

    /// The parser after it handed out a result.
    pub open spec fn advanced_of(p: ParserModel<S::V, B::V, C::V>) -> ParserModel<
        S::V,
        B::V,
        C::V,
    > {
        match p {
            ParserModel::String { state, name } => ParserModel::String {
                state: S::advanced(state),
                name,
            },
            ParserModel::Iter { state, name } => ParserModel::Iter {
                state: B::advanced(state),
                name,
            },
            ParserModel::Custom { state, name } => ParserModel::Custom {
                state: C::advanced(state),
                name,
            },
        }
    }

    /// The parser after it was peeked at.
    pub open spec fn peeked_of(p: ParserModel<S::V, B::V, C::V>) -> ParserModel<
        S::V,
        B::V,
        C::V,
    > {
        match p {
            ParserModel::String { state, name } => ParserModel::String {
                state: S::peeked(state),
                name,
            },
            ParserModel::Iter { state, name } => ParserModel::Iter {
                state: B::peeked(state),
                name,
            },
            ParserModel::Custom { state, name } => ParserModel::Custom {
                state: C::peeked(state),
                name,
            },
        }
    }

    /// The parser's anchor counter.
    pub open spec fn offset_of(p: ParserModel<S::V, B::V, C::V>) -> usize {
        match p {
            ParserModel::String { state, .. } => S::anchor_offset(state),
            ParserModel::Iter { state, .. } => B::anchor_offset(state),
            ParserModel::Custom { state, .. } => C::anchor_offset(state),
        }
    }

    /// The parser with its anchor counter set to `offset`.
    pub open spec fn with_offset_of(p: ParserModel<S::V, B::V, C::V>, offset: usize) -> ParserModel<
        S::V,
        B::V,
        C::V,
    > {
        match p {
            ParserModel::String { state, name } => ParserModel::String {
                state: S::with_anchor_offset(state, offset),
                name,
            },
            ParserModel::Iter { state, name } => ParserModel::Iter {
                state: B::with_anchor_offset(state, offset),
                name,
            },
            ParserModel::Custom { state, name } => ParserModel::Custom {
                state: C::with_anchor_offset(state, offset),
                name,
            },
        }
    }

    /// A bound on the results the parser still hands out.
    pub open spec fn work_of(p: ParserModel<S::V, B::V, C::V>) -> nat {
        match p {
            ParserModel::String { state, .. } => S::work_left(state),
            ParserModel::Iter { state, .. } => B::work_left(state),
            ParserModel::Custom { state, .. } => C::work_left(state),
        }
    }

    /// The name the parser was pushed under.
    pub open spec fn name_of(p: ParserModel<S::V, B::V, C::V>) -> Seq<char> {
        match p {
            ParserModel::String { name, .. } => name,
            ParserModel::Iter { name, .. } => name,
            ParserModel::Custom { name, .. } => name,
        }
    }

    /// The laws of the parser kinds, for a parser on the stack.  Setting the
    /// anchor counter to `offset` makes it read back `offset` and keeps the
    /// kind of parser, its name and the work it has left.
    pub proof fn lemma_model_laws(p: ParserModel<S::V, B::V, C::V>)
        ensures
            forall|offset: usize| #[trigger]
                Self::offset_of(Self::with_offset_of(p, offset)) == offset,
            forall|offset: usize| #[trigger]
                Self::work_of(Self::with_offset_of(p, offset)) == Self::work_of(p),
            forall|offset: usize| #[trigger]
                Self::name_of(Self::with_offset_of(p, offset)) == Self::name_of(p),
            Self::upcoming_of(p) is Some ==> Self::work_of(Self::advanced_of(p)) < Self::work_of(
                p,
            ),
            Self::work_of(Self::peeked_of(p)) <= Self::work_of(p),
            forall|offset: usize|
                {
                    &&& (#[trigger] Self::with_offset_of(p, offset) is String) == (p is String)
                    &&& (Self::with_offset_of(p, offset) is Iter) == (p is Iter)
                    &&& (Self::with_offset_of(p, offset) is Custom) == (p is Custom)
                },
            Self::name_of(Self::advanced_of(p)) == Self::name_of(p),
            Self::name_of(Self::peeked_of(p)) == Self::name_of(p),
    {
        match p {
            ParserModel::String { state, .. } => S::lemma_state_laws(state),
            ParserModel::Iter { state, .. } => B::lemma_state_laws(state),
            ParserModel::Custom { state, .. } => C::lemma_state_laws(state),
        }
    }

    fn get_anchor_offset(&self) -> (r: usize)
        ensures
            r == Self::offset_of(self@),
    {
        match self {
            AnyParser::String { parser, .. } => parser.get_anchor_offset(),
            AnyParser::Iter { parser, .. } => parser.get_anchor_offset(),
            AnyParser::Custom { parser, .. } => parser.get_anchor_offset(),
        }
    }

    fn set_anchor_offset(&mut self, offset: usize)
        ensures
            final(self)@ == Self::with_offset_of(old(self)@, offset),
    {
        match self {
            AnyParser::String { parser, .. } => parser.set_anchor_offset(offset),
            AnyParser::Iter { parser, .. } => parser.set_anchor_offset(offset),
            AnyParser::Custom { parser, .. } => parser.set_anchor_offset(offset),
        }
    }

    fn next_event(&mut self) -> (r: Option<ParseResult>)
        ensures
            r == Self::upcoming_of(old(self)@),
            final(self)@ == Self::advanced_of(old(self)@),
    {
        match self {
            AnyParser::String { parser, .. } => parser.next_event(),
            AnyParser::Iter { parser, .. } => parser.next_event(),
            AnyParser::Custom { parser, .. } => parser.next_event(),
        }
    }

    /// Peeks at the parser and tells whether its input is done: nothing more
    /// comes, or only the end of the stream.
    fn peek_is_done(&mut self) -> (r: bool)
        ensures
            r == is_done(Self::upcoming_of(old(self)@)),
            final(self)@ == Self::peeked_of(old(self)@),
    {
        let res = match self {
            AnyParser::String { parser, .. } => parser.peek(),
            AnyParser::Iter { parser, .. } => parser.peek(),
            AnyParser::Custom { parser, .. } => parser.peek(),
        };
        match res {
            None => true,
            Some(Ok(x)) => match &x.0 {
                Event::StreamEnd => true,
                _ => false,
            },
            Some(Err(_)) => false,
        }
    }

    fn name(&self) -> (r: &String)
        ensures
            r@ == Self::name_of(self@),
    {
        match self {
            AnyParser::String { name, .. } => name,
            AnyParser::Iter { name, .. } => name,
            AnyParser::Custom { name, .. } => name,
        }
    }
}

/// Whether a parser's next result shows that its input is done: it hands
/// out nothing more, or the end of the stream.
pub open spec fn is_done(r: Option<ParseResult>) -> bool {
    match r {
        None => true,
        Some(Ok((ev, _))) => ev is StreamEnd,
        Some(Err(_)) => false,
    }
}


/// The description of the error raised when a nested parser holds more than
/// one document.
pub open spec fn multiple_documents_message() -> Seq<char> {
    "multiple documents not supported here"@
}

/// Whether `info` mentions `EOF`, the mark of an error raised by input that
/// ended early.
pub open spec fn mentions_eof(info: Seq<char>) -> bool {
    exists|i: int|
        0 <= i && i + 3 <= info.len() && #[trigger] info[i] == 'E' && info[i + 1] == 'O' && info[i
            + 2] == 'F'
}

/// The span of the end of stream that an empty stack reports.
pub open spec fn empty_stack_span() -> Span {
    Span { start: Marker { index: 0, line: 1, col: 0 }, end: Marker { index: 0, line: 1, col: 0 } }
}

/// What one read from the stack gives.
pub enum StackStep {
    /// An event, with its span.
    Yield((Event, Span)),
    /// An error a parser reported.
    Fail(ScanError),
    /// A nested parser holds a second document; the document that ended at
    /// this marker was followed by more.
    MultipleDocuments(Marker),
}

/// Whether the result `r` is what `step` describes.
pub open spec fn gives(r: ParseResult, step: StackStep) -> bool {
    match step {
        StackStep::Yield(x) => r == Ok::<(Event, Span), ScanError>(x),
        StackStep::Fail(e) => r == Err::<(Event, Span), ScanError>(e),
        StackStep::MultipleDocuments(mark) => match r {
            Err(e) => e.mark == mark && e.info@ == multiple_documents_message(),
            Ok(_) => false,
        },
    }
}

/// The state of a parser stack.
pub struct StackModel<SV, BV, CV> {
    /// The parsers, the one pushed first first.
    pub parsers: Seq<ParserModel<SV, BV, CV>>,
    /// An event read by `peek` and not yet handed out.
    pub current: Option<(Event, Span)>,
    /// Whether `next_event` has handed out the end of the stream.
    pub stream_end_emitted: bool,
}

/// A parser implementation that utilizes a stack for parsing.
///
/// Events are read from the parser pushed last.  When its input is done it
/// leaves the stack, hands its anchor counter to the parser below, and that
/// one takes over.  A parser above the bottom one is nested inside the
/// document being read: its start-of-stream and start-of-document events are
/// dropped, its end of document is dropped when its input ends there, and a
/// second document in it is an error.
pub struct ParserStack<S, B, C> {
    parsers: Vec<AnyParser<S, B, C>>,
    current: Option<(Event, Span)>,
    stream_end_emitted: bool,
}

impl<S: View, B: View, C: View> View for ParserStack<S, B, C> {
    type V = StackModel<S::V, B::V, C::V>;

    closed spec fn view(&self) -> Self::V {
        StackModel {
            parsers: self.parsers@.map_values(|p: AnyParser<S, B, C>| p@),
            current: self.current,
            stream_end_emitted: self.stream_end_emitted,
        }
    }
}

impl<S: EventParser, B: EventParser, C: EventParser> ParserStack<S, B, C> {
    /// The sum over the parsers of the results each still hands out, plus one.
    pub open spec fn total_work(parsers: Seq<ParserModel<S::V, B::V, C::V>>) -> nat
        decreases parsers.len(),
    {
        if parsers.len() == 0 {
            0
        } else {
            Self::total_work(parsers.drop_last()) + AnyParser::<S, B, C>::work_of(parsers.last())
                + 1
        }
    }

    /// `parsers` once the parser `child` above them left: the top one takes
    /// over the anchor counter of `child`.
    pub open spec fn hand_offset(
        parsers: Seq<ParserModel<S::V, B::V, C::V>>,
        child: ParserModel<S::V, B::V, C::V>,
    ) -> Seq<ParserModel<S::V, B::V, C::V>> {
        if parsers.len() == 0 {
            parsers
        } else {
            parsers.drop_last().push(
                AnyParser::<S, B, C>::with_offset_of(
                    parsers.last(),
                    AnyParser::<S, B, C>::offset_of(child),
                ),
            )
        }
    }

    pub proof fn lemma_total_work_push(
        parsers: Seq<ParserModel<S::V, B::V, C::V>>,
        p: ParserModel<S::V, B::V, C::V>,
    )
        ensures
            Self::total_work(parsers.push(p)) == Self::total_work(parsers)
                + AnyParser::<S, B, C>::work_of(p) + 1,
    {
        assert(parsers.push(p).drop_last() =~= parsers);
    }

    pub proof fn lemma_hand_offset_work(
        parsers: Seq<ParserModel<S::V, B::V, C::V>>,
        child: ParserModel<S::V, B::V, C::V>,
    )
        ensures
            Self::total_work(Self::hand_offset(parsers, child)) == Self::total_work(parsers),
    {
        if parsers.len() > 0 {
            AnyParser::<S, B, C>::lemma_model_laws(parsers.last());
            Self::lemma_total_work_push(
                parsers.drop_last(),
                AnyParser::<S, B, C>::with_offset_of(
                    parsers.last(),
                    AnyParser::<S, B, C>::offset_of(child),
                ),
            );
        }
    }

    /// Each step of `drain` that goes on reading leaves less work.
    pub proof fn lemma_drain_steps(parsers: Seq<ParserModel<S::V, B::V, C::V>>)
        requires
            parsers.len() > 0,
        ensures
            ({
                let top = parsers.last();
                let rest = parsers.drop_last();
                let after = AnyParser::<S, B, C>::advanced_of(top);
                &&& Self::total_work(Self::hand_offset(rest, after)) < Self::total_work(parsers)
                &&& Self::total_work(
                    Self::hand_offset(rest, AnyParser::<S, B, C>::peeked_of(after)),
                ) < Self::total_work(parsers)
                &&& AnyParser::<S, B, C>::upcoming_of(top) is Some ==> Self::total_work(
                    rest.push(after),
                ) < Self::total_work(parsers)
            }),
    {
        let top = parsers.last();
        let rest = parsers.drop_last();
        let after = AnyParser::<S, B, C>::advanced_of(top);
        AnyParser::<S, B, C>::lemma_model_laws(top);
        Self::lemma_hand_offset_work(rest, after);
        Self::lemma_hand_offset_work(rest, AnyParser::<S, B, C>::peeked_of(after));
        Self::lemma_total_work_push(rest, after);
    }

    /// What reading from a stack holding `parsers` gives, and the parsers
    /// left afterwards.
    ///
    /// The top parser's next result decides:
    /// - nothing more, or the end of its stream: the parser leaves the stack,
    ///   hands its anchor counter to the parser below, and reading goes on;
    /// - an error that mentions `EOF`: the same; any other error: the parser
    ///   leaves the stack likewise, and the error is the answer;
    /// - the start of a stream or of a document from a nested parser (one
    ///   above the bottom): dropped, and reading goes on;
    /// - the end of a document from a nested parser: the parser is peeked at;
    ///   where its input is done it leaves the stack and reading goes on,
    ///   otherwise the answer is the multiple-documents error;
    /// - any other event: it is the answer.
    /// An empty stack answers the end of the stream.
    pub open spec fn drain(parsers: Seq<ParserModel<S::V, B::V, C::V>>) -> (Seq<
        ParserModel<S::V, B::V, C::V>,
    >, StackStep)
        decreases Self::total_work(parsers),
    {
        if parsers.len() == 0 {
            (parsers, StackStep::Yield((Event::StreamEnd, empty_stack_span())))
        } else {
            let top = parsers.last();
            let rest = parsers.drop_last();
            let after = AnyParser::<S, B, C>::advanced_of(top);
            let popped = Self::hand_offset(rest, after);
            proof {
                Self::lemma_drain_steps(parsers);
            }
            match AnyParser::<S, B, C>::upcoming_of(top) {
                None => Self::drain(popped),
                Some(Err(e)) => if mentions_eof(e.info@) {
                    Self::drain(popped)
                } else {
                    (popped, StackStep::Fail(e))
                },
                Some(Ok((ev, span))) => if ev is StreamEnd {
                    Self::drain(popped)
                } else if (ev is StreamStart || ev is DocumentStart) && rest.len() > 0 {
                    Self::drain(rest.push(after))
                } else if ev is DocumentEnd && rest.len() > 0 {
                    let peeked = AnyParser::<S, B, C>::peeked_of(after);
                    if is_done(AnyParser::<S, B, C>::upcoming_of(after)) {
                        Self::drain(Self::hand_offset(rest, peeked))
                    } else {
                        (rest.push(peeked), StackStep::MultipleDocuments(span.start))
                    }
                } else {
                    (rest.push(after), StackStep::Yield((ev, span)))
                },
            }
        }
    }

    /// The stack after `p` was pushed onto it: where the stack held parsers,
    /// `p` takes over the anchor counter of the top one.
    pub open spec fn pushed(m: StackModel<S::V, B::V, C::V>, p: ParserModel<S::V, B::V, C::V>) -> StackModel<
        S::V,
        B::V,
        C::V,
    > {
        StackModel {
            parsers: m.parsers.push(
                if m.parsers.len() > 0 {
                    AnyParser::<S, B, C>::with_offset_of(
                        p,
                        AnyParser::<S, B, C>::offset_of(m.parsers.last()),
                    )
                } else {
                    p
                },
            ),
            ..m
        }
    }

    /// The names of the parsers, the one pushed first first.
    pub open spec fn names(parsers: Seq<ParserModel<S::V, B::V, C::V>>) -> Seq<Seq<char>> {
        parsers.map_values(|p: ParserModel<S::V, B::V, C::V>| AnyParser::<S, B, C>::name_of(p))
    }

    /// The stack after `next_event`, and what it handed out (`None` for
    /// nothing).  An event read by `peek` comes first; once the end of the
    /// stream was handed out nothing more comes; otherwise the parsers are
    /// drained, and handing out the end of the stream is remembered.
    pub open spec fn after_next(m: StackModel<S::V, B::V, C::V>) -> (StackModel<
        S::V,
        B::V,
        C::V,
    >, Option<StackStep>) {
        match m.current {
            Some(x) => (StackModel { current: None, ..m }, Some(StackStep::Yield(x))),
            None => if m.stream_end_emitted {
                (m, None)
            } else {
                let (parsers, step) = Self::drain(m.parsers);
                (
                    StackModel {
                        parsers,
                        current: None,
                        stream_end_emitted: is_stream_end(step),
                    },
                    Some(step),
                )
            },
        }
    }

    /// The stack after `peek`, and what it showed (`None` for nothing).  A
    /// shown event is kept for the next `next_event`.
    pub open spec fn after_peek(m: StackModel<S::V, B::V, C::V>) -> (StackModel<
        S::V,
        B::V,
        C::V,
    >, Option<StackStep>) {
        match m.current {
            Some(x) => (m, Some(StackStep::Yield(x))),
            None => if m.stream_end_emitted {
                (m, None)
            } else {
                let (parsers, step) = Self::drain(m.parsers);
                (
                    StackModel {
                        parsers,
                        current: match step {
                            StackStep::Yield(x) => Some(x),
                            _ => None,
                        },
                        stream_end_emitted: false,
                    },
                    Some(step),
                )
            },
        }
    }

    /// The state of a stack with no parsers, nothing peeked at and the end of
    /// the stream not handed out.
    pub open spec fn empty_model() -> StackModel<S::V, B::V, C::V> {
        StackModel { parsers: Seq::empty(), current: None, stream_end_emitted: false }
    }

    /// Creates a new, empty parser stack.
    pub fn new() -> (s: Self)
        ensures
            s@ == Self::empty_model(),
    {
        let s = ParserStack { parsers: Vec::new(), current: None, stream_end_emitted: false };
        assert(s@.parsers =~= Seq::<ParserModel<S::V, B::V, C::V>>::empty());
        s
    }

    fn push_parser(&mut self, parser: AnyParser<S, B, C>)
        ensures
            final(self)@ == Self::pushed(old(self)@, parser@),
    {
        let ghost given = parser@;
        let mut parser = parser;
        let n = self.parsers.len();
        if n > 0 {
            let offset = self.parsers[n - 1].get_anchor_offset();
            parser.set_anchor_offset(offset);
        }
        self.parsers.push(parser);
        assert(self@.parsers =~= Self::pushed(old(self)@, given).parsers);
    }

    /// Pushes a string parser onto the stack.
    pub fn push_str_parser(&mut self, parser: S, name: String)
        ensures
            final(self)@ == Self::pushed(
                old(self)@,
                ParserModel::String { state: parser@, name: name@ },
            ),
    {
        self.push_parser(AnyParser::String { parser, name });
    }

    /// Pushes an iterator parser onto the stack.
    pub fn push_iter_parser(&mut self, parser: B, name: String)
        ensures
            final(self)@ == Self::pushed(old(self)@, ParserModel::Iter { state: parser@, name: name@ }),
    {
        self.push_parser(AnyParser::Iter { parser, name });
    }

    /// Pushes a custom parser onto the stack.
    pub fn push_custom_parser(&mut self, parser: C, name: String)
        ensures
            final(self)@ == Self::pushed(
                old(self)@,
                ParserModel::Custom { state: parser@, name: name@ },
            ),
    {
        self.push_parser(AnyParser::Custom { parser, name });
    }

    /// Returns the names of the parsers currently in the stack.
    pub fn stack(&self) -> (names: Vec<String>)
        ensures
            names@.map_values(|s: String| s@) == Self::names(self@.parsers),
    {
        let mut names: Vec<String> = Vec::new();
        let n = self.parsers.len();
        for i in 0..n
            invariant
                n == self.parsers@.len(),
                names@.map_values(|s: String| s@) =~= Self::names(self@.parsers).take(i as int),
        {
            let name = self.parsers[i].name().clone();
            assert(self@.parsers[i as int] == self.parsers@[i as int]@);
            assert(name@ == Self::names(self@.parsers)[i as int]);
            let ghost before = names@;
            names.push(name);
            assert(names@.map_values(|s: String| s@) =~= before.map_values(|s: String| s@).push(
                name@,
            ));
            assert(names@.map_values(|s: String| s@) =~= Self::names(self@.parsers).take(
                i + 1,
            ));
        }
        assert(Self::names(self@.parsers).take(n as int) =~= Self::names(self@.parsers));
        names
    }

    /// Shows the next event without handing it out: the next `next_event`
    /// hands it out.
    pub fn peek(&mut self) -> (r: Option<Result<&(Event, Span), ScanError>>)
        ensures
            final(self)@ == Self::after_peek(old(self)@).0,
            match r {
                None => Self::after_peek(old(self)@).1 is None,
                Some(Ok(x)) => Self::after_peek(old(self)@).1 == Some(StackStep::Yield(*x)),
                Some(Err(e)) => match Self::after_peek(old(self)@).1 {
                    Some(step) => gives(Err(e), step),
                    None => false,
                },
            },
    {
        if self.current.is_none() {
            if self.stream_end_emitted {
                return None;
            }
            match self.next_event_impl() {
                Ok(token) => {
                    self.current = Some(token);
                },
                Err(e) => {
                    return Some(Err(e));
                },
            }
        }
        match &self.current {
            Some(x) => Some(Ok(x)),
            None => None,
        }
    }

    /// Hands out the next event, or `None` once the end of the stream was
    /// handed out.
    pub fn next_event(&mut self) -> (r: Option<ParseResult>)
        ensures
            final(self)@ == Self::after_next(old(self)@).0,
            match Self::after_next(old(self)@).1 {
                None => r is None,
                Some(step) => match r {
                    Some(x) => gives(x, step),
                    None => false,
                },
            },
    {
        if self.current.is_some() {
            let x = self.current.take().unwrap();
            return Some(Ok(x));
        }
        if self.stream_end_emitted {
            return None;
        }
        match self.next_event_impl() {
            Ok(token) => {
                if let Event::StreamEnd = token.0 {
                    self.stream_end_emitted = true;
                }
                Some(Ok(token))
            },
            Err(e) => Some(Err(e)),
        }
    }

    /// How a drain leaves the stack: parsers only leave from the top, the
    /// ones below the new top are untouched and the new top keeps its name;
    /// only a stack that ends up empty answers the end of the stream, only
    /// the bottom parser's stream and document framing comes through, and any
    /// other event uses up work.
    pub proof fn lemma_drain_shape(parsers: Seq<ParserModel<S::V, B::V, C::V>>)
        ensures
            ({
                let (left, step) = Self::drain(parsers);
                &&& left.len() <= parsers.len()
                &&& forall|i: int| 0 <= i < left.len() - 1 ==> #[trigger] left[i] == parsers[i]
                &&& left.len() > 0 ==> AnyParser::<S, B, C>::name_of(left.last())
                    == AnyParser::<S, B, C>::name_of(parsers[left.len() - 1])
                &&& match step {
                    StackStep::Yield((ev, _)) => {
                        &&& (ev is StreamEnd <==> left.len() == 0)
                        &&& (ev is StreamStart || ev is DocumentStart || ev is DocumentEnd)
                            ==> left.len() == 1
                        &&& !(ev is StreamEnd) ==> Self::total_work(left) < Self::total_work(
                            parsers,
                        )
                    },
                    _ => true,
                }
            }),
        decreases Self::total_work(parsers),
    {
        if parsers.len() > 0 {
            let top = parsers.last();
            let rest = parsers.drop_last();
            let after = AnyParser::<S, B, C>::advanced_of(top);
            let peeked = AnyParser::<S, B, C>::peeked_of(after);
            Self::lemma_drain_steps(parsers);
            AnyParser::<S, B, C>::lemma_model_laws(top);
            AnyParser::<S, B, C>::lemma_model_laws(after);
            if rest.len() > 0 {
                AnyParser::<S, B, C>::lemma_model_laws(rest.last());
            }
            let popped = Self::hand_offset(rest, after);
            let popped_peeked = Self::hand_offset(rest, peeked);
            Self::lemma_total_work_push(rest, after);
            match AnyParser::<S, B, C>::upcoming_of(top) {
                None => {
                    Self::lemma_drain_shape(popped);
                },
                Some(Err(e)) => {
                    if mentions_eof(e.info@) {
                        Self::lemma_drain_shape(popped);
                    }
                },
                Some(Ok((ev, span))) => {
                    if ev is StreamEnd {
                        Self::lemma_drain_shape(popped);
                    } else if (ev is StreamStart || ev is DocumentStart) && rest.len() > 0 {
                        Self::lemma_drain_shape(rest.push(after));
                    } else if ev is DocumentEnd && rest.len() > 0 {
                        if is_done(AnyParser::<S, B, C>::upcoming_of(after)) {
                            Self::lemma_drain_shape(popped_peeked);
                        }
                    }
                },
            }
        }
    }

    /// The work left in a stack: that of its parsers, and one for an event
    /// read by `peek`.
    pub open spec fn load_work(m: StackModel<S::V, B::V, C::V>) -> nat {
        Self::total_work(m.parsers) + if m.current is Some {
            1nat
        } else {
            0nat
        }
    }

    /// Handing out an event other than the end of the stream uses up work.
    pub proof fn lemma_next_event_progress(m: StackModel<S::V, B::V, C::V>)
        ensures
            match Self::after_next(m).1 {
                Some(StackStep::Yield((ev, _))) => !(ev is StreamEnd) ==> Self::load_work(
                    Self::after_next(m).0,
                ) < Self::load_work(m),
                _ => true,
            },
    {
        Self::lemma_drain_shape(m.parsers);
    }

    /// The stack after `load`, and the error it stopped on (`None` when it
    /// ended well).  `load` hands out events until the end of the stream, or,
    /// when `multi` is false, until the end of the first document; it stops
    /// on the first error, and ends well when nothing more comes.
    pub open spec fn loaded(m: StackModel<S::V, B::V, C::V>, multi: bool) -> (StackModel<
        S::V,
        B::V,
        C::V,
    >, Option<StackStep>)
        decreases Self::load_work(m),
    {
        let (next, out) = Self::after_next(m);
        proof {
            Self::lemma_next_event_progress(m);
        }
        match out {
            None => (next, None),
            Some(StackStep::Yield((ev, _))) => if ev is StreamEnd || (ev is DocumentEnd && !multi) {
                (next, None)
            } else {
                Self::loaded(next, multi)
            },
            Some(step) => (next, Some(step)),
        }
    }

    /// The events `load` hands to the receiver, in order: those `next_event`
    /// hands out, up to and including the end of the stream (or, when `multi`
    /// is false, the first end of document), and none past an error.
    pub open spec fn loaded_events(m: StackModel<S::V, B::V, C::V>, multi: bool) -> Seq<
        (Event, Span),
    >
        decreases Self::load_work(m),
    {
        let (next, out) = Self::after_next(m);
        proof {
            Self::lemma_next_event_progress(m);
        }
        match out {
            Some(StackStep::Yield((ev, span))) => if ev is StreamEnd || (ev is DocumentEnd
                && !multi) {
                seq![(ev, span)]
            } else {
                seq![(ev, span)] + Self::loaded_events(next, multi)
            },
            _ => Seq::empty(),
        }
    }

    /// Reads events from the stack and hands them to `recv`: until the end of
    /// the stream, or, when `multi` is false, until the end of the first
    /// document.  Stops on the first error and returns it.
    pub fn load<R: SpannedEventReceiver>(&mut self, recv: &mut R, multi: bool) -> (r: Result<
        (),
        ScanError,
    >)
        ensures
            final(self)@ == Self::loaded(old(self)@, multi).0,
            final(recv).received() == old(recv).received() + Self::loaded_events(
                old(self)@,
                multi,
            ),
            match Self::loaded(old(self)@, multi).1 {
                None => r is Ok,
                Some(step) => match r {
                    Err(e) => gives(Err(e), step),
                    Ok(_) => false,
                },
            },
    {
        let ghost given = recv.received();
        loop
            invariant
                Self::loaded(self@, multi) == Self::loaded(old(self)@, multi),
                given == old(recv).received(),
                given + Self::loaded_events(old(self)@, multi) == recv.received()
                    + Self::loaded_events(self@, multi),
            decreases Self::load_work(self@),
        {
            let ghost before = self@;
            proof {
                Self::lemma_next_event_progress(before);
            }
            match self.next_event() {
                None => {
                    assert(recv.received() + Seq::empty() =~= recv.received());
                    return Ok(());
                },
                Some(Ok((ev, span))) => {
                    let stop = match &ev {
                        Event::StreamEnd => true,
                        Event::DocumentEnd => !multi,
                        _ => false,
                    };
                    let ghost before = recv.received();
                    let ghost item = (ev, span);
                    recv.on_event(ev, span);
                    if stop {
                        assert(before + seq![item] =~= before.push(item));
                        return Ok(());
                    }
                    assert(before + (seq![item] + Self::loaded_events(self@, multi)) =~= before.push(
                        item,
                    ) + Self::loaded_events(self@, multi));
                },
                Some(Err(e)) => {
                    assert(recv.received() + Seq::empty() =~= recv.received());
                    return Err(e);
                },
            }
        }
    }

    /// What `peek` shows is what the next `next_event` hands out, and
    /// peeking again shows it again.
    pub proof fn law_peek_then_next(m: StackModel<S::V, B::V, C::V>)
        requires
            Self::after_peek(m).1 matches Some(StackStep::Yield(_)),
        ensures
            Self::after_next(Self::after_peek(m).0).1 == Self::after_peek(m).1,
            Self::after_peek(Self::after_peek(m).0).1 == Self::after_peek(m).1,
    {
    }

    /// Once `next_event` has handed out the end of the stream, the stack
    /// hands out nothing more: `next_event` and `peek` give nothing and leave
    /// it as it is, also after another parser was pushed.
    pub proof fn law_stream_end_is_final(
        m: StackModel<S::V, B::V, C::V>,
        p: ParserModel<S::V, B::V, C::V>,
    )
        requires
            m.current is None,
            Self::after_next(m).1 matches Some(step) && is_stream_end(step),
        ensures
            ({
                let done = Self::after_next(m).0;
                &&& done.stream_end_emitted
                &&& Self::after_next(done) == (done, None::<StackStep>)
                &&& Self::after_peek(done) == (done, None::<StackStep>)
                &&& Self::after_next(Self::pushed(done, p)).1 is None
            }),
    {
    }

    /// No operation clears the mark that the end of the stream was handed
    /// out.
    pub proof fn law_stream_end_mark_stays(
        m: StackModel<S::V, B::V, C::V>,
        p: ParserModel<S::V, B::V, C::V>,
        multi: bool,
    )
        requires
            m.stream_end_emitted,
        ensures
            Self::after_next(m).0.stream_end_emitted,
            Self::after_peek(m).0.stream_end_emitted,
            Self::pushed(m, p).stream_end_emitted,
            Self::loaded(m, multi).0.stream_end_emitted,
    {
        assert(Self::loaded(m, multi).0.stream_end_emitted) by {
            Self::lemma_loaded_keeps_mark(m, multi);
        }
    }

    proof fn lemma_loaded_keeps_mark(m: StackModel<S::V, B::V, C::V>, multi: bool)
        requires
            m.stream_end_emitted,
        ensures
            Self::loaded(m, multi).0.stream_end_emitted,
        decreases Self::load_work(m),
    {
        Self::lemma_next_event_progress(m);
        let next = Self::after_next(m).0;
        if m.current is Some {
            Self::lemma_loaded_keeps_mark(next, multi);
        }
    }

    /// Pushing a parser puts it on top of the others, which stay as they
    /// were, adds its name at the end of the names, and hands it the anchor
    /// counter of the parser that was on top.
    pub proof fn law_push(m: StackModel<S::V, B::V, C::V>, p: ParserModel<S::V, B::V, C::V>)
        ensures
            Self::pushed(m, p).parsers.drop_last() == m.parsers,
            Self::names(Self::pushed(m, p).parsers) == Self::names(m.parsers).push(
                AnyParser::<S, B, C>::name_of(p),
            ),
            m.parsers.len() > 0 ==> AnyParser::<S, B, C>::offset_of(
                Self::pushed(m, p).parsers.last(),
            ) == AnyParser::<S, B, C>::offset_of(m.parsers.last()),
            m.parsers.len() == 0 ==> Self::pushed(m, p).parsers == seq![p],
            Self::pushed(m, p).current == m.current,
            Self::pushed(m, p).stream_end_emitted == m.stream_end_emitted,
    {
        AnyParser::<S, B, C>::lemma_model_laws(p);
        let q = Self::pushed(m, p).parsers;
        assert(q.drop_last() =~= m.parsers);
        assert(Self::names(q) =~= Self::names(m.parsers).push(AnyParser::<S, B, C>::name_of(p)));
        if m.parsers.len() == 0 {
            assert(q =~= seq![p]);
        }
    }

    /// A stack with no parsers answers the end of the stream, at offset 0 of
    /// line 1, once.
    pub proof fn law_empty_stack()
        ensures
            Self::after_next(Self::empty_model()) == (
                StackModel::<S::V, B::V, C::V> { stream_end_emitted: true, ..Self::empty_model() },
                Some(StackStep::Yield((Event::StreamEnd, empty_stack_span()))),
            ),
    {
    }

    /// A lone parser's results come through as they are, except its end of
    /// stream and its errors that mention `EOF`, after which the stack is
    /// empty.
    pub proof fn law_lone_parser_passes_through(p: ParserModel<S::V, B::V, C::V>)
        ensures
            match AnyParser::<S, B, C>::upcoming_of(p) {
                Some(Ok((ev, span))) => if ev is StreamEnd {
                    Self::drain(seq![p]) == (
                        Seq::<ParserModel<S::V, B::V, C::V>>::empty(),
                        StackStep::Yield((Event::StreamEnd, Span {
                            start: Marker { index: 0, line: 1, col: 0 },
                            end: Marker { index: 0, line: 1, col: 0 },
                        })),
                    )
                } else {
                    Self::drain(seq![p]) == (
                        seq![AnyParser::<S, B, C>::advanced_of(p)],
                        StackStep::Yield((ev, span)),
                    )
                },
                Some(Err(e)) => if exists|i: int|
                    0 <= i && i + 3 <= e.info@.len() && #[trigger] e.info@[i] == 'E' && e.info@[i
                        + 1] == 'O' && e.info@[i + 2] == 'F' {
                    Self::drain(seq![p]) == (
                        Seq::<ParserModel<S::V, B::V, C::V>>::empty(),
                        StackStep::Yield((Event::StreamEnd, Span {
                            start: Marker { index: 0, line: 1, col: 0 },
                            end: Marker { index: 0, line: 1, col: 0 },
                        })),
                    )
                } else {
                    Self::drain(seq![p]) == (
                        Seq::<ParserModel<S::V, B::V, C::V>>::empty(),
                        StackStep::Fail(e),
                    )
                },
                None => Self::drain(seq![p]) == (
                    Seq::<ParserModel<S::V, B::V, C::V>>::empty(),
                    StackStep::Yield((Event::StreamEnd, Span {
                            start: Marker { index: 0, line: 1, col: 0 },
                            end: Marker { index: 0, line: 1, col: 0 },
                        })),
                ),
            },
    {
        let ps = seq![p];
        let none = Seq::<ParserModel<S::V, B::V, C::V>>::empty();
        assert(ps.drop_last() =~= none);
        assert(Self::hand_offset(none, AnyParser::<S, B, C>::advanced_of(p)) == none);
        assert(Self::drain(none) == (
            none,
            StackStep::Yield((Event::StreamEnd, empty_stack_span())),
        ));
        assert(ps.last() == p);
        assert(ps.drop_last().push(AnyParser::<S, B, C>::advanced_of(p)) =~= seq![
            AnyParser::<S, B, C>::advanced_of(p),
        ]);
    }

    /// A nested parser (one above the bottom) is read inside the document of
    /// the parser below: its events other than the stream and document
    /// framing come through unchanged; an error it reports leaves the stack
    /// with it and is the answer, unless it mentions `EOF`, in which case
    /// reading goes on below; its start of stream and of document are dropped;
    /// when its input is done it leaves the stack and hands its anchor
    /// counter to the parser below, which takes over; an end of document
    /// followed by more input is refused as a second document.
    pub proof fn law_nested_parser(parsers: Seq<ParserModel<S::V, B::V, C::V>>)
        requires
            parsers.len() >= 2,
        ensures
            ({
                let top = parsers.last();
                let rest = parsers.drop_last();
                let after = AnyParser::<S, B, C>::advanced_of(top);
                let peeked = AnyParser::<S, B, C>::peeked_of(after);
                let below = Self::hand_offset(rest, after);
                &&& (AnyParser::<S, B, C>::upcoming_of(top) is None
                    || AnyParser::<S, B, C>::upcoming_of(top) matches Some(Ok((Event::StreamEnd, _))))
                    ==> {
                    &&& Self::drain(parsers) == Self::drain(below)
                    &&& below.drop_last() == rest.drop_last()
                    &&& AnyParser::<S, B, C>::offset_of(below.last())
                        == AnyParser::<S, B, C>::offset_of(after)
                    &&& AnyParser::<S, B, C>::name_of(below.last())
                        == AnyParser::<S, B, C>::name_of(rest.last())
                }
                &&& match AnyParser::<S, B, C>::upcoming_of(top) {
                    Some(Err(e)) => if exists|i: int|
                        0 <= i && i + 3 <= e.info@.len() && #[trigger] e.info@[i] == 'E'
                            && e.info@[i + 1] == 'O' && e.info@[i + 2] == 'F' {
                        Self::drain(parsers) == Self::drain(below)
                    } else {
                        Self::drain(parsers) == (below, StackStep::Fail(e))
                    },
                    Some(Ok((ev, span))) => {
                        &&& !(ev is StreamStart || ev is DocumentStart || ev is DocumentEnd
                            || ev is StreamEnd) ==> Self::drain(parsers) == (
                            rest.push(after),
                            StackStep::Yield((ev, span)),
                        )
                        &&& (ev is StreamStart || ev is DocumentStart) ==> Self::drain(parsers)
                            == Self::drain(rest.push(after))
                        &&& ev is DocumentEnd ==> Self::drain(parsers) == (if (
                        AnyParser::<S, B, C>::upcoming_of(after) is None
                            || AnyParser::<S, B, C>::upcoming_of(after) matches Some(
                            Ok((Event::StreamEnd, _)),
                        )) {
                            Self::drain(Self::hand_offset(rest, peeked))
                        } else {
                            (rest.push(peeked), StackStep::MultipleDocuments(span.start))
                        })
                    },
                    _ => true,
                }
            }),
    {
        let rest = parsers.drop_last();
        AnyParser::<S, B, C>::lemma_model_laws(rest.last());
        let below = Self::hand_offset(rest, AnyParser::<S, B, C>::advanced_of(parsers.last()));
        assert(below.drop_last() =~= rest.drop_last());
    }

    /// `peek` shows what `next_event` would hand out from the same stack,
    /// and reads the parsers just as far; what it shows it keeps for the next
    /// `next_event`, and it leaves the end-of-stream mark alone.
    pub proof fn law_peek_shows_next(m: StackModel<S::V, B::V, C::V>)
        ensures
            Self::after_peek(m).1 == Self::after_next(m).1,
            Self::after_peek(m).0.parsers == Self::after_next(m).0.parsers,
            Self::after_peek(m).0.stream_end_emitted == m.stream_end_emitted,
            match Self::after_next(m).1 {
                Some(StackStep::Yield(x)) => Self::after_peek(m).0.current == Some(x),
                _ => Self::after_peek(m).0.current == m.current,
            },
    {
    }

    /// `load` hands the receiver, unchanged and in order, what successive
    /// calls of `next_event` hand out: it stops after the end of the stream
    /// (after an end of document too, when `multi` is false), at an error, or
    /// when nothing more comes; it leaves the stack as those calls leave it.
    pub proof fn law_load_hands_out_next_events(m: StackModel<S::V, B::V, C::V>, multi: bool)
        ensures
            match Self::after_next(m) {
                (next, Some(StackStep::Yield((ev, span)))) => if ev is StreamEnd || (ev
                    is DocumentEnd && !multi) {
                    &&& Self::loaded_events(m, multi) == seq![(ev, span)]
                    &&& Self::loaded(m, multi) == (next, None::<StackStep>)
                } else {
                    &&& Self::loaded_events(m, multi) == seq![(ev, span)] + Self::loaded_events(
                        next,
                        multi,
                    )
                    &&& Self::loaded(m, multi) == Self::loaded(next, multi)
                },
                (next, Some(step)) => {
                    &&& Self::loaded_events(m, multi) == Seq::<(Event, Span)>::empty()
                    &&& Self::loaded(m, multi) == (next, Some(step))
                },
                (next, None) => {
                    &&& Self::loaded_events(m, multi) == Seq::<(Event, Span)>::empty()
                    &&& Self::loaded(m, multi) == (next, None::<StackStep>)
                },
            },
    {
        Self::lemma_next_event_progress(m);
    }

    /// Reading from the stack (`next_event`, `peek`, `load`) only takes
    /// parsers off its top: the names left are the first names of the stack
    /// as it was, whatever the result.
    pub proof fn law_reading_only_pops(m: StackModel<S::V, B::V, C::V>, multi: bool)
        ensures
            Self::names(Self::after_next(m).0.parsers).len() <= Self::names(m.parsers).len(),
            Self::names(Self::after_next(m).0.parsers) == Self::names(m.parsers).take(
                Self::names(Self::after_next(m).0.parsers).len() as int,
            ),
            Self::names(Self::after_peek(m).0.parsers).len() <= Self::names(m.parsers).len(),
            Self::names(Self::after_peek(m).0.parsers) == Self::names(m.parsers).take(
                Self::names(Self::after_peek(m).0.parsers).len() as int,
            ),
            Self::names(Self::loaded(m, multi).0.parsers).len() <= Self::names(m.parsers).len(),
            Self::names(Self::loaded(m, multi).0.parsers) == Self::names(m.parsers).take(
                Self::names(Self::loaded(m, multi).0.parsers).len() as int,
            ),
        decreases Self::load_work(m),
    {
        Self::lemma_drain_names(m.parsers);
        Self::lemma_next_event_progress(m);
        let (next, out) = Self::after_next(m);
        if let Some(StackStep::Yield((ev, _))) = out {
            if !(ev is StreamEnd || (ev is DocumentEnd && !multi)) {
                Self::law_reading_only_pops(next, multi);
                let a = Self::names(m.parsers);
                let b = Self::names(next.parsers);
                let c = Self::names(Self::loaded(next, multi).0.parsers);
                assert(c =~= a.take(c.len() as int));
            }
        }
    }

    proof fn lemma_drain_names(parsers: Seq<ParserModel<S::V, B::V, C::V>>)
        ensures
            Self::names(Self::drain(parsers).0) == Self::names(parsers).take(
                Self::drain(parsers).0.len() as int,
            ),
            Self::drain(parsers).0.len() <= parsers.len(),
    {
        Self::lemma_drain_shape(parsers);
        let left = Self::drain(parsers).0;
        assert forall|i: int| 0 <= i < left.len() implies #[trigger] Self::names(left)[i]
            == Self::names(parsers)[i] by {
            if i < left.len() - 1 {
                assert(left[i] == parsers[i]);
            }
        }
        assert(Self::names(left) =~= Self::names(parsers).take(left.len() as int));
    }

    /// A stack marked as having handed out the end of the stream holds no
    /// event read by `peek`: the empty stack is so, and every operation keeps
    /// it so.
    pub proof fn law_ended_stack_caches_nothing(
        m: StackModel<S::V, B::V, C::V>,
        p: ParserModel<S::V, B::V, C::V>,
        multi: bool,
    )
        requires
            m.stream_end_emitted ==> m.current is None,
        ensures
            Self::empty_model().stream_end_emitted ==> Self::empty_model().current is None,
            Self::pushed(m, p).stream_end_emitted ==> Self::pushed(m, p).current is None,
            Self::after_next(m).0.stream_end_emitted ==> Self::after_next(m).0.current is None,
            Self::after_peek(m).0.stream_end_emitted ==> Self::after_peek(m).0.current is None,
            Self::loaded(m, multi).0.stream_end_emitted ==> Self::loaded(m, multi).0.current
                is None,
        decreases Self::load_work(m),
    {
        Self::lemma_next_event_progress(m);
        let (next, out) = Self::after_next(m);
        if let Some(StackStep::Yield((ev, _))) = out {
            if !(ev is StreamEnd || (ev is DocumentEnd && !multi)) {
                Self::law_ended_stack_caches_nothing(next, p, multi);
            }
        }
    }

    fn hand_offset_from(&mut self, child: &AnyParser<S, B, C>)
        ensures
            final(self)@.parsers == Self::hand_offset(old(self)@.parsers, child@),
            final(self)@.current == old(self)@.current,
            final(self)@.stream_end_emitted == old(self)@.stream_end_emitted,
    {
        if self.parsers.len() > 0 {
            let ghost before = self.parsers@;
            let mut parent = self.parsers.pop().unwrap();
            let offset = child.get_anchor_offset();
            parent.set_anchor_offset(offset);
            self.parsers.push(parent);
            assert(self.parsers@.map_values(|p: AnyParser<S, B, C>| p@) =~= Self::hand_offset(
                before.map_values(|p: AnyParser<S, B, C>| p@),
                child@,
            ));
        }
    }

    fn next_event_impl(&mut self) -> (r: ParseResult)
        ensures
            gives(r, Self::drain(old(self)@.parsers).1),
            final(self)@.parsers == Self::drain(old(self)@.parsers).0,
            final(self)@.current == old(self)@.current,
            final(self)@.stream_end_emitted == old(self)@.stream_end_emitted,
    {
        let ghost target = Self::drain(self@.parsers);
        loop
            invariant
                Self::drain(self@.parsers) == target,
                target == Self::drain(old(self)@.parsers),
                self@.current == old(self)@.current,
                self@.stream_end_emitted == old(self)@.stream_end_emitted,
            decreases Self::total_work(self@.parsers),
        {
            if self.parsers.len() == 0 {
                assert(self@.parsers.len() == 0);
                return Ok((Event::StreamEnd, Span::empty(Marker::new(0, 1, 0))));
            }
            let ghost ps = self@.parsers;
            proof {
                Self::lemma_drain_steps(ps);
            }
            let mut top = self.parsers.pop().unwrap();
            assert(self@.parsers =~= ps.drop_last());
            assert(top@ == ps.last());
            let res = top.next_event();
            match res {
                None => {
                    self.hand_offset_from(&top);
                },
                Some(Err(e)) => {
                    self.hand_offset_from(&top);
                    if info_mentions_eof(e.info()) {
                        continue;
                    }
                    return Err(e);
                },
                Some(Ok((ev, span))) => {
                    let nested = self.parsers.len() > 0;
                    match ev {
                        Event::StreamEnd => {
                            self.hand_offset_from(&top);
                        },
                        Event::StreamStart if nested => {
                            self.parsers.push(top);
                            assert(self@.parsers =~= ps.drop_last().push(top@));
                        },
                        Event::DocumentStart(_) if nested => {
                            self.parsers.push(top);
                            assert(self@.parsers =~= ps.drop_last().push(top@));
                        },
                        Event::DocumentEnd if nested => {
                            if top.peek_is_done() {
                                self.hand_offset_from(&top);
                            } else {
                                self.parsers.push(top);
                                assert(self@.parsers =~= ps.drop_last().push(top@));
                                return Err(
                                    ScanError::new_str(
                                        span.start,
                                        "multiple documents not supported here",
                                    ),
                                );
                            }
                        },
                        other => {
                            self.parsers.push(top);
                            assert(self@.parsers =~= ps.drop_last().push(top@));
                            return Ok((other, span));
                        },
                    }
                },
            }
        }
    }
}

impl<S: EventParser, B: EventParser, C: EventParser> Default for ParserStack<S, B, C> {
    fn default() -> (s: Self)
        ensures
            s@ == Self::empty_model(),
    {
        Self::new()
    }
}

/// Whether `step` hands out the end of the stream.
pub open spec fn is_stream_end(step: StackStep) -> bool {
    match step {
        StackStep::Yield((ev, _)) => ev is StreamEnd,
        _ => false,
    }
}

fn info_mentions_eof(info: &str) -> (r: bool)
    ensures
        r == mentions_eof(info@),
{
    let mut before_last: char = ' ';
    let mut last: char = ' ';
    let mut seen: u8 = 0;
    for c in it: info.chars()
        invariant
            it.seq() == info@,
            seen <= 2,
            seen == (if it.index() < 2 { it.index() } else { 2 }),
            seen >= 1 ==> last == info@[it.index() - 1],
            seen >= 2 ==> before_last == info@[it.index() - 2],
            forall|i: int|
                0 <= i && i + 3 <= it.index() ==> !(#[trigger] info@[i] == 'E' && info@[i + 1] == 'O'
                    && info@[i + 2] == 'F'),
    {
        let ghost idx = it.index();
        if seen == 2 && before_last == 'E' && last == 'O' && c == 'F' {
            assert(info@[idx - 2] == 'E');
            return true;
        }
        before_last = last;
        last = c;
        if seen < 2 {
            seen = seen + 1;
        }
    }
    false
}

} // verus!
