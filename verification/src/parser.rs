//! What the parser stack needs of a parser, and a parser that replays a
//! recorded event stream.
use vstd::prelude::*;

use crate::event::{Event, ParseResult};
use crate::scanner::{ScanError, Span};

verus! {

/// A YAML event parser as seen by a parser stack.
///
/// A parser is deterministic and is described by its view, its state: from a
/// state, `upcoming` is what the next call of `next_event` hands out (`None`
/// once the input is exhausted), `advanced` is the state after that call and
/// `peeked` the state after a call of `peek`.  Anchors are numbered by a
/// counter, the anchor offset, which the stack reads and sets so that anchor
/// ids stay unique across parsers.  `work_left` bounds the number of results
/// still to come, so that draining a parser ends.
pub trait EventParser: View + Sized {
    /// The result the next call of `next_event` hands out.
    spec fn upcoming(state: Self::V) -> Option<ParseResult>;

    /// The state after a call of `next_event`.
    spec fn advanced(state: Self::V) -> Self::V;

    /// The state after a call of `peek`.
    spec fn peeked(state: Self::V) -> Self::V;

    /// The current value of the anchor counter.
    spec fn anchor_offset(state: Self::V) -> usize;

    /// The state with its anchor counter set to `offset`.
    spec fn with_anchor_offset(state: Self::V, offset: usize) -> Self::V;

    /// A bound on the number of results still to come.
    spec fn work_left(state: Self::V) -> nat;

    /// Handing out a result uses up work; peeking and setting the anchor
    /// counter add none; the anchor counter reads back what was set; an event
    /// that `peek` shows is what `next_event` then hands out.
    proof fn lemma_state_laws(state: Self::V)
        ensures
            Self::upcoming(state) matches Some(Ok(_)) ==> Self::upcoming(Self::peeked(state))
                == Self::upcoming(state),
            forall|offset: usize| #[trigger]
                Self::anchor_offset(Self::with_anchor_offset(state, offset)) == offset,
            Self::upcoming(state) is Some ==> Self::work_left(Self::advanced(state))
                < Self::work_left(state),
            Self::work_left(Self::peeked(state)) <= Self::work_left(state),
            forall|offset: usize| #[trigger]
                Self::work_left(Self::with_anchor_offset(state, offset)) == Self::work_left(
                    state,
                ),
    ;

    /// Hands out the next event, or `None` once the input is exhausted.
    fn next_event(&mut self) -> (r: Option<ParseResult>)
        ensures
            r == Self::upcoming(old(self)@),
            final(self)@ == Self::advanced(old(self)@),
    ;

    /// Shows what `next_event` would hand out next.
    fn peek(&mut self) -> (r: Option<Result<&(Event, Span), ScanError>>)
        ensures
            final(self)@ == Self::peeked(old(self)@),
            match r {
                None => Self::upcoming(old(self)@) is None,
                Some(Ok(x)) => Self::upcoming(old(self)@) == Some(
                    Ok::<(Event, Span), ScanError>(*x),
                ),
                Some(Err(e)) => Self::upcoming(old(self)@) == Some(
                    Err::<(Event, Span), ScanError>(e),
                ),
            },
    ;

    /// Reads the anchor counter.
    fn get_anchor_offset(&self) -> (r: usize)
        ensures
            r == Self::anchor_offset(self@),
    ;

    /// Sets the anchor counter.
    fn set_anchor_offset(&mut self, offset: usize)
        ensures
            final(self)@ == Self::with_anchor_offset(old(self)@, offset),
    ;
}

/// Receives the events of a parse, with their spans.
///
/// `received` is the sequence of events the receiver has been handed so far,
/// in order.
pub trait SpannedEventReceiver {
    /// The events handed to the receiver so far, first one first.
    spec fn received(&self) -> Seq<(Event, Span)>;

    /// Handles one event.
    fn on_event(&mut self, ev: Event, span: Span)
        ensures
            final(self).received() == old(self).received().push((ev, span)),
    ;
}

/// A receiver that keeps every event it is handed, in order.
pub struct EventRecorder {
    events: Vec<(Event, Span)>,
}

impl EventRecorder {
    /// A recorder that has received nothing.
    pub fn new() -> (r: EventRecorder)
        ensures
            r.received() == Seq::<(Event, Span)>::empty(),
    {
        EventRecorder { events: Vec::new() }
    }

    /// The events received so far, first one first.
    pub fn events(&self) -> (v: &Vec<(Event, Span)>)
        ensures
            v@ == self.received(),
    {
        &self.events
    }

    /// Gives up the recorder for the events it received.
    pub fn into_events(self) -> (v: Vec<(Event, Span)>)
        ensures
            v@ == self.received(),
    {
        self.events
    }
}

impl SpannedEventReceiver for EventRecorder {
    closed spec fn received(&self) -> Seq<(Event, Span)> {
        self.events@
    }

    fn on_event(&mut self, ev: Event, span: Span) {
        self.events.push((ev, span));
    }
}

/// Whether `ev` defines an anchor (a node event with a nonzero anchor id).
pub open spec fn defines_anchor(ev: Event) -> bool {
    match ev {
        Event::Scalar(_, _, id, _) => id != 0,
        Event::SequenceStart(id, _) => id != 0,
        Event::MappingStart(id, _) => id != 0,
        _ => false,
    }
}

/// `ev` with its anchor id replaced by `id`; events without one are unchanged.
pub open spec fn with_anchor_id(ev: Event, id: usize) -> Event {
    match ev {
        Event::Scalar(value, style, _, tag) => Event::Scalar(value, style, id, tag),
        Event::SequenceStart(_, tag) => Event::SequenceStart(id, tag),
        Event::MappingStart(_, tag) => Event::MappingStart(id, tag),
        other => other,
    }
}

/// The id given to the next anchor when `count` anchors were given out
/// before; ids stop growing at `usize::MAX`.
pub open spec fn next_anchor_id(count: usize) -> usize {
    if count < usize::MAX {
        (count + 1) as usize
    } else {
        usize::MAX
    }
}

/// A recorded result as handed out when the anchor counter is `count`: an
/// anchor definition gets the next anchor id.
pub open spec fn numbered(r: ParseResult, count: usize) -> ParseResult {
    match r {
        Ok((ev, span)) => if defines_anchor(ev) {
            Ok((with_anchor_id(ev, next_anchor_id(count)), span))
        } else {
            Ok((ev, span))
        },
        Err(e) => Err(e),
    }
}

/// The anchor counter after handing out the recorded result `r`.
pub open spec fn count_after(r: ParseResult, count: usize) -> usize {
    match r {
        Ok((ev, _)) => if defines_anchor(ev) {
            next_anchor_id(count)
        } else {
            count
        },
        Err(_) => count,
    }
}

/// The state of a [`RecordedParser`].
pub struct Recording {
    /// The recorded results still to come, the next one first.
    pub pending: Seq<ParseResult>,
    /// An event read by `peek` and not yet handed out.
    pub current: Option<(Event, Span)>,
    /// The number of anchor ids given out so far (the anchor offset).
    pub anchor_count: usize,
}

/// A parser that replays a recorded stream of results, numbering the anchors
/// it hands out from its anchor counter.
///
/// In the recording a node event defines an anchor when its anchor id is
/// nonzero; the id it is handed out with is one more than the anchor counter,
/// which then grows by one.
pub struct RecordedParser {
    // the results still to come, the next one last
    pending: Vec<ParseResult>,
    current: Option<(Event, Span)>,
    anchor_count: usize,
}

impl View for RecordedParser {
    type V = Recording;

    closed spec fn view(&self) -> Recording {
        Recording {
            pending: self.pending@.reverse(),
            current: self.current,
            anchor_count: self.anchor_count,
        }
    }
}

fn event_defines_anchor(ev: &Event) -> (r: bool)
    ensures
        r == defines_anchor(*ev),
{
    match ev {
        Event::Scalar(_, _, id, _) => *id != 0,
        Event::SequenceStart(id, _) => *id != 0,
        Event::MappingStart(id, _) => *id != 0,
        _ => false,
    }
}

fn set_anchor_id(ev: Event, id: usize) -> (r: Event)
    ensures
        r == with_anchor_id(ev, id),
{
    match ev {
        Event::Scalar(value, style, _, tag) => Event::Scalar(value, style, id, tag),
        Event::SequenceStart(_, tag) => Event::SequenceStart(id, tag),
        Event::MappingStart(_, tag) => Event::MappingStart(id, tag),
        other => other,
    }
}

impl RecordedParser {
    /// A parser that hands out `results` in order, with its anchor counter at 0.
    pub fn new(results: Vec<ParseResult>) -> (p: RecordedParser)
        ensures
            p@.pending == results@,
            p@.current is None,
            p@.anchor_count == 0,
    {
        let mut rest = results;
        let mut pending: Vec<ParseResult> = Vec::new();
        while rest.len() > 0
            invariant
                rest@ + pending@.reverse() == results@,
            decreases rest.len(),
        {
            let ghost before = pending@;
            let r = rest.pop().unwrap();
            pending.push(r);
            assert(pending@.reverse() =~= seq![r] + before.reverse());
        }
        assert(pending@.reverse() =~= results@);
        RecordedParser { pending, current: None, anchor_count: 0 }
    }

    fn number(&mut self, r: ParseResult) -> (out: ParseResult)
        ensures
            out == numbered(r, old(self).anchor_count),
            final(self).anchor_count == count_after(r, old(self).anchor_count),
            final(self).pending == old(self).pending,
            final(self).current == old(self).current,
    {
        match r {
            Ok((ev, span)) => {
                if event_defines_anchor(&ev) {
                    let id = if self.anchor_count < usize::MAX {
                        self.anchor_count + 1
                    } else {
                        usize::MAX
                    };
                    self.anchor_count = id;
                    Ok((set_anchor_id(ev, id), span))
                } else {
                    Ok((ev, span))
                }
            },
            Err(e) => Err(e),
        }
    }
}

impl EventParser for RecordedParser {
    open spec fn upcoming(state: Recording) -> Option<ParseResult> {
        match state.current {
            Some(x) => Some(Ok(x)),
            None => if state.pending.len() > 0 {
                Some(numbered(state.pending[0], state.anchor_count))
            } else {
                None
            },
        }
    }

    open spec fn advanced(state: Recording) -> Recording {
        match state.current {
            Some(_) => Recording { current: None, ..state },
            None => if state.pending.len() > 0 {
                Recording {
                    pending: state.pending.drop_first(),
                    current: None,
                    anchor_count: count_after(state.pending[0], state.anchor_count),
                }
            } else {
                state
            },
        }
    }

    open spec fn peeked(state: Recording) -> Recording {
        match state.current {
            Some(_) => state,
            None => if state.pending.len() > 0 {
                match numbered(state.pending[0], state.anchor_count) {
                    Ok(x) => Recording {
                        pending: state.pending.drop_first(),
                        current: Some(x),
                        anchor_count: count_after(state.pending[0], state.anchor_count),
                    },
                    Err(_) => Recording {
                        pending: state.pending.drop_first(),
                        current: None,
                        anchor_count: state.anchor_count,
                    },
                }
            } else {
                state
            },
        }
    }

    open spec fn anchor_offset(state: Recording) -> usize {
        state.anchor_count
    }

    open spec fn with_anchor_offset(state: Recording, offset: usize) -> Recording {
        Recording { anchor_count: offset, ..state }
    }

    open spec fn work_left(state: Recording) -> nat {
        state.pending.len() + if state.current is Some {
            1nat
        } else {
            0nat
        }
    }

    proof fn lemma_state_laws(state: Recording) {
    }

    fn next_event(&mut self) -> (r: Option<ParseResult>) {
        if self.current.is_some() {
            let x = self.current.take().unwrap();
            return Some(Ok(x));
        }
        let ghost before = self.pending@;
        match self.pending.pop() {
            None => None,
            Some(r) => {
                assert(before.reverse().drop_first() =~= self.pending@.reverse());
                Some(self.number(r))
            },
        }
    }

    fn peek(&mut self) -> (r: Option<Result<&(Event, Span), ScanError>>) {
        if self.current.is_none() {
            let ghost before = self.pending@;
            match self.pending.pop() {
                None => {
                    return None;
                },
                Some(r) => {
                    assert(before.reverse().drop_first() =~= self.pending@.reverse());
                    match self.number(r) {
                        Ok(x) => {
                            self.current = Some(x);
                        },
                        Err(e) => {
                            return Some(Err(e));
                        },
                    }
                },
            }
        }
        match &self.current {
            Some(x) => Some(Ok(x)),
            None => None,
        }
    }

    fn get_anchor_offset(&self) -> (r: usize) {
        self.anchor_count
    }

    fn set_anchor_offset(&mut self, offset: usize) {
        self.anchor_count = offset;
    }
}


/// A recorded parser hands out its recording in order: a peeked event
/// first; then the next recorded result as it stands, except that a node
/// event with a nonzero anchor id gets the id one above the counter (while
/// the counter is below `usize::MAX`), and the counter moves up to that id;
/// once the recording is used up it hands out nothing.
pub proof fn law_recorded_replay(state: Recording)
    ensures
        match state.current {
            Some(x) => RecordedParser::upcoming(state) == Some(Ok::<(Event, Span), ScanError>(x))
                && RecordedParser::advanced(state).current is None
                && RecordedParser::advanced(state).pending == state.pending,
            None => if state.pending.len() == 0 {
                RecordedParser::upcoming(state) is None
            } else {
                &&& RecordedParser::advanced(state).pending == state.pending.drop_first()
                &&& match state.pending[0] {
                    Ok((Event::Scalar(v, st, id, tag), span)) => if id != 0
                        && state.anchor_count < usize::MAX {
                        &&& RecordedParser::upcoming(state) == Some(
                            Ok::<(Event, Span), ScanError>(
                                (Event::Scalar(v, st, (state.anchor_count + 1) as usize, tag), span),
                            ),
                        )
                        &&& RecordedParser::advanced(state).anchor_count == state.anchor_count + 1
                    } else if id == 0 {
                        RecordedParser::upcoming(state) == Some(state.pending[0])
                            && RecordedParser::advanced(state).anchor_count
                            == state.anchor_count
                    } else {
                        true
                    },
                    Ok((Event::MappingStart(id, tag), span)) => id != 0 && state.anchor_count
                        < usize::MAX ==> RecordedParser::upcoming(state) == Some(
                        Ok::<(Event, Span), ScanError>(
                            (Event::MappingStart((state.anchor_count + 1) as usize, tag), span),
                        ),
                    ),
                    Ok((Event::SequenceStart(id, tag), span)) => id != 0 && state.anchor_count
                        < usize::MAX ==> RecordedParser::upcoming(state) == Some(
                        Ok::<(Event, Span), ScanError>(
                            (Event::SequenceStart((state.anchor_count + 1) as usize, tag), span),
                        ),
                    ),
                    Ok((ev, _)) => !(ev is Scalar || ev is MappingStart || ev is SequenceStart)
                        ==> RecordedParser::upcoming(state) == Some(state.pending[0])
                        && RecordedParser::advanced(state).anchor_count == state.anchor_count,
                    Err(_) => RecordedParser::upcoming(state) == Some(state.pending[0])
                        && RecordedParser::advanced(state).anchor_count == state.anchor_count,
                }
            },
        },
{
}

} // verus!
