//! Anchor ids across a stack of recorded parsers: each parser numbers its
//! anchors from its counter, and the stack hands the counter up on push and
//! down when a parser is done, so the ids handed out keep growing.
use vstd::prelude::*;

use crate::event::Event;
use crate::parser::{
    count_after, defines_anchor, next_anchor_id, numbered, with_anchor_id, RecordedParser,
    Recording,
};
use crate::parser_stack::{is_done, ParserModel, ParserStack, StackModel, StackStep};

verus! {

/// A stack of recorded parsers.
pub type RecordedStack = ParserStack<RecordedParser, RecordedParser, RecordedParser>;

/// A recorded parser on the stack.
pub type RecordedEntry = ParserModel<Recording, Recording, Recording>;

/// The anchor id an event carries: that of a scalar, sequence or mapping,
/// and 0 for every other event.
pub open spec fn anchor_id(ev: Event) -> usize {
    match ev {
        Event::Scalar(_, _, id, _) => id,
        Event::SequenceStart(id, _) => id,
        Event::MappingStart(id, _) => id,
        _ => 0,
    }
}

/// The anchor id of what one read gives (0 for anything but an event).
pub open spec fn step_anchor_id(step: Option<StackStep>) -> usize {
    match step {
        Some(StackStep::Yield((ev, _))) => anchor_id(ev),
        _ => 0,
    }
}

/// The state of a recorded parser on the stack.
pub open spec fn recording_of(p: RecordedEntry) -> Recording {
    match p {
        ParserModel::String { state, .. } => state,
        ParserModel::Iter { state, .. } => state,
        ParserModel::Custom { state, .. } => state,
    }
}

/// Whether the recorded parser holds no event read by `peek` that carries an
/// anchor.
pub open spec fn holds_no_anchor(r: Recording) -> bool {
    match r.current {
        Some((ev, _)) => anchor_id(ev) == 0,
        None => true,
    }
}

/// Whether parsers can hand out ids above `w` only: none of them holds a
/// peeked event with an anchor, and the top one's counter has reached `w`.
pub open spec fn parsers_above(parsers: Seq<RecordedEntry>, w: usize) -> bool {
    &&& forall|i: int| 0 <= i < parsers.len() ==> holds_no_anchor(#[trigger] recording_of(parsers[i]))
    &&& parsers.len() > 0 ==> recording_of(parsers.last()).anchor_count >= w
}

/// Whether everything the stack hands out from now on carries an anchor id
/// above `w` (or `usize::MAX`, where ids stop growing), `w` being the last
/// anchor id handed out.
pub open spec fn anchors_above(m: StackModel<Recording, Recording, Recording>, w: usize) -> bool {
    &&& parsers_above(m.parsers, w)
    &&& match m.current {
        Some((ev, _)) => anchor_id(ev) != 0 ==> {
            &&& m.parsers.len() > 0
            &&& anchor_id(ev) <= recording_of(m.parsers.last()).anchor_count
            &&& (w < anchor_id(ev) || anchor_id(ev) == usize::MAX)
        },
        None => true,
    }
}

proof fn lemma_entry_laws(p: RecordedEntry, offset: usize)
    ensures
        recording_of(AnyParserOf::with_offset_of(p, offset)).anchor_count == offset,
        recording_of(AnyParserOf::with_offset_of(p, offset)).current == recording_of(p).current,
        recording_of(AnyParserOf::advanced_of(p)).current is None,
        recording_of(AnyParserOf::advanced_of(p)).anchor_count >= recording_of(p).anchor_count,
        recording_of(AnyParserOf::peeked_of(p)).anchor_count >= recording_of(p).anchor_count,
        AnyParserOf::upcoming_of(p) == <RecordedParser as crate::parser::EventParser>::upcoming(
            recording_of(p),
        ),
{
    let r = recording_of(p);
    if r.current is None && r.pending.len() > 0 {
        lemma_count_after_grows(r.pending[0], r.anchor_count);
    }
}

/// The stack's view of a recorded parser.
pub type AnyParserOf = crate::parser_stack::AnyParser<RecordedParser, RecordedParser, RecordedParser>;

proof fn lemma_count_after_grows(r: crate::event::ParseResult, count: usize)
    ensures
        count_after(r, count) >= count,
        match numbered(r, count) {
            Ok((ev, _)) => anchor_id(ev) != 0 ==> {
                &&& anchor_id(ev) == count_after(r, count)
                &&& (count < anchor_id(ev) || anchor_id(ev) == usize::MAX)
            },
            Err(_) => true,
        },
{
    if let Ok((ev, _)) = r {
        if defines_anchor(ev) {
            assert(anchor_id(with_anchor_id(ev, next_anchor_id(count))) == next_anchor_id(count));
        } else {
            assert(anchor_id(ev) == 0);
        }
    }
}

/// Draining a stack whose parsers hand out ids above `w` gives an event with
/// no anchor, or one whose id is above `w` (or `usize::MAX`); afterwards the
/// parsers hand out ids above that id.
proof fn lemma_drain_anchors(parsers: Seq<RecordedEntry>, w: usize)
    requires
        parsers_above(parsers, w),
    ensures
        ({
            let (left, step) = RecordedStack::drain(parsers);
            let a = step_anchor_id(Some(step));
            step matches StackStep::Yield(_) ==> {
                &&& a != 0 ==> (w < a || a == usize::MAX) && left.len() > 0 && a
                    <= recording_of(left.last()).anchor_count
                &&& parsers_above(left, if a != 0 { a } else { w })
            }
        }),
    decreases RecordedStack::total_work(parsers),
{
    if parsers.len() > 0 {
        let top = parsers.last();
        let rest = parsers.drop_last();
        let after = AnyParserOf::advanced_of(top);
        let peeked = AnyParserOf::peeked_of(after);
        RecordedStack::lemma_drain_steps(parsers);
        lemma_entry_laws(top, 0);
        lemma_entry_laws(after, 0);
        assert(holds_no_anchor(recording_of(parsers[parsers.len() - 1])));
        let popped = RecordedStack::hand_offset(rest, after);
        let popped_peeked = RecordedStack::hand_offset(rest, peeked);
        assert forall|child: RecordedEntry|
            recording_of(child).anchor_count >= w implies #[trigger] parsers_above(
            RecordedStack::hand_offset(rest, child),
            w,
        ) by {
            let h = RecordedStack::hand_offset(rest, child);
            if rest.len() > 0 {
                lemma_entry_laws(
                    rest.last(),
                    AnyParserOf::offset_of(child),
                );
                assert forall|i: int| 0 <= i < h.len() implies holds_no_anchor(
                    #[trigger] recording_of(h[i]),
                ) by {
                    if i < h.len() - 1 {
                        assert(h[i] == parsers[i]);
                    } else {
                        assert(recording_of(h[i]).current == recording_of(parsers[i]).current);
                    }
                }
            }
        }
        assert forall|x: RecordedEntry|
            recording_of(x).anchor_count >= w && recording_of(x).current is None implies #[trigger] parsers_above(
            rest.push(x),
            w,
        ) by {
            let q = rest.push(x);
            assert forall|i: int| 0 <= i < q.len() implies holds_no_anchor(
                #[trigger] recording_of(q[i]),
            ) by {
                if i < q.len() - 1 {
                    assert(q[i] == parsers[i]);
                }
            }
        }
        let r = recording_of(top);
        if r.current is None && r.pending.len() > 0 {
            lemma_count_after_grows(r.pending[0], r.anchor_count);
        }
        match AnyParserOf::upcoming_of(top) {
            None => {
                lemma_drain_anchors(popped, w);
            },
            Some(Err(e)) => {
                if crate::parser_stack::mentions_eof(e.info@) {
                    lemma_drain_anchors(popped, w);
                }
            },
            Some(Ok((ev, span))) => {
                if ev is StreamEnd {
                    lemma_drain_anchors(popped, w);
                } else if (ev is StreamStart || ev is DocumentStart) && rest.len() > 0 {
                    lemma_drain_anchors(rest.push(after), w);
                } else if ev is DocumentEnd && rest.len() > 0 {
                    if is_done(AnyParserOf::upcoming_of(after)) {
                        lemma_entry_laws(peeked, 0);
                        lemma_drain_anchors(popped_peeked, w);
                    }
                } else {
                    let a = anchor_id(ev);
                    if a != 0 {
                        assert(recording_of(after).anchor_count >= a);
                        assert forall|x: RecordedEntry|
                            recording_of(x).anchor_count >= a && recording_of(x).current
                                is None implies #[trigger] parsers_above(rest.push(x), a) by {
                            let q = rest.push(x);
                            assert forall|i: int| 0 <= i < q.len() implies holds_no_anchor(
                                #[trigger] recording_of(q[i]),
                            ) by {
                                if i < q.len() - 1 {
                                    assert(q[i] == parsers[i]);
                                }
                            }
                        }
                        assert(parsers_above(rest.push(after), a));
                    }
                }
            },
        }
    }
}


/// An empty stack has handed out no anchor: everything it hands out carries
/// an id above 0.
pub proof fn law_anchors_start_above_zero()
    ensures
        anchors_above(RecordedStack::empty_model(), 0),
{
}

/// Pushing a recorded parser keeps anchor ids growing: the parser takes
/// over the counter of the top one, so it numbers its anchors above every
/// id handed out so far.  A parser pushed onto an empty stack must not
/// number below the last id, and a pushed parser must hold no peeked event
/// with an anchor.
pub proof fn law_push_keeps_anchors_growing(
    m: StackModel<Recording, Recording, Recording>,
    p: RecordedEntry,
    w: usize,
)
    requires
        anchors_above(m, w),
        holds_no_anchor(recording_of(p)),
        m.parsers.len() == 0 ==> recording_of(p).anchor_count >= w,
    ensures
        anchors_above(RecordedStack::pushed(m, p), w),
{
    let q = RecordedStack::pushed(m, p).parsers;
    if m.parsers.len() > 0 {
        lemma_entry_laws(p, recording_of(m.parsers.last()).anchor_count);
    }
    assert forall|i: int| 0 <= i < q.len() implies holds_no_anchor(#[trigger] recording_of(q[i])) by {
        if i < q.len() - 1 {
            assert(q[i] == m.parsers[i]);
        }
    }
}

/// Each event `next_event` hands out carries no anchor, or an anchor id
/// above the last one handed out (ids stop growing at `usize::MAX`); the
/// stack then hands out ids above it.
pub proof fn law_next_event_anchors_grow(m: StackModel<Recording, Recording, Recording>, w: usize)
    requires
        anchors_above(m, w),
    ensures
        ({
            let (next, out) = RecordedStack::after_next(m);
            let a = step_anchor_id(out);
            out matches Some(StackStep::Yield(_)) ==> {
                &&& a != 0 ==> w < a || a == usize::MAX
                &&& anchors_above(next, if a != 0 { a } else { w })
            }
        }),
{
    if m.current is None && !m.stream_end_emitted {
        lemma_drain_anchors(m.parsers, w);
    }
}

/// `peek` keeps anchor ids growing: what it shows carries no anchor, or an
/// id above the last one handed out, and the stack still hands out only ids
/// above that last one.
pub proof fn law_peek_keeps_anchors_growing(m: StackModel<Recording, Recording, Recording>, w: usize)
    requires
        anchors_above(m, w),
    ensures
        ({
            let (next, out) = RecordedStack::after_peek(m);
            let a = step_anchor_id(out);
            out matches Some(StackStep::Yield(_)) ==> {
                &&& a != 0 ==> w < a || a == usize::MAX
                &&& anchors_above(next, w)
            }
        }),
{
    if m.current is None && !m.stream_end_emitted {
        lemma_drain_anchors(m.parsers, w);
        let (left, step) = RecordedStack::drain(m.parsers);
        let a = step_anchor_id(Some(step));
        if a != 0 {
            assert(recording_of(left.last()).anchor_count >= w);
        }
    }
}

} // verus!
