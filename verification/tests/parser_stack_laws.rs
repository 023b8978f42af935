use saphyr_parser_bw::event::{Event, ParseResult, ScalarStyle, Tag};
use saphyr_parser_bw::parser::{EventParser, EventRecorder, RecordedParser};
use saphyr_parser_bw::parser_stack::ParserStack;
use saphyr_parser_bw::scanner::{Marker, ScanError, Span};

type Stack = ParserStack<RecordedParser, RecordedParser, RecordedParser>;

fn at(index: usize) -> Span {
    Span::new(Marker::new(index, 1, index), Marker::new(index + 1, 1, index + 1))
}

fn ev(e: Event, index: usize) -> ParseResult {
    Ok((e, at(index)))
}

fn scalar(value: &str) -> Event {
    Event::Scalar(value.to_string(), ScalarStyle::Plain, 0, None)
}

fn doc(value: &str) -> Vec<ParseResult> {
    vec![
        ev(Event::StreamStart, 0),
        ev(Event::DocumentStart(false), 1),
        ev(scalar(value), 2),
        ev(Event::DocumentEnd, 3),
        ev(Event::StreamEnd, 4),
    ]
}

fn label(r: &ParseResult) -> String {
    match r {
        Ok((Event::StreamStart, _)) => "StreamStart".to_string(),
        Ok((Event::StreamEnd, _)) => "StreamEnd".to_string(),
        Ok((Event::DocumentStart(_), _)) => "DocStart".to_string(),
        Ok((Event::DocumentEnd, _)) => "DocEnd".to_string(),
        Ok((Event::Scalar(v, _, _, _), _)) => format!("Scalar({})", v),
        Ok(_) => "Other".to_string(),
        Err(e) => format!("Err({})", e.info()),
    }
}

#[test]
fn empty_stack_ends_the_stream_once() {
    let mut stack: Stack = ParserStack::new();
    assert!(stack.stack().is_empty());
    match stack.next_event() {
        Some(Ok((Event::StreamEnd, span))) => {
            assert_eq!(span, Span::empty(Marker::new(0, 1, 0)));
        }
        _ => panic!("expected the end of the stream"),
    }
    assert!(stack.next_event().is_none());
    assert!(stack.peek().is_none());
}

#[test]
fn default_stack_is_empty() {
    let stack: Stack = ParserStack::default();
    assert!(stack.stack().is_empty());
}

#[test]
fn stack_lists_names_bottom_first_and_shrinks() {
    let mut stack: Stack = ParserStack::new();
    stack.push_str_parser(RecordedParser::new(doc("a")), "outer".to_string());
    stack.push_iter_parser(RecordedParser::new(doc("b")), "middle".to_string());
    stack.push_custom_parser(RecordedParser::new(doc("c")), "inner".to_string());
    assert_eq!(stack.stack(), vec!["outer", "middle", "inner"]);

    // inner gives its scalar; its framing is dropped
    assert_eq!(label(&stack.next_event().unwrap()), "Scalar(c)");
    assert_eq!(stack.stack(), vec!["outer", "middle", "inner"]);
    // inner is done: it leaves, middle takes over
    assert_eq!(label(&stack.next_event().unwrap()), "Scalar(b)");
    assert_eq!(stack.stack(), vec!["outer", "middle"]);
    assert_eq!(label(&stack.next_event().unwrap()), "StreamStart");
    assert_eq!(stack.stack(), vec!["outer"]);
}

#[test]
fn peek_shows_what_next_event_gives() {
    let mut stack: Stack = ParserStack::new();
    stack.push_str_parser(RecordedParser::new(doc("a")), "p".to_string());
    let shown = match stack.peek() {
        Some(Ok((e, span))) => (label(&Ok((e.clone(), *span))), *span),
        _ => panic!("expected an event"),
    };
    assert_eq!(shown.0, "StreamStart");
    let again = match stack.peek() {
        Some(Ok((e, span))) => (label(&Ok((e.clone(), *span))), *span),
        _ => panic!("expected an event"),
    };
    assert_eq!(again, shown);
    match stack.next_event() {
        Some(Ok((Event::StreamStart, span))) => assert_eq!(span, shown.1),
        _ => panic!("expected the peeked event"),
    }
    assert_eq!(label(&stack.next_event().unwrap()), "DocStart");
}


#[test]
fn nothing_comes_after_the_end_of_the_stream() {
    let mut stack: Stack = ParserStack::new();
    stack.push_str_parser(RecordedParser::new(doc("a")), "p".to_string());
    let mut labels = Vec::new();
    while let Some(r) = stack.next_event() {
        labels.push(label(&r));
    }
    assert_eq!(labels, vec!["StreamStart", "DocStart", "Scalar(a)", "DocEnd", "StreamEnd"]);
    assert!(stack.next_event().is_none());
    assert!(stack.peek().is_none());
    stack.push_str_parser(RecordedParser::new(doc("b")), "late".to_string());
    assert_eq!(stack.stack(), vec!["late"]);
    assert!(stack.next_event().is_none());
}

#[test]
fn errors_come_through_and_eof_errors_end_the_parser() {
    let mut stack: Stack = ParserStack::new();
    let mut outer = doc("a");
    outer.insert(3, Err(ScanError::new_str(Marker::new(7, 2, 3), "bad indentation")));
    stack.push_str_parser(RecordedParser::new(outer), "outer".to_string());
    stack.push_str_parser(
        RecordedParser::new(vec![
            ev(scalar("x"), 0),
            Err(ScanError::new(Marker::new(9, 1, 9), "unexpected EOF while scanning".to_string())),
            ev(scalar("never"), 1),
        ]),
        "inner".to_string(),
    );
    assert_eq!(label(&stack.next_event().unwrap()), "Scalar(x)");
    // the EOF error ends the inner parser, and the outer one takes over
    assert_eq!(label(&stack.next_event().unwrap()), "StreamStart");
    assert_eq!(stack.stack(), vec!["outer"]);
    assert_eq!(label(&stack.next_event().unwrap()), "DocStart");
    assert_eq!(label(&stack.next_event().unwrap()), "Scalar(a)");
    match stack.next_event() {
        Some(Err(e)) => {
            assert_eq!(e.info(), "bad indentation");
            assert_eq!(*e.marker(), Marker::new(7, 2, 3));
        }
        _ => panic!("expected the parser's error"),
    }
    // the failing parser left the stack
    assert!(stack.stack().is_empty());
    assert_eq!(label(&stack.next_event().unwrap()), "StreamEnd");
}

#[test]
fn nested_second_document_is_refused_at_the_first_end() {
    let mut stack: Stack = ParserStack::new();
    stack.push_str_parser(RecordedParser::new(doc("a")), "outer".to_string());
    let mut two = doc("b");
    two.insert(4, ev(Event::DocumentStart(true), 9));
    stack.push_str_parser(RecordedParser::new(two), "inner".to_string());
    assert_eq!(label(&stack.next_event().unwrap()), "Scalar(b)");
    match stack.next_event() {
        Some(Err(e)) => {
            assert_eq!(e.info(), "multiple documents not supported here");
            assert_eq!(*e.marker(), Marker::new(3, 1, 3));
        }
        _ => panic!("expected the multiple documents error"),
    }
    // the refusing parser stays on the stack
    assert_eq!(stack.stack(), vec!["outer", "inner"]);
}

#[test]
fn nested_end_of_document_followed_by_an_error_is_refused() {
    let mut stack: Stack = ParserStack::new();
    stack.push_str_parser(RecordedParser::new(doc("a")), "outer".to_string());
    stack.push_str_parser(
        RecordedParser::new(vec![
            ev(Event::DocumentEnd, 5),
            Err(ScanError::new_str(Marker::new(6, 1, 6), "oops")),
        ]),
        "inner".to_string(),
    );
    match stack.next_event() {
        Some(Err(e)) => assert_eq!(e.info(), "multiple documents not supported here"),
        _ => panic!("expected the multiple documents error"),
    }
}

#[test]
fn nested_parser_that_ends_without_stream_end_leaves() {
    let mut stack: Stack = ParserStack::new();
    stack.push_str_parser(RecordedParser::new(doc("a")), "outer".to_string());
    stack.push_str_parser(
        RecordedParser::new(vec![ev(scalar("x"), 0), ev(Event::DocumentEnd, 1)]),
        "inner".to_string(),
    );
    assert_eq!(label(&stack.next_event().unwrap()), "Scalar(x)");
    assert_eq!(label(&stack.next_event().unwrap()), "StreamStart");
    assert_eq!(stack.stack(), vec!["outer"]);
}

#[test]
fn recorded_parser_numbers_anchors_from_its_counter() {
    let mut p = RecordedParser::new(vec![
        ev(Event::MappingStart(7, None), 0),
        ev(Event::SequenceStart(0, None), 1),
        ev(Event::Scalar("v".to_string(), ScalarStyle::DoubleQuoted, 3, Some(Tag {
            handle: "!!".to_string(),
            suffix: "str".to_string(),
        })), 2),
        ev(Event::Alias(1), 3),
    ]);
    assert_eq!(p.get_anchor_offset(), 0);
    p.set_anchor_offset(40);
    match p.next_event() {
        Some(Ok((Event::MappingStart(id, _), _))) => assert_eq!(id, 41),
        _ => panic!("expected a mapping"),
    }
    match p.next_event() {
        Some(Ok((Event::SequenceStart(id, _), _))) => assert_eq!(id, 0),
        _ => panic!("expected a sequence"),
    }
    match p.peek() {
        Some(Ok((Event::Scalar(_, _, id, _), _))) => assert_eq!(*id, 42),
        _ => panic!("expected a scalar"),
    }
    assert_eq!(p.get_anchor_offset(), 42);
    match p.next_event() {
        Some(Ok((Event::Scalar(v, ScalarStyle::DoubleQuoted, id, Some(tag)), _))) => {
            assert_eq!(v, "v");
            assert_eq!(id, 42);
            assert_eq!(tag.suffix, "str");
        }
        _ => panic!("expected a scalar"),
    }
    match p.next_event() {
        Some(Ok((Event::Alias(id), _))) => assert_eq!(id, 1),
        _ => panic!("expected an alias"),
    }
    assert!(p.next_event().is_none());
    assert!(p.peek().is_none());
}

#[test]
fn anchor_ids_stop_growing_at_the_limit() {
    let mut p = RecordedParser::new(vec![
        ev(Event::MappingStart(1, None), 0),
        ev(Event::MappingStart(1, None), 1),
    ]);
    p.set_anchor_offset(usize::MAX - 1);
    match p.next_event() {
        Some(Ok((Event::MappingStart(id, _), _))) => assert_eq!(id, usize::MAX),
        _ => panic!("expected a mapping"),
    }
    match p.next_event() {
        Some(Ok((Event::MappingStart(id, _), _))) => assert_eq!(id, usize::MAX),
        _ => panic!("expected a mapping"),
    }
    assert_eq!(p.get_anchor_offset(), usize::MAX);
}

#[test]
fn pushed_parser_continues_the_anchor_count() {
    let mut stack: Stack = ParserStack::new();
    let mut outer = RecordedParser::new(vec![
        ev(Event::StreamStart, 0),
        ev(Event::MappingStart(1, None), 1),
        ev(Event::MappingStart(1, None), 2),
        ev(Event::StreamEnd, 3),
    ]);
    outer.set_anchor_offset(10);
    stack.push_str_parser(outer, "outer".to_string());
    let _ = stack.next_event();
    match stack.next_event() {
        Some(Ok((Event::MappingStart(id, _), _))) => assert_eq!(id, 11),
        _ => panic!("expected a mapping"),
    }
    // the pushed parser starts from the outer parser's counter
    stack.push_custom_parser(
        RecordedParser::new(vec![ev(Event::SequenceStart(5, None), 0)]),
        "inner".to_string(),
    );
    match stack.next_event() {
        Some(Ok((Event::SequenceStart(id, _), _))) => assert_eq!(id, 12),
        _ => panic!("expected a sequence"),
    }
    // and hands its counter back when it is done
    match stack.next_event() {
        Some(Ok((Event::MappingStart(id, _), _))) => assert_eq!(id, 13),
        _ => panic!("expected a mapping"),
    }
}

#[test]
fn load_stops_on_an_error() {
    let mut stack: Stack = ParserStack::new();
    stack.push_str_parser(
        RecordedParser::new(vec![
            ev(Event::StreamStart, 0),
            Err(ScanError::new_str(Marker::new(1, 1, 1), "broken")),
            ev(Event::StreamEnd, 2),
        ]),
        "p".to_string(),
    );
    let mut count = EventRecorder::new();
    let err = stack.load(&mut count, true).unwrap_err();
    assert_eq!(err.info(), "broken");
    assert_eq!(count.events().len(), 1);
    assert!(matches!(count.events()[0].0, Event::StreamStart));
    // the failing parser left: the next load gets the end of the stream
    let mut again = EventRecorder::new();
    assert!(stack.load(&mut again, true).is_ok());
    assert_eq!(again.events().len(), 1);
    assert!(matches!(again.events()[0].0, Event::StreamEnd));
    // and nothing more after it
    assert!(stack.load(&mut again, true).is_ok());
    assert_eq!(again.events().len(), 1);
}
