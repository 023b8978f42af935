use saphyr_parser_bw::event::{Event, ParseResult, ScalarStyle};
use saphyr_parser_bw::parser::{EventRecorder, RecordedParser};
use saphyr_parser_bw::parser_stack::ParserStack;
use saphyr_parser_bw::scanner::{Marker, Span};

type MyStack = ParserStack<RecordedParser, RecordedParser, RecordedParser>;

fn span() -> Span {
    Span::empty(Marker::new(0, 1, 0))
}

fn scalar(value: &str, anchor: usize) -> Event {
    Event::Scalar(value.to_string(), ScalarStyle::Plain, anchor, None)
}

/// The events a parser gives for a text of one mapping per document, each
/// mapping given as its (key, value, anchor of the value) entries.
fn record(docs: &[&[(&str, &str, usize)]]) -> RecordedParser {
    let mut events: Vec<ParseResult> = vec![Ok((Event::StreamStart, span()))];
    for (i, doc) in docs.iter().enumerate() {
        events.push(Ok((Event::DocumentStart(i > 0), span())));
        events.push(Ok((Event::MappingStart(0, None), span())));
        for (key, value, anchor) in doc.iter() {
            events.push(Ok((scalar(key, 0), span())));
            events.push(Ok((scalar(value, *anchor), span())));
        }
        events.push(Ok((Event::MappingEnd, span())));
        events.push(Ok((Event::DocumentEnd, span())));
    }
    events.push(Ok((Event::StreamEnd, span())));
    RecordedParser::new(events)
}

fn collect_events(stack: &mut MyStack) -> Result<Vec<Event>, String> {
    let mut events = Vec::new();
    loop {
        match stack.next_event() {
            Some(Ok((ev, _))) => {
                let is_end = matches!(ev, Event::StreamEnd);
                events.push(ev);
                if is_end {
                    break;
                }
            }
            Some(Err(e)) => return Err(e.info().to_string()),
            None => break,
        }
    }
    Ok(events)
}

fn format_events(events: &[Event]) -> Vec<String> {
    events
        .iter()
        .map(|e| match e {
            Event::StreamStart => "StreamStart".to_string(),
            Event::StreamEnd => "StreamEnd".to_string(),
            Event::DocumentStart(_) => "DocStart".to_string(),
            Event::DocumentEnd => "DocEnd".to_string(),
            Event::Scalar(val, _, _, _) => format!("Scalar({})", val),
            Event::MappingStart(_, _) => "MapStart".to_string(),
            Event::MappingEnd => "MapEnd".to_string(),
            Event::SequenceStart(_, _) => "SeqStart".to_string(),
            Event::SequenceEnd => "SeqEnd".to_string(),
            _ => "Other".to_string(),
        })
        .collect()
}

#[test]
fn test_single_parser() {
    let mut stack: MyStack = ParserStack::new();
    stack.push_str_parser(record(&[&[("a", "b", 0)]]), "p1".to_string());

    let events = collect_events(&mut stack).unwrap();
    let names = format_events(&events);

    assert_eq!(
        names,
        vec![
            "StreamStart", "DocStart", "MapStart", "Scalar(a)", "Scalar(b)", "MapEnd", "DocEnd",
            "StreamEnd"
        ]
    );
}

#[test]
fn test_two_parsers_switching() {
    let mut stack: MyStack = ParserStack::new();
    // pushed first, so it's at the bottom (yields last)
    stack.push_str_parser(record(&[&[("a", "1", 0)]]), "p1".to_string());
    // pushed second, so it's at the top (yields first)
    stack.push_str_parser(record(&[&[("b", "2", 0)]]), "p2".to_string());

    let events = collect_events(&mut stack).unwrap();
    let names = format_events(&events);

    assert_eq!(
        names,
        vec![
            "MapStart", "Scalar(b)", "Scalar(2)", "MapEnd", "StreamStart", "DocStart", "MapStart",
            "Scalar(a)", "Scalar(1)", "MapEnd", "DocEnd", "StreamEnd"
        ]
    );
}

#[test]
fn test_two_parsers_second_has_two_docs_error() {
    let mut stack: MyStack = ParserStack::new();
    stack.push_str_parser(record(&[&[("a", "1", 0)]]), "p1".to_string());
    // p2 is top. it has two documents. this should fail.
    stack.push_str_parser(record(&[&[("b", "2", 0)], &[("c", "3", 0)]]), "p2".to_string());

    let res = collect_events(&mut stack);
    assert!(res.is_err());
    assert!(res.unwrap_err().contains("multiple documents not supported here"));
}

#[test]
fn test_two_parsers_first_has_multiple_docs_fine() {
    let mut stack: MyStack = ParserStack::new();
    // p1 is bottom. It can have multiple documents.
    stack.push_str_parser(record(&[&[("a", "1", 0)], &[("c", "3", 0)]]), "p1".to_string());
    // p2 is top. Single document.
    stack.push_str_parser(record(&[&[("b", "2", 0)]]), "p2".to_string());

    let events = collect_events(&mut stack).unwrap();
    let names = format_events(&events);

    assert_eq!(
        names,
        vec![
            // p2
            "MapStart", "Scalar(b)", "Scalar(2)", "MapEnd",
            // p1 doc 1
            "StreamStart", "DocStart", "MapStart", "Scalar(a)", "Scalar(1)", "MapEnd", "DocEnd",
            // p1 doc 2
            "DocStart", "MapStart", "Scalar(c)", "Scalar(3)", "MapEnd", "DocEnd", "StreamEnd"
        ]
    );
}

#[test]
fn test_three_parsers_dynamic_adding() {
    let mut stack: MyStack = ParserStack::new();
    stack.push_str_parser(record(&[&[("p1", "1", 0)]]), "p1".to_string());

    // Fetch first event from top parser (p1)
    let ev1 = stack.next_event().unwrap().unwrap().0;
    assert!(matches!(ev1, Event::StreamStart));

    // Now push middle parser
    stack.push_str_parser(record(&[&[("p2", "2", 0)]]), "p2".to_string());

    // Fetch first event from middle parser (p2)
    let ev2 = stack.next_event().unwrap().unwrap().0;
    assert!(matches!(ev2, Event::MappingStart(..)));

    // Now push third parser
    stack.push_str_parser(record(&[&[("p3", "3", 0)]]), "p3".to_string());

    // Consume the rest
    let events = collect_events(&mut stack).unwrap();
    let names = format_events(&events);

    // p3 content:
    let mut expected = vec!["MapStart", "Scalar(p3)", "Scalar(3)", "MapEnd"];
    // p2 rest (already yielded MapStart, so now it's Scalar(p2)):
    expected.extend(vec!["Scalar(p2)", "Scalar(2)", "MapEnd"]);
    // p1 rest (already yielded StreamStart):
    expected.extend(vec![
        "DocStart", "MapStart", "Scalar(p1)", "Scalar(1)", "MapEnd", "DocEnd", "StreamEnd",
    ]);

    let expected_names: Vec<String> = expected.into_iter().map(|s| s.to_string()).collect();
    assert_eq!(names, expected_names);
}

#[test]
fn test_anchor_id_propagation() {
    let mut stack: MyStack = ParserStack::new();
    // k1: &a v1
    // k3: &c v3
    stack.push_str_parser(record(&[&[("k1", "v1", 1), ("k3", "v3", 1)]]), "p1".to_string());

    let mut events = Vec::new();

    // Read until v1 is consumed
    loop {
        let ev = stack.next_event().unwrap().unwrap().0;
        let is_v1 = if let Event::Scalar(val, _, anchor_id, _) = &ev {
            if val == "v1" {
                assert_eq!(*anchor_id, 1, "First anchor should have ID 1");
                true
            } else {
                false
            }
        } else {
            false
        };

        events.push(ev);
        if is_v1 {
            break;
        }
    }

    // Push inner parser after consuming first anchor event: k2: &b v2
    stack.push_str_parser(record(&[&[("k2", "v2", 1)]]), "p2".to_string());

    // Consume the rest
    loop {
        match stack.next_event() {
            Some(Ok((ev, _))) => {
                let is_end = matches!(ev, Event::StreamEnd);
                events.push(ev);
                if is_end {
                    break;
                }
            }
            Some(Err(e)) => panic!("Parse error: {}", e.info()),
            None => break,
        }
    }

    // Verify anchor IDs for v2 and v3
    let v2_ev = events
        .iter()
        .find(|e| matches!(e, Event::Scalar(v, _, _, _) if v == "v2"))
        .unwrap();
    if let Event::Scalar(_, _, id, _) = v2_ev {
        assert_eq!(*id, 2, "Second anchor (from inner parser) should have ID 2");
    }

    let v3_ev = events
        .iter()
        .find(|e| matches!(e, Event::Scalar(v, _, _, _) if v == "v3"))
        .unwrap();
    if let Event::Scalar(_, _, id, _) = v3_ev {
        assert_eq!(*id, 3, "Third anchor (from parent parser after inner) should have ID 3");
    }
}

fn received_events(recv: EventRecorder) -> Vec<Event> {
    recv.into_events().into_iter().map(|(ev, _)| ev).collect()
}

#[test]
fn test_parser_stack_load() {
    let mut stack: MyStack = ParserStack::new();
    stack.push_str_parser(record(&[&[("a", "1", 0)], &[("c", "3", 0)]]), "p1".to_string());
    stack.push_str_parser(record(&[&[("b", "2", 0)]]), "p2".to_string());

    let mut recv = EventRecorder::new();

    // Load with multi = true
    stack.load(&mut recv, true).unwrap();

    let names = format_events(&received_events(recv));

    assert_eq!(
        names,
        vec![
            // p2
            "MapStart", "Scalar(b)", "Scalar(2)", "MapEnd",
            // p1 doc 1
            "StreamStart", "DocStart", "MapStart", "Scalar(a)", "Scalar(1)", "MapEnd", "DocEnd",
            // p1 doc 2
            "DocStart", "MapStart", "Scalar(c)", "Scalar(3)", "MapEnd", "DocEnd", "StreamEnd"
        ]
    );
}

#[test]
fn test_parser_stack_load_single() {
    let mut stack: MyStack = ParserStack::new();
    stack.push_str_parser(record(&[&[("a", "1", 0)], &[("c", "3", 0)]]), "p1".to_string());
    stack.push_str_parser(record(&[&[("b", "2", 0)]]), "p2".to_string());

    let mut recv = EventRecorder::new();

    // Load with multi = false: stops after the first end of document that
    // comes through, the bottom parser's.
    stack.load(&mut recv, false).unwrap();

    let names = format_events(&received_events(recv));

    assert_eq!(
        names,
        vec![
            // p2
            "MapStart", "Scalar(b)", "Scalar(2)", "MapEnd",
            // p1 doc 1
            "StreamStart", "DocStart", "MapStart", "Scalar(a)", "Scalar(1)", "MapEnd", "DocEnd"
        ]
    );
}

#[test]
fn test_iterator_impl() {
    let mut stack: MyStack = ParserStack::new();
    stack.push_str_parser(record(&[&[("a", "b", 0)]]), "p1".to_string());

    // read the stack to its end, as iterating over it does
    let mut events = Vec::new();
    while let Some(ev) = stack.next_event() {
        let (e, _) = ev.unwrap();
        events.push(e);
    }

    let names = format_events(&events);
    assert_eq!(
        names,
        vec![
            "StreamStart", "DocStart", "MapStart", "Scalar(a)", "Scalar(b)", "MapEnd", "DocEnd",
            "StreamEnd"
        ]
    );
}
