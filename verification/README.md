# saphyr_parser_bw

Verified pieces of a YAML parser, written in Verus.

- `parser_stack`: `ParserStack`, a stack of event parsers.  Events come from
  the parser pushed last; a nested parser's stream and document framing is
  dropped, a second document in it is refused, and the anchor counter is
  handed up on push and down when a parser is done.  Its behaviour is stated
  over `StackModel` by the spec functions `drain`, `after_next`,
  `after_peek`, `pushed` and `loaded`, and its laws are the `law_*` proof
  functions.
- `parser`: `EventParser`, what the stack needs of a parser;
  `RecordedParser`, a parser that replays a recorded event stream;
  `SpannedEventReceiver`, what `load` hands events to, and `EventRecorder`,
  a receiver that keeps them.
- `anchor_laws`: for stacks of recorded parsers, the anchor ids handed out
  keep growing across pushes and pops (`law_next_event_anchors_grow`,
  `law_peek_keeps_anchors_growing`, `law_push_keeps_anchors_growing`).
- `char_traits`: whether a text can stand in a block scalar, and the
  indentation of its first non-empty line.
- `yaml`: `Yaml::load_from_str` for documents of `key: "value"` lines, with
  the double-quoted escapes (JSON-style surrogate pairs included) decoded.
- `event`, `scanner`: events, markers, spans and scan errors.

Every function in `src/` is verified, except two trusted wrappers in
`yaml.rs` (`char_from_u32` around `char::from_u32` and `push_char` around
`String::push`), whose contracts restate the standard library's
documentation.  `tests/` holds the tests.
