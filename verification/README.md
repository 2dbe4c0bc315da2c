# rufsm

A Harel statechart (SCXML) library whose logic is proved with Verus.

## Layout

- `src/collections.rs` – `List`, `OrderedSet`, `Queue` and `HashTable` with the signatures
  of the W3C SCXML pseudo-code; their contents are modelled as sequences and maps.
- `src/sorting.rs` – stable sorting by a comparison function (total order), used by
  `List::sort` and `OrderedSet::sort`.
- `src/fsm.rs` – states, transitions, events and the W3C interpretation algorithm:
  transition selection and conflict removal, exit and entry sets, history, `microstep`,
  the rounds of a macrostep and the handling of an external event (a session executor
  runs the blocking loop around them), the invokes to start, finalize and forward,
  `exitInterpreter`.
- `src/executable_content.rs` – delay parsing, `<raise>`, and `<send>`.
- `src/expression_parser.rs` – the parser of the expression language over the lexer's
  tokens: sub-expressions, brackets, calls, members, indexes, arrays, maps, sequences and
  the operator folding by priority, with its precedence laws.
- `src/reader.rs` – reading SCXML text (quick-xml gives the tags and attributes) under the
  reader's structure rules (allowed parent elements, attribute rules, start and end tags)
  into a state machine.
- `src/model_builder.rs` – building the model while a document is read: states (also those
  named before they are declared), parents and children, initial transitions, histories,
  transitions with their events, conditions and targets.
- `src/fsm_serializer.rs` – writing and reading whole state machines in the binary
  protocol, with the round-trip law.
- `src/well_formed.rs` – deciding whether a state machine is well formed.
- `src/scxml_event_io_processor.rs` – target resolution of the SCXML Event I/O Processor.
- `src/protocol.rs` – the binary protocol writer and reader, with round-trip proofs.
- `src/decimal.rs` – decimal text of integers and the text of floating-point values.
- `src/tracer.rs`, `src/test_tracer.rs` – trace modes, trace control events, and the
  tracer that records the active configuration of a test run.
- `src/console.rs` – the commands of the interactive console.
- `src/common.rs` – program argument options and their parsing.
- `src/datamodel.rs` – source code of data model expressions.
- `app/main.rs` – the console program: arguments, logging, reading the SCXML files named
  on the command line, and the input loop.
- `tests/` – tests of the library.
