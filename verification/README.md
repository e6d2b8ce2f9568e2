# infe

Streaming tool-call and reasoning parsers for LLM inference engines, and the
step-granular component framework they plug into, as a verified Verus library.

- `src/parser.rs`, `src/dialects/`: the parsers. Each dialect says what it makes
  of a text as a function from state and text to state and deltas; `feed` and
  `finish` are proved against it. The laws beside them say what holds of every
  stream: how it is cut into chunks does not matter, the deltas of each call come
  in turn, and their fragments come to the arguments.
- `src/registry.rs`, `src/types.rs`, `src/ids.rs`: dialects by name, the deltas
  and the state of a call, and tool-call identifiers.
- `src/json.rs`: the calls into `serde_json`, behind a named result.
- `src/step.rs`, `src/buffer.rs`, `src/error.rs`, `src/manifest.rs`,
  `src/timer.rs`: the framework.
- `src/text.rs`, `src/braces.rs`: searching, splitting and trimming text, and
  where a JSON object ends.
- `app/`: bindings for Python, and what needs floating point.
- `tests/`: tests of the compiled library.
