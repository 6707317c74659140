# huitrace

The decision logic of a meeting recorder's offline speaker analysis and
evaluation tooling, written in Verus and proved against its contracts.

- `src/` is the verified library: transcript timing from native ASR output,
  diarization job and availability state machines, short-turn refinement
  (kind and speaker, never a new speaker), the choice of each transcript's
  dominant speaker segment, stable speaker keys
  across diarization passes, verified meeting deletion, recording-consent
  tickets, template lookup, artifact and dataset validation, annotation QA,
  speaker alignment, the greedy temporal-matching step and boundary matching
  for benchmarks (with an exact,
  proved-optimal one-to-one speaker assignment), and the string and number helpers these
  rest on. Laws that relate several functions are public `law_*` proof
  functions next to the code they speak of.
- `tests/` runs the library on concrete inputs.
- `app/` is ordinary Rust around the library: files and JSON, process-wide
  state, the loops that perform what the state machines decide, and the
  floating-point checks the library leaves to its caller.
