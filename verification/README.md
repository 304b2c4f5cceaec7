# poam

Conformance checking for chains of zkVM proofs. Every proving step records its
event (an image id) in an approximate membership filter (`qfilter`); rules over
the recorded events decide whether the next step conforms.

The library under `src/` is verified with Verus:

- `filter` – `EventFilter`, a `qfilter` filter made empty by
  `Filter::with_fingerprint_size` together with the keys it has admitted since,
  and the contracts of the `qfilter` calls. Such a filter never misses an
  admitted key and, while empty, reports nothing; what it reports for keys it
  never admitted is left open. A filter read back from serialized data cannot
  become an `EventFilter`, since nothing shows what it holds.
- `rules` – precedence, cardinality, exclusiveness and ordering rules, recording
  of ordered events (`event_filter`), one conformance step (`conformance`), a
  sample log and rule set (`samples`), and the laws that hold of them (`laws`).
- `rules_new` – the rule set that carries the current event in its precedence
  rule, with character event ids.
- `operations`, `poam_helper` – the operation names and the metadata passed
  between steps.
- `host` – image ids from protocol words, proof file names (SHA-256 in hex) and
  paths, and the chunks proof files are streamed in.
- `receipts` – proofs that arrive as bytes: answering a verification request
  (around the zkVM verifier, which `app/` runs), reading journals and a proof's
  verification metadata, the name of a stored proof file, and the walk along a
  chain of proofs to compose.

`app/` is the gRPC service around it: proving, combining, composing and verifying
receipts with the zkVM prover, and streaming proof files.
