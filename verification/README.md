# resident_core

A resident audio-fingerprint engine whose store format, dump grammar, request rules and the
integer half of its Panako-compatible matcher are verified with Verus.

- `src/` — the verified library: fingerprints and the `.tdb` / metadata grammar (`dump`),
  the immutable shard image and its readers (`shard`, `codec`), content addressing
  (`identity`, `digest`), generations, ingest, retirement, identity rehash and duration
  publication (`generation`, `rebuild`, `durations`, `store`), the matcher's probe sets,
  vote collection, modal votes and multi-line peeling (`matcher`), query regions (`span`),
  passage identity (`passage`), wire rules (`protocol`), A/B verdicts and rankings
  (`compare`, `keyed`), extraction's hash packing (`extract`) and print proximity
  (`proximity`). Laws about several operations are public proof functions (`lemma_*`).
- `app/` — the `resident` program: files, memory maps and publication, ffmpeg decoding and
  the single-precision spectral analysis, the floating-point line fit of a vote, passage
  chaining, the JSON-lines daemon and the command line.
- `tests/` — executable tests of the library.
