# stella-aho-corasick-core

Exact multi-pattern search over UTF-8 text, verified with Verus: prepared
(serialisable) automata, streaming search, match offsets in UTF-16 code units
or bytes, Unicode-aware whole-word filtering and simple Unicode case folding.
The automata themselves come from the `daachorse` crate and the case folding
table from `unicode-case-mapping`; every call into them goes through a small
trusted item in `src/automaton.rs`, `src/folding.rs` or `src/boundary.rs` whose
contract states what the library relies on.

## Layout

- `src/matcher.rs`: `AhoCorasick`, its searches, `replace_all`, preparing and
  restoring, and the laws that span them (what `prepare` writes loads again
  as the searcher `new` builds, exact UTF-16 offsets, `is_match` against the
  searches, whole-word overlapping search as a filter of the plain one, the
  byte search of a text agreeing with the text search, replacing each
  pattern by itself keeping the text).
- `src/stream.rs`: `StreamMatcher`, searching a stream chunk by chunk; each
  reported match is an occurrence in the stream written so far, at offsets
  from its start, ending in the chunk just written; a match spanning chunks
  is found; a reset searcher writes as a new one.
- `src/search.rs`: the case-folding searcher over the automata.
- `src/automaton.rs`: the trusted view of the `daachorse` automata.
- `src/prepared.rs`: the prepared byte format and its round trip.
- `src/select.rs`, `src/sort.rs`: leftmost-longest choice among whole-word
  candidates.
- `src/pack.rs`, `src/offsets.rs`, `src/utf16.rs`: packing matches in byte or
  UTF-16 offsets.
- `src/folding.rs`, `src/boundary.rs`, `src/text.rs`, `src/positions.rs`: case
  folding, word boundaries and character positions.
- `tests/`: executable tests against the real automata.
- `app/`: the Node.js bindings (not verified).
