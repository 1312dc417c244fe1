# nidus

An embedded vector store, verified with Verus: named collections of records over one row space,
an append-only operation log as the source of truth, and ranked, filtered, paginated reads.

`src/` is the library. Every function in it is verified, and nothing in it is assumed. Vectors and
scores are held as IEEE-754 bit patterns: what decides (ordering, gating, capping, paging,
replaying, opening) is integer logic over those patterns. What the library does not do itself it
asks of its caller through three traits: `Kernel` for arithmetic, `Host` for the clock, the derived
indexes and whether a query is still wanted, `Lexicon` for text analysis. Contracts hold for every implementation that answers
the same question in the same way.

| Modules | What they hold |
|---|---|
| `value`, `token`, `dict`, `order`, `bits` | values and filters, words, ordered maps, sorting and top-k, float order |
| `model`, `config`, `message` | records, queries and results; tuning; what a refusal says |
| `index`, `store`, `write`, `undo`, `compact` | the log and its replay, the store and its writes, taking them back, compaction |
| `disk`, `wire`, `recover`, `open`, `durable`, `barrier` | commit points, the length of the log, a log ahead of its rows, opening and following, saving, group commit |
| `status`, `claim`, `latch` | roles and readiness, the writer handle, what a store shares with its probes |
| `scan`, `scoring`, `rank`, `search`, `fanout` | scans, scores, rankings, the search over them, and a search in pieces |
| `quant`, `coarse`, `walk`, `host` | coarse copies and their first pass, walks of an index |
| `text`, `hybrid`, `suggest`, `lexicon` | full text, fusion of two rankings, completions |
| `aggregate`, `diversity`, `expand`, `rerank` | groups and caps, spreading, context, second rankings |
| `read`, `plan` | lookups and listings, query plans |
| `recall`, `scope`, `similar` | what a search finds, over which collections, and from a stored record |
| `roundtrip`, `follow`, `rows` | what reads give back of writes, what a reader that follows a writer has, and that no two documents share a row |

What is promised of several functions together stands as public proof functions beside the types
that it is about, such as `roundtrip::a_batch_reads_back`, `recall::exact_ranking_misses_nothing`
or `durable::a_takeover_fences`.

`app/` is ordinary Rust around the library: single-precision arithmetic, clocks, a session over a
backend, a lease that is renewed, and a scan on several threads. `tests/` drives the library through `f32` vectors, with a
plain index of each kind beside it.
