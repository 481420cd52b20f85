# csveee

A chunked CSV parser whose behaviour is stated in contracts and proved with Verus.

An input is split into chunks. Each chunk is parsed on its own, under a guess about
whether it starts inside a quoted field, and the results are merged by aligning the
record boundaries. Two chunk parsers share one driver: a table-driven one that reads
every dialect, and one that works on 64-byte bitmasks.

- `src/parser/grammar.rs` says what a dialect means: which records a pass over an
  input hands out, where it stops, and how it fails.
- `src/parser/dfa/` and `src/parser/simd/` are the two parsers, proved to hand out
  these records.
- `src/parser/laws.rs` holds what follows for every input: written records read back,
  without quotes lines are split, blank and comment lines yield nothing, the parsers
  agree.
- `src/scheduler/` resolves a configuration, runs the chunks and merges them.
  `order.rs` proves that the merge is what one pass over the input gives, wherever
  the chunks are cut; `laws.rs` states of whole parses what they read, when they
  succeed, what they report, and what headers and flexible records mean.
- `src/io/` has the buffers and readers, over bytes at hand and over sources and files
  that the caller supplies.
- `src/builder.rs` and `src/parser/api.rs` are the interface for callers.
- `app/` adds files, memory maps, threads and the standard error trait.

What is not proved: that `simdutf8` validates UTF-8 as documented, what the standard
library's error values print, and anything about `app/`. Its files and readers leave the
ghost functions of the I/O traits at their defaults, so the contracts of a parse say
nothing of what is read through them.
