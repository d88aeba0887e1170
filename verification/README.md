# comet_delta

The core of a Delta Lake reader over object stores, written in Verus: what the code
does is stated in contracts and proved.

- `src/cache`: a block-aligned data cache. Reads are cut into blocks, misses are
  claimed so that one reader fetches for all, fetched versions are compared so that an
  overwritten file is dropped, memory is kept within its budget by SIEVE eviction, and
  blocks that are read again move on to an SSD tier. Read-ahead is paced by a ledger of
  credit.
- `src/delta`: access to Delta tables. Storage credentials from Hadoop options, where a
  table lies and which store and engine serve it, the tasks of a scan, partition
  values, the plan of a scan, pruning predicates, and the streams that drop deleted
  rows or add row positions, row ids and commit versions.
- `src/scan`: which byte ranges of a file are worth reading ahead, and which columns
  are read at all.
- `src/options.rs`, `src/text.rs`: option maps and texts.
- `app`: what touches the outside world. Asynchronous reads, files, object stores, the
  Delta kernel, DataFusion operators and the entry points for the JVM.
- `tests`: the library run on concrete values, with the real outside crates.

The laws that relate several functions are public proof functions beside them, such as
`a_read_gives_the_bytes_of_the_file` (a read of ranges through both tiers of the cache,
step by step from the probe to the last byte),
`a_read_again_makes_no_fetch` (what was read and kept is read from memory),
`a_flush_makes_every_queued_block_readable` (what the SSD tier was handed is what it gives
back), `engines_are_told_apart_by_place_and_credentials` (two scans share an engine exactly
where they name one place with one set of credentials) or
`filtering_any_batches_filters_the_file` (dropping deleted rows batch by batch drops them
from the file, however it is cut).

Calls into outside crates go through small functions whose contracts are believed, not
proved. Each names the outside function in its doc comment.
