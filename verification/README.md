# FluxDB

A persistent store for JSON records under 128-bit keys, with rankings by numbers in the records. The
library is written in Verus: what each function does is stated in its contract and proved.

- `src/types.rs`, `src/text.rs`, `src/wire.rs`: keys, entries, errors; text; bytes.
- `src/storage/`: the write-ahead log, memory tables, Bloom filters, sorted tables, merging,
  compaction, the block cache and the engine. `laws.rs`, `levels.rs`, `order.rs`, `restart.rs` and
  `history.rs` state what holds of the engine as a whole, after every sequence of its steps: a read
  gives what was last written, and neither rotation, flush, compaction nor opening it again changes
  that; a scan gives what reads give.
- `src/index/`: JSON documents, filters over them, and rankings.
- `src/proto/`: the commands of the text protocol and its replies.
- `src/table/`: the tables of a server, the texts under which their keys were written, and the keys
  whose writes have not ended.
- `src/server/`: what a session, a command and an HTTP request do to the tables and are answered.
- `src/tools.rs`: what the benchmark, the importer and the exporter compute.
- `app/`: the program around the library: sockets, files, the log's thread, background work, and what
  is computed on floating point numbers.
- `tests/`: the library at work.

Files and the log are reached through functions that callers hand in. A table file is read through a
function from number, offset and length to bytes or an error. Contracts say what follows of whatever
such a function gives, call by call; nothing is asked of its answers. Laws that compare several reads
speak of files whose contents are fixed, and lemmas lead from the one to the other.
