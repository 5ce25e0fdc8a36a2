# todb

The storage core of the todb key-value engine, written in Verus. The library
under `src/` is verified: the verifier checks every function there, and the
contracts of the public functions state what they return or change. Calls
into outside crates (byte buffers, the skip list) go through a few trusted
wrappers whose doc comments say what is taken on trust.

## Layout

- `src/` — the verified library.
  - `codec`, `format`, `block`, `buf`: big-endian integers, the block format
    (header, entry offsets, entries), block readers and writers over byte
    buffers.
  - `builder/`: data and index block builders, the SST footer and the
    streaming SST builder with its B+tree index. `builder::image` states,
    as spec functions of the entries added, the bytes a build writes; the
    builder's contracts are proved against it, and its lemmas show that the
    data blocks written hold the entries, in order.
  - `iterators/`: block iterators, entry decoders, the index-tree and SST
    iterators, two-way and k-way merges, concatenation, and the value
    mapping adapter. All share the forward/reverse iterator interface of
    `iterators::storage_iter`, whose contracts describe what a scan yields
    and when a step is sure to succeed. `iterators::sst_iter::check_sst`
    checks an SST read from elsewhere before it is iterated.
  - `memtable`, `skiplist`: the in-memory write buffer over a concurrent
    skip list.
  - `lsm_state`, `lsm_store`, `lsm_iter`: the LSM tree's state and its
    transitions (switching and flushing memtables), the merged read path
    over memtables and SST levels, and range scans over it.
  - `catalog`, `row_data`, `key`, `row_key`: system-table schemas, column
    value encodings, internal keys and key order.
  - `common/`, `memory/`, `errors`, `engine`, `disk_manager`, ...: error
    codes, configuration, memory accounting and option types.
- `tests/` — tests run against the compiled library.
- `app/` — the parts that touch the outside world: configuration and
  catalog files, SST files on disk, the async runtime, background flushing,
  logging, tracing, metrics and RPC hooks.

## Building

Verus verifies the library from `src/lib.rs`; the tests under `tests/` run
against the compiled crate.
