# bedrock_leveldb

The table layer of a key/value store for Minecraft Bedrock worlds, written in
Verus: executable Rust whose behaviour is stated in contracts and proved.

It reads and writes two table formats:

- native LevelDB tables: a footer, an index block, data blocks with shared key
  prefixes and restart arrays, internal keys with sequence numbers and
  deletions, masked CRC-32C checksums, and blocks that are stored as they are or
  compressed with Snappy, zlib or raw deflate;
- `BWLDB` tables: a header, a checksum, and one compressed list of entries.

## Layout

`src/` is the verified library. It works on tables in memory, and on the blocks
of tables that somebody else reads.

| Modules | What they hold |
| --- | --- |
| `coding`, `checksum`, `internal_key`, `keys`, `blob`, `error`, `options` | integers, checksums, keys and their order, byte strings, errors, outcomes |
| `codec` | the codecs of payloads |
| `scan`, `collect`, `gather` | visitors, what a scan shows them, lookups of several keys |
| `custom`, `custom_scan`, `custom_lookup`, `custom_write` | `BWLDB` tables |
| `block`, `native`, `native_scan`, `native_table`, `native_lookup`, `native_write` | native tables |
| `native_laws`, `native_lookup_laws`, `native_write_laws`, `native_file_laws` | what holds of native tables as a whole |
| `table`, `table_laws` | tables of either format, and what holds of them |
| `cache`, `native_read` | a bounded cache of decoded blocks, and reading one block of a file through it |

`app/` does the same with table files: it opens, seeks, reads and replaces them,
and hands bytes and blocks to the library. `tests/` runs the library.

## How scans are specified

A scan is described by a plan: the entries that it counts, in order, which of
them the visitor is shown, and how it ends once they are used up. `scan::runs`
says what carrying out a plan may do to a visitor. The contract of each scan
names its plan, so the order of entries, the counts, early stops, errors and
which values are borrowed from the table are all fixed by it.
