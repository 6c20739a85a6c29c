# lowdb

An LSM key-value engine whose logic is verified with Verus.

Writes go to a log and to a table in memory. Full tables are frozen, frozen
tables are flushed to sorted tables on disk, and sorted tables can be compacted.
Every write carries a sequence number, so transactions and snapshots read one
point of the history.

- `src/` is the library. It holds every format, every data structure and every
  decision, with contracts that Verus proves. It does no input or output: it takes
  and returns bytes, names and values.
- `app/` opens, reads, appends and renames the files, takes the locks and runs the
  background flusher.
- `tests/` runs the library on concrete values.

| module        | what it holds                                                      |
|---------------|--------------------------------------------------------------------|
| `common`      | keys, values, errors, texts, paths, how versions answer a read     |
| `memtable`    | the table in memory, a skip list                                   |
| `sstable`     | the table format: blocks, filter, index, footer, scans, compaction |
| `wal`         | the log formats, with and without transactions                     |
| `storage`     | logs, tables in memory and tables on disk as layers                |
| `transaction` | sequence numbers, conflicts, snapshots                             |
| `engine`      | the database                                                       |
| `collection`  | a store of plain writes                                            |

An empty text is stored like a deletion mark: after a flush or a replay it reads
back as deleted.

A log of transactions that was cut off ends with its last whole record. A log of plain
writes that was cut off within a write, behind the length of its key, cannot be
replayed: opening the collection reports it.
