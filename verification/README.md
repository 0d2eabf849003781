# lsm_tree

A log-structured merge-tree storage engine, written and proved in Verus.

Writes go to a write-ahead log and to a sorted buffer in memory. A full buffer becomes an
immutable table file: data blocks, a block index, a Bloom filter and a footer. Reads search
the buffers and then the tables, from the newest to the oldest; a block cache keeps recently
used blocks in memory. Compaction merges all tables into one and drops what is deleted.

## Layout

`src/` is the library. It decides and computes; it never touches a file.

| Module | What it holds |
|---|---|
| `key`, `entry` | the order of keys; entries, runs of entries, tiers of tables |
| `codec`, `text`, `naming` | byte strings, big-endian integers, messages, file names |
| `crc` | the checksum of log records |
| `wal` | the write-ahead log: framing, reading, recovery after a crash |
| `memtable` | the sorted write buffer |
| `filter` | the Bloom filter |
| `sstable` | data blocks, table files, the block cache, streams of entries |
| `heap`, `iterator` | the k-way merge of sorted streams |
| `compaction` | merging tables into one |
| `engine` | the engine: writes, lookups, scans, flushes, compactions |
| `guarantees` | what a read gives back of a write, whatever happens in between |
| `history` | what holds after any sequence of operations, from an empty directory on |

Where an operation needs a file, the engine says what to read or to write and goes on when it
is handed the outcome: a lookup asks for a block, a flush hands out the bytes of a new table
and then says whether the log may be emptied.

`app/` is a command-line tool over a directory of files. `tests/` runs the library over files
in memory.

## What is proved

Every function of `src/` is proved to meet its contract, never to panic and never to overflow.
Public proof functions whose names start with `law_` relate several functions to each other:
what was logged is what is recovered, a changed byte is found, a filter never denies a key, a
table gives back its entries, a merge keeps the newest entry of each key, and flushing,
compacting and reopening change no value. The laws of `history` put them together: after any
sequence of writes, reads, flushes, compactions and restarts, a lookup returns what the last
write of its key said, and a scan returns exactly the keys of its range that have a value.

The outside crates `bytes`, `crc32fast` and `crossbeam-skiplist` are called through small
wrappers whose contracts are not proved; each wrapper says which function it calls and what it
claims of it.
