# kvs

A log-structured key-value store, verified with Verus.

Records (a mark, the sizes of key and value, the key, the value) are appended
to an active data file; when it reaches 10000 bytes it becomes immutable and a
new data file, numbered by the count of immutable files plus two, is opened.
An in-memory index maps each key to the location of the record that last set
it. On opening, the index is rebuilt from an index file where there is one,
otherwise by replaying the records of the files in order. Every third
retirement of the active file triggers a compaction.

Layout:

- `src/` – the verified library. The store works on the directory's files held
  as bytes (`file::Disk`) and queues each change it makes to them
  (`file::DiskOp`); `store.rs` holds the operations and their specifications,
  `log.rs` what reading the files record by record gives, and `laws.rs`
  properties such as "a key reads back as the value it was last set to",
  "setting one key leaves the others as they were" and "after a run of
  operations, reopening reads each key as the last operation on it left it".
  The active file is read and written through the bytes behind its open
  handle, which stay usable when its path leaves the directory.
- `app/` – the command-line programs and the store on disk: walking the
  directory, reading the files and the index file, and carrying the queued
  changes to disk. A `set` or `remove` runs as the library's steps (the
  append, then `next_step`/`run_step`), each carried to disk before the next;
  where carrying one fails, the store goes back to its snapshot from before
  that step and the error is returned.
- `tests/` – tests of the library.
