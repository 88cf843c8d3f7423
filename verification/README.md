# evedb_core

A storage engine for typed entities and their versioned events, verified with Verus.

The library under `src/` holds the engine's data structures, byte formats and rules as functions
on plain values, each with a contract that Verus proves:

- `storage` — slotted pages, heap files, B+tree indexes, log frames, and the parts of files that
  are in memory;
- `codec`, `record`, `model` — typed values, schemas, and their encodings;
- `entity`, `reading`, `reader`, `cursor` — entities with retained history, and reads of the
  current state, of past versions and of events;
- `operation`, `staging`, `admission`, `commit`, `shared`, `commit_queue` — transactions, what
  they may hold in memory, conflicts, group commit and publication;
- `snapshot`, `partitions`, `indexes`, `copying`, `table_writer`, `checkpoint`, `maintenance` —
  checkpoint manifests, how a checkpoint is built, and which generations it collects;
- `recovery` — reading the log back;
- `consistency`, `versions`, `walks`, `keeping`, `snapshots`, `installing`, `counting`, `making`,
  `manifests` — laws over the modules above: the current state is what replay gives, whatever is
  committed; every retained version reads, snapshots in memory and stored change no read, and
  retention gives up no more than asked; indexes give back what they were built from, and walks
  visit every identifier once; a checkpoint and its installation leave every read of an entity as
  it was, at every version, with the writes made meanwhile; the manifest that a checkpoint makes
  is valid and reads back, lists its files as they are and of other generations only those that it
  needs, and counts the entities that it has; manifests read back;
- `resources`, `deadline`, `pins`, `options` — limits and leases.

A read that needs a part of a file that is not in memory fails with `Error::Unread`, which names
the part. The program around the library loads it and repeats the read, so the library itself does
no input or output.

`app/` is that program: files, locks, clocks and threads, the `Database` and `SharedDatabase`
handles, and the command line. `tests/` runs the library over files kept in memory.
