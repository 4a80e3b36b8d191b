# dedup-engine

A local backup tool that stores files as deduplicated 4 KiB chunks. Each block
of a file is padded to a full chunk, named by its 64-bit FNV-1a hash in
hexadecimal, and written to the repository only if no chunk of that name is
there yet; a recipe lists the chunk names of the file in order and closes with
the file's size, and a restore concatenates the chunks again and cuts them to
that size. On the free plan a chunk that would take the repository past 1 GiB
is not stored, and one that brings it to 1 GiB exactly is stored but not
listed; either way the backup stops there.

Layout:

- `src/` — the verified library (Verus):
  - `hash.rs` — FNV-1a and chunk names;
  - `chunk.rs` — padding and trimming of chunks;
  - `compress.rs` — zstd compression of chunks (through the `zstd` crate);
  - `naming.rs` — recipe and chunk file names;
  - `backup.rs` — the steps of a backup run and the free plan's limits;
  - `restore.rs` — reading recipes and putting chunks back together;
  - `policy.rs` — plans, license keys and what each plan allows;
  - `config.rs` — the project configuration (`dedup.json`);
  - `repository.rs` — a model of the chunk store and the properties of a
    backup followed by a restore;
  - `text.rs` — character-level string helpers.
- `app/` — the command line: argument parsing, files, terminal output, and the
  JSON forms of the records.
- `tests/` — tests of the library.
