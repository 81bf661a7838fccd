# crv_core

The core library of a centralized, Perforce-style version control system,
written in Verus: the executable code carries `requires`/`ensures`
contracts and is proved against them.

- `src/path`: the grammar of depot paths, local paths, wildcards and
  workspace mappings, parsing and printing them, and mapping paths between
  depot and workspace.
- `src/workspace`: workspace configurations and the detection of
  conflicting mappings.
- `src/tree`: file trees built from changelists, and the per-branch state
  of a depot (file counts, tree caches, file locks).
- `src/storage`: content-defined and fixed-size chunking of file contents,
  blocks named by their hash, and a deduplicating block store.
- `src/repository`: chunk compression, pack and index file formats, pack
  writers, and the per-shard state of a chunk repository.
- `src/metadata`: documents of the metadata store and changelists.
- `src/logger`: logger configuration, rotation decisions, and replay of the
  write-ahead recovery log.

`app/` holds what touches files, clocks and global state: installing the
`tracing` subscriber, log writers, the recovery log on disk, block stores
and the repository on disk, and serialisable copies of the documents.
