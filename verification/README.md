# ios_backup_core

Reads the `Manifest.mbdb` index of an unencrypted iOS backup and maps the
hashed file names of the backup back to the domains and paths of the files.

- `src/mbdb.rs`: the manifest format, a function on bytes, and the file id of a
  record (the SHA-1 of `domain-path` in lower-case hex).
- `src/infer.rs`, `src/infer/extension_type.rs`: the kind of a file, from the
  first bytes of its contents (the `infer` crate) or else from its path.
- `src/summary.rs`: counting files by kind and extension (an `indexmap::IndexMap`).
- `src/directory.rs`: the backup as a tree of directories and the selection of
  the files that a choice of extensions shows.
- `src/listing.rs`: the name and size under which a file is listed (`byte_unit`).
- `src/selection.rs`, `src/utils.rs`: turning the options chosen in a filter into
  a list of extensions, and deciding which files to show or extract.
- `app/main.rs`: the command-line program (`list-extensions`, `extract`).

Every function in `src/` is verified with Verus against its contract; the calls
into `sha1`, `infer`, `indexmap`, `byte_unit` and into parts of std that Verus does not
specify are wrapped in small functions whose contracts state what those crates
document.
