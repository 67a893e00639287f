# fa10

fa10 packs files and directories into one **bigger**, fully reversible
`.fa10` archive, padded to the size you ask for with a recognizable repeating
pattern, and restores the tree byte for byte, checking every file's SHA-256.

This crate is written in Verus: the archive format, the size parser, the
safety rules, the planning of a grow and the restore logic carry contracts
that Verus proves.

## Layout

- `src/` — the verified library.
  - `format.rs`: the on-disk layout (header, manifest, trailer); encoding,
    decoding and reverse-reading the manifest.
  - `grow.rs`: planning a grow (sizes, padding, output path), padding, and
    building an archive.
  - `restore.rs`: opening, verifying and extracting an archive.
  - `archive.rs`: checking and ordering the entries found under the inputs.
  - `safety.rs`, `paths.rs`: protected paths, caps, free-space floor, and the
    guard that keeps extraction under its root.
  - `size.rs`: human-readable sizes (`1.5MB`, `2GiB`).
  - `info.rs`, `cli.rs`, `progress.rs`, `error.rs`, `digest.rs`, `text.rs`.
- `tests/` — tests of the library.
- `app/` — the `fa10` command: argument parsing, the file system, progress
  bars. It hands the library plain values and acts on its decisions.

## What is proved

Among others:

- decoding an encoded manifest gives it back, and it is found through the
  trailer after any prefix; decoding accepts only that encoding, so encoding
  a decoded manifest gives back its bytes;
- an archive built by `write_archive` (or step by step with
  `ArchiveBuilder`, as the command writes it) opens, verifies, and restores
  every entry at its stored path with exactly the content that was read for
  it, and has exactly the size `plan_grow` planned; reading it back gives the
  planned entry count, payload, padding and manifest size;
- padding written in the chunks `padding_chunk` gives is the padding written
  at once;
- every restored entry lies under the extraction root;
- a path checked against the protected prefixes is resolved with
  `rebuild_normalized` first, which leaves no `..` in it;
- entries sorted by path are determined by which entries there are, so the
  same tree always gives the same archive;
- unit spellings of one size (`KB`, `KiB`, `k`) parse alike.

The command in `app/` drives these same steps (`ArchiveBuilder`,
`padding_chunk`, `plan_entry`, `check_overwrite`, `accept_content`); it only
reads and writes the bytes.

CRC32 and SHA-256 come from `crc32fast` and `sha2`; the library names their
results and relies on them only through those names. Decimal sizes such as
`1.5MB` are computed exactly and rounded half up; there is no floating point
in the library.
