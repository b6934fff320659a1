# opendal_service_container

A read-only storage service over a container image: the merged root file
system of the layers of a local OCI image layout, with its links, whiteouts
and platform selection. The logic is written in Verus and proved against its
contracts.

## Layout

- `src/` — the verified library.
  - `text.rs`: character-level models of the string operations on paths.
  - `entry.rs`, `table.rs`: the entries of the file system and the ordered
    table that holds them, viewed as a map from keys to entries.
  - `paths.rs`: tar path normalization, whiteout names, link targets.
  - `image.rs`: path resolution through symbolic and hard links.
  - `layer.rs`: applying a layer (whiteouts, replacements, parent
    directories, hard links) and the laws that merging keeps.
  - `archive.rs`: the tar entries of a layer's blob, read from a plain or a
    gzip tar archive through trusted wrappers over `tar` and `flate2`.
  - `tree.rs`: the directory structure every layer keeps.
  - `platform.rs`: platform selectors, their text form and matching.
  - `manifest.rs`: descriptor selection, blob locations, and the search for
    the manifest of a platform as a state machine driven from outside.
  - `raw_path.rs`: the storage layer's root, path and range rules, called
    through trusted wrappers.
  - `backend.rs`: the service (stat, list, read) and its builder.
- `app/` — the glue to the storage layer's traits, serde forms, and the
  reading of JSON documents and layer blobs from disk.
- `tests/` — tests of the library on concrete values.
