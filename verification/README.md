# kasagumo storage layer

Cuts a file into fixed-size chunks named by the SHA-256 of their bytes, keeps
a manifest of the chunk ids, size and whole-file SHA-256, and puts a file back
together from chunks that may arrive in any order. The library under `src/` is
verified with Verus; `app/` is the command-line program and the file-system
and serialisation glue around it.

- `src/digest.rs`: SHA-256 from the `sha2` crate (trusted wrappers).
- `src/chunk.rs`: chunk ids, chunks, hexadecimal encoding.
- `src/manifest.rs`: the manifest and the check of chunks against it.
- `src/source.rs`: a reader with the record of the reads made on it; the
  only place where `Read::read` is called.
- `src/chunker.rs`: filling a buffer from a source, and reading a stream
  into chunks; what is proved is stated over the record of reads.
- `src/reorder.rs`: the stable sort of chunks by index and its properties.
- `src/primitive.rs`: a file as a manifest plus matching chunks.
