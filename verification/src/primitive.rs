//! A file held as its manifest and its chunks, always consistent.

use vstd::prelude::*;

use std::io::Read;

use crate::chunk::{dec_spec, hex_spec, to_decimal, to_hex, FileChunk};
use crate::chunker::{
    all_ok, blocks_of, chunk_outcome, complete_runs, lemma_pieces_flatten, lemma_same_description,
    lemma_stream_ok_is_cut, pieces, reads_result, stream_end, streamed, ChunkStream,
};
use crate::source::{delivered, extends, reads_since, ByteSource, ReadEvent};
use crate::digest::{sha256_spec, Sha256Hash};
use crate::error::{Result, StorageError};
use crate::manifest::{
    chunk_datas, cut, is_chunking, joined, lemma_chunk_count, lemma_chunking_is_cut,
    lemma_cut_flatten, FileManifest,
};
use crate::reorder::{
    lemma_sort_multiset, lemma_sort_sorted, lemma_sort_total,
    lemma_sorted_rearrangement_is_listing, sort_by_index, sort_chunks,
};

verus! {

/// A file as a manifest and the chunks it lists, in file order. The chunks
/// always match the manifest.
#[derive(Debug, PartialEq, Eq)]
pub struct FilePrimitive {
    manifest: FileManifest,
    chunks: Vec<FileChunk>,
}

impl FilePrimitive {
    #[verifier::type_invariant]
    spec fn consistent(&self) -> bool {
        self.manifest.accepts(self.chunks@)
    }

    /// The manifest.
    pub closed spec fn spec_manifest(&self) -> FileManifest {
        self.manifest
    }

    /// The chunks, in file order.
    pub closed spec fn spec_chunks(&self) -> Seq<FileChunk> {
        self.chunks@
    }

    /// Cuts what `source` yields into chunks of `chunk_size` bytes and keeps
    /// them with their manifest, named `name`: what `chunk_reader` does with
    /// an `on_chunk` that keeps each chunk and accepts it.
    pub fn from_reader<S: Into<String>, R: Read>(
        name: S,
        source: &mut ByteSource<R>,
        chunk_size: usize,
    ) -> (res: Result<FilePrimitive>)
        ensures
            extends(old(source).record(), final(source).record()),
            exists|n: String|
                call_ensures(S::into, (name,), n) && #[trigger] from_outcome(
                    n,
                    chunk_size,
                    reads_since(old(source).record(), final(source).record()),
                    res,
                ),
            res matches Ok(f) ==> {
                &&& f.spec_manifest().chunk_size == chunk_size
                &&& f.spec_manifest().accepts(f.spec_chunks())
                &&& joined(f.spec_chunks()) == delivered(
                    reads_since(old(source).record(), final(source).record()),
                )
                &&& f.spec_chunks().len() == (f.spec_manifest().size + chunk_size - 1) / (chunk_size as int)
            },
    {
        let file_name: String = name.into();
        let ghost n = file_name;
        let ghost start = source.record();
        if chunk_size == 0 {
            assert(reads_since(start, source.record()) =~= Seq::<ReadEvent>::empty());
            assert(source.record().take(start.len() as int) =~= start);
            assert(from_outcome(
                n,
                chunk_size,
                reads_since(start, source.record()),
                Err(StorageError::InvalidChunkSize),
            ));
            return Err(StorageError::InvalidChunkSize);
        }
        let mut stream = ChunkStream::start(chunk_size, Ghost(start));
        let mut chunks: Vec<FileChunk> = Vec::new();
        assert(chunk_datas(chunks@) =~= stream.datas@);
        loop
            invariant
                stream.inv(),
                stream.chunk_size == chunk_size,
                stream.prefix@ == start,
                start == old(source).record(),
                stream.tracks(source.record()),
                chunk_datas(chunks@) == stream.datas@,
                call_ensures(S::into, (name,), n),
                forall|i: int|
                    #![trigger chunks@[i]]
                    0 <= i < chunks@.len() ==> chunks@[i].index == i && chunks@[i].is_intact(),
            ensures
                stream.ended,
            decreases u64::MAX - stream.size,
        {
            let ghost rec0 = source.record();
            let ghost runs0 = stream.runs@;
            let ghost sizes0 = stream.sizes@;
            let step = stream.read_chunk(source);
            proof {
                assert(source.record().take(rec0.len() as int) =~= rec0);
                assert(source.record() =~= rec0 + reads_since(rec0, source.record()));
                assert(rec0 =~= start + runs0.flatten());
                assert(source.record().take(start.len() as int) =~= start);
            }
            let chunk = match step {
                Ok(Some(chunk)) => chunk,
                Ok(None) => {
                    break;
                },
                Err(e) => {
                    proof {
                        let tail = reads_since(rec0, source.record());
                        let reads = reads_since(start, source.record());
                        assert(reads =~= runs0.flatten() + tail);
                        assert(pieces(runs0, sizes0) =~= blocks_of(runs0));
                        let oks = all_accepted(chunks@.len());
                        assert(all_ok(oks));
                        if reads_result(chunk_size as nat, tail) == Some(Err::<usize, std::io::Error>(e)) {
                            assert(collected(chunk_size, reads, runs0, sizes0, tail, chunks@));
                            assert(stream_end(n, chunk_size, runs0, sizes0, tail, chunks@, oks, manifest_of(Err(StorageError::Io(e)))));
                        } else {
                            let d = delivered(tail);
                            let runs1 = runs0.push(tail);
                            let sizes1 = sizes0.push(d.len() as usize);
                            runs0.lemma_flatten_push(tail);
                            assert(reads =~= runs1.flatten() + Seq::<ReadEvent>::empty());
                            assert(blocks_of(runs1) =~= blocks_of(runs0).push(d));
                            assert(blocks_of(runs1).drop_last() =~= blocks_of(runs0));
                            assert(complete_runs(chunk_size, runs1, sizes1)) by {
                                assert forall|i: int| 0 <= i < runs1.len() implies #[trigger] reads_result(
                                    chunk_size as nat,
                                    runs1[i],
                                ) == Some(Ok::<usize, std::io::Error>(sizes1[i])) by {
                                    if i < runs0.len() {
                                        assert(runs1[i] == runs0[i]);
                                    }
                                }
                            }
                            assert(collected(chunk_size, reads, runs1, sizes1, Seq::<ReadEvent>::empty(), chunks@));
                            assert(stream_end(n, chunk_size, runs1, sizes1, Seq::<ReadEvent>::empty(), chunks@, oks, manifest_of(Err(StorageError::Io(e)))));
                        }
                        assert(from_outcome(n, chunk_size, reads, Err(StorageError::Io(e))));
                    }
                    return Err(StorageError::Io(e));
                },
            };
            let ghost old_chunks = chunks@;
            let ghost c = chunk;
            assert(old_chunks.len() == stream.datas@.len() - 1) by {
                assert(chunk_datas(old_chunks).len() == old_chunks.len());
            }
            chunks.push(chunk);
            proof {
                assert(chunk_datas(chunks@) =~= stream.datas@);
                assert forall|i: int| #![trigger chunks@[i]] 0 <= i < chunks@.len() implies chunks@[i].index == i
                    && chunks@[i].is_intact() by {
                    if i < old_chunks.len() {
                        assert(chunks@[i] == old_chunks[i]);
                    }
                }
            }
        }
        let ghost runs = stream.runs@;
        let ghost sizes = stream.sizes@;
        let ghost datas = stream.datas@;
        let manifest = stream.finish(file_name);
        proof {
            lemma_chunk_count(datas, chunk_size as int);
            let reads = reads_since(start, source.record());
            assert(source.record().take(start.len() as int) =~= start);
            assert(reads =~= runs.flatten() + Seq::<ReadEvent>::empty());
            assert(runs.flatten() + Seq::<ReadEvent>::empty() =~= runs.flatten());
            lemma_pieces_flatten(runs, sizes);
            lemma_chunking_is_cut(datas, chunk_size as int);
            assert forall|p: int| 0 <= p < chunks@.len() implies #[trigger] manifest.sound_at(chunks@, p) by {
                assert(chunks@[p].data@ == datas[p]);
            }
            let oks = all_accepted(chunks@.len());
            assert(all_ok(oks));
            assert(collected(chunk_size, reads, runs, sizes, Seq::<ReadEvent>::empty(), chunks@));
        }
        let f = FilePrimitive { manifest, chunks };
        proof {
            let reads = reads_since(start, source.record());
            let oks = all_accepted(f.chunks@.len());
            assert(manifest_of(Ok(f)) == Ok::<FileManifest, StorageError>(f.manifest));
            assert(all_ok(oks));
            assert(chunk_datas(f.chunks@) == pieces(runs, sizes));
            assert(f.manifest.describes(chunk_datas(f.chunks@)));
            assert(chunk_datas(f.chunks@) == cut(delivered(runs.flatten()), chunk_size as nat));
            assert(sizes.len() > 0 && sizes.last() < chunk_size);
            assert(f.manifest.name == n);
            assert(stream_end(n, chunk_size, runs, sizes, Seq::<ReadEvent>::empty(), f.chunks@, oks, manifest_of(Ok(f))));
            assert(from_outcome(n, chunk_size, reads, Ok(f)));
        }
        Ok(f)
    }

    /// Rebuilds a file from its manifest and its chunks, given in any order:
    /// the chunks are sorted by index (chunks of equal index keep their
    /// order) and must then match the manifest.
    pub fn from_parts(manifest: FileManifest, chunks: Vec<FileChunk>) -> (res: Result<FilePrimitive>)
        requires
            joined(chunks@).len() <= u64::MAX,
        ensures
            res is Ok <==> manifest.accepts(sort_by_index(chunks@)),
            res matches Ok(f) ==> f.spec_manifest() == manifest && f.spec_chunks() == sort_by_index(chunks@),
            res matches Err(e) ==> manifest.reports(sort_by_index(chunks@), Err(e)),
    {
        let sorted = sort_chunks(chunks);
        proof {
            lemma_sort_total(chunks@);
        }
        match manifest.verify_chunks(sorted.as_slice()) {
            Ok(()) => Ok(FilePrimitive { manifest, chunks: sorted }),
            Err(e) => Err(e),
        }
    }

    /// A one-line description: name, size, number of chunks and checksum.
    pub fn display(&self) -> (s: String)
        ensures
            s@ == "FilePrimitive { name: "@ + self.spec_manifest().name@ + ", size: "@ + dec_spec(
                self.spec_manifest().size as nat,
            ) + " octets, chunks: "@ + dec_spec(self.spec_chunks().len()) + ", checksum: "@
                + hex_spec(self.spec_manifest().checksum@) + " }"@,
    {
        let mut s = String::new();
        s.append("FilePrimitive { name: ");
        s.append(self.manifest.name.as_str());
        s.append(", size: ");
        s.append(to_decimal(self.manifest.size).as_str());
        s.append(" octets, chunks: ");
        s.append(to_decimal(self.chunks.len() as u64).as_str());
        s.append(", checksum: ");
        s.append(to_hex(&self.manifest.checksum).as_str());
        s.append(" }");
        s
    }

    /// The manifest.
    pub fn manifest(&self) -> (m: &FileManifest)
        ensures
            *m == self.spec_manifest(),
            m.accepts(self.spec_chunks()),
    {
        proof {
            use_type_invariant(self);
        }
        &self.manifest
    }

    /// The chunks, in file order.
    pub fn chunks(&self) -> (c: &[FileChunk])
        ensures
            c@ == self.spec_chunks(),
            self.spec_manifest().accepts(c@),
    {
        proof {
            use_type_invariant(self);
        }
        self.chunks.as_slice()
    }

    /// The file's name.
    pub fn name(&self) -> (n: &str)
        ensures
            n@ == self.spec_manifest().name@,
    {
        self.manifest.name.as_str()
    }

    /// The file's size in bytes.
    pub fn size(&self) -> (s: u64)
        ensures
            s == self.spec_manifest().size,
            s == joined(self.spec_chunks()).len(),
    {
        proof {
            use_type_invariant(self);
        }
        self.manifest.size
    }

    /// The SHA-256 of the whole file.
    pub fn checksum(&self) -> (c: &Sha256Hash)
        ensures
            *c == self.spec_manifest().checksum,
            c@ == sha256_spec(joined(self.spec_chunks())),
    {
        proof {
            use_type_invariant(self);
        }
        &self.manifest.checksum
    }

    /// Checks the chunks against the manifest again; a file that was built
    /// always passes.
    pub fn verify(&self) -> (res: Result<()>)
        ensures
            res is Ok,
    {
        proof {
            use_type_invariant(self);
        }
        self.manifest.verify_chunks(self.chunks.as_slice())
    }

    /// The bytes of the file: the chunks' bytes one after another. Their
    /// number is the manifest's size and their SHA-256 its checksum.
    pub fn to_bytes(&self) -> (out: Vec<u8>)
        ensures
            out@ == joined(self.spec_chunks()),
            out@.len() == self.spec_manifest().size,
            sha256_spec(out@) == self.spec_manifest().checksum@,
    {
        proof {
            use_type_invariant(self);
        }
        let ghost datas = chunk_datas(self.chunks@);
        let mut out: Vec<u8> = Vec::with_capacity(self.manifest.size as usize);
        let mut i: usize = 0;
        assert(datas.take(0).flatten() =~= Seq::<u8>::empty());
        while i < self.chunks.len()
            invariant
                i <= self.chunks@.len(),
                datas == chunk_datas(self.chunks@),
                out@ == datas.take(i as int).flatten(),
            decreases self.chunks@.len() - i,
        {
            let ghost before = out@;
            out.extend_from_slice(self.chunks[i].data.as_slice());
            proof {
                assert(out@ =~= before + datas[i as int]);
                assert(datas.take(i + 1) =~= datas.take(i as int).push(datas[i as int]));
                datas.take(i as int).lemma_flatten_push(datas[i as int]);
            }
            i = i + 1;
        }
        assert(datas.take(self.chunks@.len() as int) =~= datas);
        out
    }

    /// Gives back the manifest and the chunks, which match.
    pub fn into_parts(self) -> (parts: (FileManifest, Vec<FileChunk>))
        ensures
            parts.0 == self.spec_manifest(),
            parts.1@ == self.spec_chunks(),
            parts.0.accepts(parts.1@),
    {
        proof {
            use_type_invariant(&self);
        }
        let FilePrimitive { manifest, chunks } = self;
        (manifest, chunks)
    }
}

impl Clone for FilePrimitive {
    fn clone(&self) -> (copy: FilePrimitive)
        ensures
            copy.spec_manifest().same_as(self.spec_manifest()),
            chunk_datas(copy.spec_chunks()) == chunk_datas(self.spec_chunks()),
            copy.spec_chunks().len() == self.spec_chunks().len(),
            forall|i: int|
                0 <= i < self.spec_chunks().len() ==> #[trigger] copy.spec_chunks()[i].index
                    == self.spec_chunks()[i].index && copy.spec_chunks()[i].id == self.spec_chunks()[i].id,
    {
        proof {
            use_type_invariant(self);
        }
        let manifest = self.manifest.clone();
        let chunks = self.chunks.clone();
        proof {
            assert forall|i: int| 0 <= i < chunks@.len() implies #[trigger] chunks@[i].data@
                == self.chunks@[i].data@ && chunks@[i].index == self.chunks@[i].index && chunks@[i].id
                == self.chunks@[i].id by {
                assert(cloned::<FileChunk>(self.chunks@[i], chunks@[i]));
            }
            assert(chunk_datas(chunks@) =~= chunk_datas(self.chunks@));
            assert forall|p: int| 0 <= p < chunks@.len() implies #[trigger] manifest.sound_at(chunks@, p) by {
                assert(self.manifest.sound_at(self.chunks@, p));
            }
        }
        FilePrimitive { manifest, chunks }
    }
}

/// `n` calls of `on_chunk` that all accepted their chunk.
pub open spec fn all_accepted(n: nat) -> Seq<Result<()>> {
    Seq::new(n, |k: int| Ok::<(), StorageError>(()))
}

/// The manifest of a file that was built, or the error.
pub open spec fn manifest_of(res: Result<FilePrimitive>) -> Result<FileManifest> {
    match res {
        Ok(f) => Ok(f.spec_manifest()),
        Err(e) => Err(e),
    }
}

/// `reads` are the runs of reads of the blocks, then `tail`, and `chunks`
/// are the chunks of the pieces, in order, each carrying its position as
/// its index and intact.
pub open spec fn collected(
    chunk_size: usize,
    reads: Seq<ReadEvent>,
    runs: Seq<Seq<ReadEvent>>,
    sizes: Seq<usize>,
    tail: Seq<ReadEvent>,
    chunks: Seq<FileChunk>,
) -> bool {
    &&& reads == runs.flatten() + tail
    &&& complete_runs(chunk_size, runs, sizes)
    &&& forall|k: int| 0 <= k < chunks.len() ==> #[trigger] chunks[k].index == k && chunks[k].is_intact()
    &&& is_chunking(chunk_datas(chunks), chunk_size as int)
}

/// What building a file named `name` from the input read by `reads` gives
/// as `res`: the outcome of cutting it into chunks with an `on_chunk` that
/// keeps every chunk and accepts it, the file holding those chunks.
pub open spec fn from_outcome(
    name: String,
    chunk_size: usize,
    reads: Seq<ReadEvent>,
    res: Result<FilePrimitive>,
) -> bool {
    if chunk_size == 0 {
        reads.len() == 0 && res matches Err(StorageError::InvalidChunkSize)
    } else {
        exists|runs: Seq<Seq<ReadEvent>>, sizes: Seq<usize>, tail: Seq<ReadEvent>, chunks: Seq<FileChunk>|
            #[trigger] collected(chunk_size, reads, runs, sizes, tail, chunks) && stream_end(
                name,
                chunk_size,
                runs,
                sizes,
                tail,
                chunks,
                all_accepted(chunks.len()),
                manifest_of(res),
            ) && (res matches Ok(f) ==> f.spec_chunks() == chunks)
    }
}

/// A file built from an input holds the bytes read, cut into pieces of
/// `chunk_size` bytes: joined, its chunks give those bytes back, and its
/// manifest describes those pieces.
pub proof fn lemma_built_file_is_cut(name: String, chunk_size: usize, reads: Seq<ReadEvent>, f: FilePrimitive)
    requires
        from_outcome(name, chunk_size, reads, Ok(f)),
    ensures
        chunk_datas(f.spec_chunks()) == cut(delivered(reads), chunk_size as nat),
        joined(f.spec_chunks()) == delivered(reads),
        f.spec_manifest().name == name,
        f.spec_manifest().chunk_size == chunk_size,
        f.spec_manifest().describes(cut(delivered(reads), chunk_size as nat)),
{
    let (runs, sizes, tail, chunks) = choose|
        runs: Seq<Seq<ReadEvent>>,
        sizes: Seq<usize>,
        tail: Seq<ReadEvent>,
        chunks: Seq<FileChunk>,
    |
        #[trigger] collected(chunk_size, reads, runs, sizes, tail, chunks) && stream_end(
            name,
            chunk_size,
            runs,
            sizes,
            tail,
            chunks,
            all_accepted(chunks.len()),
            manifest_of(Ok(f)),
        ) && f.spec_chunks() == chunks;
    assert(reads =~= runs.flatten());
    lemma_cut_flatten(delivered(reads), chunk_size as nat);
}

/// Building a file from an input gives the manifest that `chunk_reader`
/// gives on an input that delivers the same bytes.
pub proof fn lemma_built_file_matches_chunk_reader<F: FnMut(FileChunk) -> Result<()>>(
    name: String,
    chunk_size: usize,
    reads: Seq<ReadEvent>,
    f: FilePrimitive,
    on_chunk: F,
    other_reads: Seq<ReadEvent>,
    m: FileManifest,
)
    requires
        from_outcome(name, chunk_size, reads, Ok(f)),
        chunk_outcome(name, chunk_size, on_chunk, other_reads, Ok(m)),
        delivered(reads) == delivered(other_reads),
    ensures
        f.spec_manifest().same_as(m),
{
    lemma_built_file_is_cut(name, chunk_size, reads, f);
    let (runs, sizes, tail, states, chunks, results) = choose|
        runs: Seq<Seq<ReadEvent>>,
        sizes: Seq<usize>,
        tail: Seq<ReadEvent>,
        states: Seq<F>,
        chunks: Seq<FileChunk>,
        results: Seq<Result<()>>,
    |
        #[trigger] streamed(chunk_size, other_reads, runs, sizes, tail, on_chunk, states, chunks, results)
            && stream_end(name, chunk_size, runs, sizes, tail, chunks, results, Ok(m));
    lemma_stream_ok_is_cut(
        name, chunk_size, other_reads, runs, sizes, tail, on_chunk, states, chunks, results, m,
    );
    lemma_same_description(f.spec_manifest(), m, cut(delivered(reads), chunk_size as nat));
}

/// Chunks that arrive in any order are put back exactly in the order of the
/// file they came from, and can be handed to `FilePrimitive::from_parts`.
pub proof fn lemma_any_order_reassembles(
    manifest: FileManifest,
    chunks: Seq<FileChunk>,
    arrived: Seq<FileChunk>,
)
    requires
        manifest.accepts(chunks),
        arrived.to_multiset() == chunks.to_multiset(),
    ensures
        sort_by_index(arrived) == chunks,
        manifest.accepts(sort_by_index(arrived)),
        joined(arrived).len() <= u64::MAX,
{
    lemma_sort_sorted(arrived);
    lemma_sort_multiset(arrived);
    lemma_sort_total(arrived);
    assert forall|i: int| 0 <= i < chunks.len() implies #[trigger] chunks[i].index == i by {
        assert(manifest.sound_at(chunks, i));
    }
    lemma_sorted_rearrangement_is_listing(sort_by_index(arrived), chunks);
}

} // verus!
