//! The manifest of a file: its name, size, chunk size, chunk ids and checksum.

use vstd::prelude::*;

use crate::chunk::{dec_spec, hex_spec, to_decimal, to_hex, ChunkId, FileChunk};
use crate::digest::{fed_bytes, sha256_spec, FileHasher, Sha256Hash};
use crate::error::{Result, StorageError};

verus! {

/// The bytes of each chunk, in order.
pub open spec fn chunk_datas(chunks: Seq<FileChunk>) -> Seq<Seq<u8>> {
    chunks.map_values(|c: FileChunk| c.data@)
}

/// The bytes of all chunks, one after another.
pub open spec fn joined(chunks: Seq<FileChunk>) -> Seq<u8> {
    chunk_datas(chunks).flatten()
}

/// `datas` cuts a file into pieces of `chunk_size` bytes: every piece holds
/// at least one byte and at most `chunk_size`, and every piece but the last
/// holds exactly `chunk_size`.
pub open spec fn is_chunking(datas: Seq<Seq<u8>>, chunk_size: int) -> bool {
    forall|i: int|
        0 <= i < datas.len() ==> 0 < #[trigger] datas[i].len() <= chunk_size && (i < datas.len()
            - 1 ==> datas[i].len() == chunk_size)
}

/// What a file is made of, chunk by chunk.
#[derive(Debug, PartialEq, Eq)]
pub struct FileManifest {
    pub name: String,
    pub size: u64,
    pub chunk_size: u64,
    pub chunks: Vec<ChunkId>,
    pub checksum: Sha256Hash,
}

impl Clone for FileManifest {
    fn clone(&self) -> (copy: FileManifest)
        ensures
            copy.same_as(*self),
    {
        let chunks = self.chunks.clone();
        proof {
            assert forall|i: int| 0 <= i < chunks@.len() implies chunks@[i] == self.chunks@[i] by {
                assert(cloned::<ChunkId>(self.chunks@[i], chunks@[i]));
            }
            assert(chunks@ =~= self.chunks@);
        }
        FileManifest {
            name: self.name.clone(),
            size: self.size,
            chunk_size: self.chunk_size,
            chunks,
            checksum: self.checksum,
        }
    }
}

impl FileManifest {
    /// A one-line description: name, size, number of chunks and checksum.
    pub fn display(&self) -> (s: String)
        ensures
            s@ == "FileManifest { name: "@ + self.name@ + ", size: "@ + dec_spec(self.size as nat)
                + " octets, chunks: "@ + dec_spec(self.chunks@.len()) + ", checksum: "@ + hex_spec(
                self.checksum@,
            ) + " }"@,
    {
        let mut s = String::new();
        s.append("FileManifest { name: ");
        s.append(self.name.as_str());
        s.append(", size: ");
        s.append(to_decimal(self.size).as_str());
        s.append(" octets, chunks: ");
        s.append(to_decimal(self.chunks.len() as u64).as_str());
        s.append(", checksum: ");
        s.append(to_hex(&self.checksum).as_str());
        s.append(" }");
        s
    }

    /// Both manifests hold the same name, numbers, ids and checksum.
    pub open spec fn same_as(&self, other: FileManifest) -> bool {
        &&& self.name@ == other.name@
        &&& self.size == other.size
        &&& self.chunk_size == other.chunk_size
        &&& self.chunks@ == other.chunks@
        &&& self.checksum == other.checksum
    }

    /// The manifest describes the file cut into the pieces `datas`: one id
    /// per piece, the hash of that piece, and the size and hash of the pieces
    /// joined.
    pub open spec fn describes(&self, datas: Seq<Seq<u8>>) -> bool {
        &&& self.chunks@.len() == datas.len()
        &&& forall|i: int| 0 <= i < datas.len() ==> #[trigger] self.chunks@[i]@ == sha256_spec(datas[i])
        &&& self.size == datas.flatten().len()
        &&& self.checksum@ == sha256_spec(datas.flatten())
    }

    /// The chunk at position `p` carries `p` as its index and the id that
    /// the manifest lists there.
    pub open spec fn listed_at(&self, chunks: Seq<FileChunk>, p: int) -> bool {
        &&& chunks[p].index == p
        &&& chunks[p].id@ == self.chunks@[p]@
    }

    /// The chunk at position `p` is the listed one and is intact.
    pub open spec fn sound_at(&self, chunks: Seq<FileChunk>, p: int) -> bool {
        &&& self.listed_at(chunks, p)
        &&& chunks[p].is_intact()
    }

    /// All chunks before position `p` are sound.
    pub open spec fn sound_before(&self, chunks: Seq<FileChunk>, p: int) -> bool {
        forall|q: int| 0 <= q < p ==> #[trigger] self.sound_at(chunks, q)
    }

    /// `chunks` are exactly the chunks of the file this manifest describes.
    pub open spec fn accepts(&self, chunks: Seq<FileChunk>) -> bool {
        &&& chunks.len() == self.chunks@.len()
        &&& self.sound_before(chunks, chunks.len() as int)
        &&& joined(chunks).len() == self.size
        &&& sha256_spec(joined(chunks)) == self.checksum@
    }

    /// What checking `chunks` against the manifest may give: the outcome of
    /// the first check that fails, in the order count, then position by
    /// position index and id before the chunk's own hash, then size, then
    /// checksum; `Ok` when none fails.
    pub open spec fn reports(&self, chunks: Seq<FileChunk>, res: Result<()>) -> bool {
        let count_ok = chunks.len() == self.chunks@.len();
        let all_sound = count_ok && self.sound_before(chunks, chunks.len() as int);
        &&& (res is Ok <==> self.accepts(chunks))
        &&& !count_ok ==> res == Err::<(), StorageError>(
            StorageError::ChunkCount {
                expected: self.chunks@.len() as usize,
                actual: chunks.len() as usize,
            },
        )
        &&& forall|p: int|
            #![trigger self.sound_at(chunks, p)]
            count_ok && 0 <= p < chunks.len() && self.sound_before(chunks, p) && !self.sound_at(
                chunks,
                p,
            ) ==> if !self.listed_at(chunks, p) {
                res == Err::<(), StorageError>(StorageError::ChunkMismatch { position: p as usize })
            } else {
                res matches Err(StorageError::CorruptedChunk { index, expected, actual })
                    && index == chunks[p].index && expected == chunks[p].id
                    && actual@ == sha256_spec(chunks[p].data@)
            }
        &&& all_sound && joined(chunks).len() != self.size ==> res == Err::<(), StorageError>(
            StorageError::SizeMismatch { expected: self.size, actual: joined(chunks).len() as u64 },
        )
        &&& all_sound && joined(chunks).len() == self.size && sha256_spec(joined(chunks))
            != self.checksum@ ==> res == Err::<(), StorageError>(StorageError::FileChecksumMismatch)
    }

    /// Checks that `chunks`, in this order, make up the file: their number,
    /// each chunk's index, id and bytes, the total size and the checksum of
    /// the whole, reporting the first check that fails.
    pub fn verify_chunks(&self, chunks: &[FileChunk]) -> (res: Result<()>)
        requires
            joined(chunks@).len() <= u64::MAX,
        ensures
            res is Ok <==> self.accepts(chunks@),
            self.reports(chunks@, res),
    {
        if chunks.len() != self.chunks.len() {
            return Err(StorageError::ChunkCount { expected: self.chunks.len(), actual: chunks.len() });
        }
        let ghost datas = chunk_datas(chunks@);
        let mut hasher = FileHasher::new();
        let mut size: u64 = 0;
        let mut position: usize = 0;
        assert(datas.take(0) =~= Seq::<Seq<u8>>::empty());
        while position < chunks.len()
            invariant
                chunks@.len() == self.chunks@.len(),
                datas == chunk_datas(chunks@),
                joined(chunks@).len() <= u64::MAX,
                position <= chunks@.len(),
                self.sound_before(chunks@, position as int),
                fed_bytes(hasher) == datas.take(position as int).flatten(),
                size == datas.take(position as int).flatten().len(),
            decreases chunks@.len() - position,
        {
            let chunk = &chunks[position];
            if chunk.index != position as u64 || !chunk.id.same_as(&self.chunks[position]) {
                assert(!self.listed_at(chunks@, position as int));
                assert(!self.sound_at(chunks@, position as int));
                return Err(StorageError::ChunkMismatch { position });
            }
            match chunk.verify() {
                Ok(()) => {},
                Err(e) => {
                    assert(self.listed_at(chunks@, position as int));
                    assert(!self.sound_at(chunks@, position as int));
                    return Err(e);
                },
            }
            proof {
                lemma_flatten_prefix_len(datas, position as int + 1);
                assert(datas.take(position + 1) =~= datas.take(position as int).push(datas[position as int]));
                datas.take(position as int).lemma_flatten_push(datas[position as int]);
            }
            size = size + chunk.data.len() as u64;
            hasher.update(chunk.data.as_slice());
            position = position + 1;
        }
        assert(datas.take(chunks@.len() as int) =~= datas);
        if size != self.size {
            return Err(StorageError::SizeMismatch { expected: self.size, actual: size });
        }
        let checksum = hasher.finalize();
        if !crate::chunk::same_digest(&checksum, &self.checksum) {
            return Err(StorageError::FileChecksumMismatch);
        }
        Ok(())
    }
}

/// Joining a prefix of a sequence of byte strings gives no more bytes than
/// joining all of it.
pub proof fn lemma_flatten_prefix_len(s: Seq<Seq<u8>>, i: int)
    requires
        0 <= i <= s.len(),
    ensures
        s.take(i).flatten().len() <= s.flatten().len(),
{
    vstd::seq_lib::lemma_flatten_concat(s.take(i), s.skip(i));
    assert(s.take(i) + s.skip(i) =~= s);
}

/// Pieces that all hold `chunk_size` bytes hold `chunk_size` bytes each in
/// total.
proof fn lemma_full_pieces_len(datas: Seq<Seq<u8>>, chunk_size: int)
    requires
        forall|i: int| 0 <= i < datas.len() ==> #[trigger] datas[i].len() == chunk_size,
    ensures
        datas.flatten().len() == datas.len() * chunk_size,
    decreases datas.len(),
{
    if datas.len() == 0 {
        assert(datas.flatten() =~= Seq::<u8>::empty());
    } else {
        let rest = datas.drop_last();
        assert forall|i: int| 0 <= i < rest.len() implies #[trigger] rest[i].len() == chunk_size by {
            assert(rest[i] == datas[i]);
        }
        assert(datas[datas.len() - 1] == datas.last());
        lemma_full_pieces_len(rest, chunk_size);
        rest.lemma_flatten_push(datas.last());
        assert(rest.push(datas.last()) =~= datas);
        let k = rest.len() as int;
        assert(k * chunk_size + chunk_size == (k + 1) * chunk_size) by (nonlinear_arith);
    }
}

/// A file of `n` bytes cut into chunks of `chunk_size` bytes has
/// `ceil(n / chunk_size)` chunks: none for an empty file, and no empty chunk
/// when `n` is a multiple of `chunk_size`.
pub proof fn lemma_chunk_count(datas: Seq<Seq<u8>>, chunk_size: int)
    requires
        chunk_size > 0,
        is_chunking(datas, chunk_size),
    ensures
        datas.len() == (datas.flatten().len() + chunk_size - 1) / chunk_size,
{
    let n = datas.len() as int;
    if n == 0 {
        assert(datas.flatten() =~= Seq::<u8>::empty());
        vstd::arithmetic::div_mod::lemma_fundamental_div_mod_converse(
            chunk_size - 1,
            chunk_size,
            0,
            chunk_size - 1,
        );
    } else {
        let rest = datas.drop_last();
        assert forall|i: int| 0 <= i < rest.len() implies #[trigger] rest[i].len() == chunk_size by {
            assert(rest[i] == datas[i]);
        }
        lemma_full_pieces_len(rest, chunk_size);
        rest.lemma_flatten_push(datas.last());
        assert(rest.push(datas.last()) =~= datas);
        let last = datas.last().len() as int;
        assert(datas[n - 1] == datas.last());
        assert((n - 1) * chunk_size + last + chunk_size - 1 == n * chunk_size + (last - 1))
            by (nonlinear_arith);
        vstd::arithmetic::div_mod::lemma_fundamental_div_mod_converse(
            n * chunk_size + (last - 1),
            chunk_size,
            n,
            last - 1,
        );
        assert(n * chunk_size == chunk_size * n) by (nonlinear_arith);
    }
}

/// `bytes` cut into pieces of `chunk_size` bytes, the last one holding what
/// is left.
pub open spec fn cut(bytes: Seq<u8>, chunk_size: nat) -> Seq<Seq<u8>>
    decreases bytes.len(),
{
    if bytes.len() == 0 || chunk_size == 0 {
        Seq::empty()
    } else if bytes.len() <= chunk_size {
        seq![bytes]
    } else {
        seq![bytes.take(chunk_size as int)] + cut(bytes.skip(chunk_size as int), chunk_size)
    }
}

/// The pieces of a cut, joined, are the bytes that were cut.
pub proof fn lemma_cut_flatten(bytes: Seq<u8>, chunk_size: nat)
    requires
        chunk_size > 0,
    ensures
        cut(bytes, chunk_size).flatten() == bytes,
    decreases bytes.len(),
{
    if bytes.len() == 0 {
        assert(cut(bytes, chunk_size).flatten() =~= bytes);
    } else if bytes.len() <= chunk_size {
        let c = cut(bytes, chunk_size);
        assert(c.drop_first() =~= Seq::<Seq<u8>>::empty());
        assert(c.flatten() == c[0] + c.drop_first().flatten());
        assert(c.flatten() =~= bytes);
    } else {
        let rest = bytes.skip(chunk_size as int);
        lemma_cut_flatten(rest, chunk_size);
        let c = cut(bytes, chunk_size);
        assert(c.drop_first() =~= cut(rest, chunk_size));
        assert(c.flatten() == c[0] + c.drop_first().flatten());
        assert(c.flatten() =~= bytes);
    }
}

/// A valid cut of a file is the cut of its bytes: how the file was read does
/// not matter.
pub proof fn lemma_chunking_is_cut(datas: Seq<Seq<u8>>, chunk_size: int)
    requires
        chunk_size > 0,
        is_chunking(datas, chunk_size),
    ensures
        cut(datas.flatten(), chunk_size as nat) == datas,
    decreases datas.len(),
{
    if datas.len() == 0 {
        assert(datas.flatten() =~= Seq::<u8>::empty());
        assert(cut(datas.flatten(), chunk_size as nat) =~= datas);
    } else {
        let rest = datas.drop_first();
        assert(datas.flatten() == datas[0] + rest.flatten());
        assert(datas[0].len() > 0);
        if datas.len() == 1 {
            assert(rest.flatten() =~= Seq::<u8>::empty());
            assert(datas.flatten() =~= datas[0]);
            assert(cut(datas.flatten(), chunk_size as nat) =~= datas);
        } else {
            assert forall|i: int| 0 <= i < rest.len() implies 0 < #[trigger] rest[i].len()
                <= chunk_size && (i < rest.len() - 1 ==> rest[i].len() == chunk_size) by {
                assert(rest[i] == datas[i + 1]);
            }
            assert(rest[0] == datas[1]);
            lemma_chunking_is_cut(rest, chunk_size);
            assert(rest.flatten() == rest[0] + rest.drop_first().flatten());
            assert(datas[0].len() == chunk_size);
            let all = datas.flatten();
            assert(all.take(chunk_size) =~= datas[0]);
            assert(all.skip(chunk_size) =~= rest.flatten());
            assert(cut(all, chunk_size as nat) =~= datas);
        }
    }
}

} // verus!
