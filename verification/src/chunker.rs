//! Cutting a stream of bytes into chunks.

use vstd::prelude::*;

use std::io::Read;

use crate::chunk::{ChunkId, FileChunk};
use crate::digest::{fed_bytes, sha256_spec, FileHasher};
use crate::error::{Result, StorageError};
use crate::manifest::{
    chunk_datas, cut, is_chunking, joined, lemma_chunk_count, lemma_chunking_is_cut,
    lemma_cut_flatten, FileManifest,
};
use crate::source::{
    delivered, extends, interrupted, is_interrupted, lemma_delivered_concat, read_some, reads_since,
    ByteSource, ReadEvent, ReadStep,
};

verus! {

/// What `read_full` does after a read.
pub enum Next {
    /// Read again at this offset, with this many interrupted reads still
    /// allowed in a row.
    Again(usize, u64),
    /// Stop: the buffer holds this many bytes.
    Done(usize),
    /// Stop with this error.
    Fail(std::io::Error),
}

/// After a read at offset `filled` that gave `step`: no byte means the input
/// ended; some bytes move the offset on and allow a fresh run of
/// interruptions; an interruption is retried while retries are left, else
/// reported; any other error is reported as it came.
pub open spec fn next_spec(filled: usize, step: ReadStep, retries_left: u64) -> Next {
    match step {
        ReadStep::Got(n) => if n == 0 {
            Next::Done(filled)
        } else {
            Next::Again((filled + n) as usize, u64::MAX)
        },
        ReadStep::Error(e) => if interrupted(e) && retries_left > 0 {
            Next::Again(filled, (retries_left - 1) as u64)
        } else {
            Next::Fail(e)
        },
    }
}

/// A read at offset `filled` into a buffer of `len` bytes reports no more
/// bytes than fit.
pub open spec fn step_fits(filled: usize, len: nat, step: ReadStep) -> bool {
    step matches ReadStep::Got(n) ==> filled + n <= len
}

/// Where the reads of `log` leave `read_full` on a buffer of `len` bytes when
/// each of them let it go on: the offset and the interruptions still allowed
/// in a row; `None` when `log` is no such run.
pub open spec fn reads_reach(len: nat, log: Seq<ReadEvent>) -> Option<(usize, u64)>
    decreases log.len(),
{
    if log.len() == 0 {
        Some((0usize, u64::MAX))
    } else {
        match reads_reach(len, log.drop_last()) {
            Some((filled, retries_left)) => {
                let ev = log.last();
                if filled < len && ev.at == filled && step_fits(filled, len, ev.step) {
                    match next_spec(filled, ev.step, retries_left) {
                        Next::Again(f, r) => Some((f, r)),
                        _ => None,
                    }
                } else {
                    None
                }
            },
            None => None,
        }
    }
}

/// What `read_full` returns after exactly the reads of `log` on a buffer of
/// `len` bytes; `None` when it would not stop there.
pub open spec fn reads_result(len: nat, log: Seq<ReadEvent>) -> Option<
    core::result::Result<usize, std::io::Error>,
> {
    if log.len() == 0 {
        if len == 0 {
            Some(Ok(0usize))
        } else {
            None
        }
    } else {
        match reads_reach(len, log.drop_last()) {
            Some((filled, retries_left)) => {
                let ev = log.last();
                if filled < len && ev.at == filled && step_fits(filled, len, ev.step) {
                    match next_spec(filled, ev.step, retries_left) {
                        Next::Done(n) => Some(Ok(n)),
                        Next::Fail(e) => Some(Err(e)),
                        Next::Again(f, _) => if f >= len {
                            Some(Ok(f))
                        } else {
                            None
                        },
                    }
                } else {
                    None
                }
            },
            None => None,
        }
    }
}

/// Reads from the source until `buf` is full or the input ends, retrying
/// interrupted reads, and returns how many bytes it read; they are at the
/// start of `buf`.
///
/// A run of `u64::MAX` interrupted reads in a row is reported as the last
/// interruption's error.
pub fn read_full<R: Read>(source: &mut ByteSource<R>, buf: &mut Vec<u8>) -> (res: core::result::Result<
    usize,
    std::io::Error,
>)
    ensures
        final(buf)@.len() == old(buf)@.len(),
        extends(old(source).record(), final(source).record()),
        reads_result(old(buf)@.len(), reads_since(old(source).record(), final(source).record()))
            == Some(res),
        res matches Ok(n) ==> final(buf)@.take(n as int) == delivered(
            reads_since(old(source).record(), final(source).record()),
        ),
        res matches Ok(n) ==> n <= old(buf)@.len(),
        res matches Ok(n) && n < old(buf)@.len() ==> reads_since(
            old(source).record(),
            final(source).record(),
        ).last().step matches ReadStep::Got(0),
        res matches Err(e) ==> reads_since(old(source).record(), final(source).record()).last().step
            == ReadStep::Error(e),
{
    let mut filled: usize = 0;
    let mut retries_left: u64 = u64::MAX;
    let ghost len = buf@.len();
    let ghost start = source.record();
    assert(source.record().skip(start.len() as int) =~= Seq::<ReadEvent>::empty());
    assert(source.record().take(start.len() as int) =~= start);
    assert(buf@.take(0) =~= delivered(Seq::<ReadEvent>::empty()));
    while filled < buf.len()
        invariant
            len == old(buf)@.len(),
            filled <= buf@.len(),
            buf@.len() == len,
            extends(start, source.record()),
            start == old(source).record(),
            reads_reach(len, reads_since(start, source.record())) == Some((filled, retries_left)),
            buf@.take(filled as int) == delivered(reads_since(start, source.record())),
        decreases buf@.len() - filled, retries_left,
    {
        let ghost prev_log = reads_since(start, source.record());
        let ghost prev_buf = buf@;
        let step = read_some(source, buf, filled);
        let ghost g = step;
        let ghost log = reads_since(start, source.record());
        proof {
            assert(log =~= prev_log.push(source.record().last()));
            assert(log.drop_last() =~= prev_log);
            assert(source.record().take(start.len() as int) =~= start);
            assert(log.last().at == filled && log.last().step == g);
            assert(step_fits(filled, len, g));
            assert(buf@.take(filled as int) =~= prev_buf.take(filled as int));
            match g {
                ReadStep::Got(n) => {
                    assert(buf@.take(filled + n) =~= buf@.take(filled as int) + buf@.subrange(
                        filled as int,
                        filled + n,
                    ));
                },
                _ => {
                    assert(delivered(log) =~= delivered(prev_log));
                },
            }
        }
        match step {
            ReadStep::Got(n) => {
                if n == 0 {
                    return Ok(filled);
                }
                filled = filled + n;
                retries_left = u64::MAX;
            },
            ReadStep::Error(e) => {
                if is_interrupted(&e) && retries_left > 0 {
                    retries_left = retries_left - 1;
                } else {
                    return Err(e);
                }
            },
        }
    }
    proof {
        let log = reads_since(start, source.record());
        if log.len() > 0 {
            assert(log =~= log.drop_last().push(log.last()));
        }
    }
    Ok(filled)
}

/// Joining pieces that each hold at least one byte gives at least one byte
/// per piece.
pub proof fn lemma_pieces_le_bytes(datas: Seq<Seq<u8>>)
    requires
        forall|i: int| 0 <= i < datas.len() ==> #[trigger] datas[i].len() > 0,
    ensures
        datas.len() <= datas.flatten().len(),
    decreases datas.len(),
{
    if datas.len() > 0 {
        let rest = datas.drop_first();
        assert forall|i: int| 0 <= i < rest.len() implies #[trigger] rest[i].len() > 0 by {
            assert(rest[i] == datas[i + 1]);
        }
        lemma_pieces_le_bytes(rest);
    }
}

/// The running state of a file being cut into chunks: the ids so far, the
/// bytes so far and their hash in progress.
pub(crate) struct ChunkStream {
    pub(crate) chunk_size: usize,
    pub(crate) hasher: FileHasher,
    pub(crate) ids: Vec<ChunkId>,
    pub(crate) size: u64,
    pub(crate) next_index: u64,
    pub(crate) datas: Ghost<Seq<Seq<u8>>>,
    /// The input ended: the last block read was short.
    pub(crate) ended: bool,
    /// The record of the source before the first block was read.
    pub(crate) prefix: Ghost<Seq<ReadEvent>>,
    /// The reads of each block, in order.
    pub(crate) runs: Ghost<Seq<Seq<ReadEvent>>>,
    /// The bytes each block holds.
    pub(crate) sizes: Ghost<Seq<usize>>,
}

impl ChunkStream {
    /// The state matches the pieces taken so far.
    pub(crate) open spec fn inv(&self) -> bool {
        &&& self.chunk_size > 0
        &&& fed_bytes(self.hasher) == self.datas@.flatten()
        &&& self.ids@.len() == self.datas@.len()
        &&& forall|i: int|
            0 <= i < self.datas@.len() ==> #[trigger] self.ids@[i]@ == sha256_spec(self.datas@[i])
        &&& self.size == self.datas@.flatten().len()
        &&& self.next_index == self.datas@.len()
        &&& forall|i: int|
            0 <= i < self.datas@.len() ==> 0 < #[trigger] self.datas@[i].len() <= self.chunk_size
    }

    /// The blocks read so far are the source's reads since `prefix`, each a
    /// complete fill of a buffer of `chunk_size` bytes, and the pieces are
    /// the blocks that hold bytes.
    pub(crate) open spec fn tracks(&self, record: Seq<ReadEvent>) -> bool {
        &&& record == self.prefix@ + self.runs@.flatten()
        &&& complete_runs(self.chunk_size, self.runs@, self.sizes@)
        &&& forall|i: int|
            0 <= i < self.runs@.len() ==> #[trigger] blocks_of(self.runs@)[i].len() == self.sizes@[i]
        &&& forall|i: int| 0 <= i < self.sizes@.len() ==> #[trigger] self.sizes@[i] <= self.chunk_size
        &&& self.datas@ == pieces(self.runs@, self.sizes@)
        &&& self.ended == (self.sizes@.len() > 0 && self.sizes@.last() < self.chunk_size)
        &&& is_chunking(self.datas@, self.chunk_size as int)
    }

    pub(crate) fn start(chunk_size: usize, record: Ghost<Seq<ReadEvent>>) -> (s: ChunkStream)
        requires
            chunk_size > 0,
        ensures
            s.inv(),
            s.chunk_size == chunk_size,
            s.datas@ == Seq::<Seq<u8>>::empty(),
            s.prefix == record,
            s.tracks(record@),
            !s.ended,
    {
        let s = ChunkStream {
            chunk_size,
            hasher: FileHasher::new(),
            ids: Vec::new(),
            size: 0,
            next_index: 0,
            datas: Ghost(Seq::empty()),
            ended: false,
            prefix: record,
            runs: Ghost(Seq::empty()),
            sizes: Ghost(Seq::empty()),
        };
        assert(s.datas@.flatten() =~= Seq::<u8>::empty());
        assert(s.runs@.flatten() =~= Seq::<ReadEvent>::empty());
        assert(record@ + s.runs@.flatten() =~= record@);
        assert(pieces(s.runs@, s.sizes@) =~= Seq::<Seq<u8>>::empty());
        s
    }

    /// Takes the next piece of the file and returns it as a chunk; gives
    /// `None`, and changes nothing, when the file would pass `u64::MAX` bytes.
    pub(crate) fn accept(&mut self, data: Vec<u8>) -> (chunk: Option<FileChunk>)
        requires
            old(self).inv(),
            0 < data@.len() <= old(self).chunk_size,
        ensures
            final(self).inv(),
            final(self).chunk_size == old(self).chunk_size,
            chunk matches Some(c) ==> {
                &&& final(self).datas@ == old(self).datas@.push(data@)
                &&& final(self).size == old(self).size + data@.len()
                &&& c.index == old(self).datas@.len()
                &&& c.data@ == data@
                &&& c.is_intact()
            },
            chunk is None ==> final(self).datas@ == old(self).datas@ && old(self).size + data@.len()
                > u64::MAX,
            final(self).prefix == old(self).prefix,
            final(self).runs == old(self).runs,
            final(self).sizes == old(self).sizes,
            final(self).ended == old(self).ended,
    {
        let n = data.len() as u64;
        if self.size > u64::MAX - n {
            return None;
        }
        let ghost old_datas = self.datas@;
        let ghost d = data@;
        proof {
            lemma_pieces_le_bytes(old_datas);
        }
        self.hasher.update(data.as_slice());
        self.size = self.size + n;
        let chunk = FileChunk::new(self.next_index, data);
        self.ids.push(chunk.id);
        self.next_index = self.next_index + 1;
        proof {
            self.datas = Ghost(old_datas.push(d));
            old_datas.lemma_flatten_push(d);
            assert forall|i: int| 0 <= i < self.datas@.len() implies #[trigger] self.ids@[i]@
                == sha256_spec(self.datas@[i]) by {
                if i < old_datas.len() {
                    assert(self.datas@[i] == old_datas[i]);
                }
            }
            assert forall|i: int| 0 <= i < self.datas@.len() implies 0 < #[trigger] self.datas@[i].len()
                <= self.chunk_size by {
                if i < old_datas.len() {
                    assert(self.datas@[i] == old_datas[i]);
                }
            }
        }
        Some(chunk)
    }

    /// The manifest of the file made of the pieces taken.
    pub(crate) fn finish(self, name: String) -> (m: FileManifest)
        requires
            self.inv(),
        ensures
            m.name == name,
            m.chunk_size == self.chunk_size,
            m.describes(self.datas@),
    {
        FileManifest {
            name,
            size: self.size,
            chunk_size: self.chunk_size as u64,
            chunks: self.ids,
            checksum: self.hasher.finalize(),
        }
    }

    /// Reads the next block from `source` and takes it as a chunk: `None`
    /// when the input has ended (a block came back empty, or the block before
    /// was short, in which case nothing is read); the error of a failed read;
    /// an error when the file would pass `u64::MAX` bytes.
    pub(crate) fn read_chunk<R: Read>(&mut self, source: &mut ByteSource<R>) -> (res: core::result::Result<
        Option<FileChunk>,
        std::io::Error,
    >)
        requires
            old(self).inv(),
            old(self).tracks(old(source).record()),
        ensures
            final(self).inv(),
            final(self).chunk_size == old(self).chunk_size,
            final(self).prefix == old(self).prefix,
            extends(old(source).record(), final(source).record()),
            old(self).ended ==> (res matches Ok(None) && final(source).record() == old(source).record()
                && final(self).runs == old(self).runs && final(self).sizes == old(self).sizes
                && final(self).datas == old(self).datas),
            !old(self).ended ==> reads_result(
                old(self).chunk_size as nat,
                reads_since(old(source).record(), final(source).record()),
            ) is Some,
            res is Ok ==> final(self).tracks(final(source).record()),
            res matches Ok(None) ==> final(self).ended && final(self).datas@ == old(self).datas@,
            (!old(self).ended && res matches Ok(None)) ==> {
                &&& final(self).runs@ == old(self).runs@.push(
                    reads_since(old(source).record(), final(source).record()),
                )
                &&& final(self).sizes@ == old(self).sizes@.push(0usize)
            },
            res matches Ok(Some(c)) ==> {
                &&& !old(self).ended
                &&& c.index == old(self).datas@.len()
                &&& c.is_intact()
                &&& 0 < c.data@.len() <= old(self).chunk_size
                &&& c.data@ == delivered(reads_since(old(source).record(), final(source).record()))
                &&& final(self).runs@ == old(self).runs@.push(
                    reads_since(old(source).record(), final(source).record()),
                )
                &&& final(self).sizes@ == old(self).sizes@.push(c.data@.len() as usize)
                &&& final(self).datas@ == old(self).datas@.push(c.data@)
                &&& final(self).size == old(self).size + c.data@.len()
            },
            res matches Err(e) ==> {
                &&& !old(self).ended
                &&& final(self).datas@ == old(self).datas@
                &&& final(self).runs == old(self).runs
                &&& final(self).sizes == old(self).sizes
                &&& {
                    ||| reads_result(
                        old(self).chunk_size as nat,
                        reads_since(old(source).record(), final(source).record()),
                    ) == Some(Err::<usize, std::io::Error>(e))
                    ||| {
                        let d = delivered(reads_since(old(source).record(), final(source).record()));
                        &&& reads_result(
                            old(self).chunk_size as nat,
                            reads_since(old(source).record(), final(source).record()),
                        ) == Some(Ok::<usize, std::io::Error>(d.len() as usize))
                        &&& 0 < d.len() <= old(self).chunk_size
                        &&& old(self).size + d.len() > u64::MAX
                    }
                }
            },
    {
        if self.ended {
            assert(source.record().take(source.record().len() as int) =~= source.record());
            return Ok(None);
        }
        let ghost before = source.record();
        let ghost runs0 = self.runs@;
        let ghost sizes0 = self.sizes@;
        let ghost datas0 = self.datas@;
        let mut block = vec![0u8; self.chunk_size];
        let n = match read_full(source, &mut block) {
            Ok(n) => n,
            Err(e) => {
                return Err(e);
            },
        };
        let ghost run = reads_since(before, source.record());
        proof {
            assert(source.record() =~= before + run);
            runs0.lemma_flatten_push(run);
            assert(source.record() =~= self.prefix@ + runs0.push(run).flatten());
            assert(blocks_of(runs0.push(run)) =~= blocks_of(runs0).push(delivered(run)));
            assert(delivered(run) =~= block@.take(n as int));
        }
        if n == 0 {
            proof {
                self.runs = Ghost(runs0.push(run));
                self.sizes = Ghost(sizes0.push(0usize));
                assert(pieces(self.runs@, self.sizes@) =~= pieces(runs0, sizes0));
                assert forall|i: int| 0 <= i < self.runs@.len() implies #[trigger] blocks_of(
                    self.runs@,
                )[i].len() == self.sizes@[i] by {
                    if i < runs0.len() {
                        assert(blocks_of(self.runs@)[i] == blocks_of(runs0)[i]);
                    }
                }
            }
            self.ended = true;
            return Ok(None);
        }
        block.truncate(n);
        let ghost bytes = block@;
        match self.accept(block) {
            None => {
                return Err(too_large());
            },
            Some(chunk) => {
                proof {
                    self.runs = Ghost(runs0.push(run));
                    self.sizes = Ghost(sizes0.push(n));
                    assert(pieces(self.runs@, self.sizes@) =~= datas0.push(bytes));
                    assert forall|i: int| 0 <= i < self.runs@.len() implies #[trigger] blocks_of(
                        self.runs@,
                    )[i].len() == self.sizes@[i] by {
                        if i < runs0.len() {
                            assert(blocks_of(self.runs@)[i] == blocks_of(runs0)[i]);
                        }
                    }
                    assert forall|i: int| 0 <= i < self.datas@.len() implies 0
                        < #[trigger] self.datas@[i].len() <= self.chunk_size && (i < self.datas@.len()
                        - 1 ==> self.datas@[i].len() == self.chunk_size) by {
                        if i < datas0.len() {
                            assert(self.datas@[i] == datas0[i]);
                        }
                    }
                }
                if n < self.chunk_size {
                    self.ended = true;
                }
                Ok(Some(chunk))
            },
        }
    }
}

/// The bytes each run of reads delivered.
pub open spec fn blocks_of(runs: Seq<Seq<ReadEvent>>) -> Seq<Seq<u8>> {
    runs.map_values(|run: Seq<ReadEvent>| delivered(run))
}

/// Each run of `runs` is a complete fill of a buffer of `chunk_size` bytes
/// that ended well with `sizes[i]` bytes, and every block but the last is
/// full.
pub open spec fn complete_runs(chunk_size: usize, runs: Seq<Seq<ReadEvent>>, sizes: Seq<usize>) -> bool {
    &&& runs.len() == sizes.len()
    &&& forall|i: int|
        0 <= i < runs.len() ==> #[trigger] reads_result(chunk_size as nat, runs[i]) == Some(
            Ok::<usize, std::io::Error>(sizes[i]),
        )
    &&& forall|i: int| 0 <= i < sizes.len() - 1 ==> #[trigger] sizes[i] == chunk_size
}

/// The blocks that hold bytes: all but a last empty one.
pub open spec fn pieces(runs: Seq<Seq<ReadEvent>>, sizes: Seq<usize>) -> Seq<Seq<u8>> {
    if sizes.len() > 0 && sizes.last() == 0 {
        blocks_of(runs).drop_last()
    } else {
        blocks_of(runs)
    }
}

/// The bytes of runs of reads, one run after another.
pub proof fn lemma_delivered_runs(runs: Seq<Seq<ReadEvent>>)
    ensures
        delivered(runs.flatten()) == blocks_of(runs).flatten(),
    decreases runs.len(),
{
    if runs.len() == 0 {
        assert(runs.flatten() =~= Seq::<ReadEvent>::empty());
        assert(blocks_of(runs).flatten() =~= Seq::<u8>::empty());
    } else {
        let rest = runs.drop_last();
        lemma_delivered_runs(rest);
        rest.lemma_flatten_push(runs.last());
        assert(rest.push(runs.last()) =~= runs);
        lemma_delivered_concat(rest.flatten(), runs.last());
        assert(blocks_of(runs) =~= blocks_of(rest).push(delivered(runs.last())));
        blocks_of(rest).lemma_flatten_push(delivered(runs.last()));
    }
}

/// The pieces hold all the bytes the runs delivered.
pub proof fn lemma_pieces_flatten(runs: Seq<Seq<ReadEvent>>, sizes: Seq<usize>)
    requires
        runs.len() == sizes.len(),
        forall|i: int| 0 <= i < runs.len() ==> #[trigger] blocks_of(runs)[i].len() == sizes[i],
    ensures
        pieces(runs, sizes).flatten() == delivered(runs.flatten()),
{
    lemma_delivered_runs(runs);
    if sizes.len() > 0 && sizes.last() == 0 {
        let b = blocks_of(runs);
        assert(b =~= b.drop_last().push(b.last()));
        b.drop_last().lemma_flatten_push(b.last());
        assert(b[b.len() - 1].len() == 0);
        assert(b.drop_last().flatten() + b.last() =~= b.drop_last().flatten());
    }
}

/// A chunk that `on_chunk` may be given: intact, and holding at least one
/// byte and at most `chunk_size`.
pub open spec fn handed_over(chunk: FileChunk, chunk_size: usize) -> bool {
    &&& chunk.is_intact()
    &&& 0 < chunk.data@.len() <= chunk_size
}

/// `on_chunk`, first in the state `first`, was called in turn on
/// `chunks`: the k-th call, made in the state `states[k]`, returned
/// `results[k]`. The chunks carry their positions as indexes and are intact.
pub open spec fn handed_in_turn<F: FnMut(FileChunk) -> Result<()>>(
    first: F,
    states: Seq<F>,
    chunks: Seq<FileChunk>,
    results: Seq<Result<()>>,
) -> bool {
    &&& states.len() == chunks.len()
    &&& results.len() == chunks.len()
    &&& states.len() > 0 ==> states[0] == first
    &&& forall|k: int|
        0 <= k < chunks.len() ==> #[trigger] call_ensures(states[k], (chunks[k],), results[k])
    &&& forall|k: int| 0 <= k < chunks.len() ==> #[trigger] chunks[k].index == k && chunks[k].is_intact()
}

/// Every call returned `Ok`.
pub open spec fn all_ok(results: Seq<Result<()>>) -> bool {
    forall|k: int| 0 <= k < results.len() ==> #[trigger] results[k] is Ok
}

/// `reads` are the runs of reads of the blocks, then `tail`; `on_chunk` was
/// called in turn on `chunks`, and those are the chunks of the pieces.
pub open spec fn streamed<F: FnMut(FileChunk) -> Result<()>>(
    chunk_size: usize,
    reads: Seq<ReadEvent>,
    runs: Seq<Seq<ReadEvent>>,
    sizes: Seq<usize>,
    tail: Seq<ReadEvent>,
    first: F,
    states: Seq<F>,
    chunks: Seq<FileChunk>,
    results: Seq<Result<()>>,
) -> bool {
    &&& reads == runs.flatten() + tail
    &&& complete_runs(chunk_size, runs, sizes)
    &&& handed_in_turn(first, states, chunks, results)
    &&& is_chunking(chunk_datas(chunks), chunk_size as int)
}

/// How a stream of blocks ended, and what it gave:
/// - at the end of the input (the last block short or empty): every piece
///   was handed over and accepted, and the manifest describes the bytes read
///   cut into pieces;
/// - when `on_chunk` refused the chunk of the last block: its error;
/// - when the reads of `tail` failed after full blocks: that error, as `Io`;
/// - when the last block would take the file past `u64::MAX` bytes: an `Io`
///   error, that block not handed over.
pub open spec fn stream_end(
    name: String,
    chunk_size: usize,
    runs: Seq<Seq<ReadEvent>>,
    sizes: Seq<usize>,
    tail: Seq<ReadEvent>,
    chunks: Seq<FileChunk>,
    results: Seq<Result<()>>,
    res: Result<FileManifest>,
) -> bool {
    ||| (res matches Ok(m) && tail.len() == 0 && sizes.len() > 0 && sizes.last() < chunk_size
        && chunk_datas(chunks) == pieces(runs, sizes) && all_ok(results) && m.name == name
        && m.chunk_size == chunk_size && m.describes(chunk_datas(chunks)) && chunk_datas(chunks)
        == cut(delivered(runs.flatten()), chunk_size as nat))
    ||| (res is Err && tail.len() == 0 && sizes.len() > 0 && sizes.last() > 0 && chunks.len() > 0
        && chunk_datas(chunks) == blocks_of(runs) && all_ok(results.drop_last())
        && results.last() is Err && res == Err::<FileManifest, StorageError>(results.last()->Err_0))
    ||| (res matches Err(StorageError::Io(e)) && (sizes.len() == 0 || sizes.last() == chunk_size)
        && chunk_datas(chunks) == blocks_of(runs) && all_ok(results) && reads_result(
        chunk_size as nat,
        tail,
    ) == Some(Err::<usize, std::io::Error>(e)))
    ||| (res matches Err(StorageError::Io(_)) && tail.len() == 0 && sizes.len() > 0 && sizes.last()
        > 0 && chunk_datas(chunks) == blocks_of(runs).drop_last() && all_ok(results) && chunk_datas(
        chunks,
    ).flatten().len() + sizes.last() > u64::MAX)
}

/// What cutting the input read by `reads` into chunks of `chunk_size` bytes
/// and handing them to `on_chunk` gives as `res`.
pub open spec fn chunk_outcome<F: FnMut(FileChunk) -> Result<()>>(
    name: String,
    chunk_size: usize,
    on_chunk: F,
    reads: Seq<ReadEvent>,
    res: Result<FileManifest>,
) -> bool {
    if chunk_size == 0 {
        reads.len() == 0 && res matches Err(StorageError::InvalidChunkSize)
    } else {
        exists|
            runs: Seq<Seq<ReadEvent>>,
            sizes: Seq<usize>,
            tail: Seq<ReadEvent>,
            states: Seq<F>,
            chunks: Seq<FileChunk>,
            results: Seq<Result<()>>,
        |
            #[trigger] streamed(chunk_size, reads, runs, sizes, tail, on_chunk, states, chunks, results)
                && stream_end(name, chunk_size, runs, sizes, tail, chunks, results, res)
    }
}

/// A stream that reached the end of its input handed over, in order and
/// each accepted, the bytes read cut into pieces of `chunk_size` bytes, and
/// its manifest describes exactly those pieces: the chunks joined are the
/// bytes read.
pub proof fn lemma_stream_ok_is_cut<F: FnMut(FileChunk) -> Result<()>>(
    name: String,
    chunk_size: usize,
    reads: Seq<ReadEvent>,
    runs: Seq<Seq<ReadEvent>>,
    sizes: Seq<usize>,
    tail: Seq<ReadEvent>,
    first: F,
    states: Seq<F>,
    chunks: Seq<FileChunk>,
    results: Seq<Result<()>>,
    m: FileManifest,
)
    requires
        chunk_size > 0,
        streamed(chunk_size, reads, runs, sizes, tail, first, states, chunks, results),
        stream_end(name, chunk_size, runs, sizes, tail, chunks, results, Ok(m)),
    ensures
        chunk_datas(chunks) == cut(delivered(reads), chunk_size as nat),
        joined(chunks) == delivered(reads),
        all_ok(results),
        results.len() == chunks.len(),
        forall|k: int| 0 <= k < chunks.len() ==> #[trigger] chunks[k].index == k,
        m.name == name,
        m.chunk_size == chunk_size,
        m.describes(cut(delivered(reads), chunk_size as nat)),
{
    assert(reads =~= runs.flatten());
    lemma_cut_flatten(delivered(reads), chunk_size as nat);
}

/// Two inputs that deliver the same bytes give the same manifest, however
/// the reads split them and whatever interruptions came between them.
pub proof fn lemma_same_bytes_same_manifest<F: FnMut(FileChunk) -> Result<()>, G: FnMut(FileChunk) -> Result<()>>(
    name: String,
    chunk_size: usize,
    on_chunk1: F,
    reads1: Seq<ReadEvent>,
    m1: FileManifest,
    on_chunk2: G,
    reads2: Seq<ReadEvent>,
    m2: FileManifest,
)
    requires
        chunk_outcome(name, chunk_size, on_chunk1, reads1, Ok(m1)),
        chunk_outcome(name, chunk_size, on_chunk2, reads2, Ok(m2)),
        delivered(reads1) == delivered(reads2),
    ensures
        m1.same_as(m2),
{
    let (runs1, sizes1, tail1, states1, chunks1, results1) = choose|
        runs: Seq<Seq<ReadEvent>>,
        sizes: Seq<usize>,
        tail: Seq<ReadEvent>,
        states: Seq<F>,
        chunks: Seq<FileChunk>,
        results: Seq<Result<()>>,
    |
        #[trigger] streamed(chunk_size, reads1, runs, sizes, tail, on_chunk1, states, chunks, results)
            && stream_end(name, chunk_size, runs, sizes, tail, chunks, results, Ok(m1));
    let (runs2, sizes2, tail2, states2, chunks2, results2) = choose|
        runs: Seq<Seq<ReadEvent>>,
        sizes: Seq<usize>,
        tail: Seq<ReadEvent>,
        states: Seq<G>,
        chunks: Seq<FileChunk>,
        results: Seq<Result<()>>,
    |
        #[trigger] streamed(chunk_size, reads2, runs, sizes, tail, on_chunk2, states, chunks, results)
            && stream_end(name, chunk_size, runs, sizes, tail, chunks, results, Ok(m2));
    lemma_stream_ok_is_cut(
        name, chunk_size, reads1, runs1, sizes1, tail1, on_chunk1, states1, chunks1, results1, m1,
    );
    lemma_stream_ok_is_cut(
        name, chunk_size, reads2, runs2, sizes2, tail2, on_chunk2, states2, chunks2, results2, m2,
    );
    lemma_same_description(m1, m2, cut(delivered(reads1), chunk_size as nat));
}

/// Two manifests with the same name and chunk size that describe the same
/// pieces are the same.
pub proof fn lemma_same_description(m1: FileManifest, m2: FileManifest, datas: Seq<Seq<u8>>)
    requires
        m1.name == m2.name,
        m1.chunk_size == m2.chunk_size,
        m1.describes(datas),
        m2.describes(datas),
    ensures
        m1.same_as(m2),
{
    assert forall|i: int| 0 <= i < m1.chunks@.len() implies m1.chunks@[i] == m2.chunks@[i] by {
        assert(m1.chunks@[i]@ == m2.chunks@[i]@);
        assert(m1.chunks@[i].0 =~= m2.chunks@[i].0);
    }
    assert(m1.chunks@ =~= m2.chunks@);
    assert(m1.checksum =~= m2.checksum);
}

/// The error for input of more than `u64::MAX` bytes:
/// `std::io::Error::from(std::io::ErrorKind::FileTooLarge)`.
///
/// Trusted: no contract.
#[verifier::external_body]
pub(crate) fn too_large() -> std::io::Error {
    std::io::Error::from(std::io::ErrorKind::FileTooLarge)
}

/// Cuts what `source` yields into chunks of `chunk_size` bytes, hands each
/// chunk to `on_chunk` as soon as it is read, and returns the manifest.
/// Stops at the first error of the reader or of `on_chunk`, and returns that
/// error. `on_chunk` may be any closure: it is called on whatever chunk comes,
/// in whatever state it is in.
pub fn chunk_reader<R: Read, F: FnMut(FileChunk) -> Result<()>>(
    name: String,
    source: &mut ByteSource<R>,
    chunk_size: usize,
    on_chunk: F,
) -> (res: Result<FileManifest>)
    requires
        forall|state: F, chunk: FileChunk|
            #![trigger call_requires(state, (chunk,))]
            handed_over(chunk, chunk_size) ==> call_requires(state, (chunk,)),
    ensures
        extends(old(source).record(), final(source).record()),
        chunk_outcome(
            name,
            chunk_size,
            on_chunk,
            reads_since(old(source).record(), final(source).record()),
            res,
        ),
        res matches Ok(m) ==> m.chunks@.len() == (m.size + chunk_size - 1) / (chunk_size as int),
{
    let ghost start = source.record();
    if chunk_size == 0 {
        assert(reads_since(start, source.record()) =~= Seq::<ReadEvent>::empty());
        assert(source.record().take(start.len() as int) =~= start);
        return Err(StorageError::InvalidChunkSize);
    }
    let mut callback = on_chunk;
    let ghost first = on_chunk;
    let ghost mut states: Seq<F> = Seq::empty();
    let ghost mut handed: Seq<FileChunk> = Seq::empty();
    let ghost mut results: Seq<Result<()>> = Seq::empty();
    let mut stream = ChunkStream::start(chunk_size, Ghost(start));
    assert(chunk_datas(handed) =~= stream.datas@);
    loop
        invariant
            forall|state: F, chunk: FileChunk|
            #![trigger call_requires(state, (chunk,))]
            handed_over(chunk, chunk_size) ==> call_requires(state, (chunk,)),
            stream.inv(),
            stream.chunk_size == chunk_size,
            stream.prefix@ == start,
            start == old(source).record(),
            stream.tracks(source.record()),
            chunk_datas(handed) == stream.datas@,
            handed_in_turn(first, states, handed, results),
            all_ok(results),
            first == on_chunk,
            states.len() == 0 ==> callback == first,
        ensures
            stream.ended,
        decreases u64::MAX - stream.size,
    {
        let ghost rec0 = source.record();
        let ghost runs0 = stream.runs@;
        let ghost sizes0 = stream.sizes@;
        let ghost size0 = stream.size;
        let step = stream.read_chunk(source);
        proof {
            assert(source.record().take(rec0.len() as int) =~= rec0);
            assert(source.record() =~= rec0 + reads_since(rec0, source.record()));
            assert(rec0 =~= start + runs0.flatten());
        }
        let chunk = match step {
            Ok(Some(chunk)) => chunk,
            Ok(None) => {
                break;
            },
            Err(e) => {
                proof {
                    let tail = reads_since(rec0, source.record());
                    let reads = reads_since(start, source.record());
                    assert(source.record().take(start.len() as int) =~= start);
                    assert(reads =~= runs0.flatten() + tail);
                    assert(pieces(runs0, sizes0) =~= blocks_of(runs0));
                    if reads_result(chunk_size as nat, tail) == Some(Err::<usize, std::io::Error>(e)) {
                        assert(streamed(chunk_size, reads, runs0, sizes0, tail, on_chunk, states, handed, results));
                    } else {
                        let d = delivered(tail);
                        let runs1 = runs0.push(tail);
                        let sizes1 = sizes0.push(d.len() as usize);
                        runs0.lemma_flatten_push(tail);
                        assert(reads =~= runs1.flatten() + Seq::<ReadEvent>::empty());
                        assert(blocks_of(runs1) =~= blocks_of(runs0).push(d));
                        assert(blocks_of(runs1).drop_last() =~= blocks_of(runs0));
                        assert(complete_runs(chunk_size, runs1, sizes1)) by {
                            assert forall|i: int| 0 <= i < runs1.len() implies #[trigger] reads_result(
                                chunk_size as nat,
                                runs1[i],
                            ) == Some(Ok::<usize, std::io::Error>(sizes1[i])) by {
                                if i < runs0.len() {
                                    assert(runs1[i] == runs0[i]);
                                }
                            }
                        }
                        assert(streamed(
                            chunk_size,
                            reads,
                            runs1,
                            sizes1,
                            Seq::<ReadEvent>::empty(),
                            on_chunk,
                            states,
                            handed,
                            results,
                        ));
                    }
                }
                return Err(StorageError::Io(e));
            },
        };
        let ghost state = callback;
        let ghost c = chunk;
        assert(handed.len() == stream.datas@.len() - 1) by {
            assert(chunk_datas(handed).len() == handed.len());
        }
        assert(handed_over(c, chunk_size));
        let r = callback(chunk);
        let ghost prev_handed = handed;
        let ghost prev_results = results;
        proof {
            states = states.push(state);
            handed = handed.push(c);
            results = results.push(r);
            assert(chunk_datas(handed) =~= stream.datas@);
            assert forall|k: int| 0 <= k < handed.len() implies #[trigger] call_ensures(
                states[k],
                (handed[k],),
                results[k],
            ) by {
                if k < prev_handed.len() {
                    assert(handed[k] == prev_handed[k]);
                }
            }
            assert forall|k: int| 0 <= k < handed.len() implies #[trigger] handed[k].index == k
                && handed[k].is_intact() by {
                if k < prev_handed.len() {
                    assert(handed[k] == prev_handed[k]);
                } else {
                    assert(handed[k] == c);
                    assert(c.index == prev_handed.len());
                }
            }
            assert(results.drop_last() =~= prev_results);
            assert(handed_in_turn(on_chunk, states, handed, results));
            assert(results.last() == r);
        }
        match r {
            Ok(()) => {},
            Err(e) => {
                proof {
                    let reads = reads_since(start, source.record());
                    assert(source.record().take(start.len() as int) =~= start);
                    assert(reads =~= stream.runs@.flatten() + Seq::<ReadEvent>::empty());
                    assert(all_ok(results.drop_last()));
                    assert(pieces(stream.runs@, stream.sizes@) =~= blocks_of(stream.runs@));
                    assert(streamed(
                        chunk_size,
                        reads,
                        stream.runs@,
                        stream.sizes@,
                        Seq::<ReadEvent>::empty(),
                        on_chunk,
                        states,
                        handed,
                        results,
                    ));
                }
                return Err(e);
            },
        }
    }
    let ghost runs = stream.runs@;
    let ghost sizes = stream.sizes@;
    let ghost datas = stream.datas@;
    let manifest = stream.finish(name);
    proof {
        lemma_chunk_count(datas, chunk_size as int);
        let reads = reads_since(start, source.record());
        assert(source.record().take(start.len() as int) =~= start);
        assert(reads =~= runs.flatten() + Seq::<ReadEvent>::empty());
        assert(runs.flatten() + Seq::<ReadEvent>::empty() =~= runs.flatten());
        lemma_pieces_flatten(runs, sizes);
        lemma_chunking_is_cut(datas, chunk_size as int);
        assert(streamed(
            chunk_size,
            reads,
            runs,
            sizes,
            Seq::<ReadEvent>::empty(),
            on_chunk,
            states,
            handed,
            results,
        ));
        assert(chunk_datas(handed) == pieces(runs, sizes));
        assert(manifest.describes(chunk_datas(handed)));
        assert(chunk_datas(handed) == cut(delivered(runs.flatten()), chunk_size as nat));
        assert(sizes.len() > 0 && sizes.last() < chunk_size);
        assert(stream_end(
            name,
            chunk_size,
            runs,
            sizes,
            Seq::<ReadEvent>::empty(),
            handed,
            results,
            Ok(manifest),
        ));
    }
    Ok(manifest)
}

} // verus!
