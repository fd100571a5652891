//! Reading input: a reader together with the record of every read made on
//! it. Only `read_some`, which makes the read, adds to the record.

use vstd::prelude::*;

use std::io::Read;

verus! {

/// What one `Read::read` call gave.
pub enum ReadStep {
    /// This many bytes were read.
    Got(usize),
    /// The call failed with this error, which may be an interruption.
    Error(std::io::Error),
}

/// One read made on a source: the offset in the buffer it was given, what it
/// gave, and the bytes it placed there (none unless it read some).
pub struct ReadEvent {
    pub at: usize,
    pub step: ReadStep,
    pub bytes: Seq<u8>,
}

/// A reader, with the record of the reads made on it through this library.
pub struct ByteSource<R> {
    reader: R,
    record: Ghost<Seq<ReadEvent>>,
}

impl<R> ByteSource<R> {
    /// Every read made on the source so far, in order.
    pub closed spec fn record(&self) -> Seq<ReadEvent> {
        self.record@
    }

    /// A source over `reader` on which nothing has been read yet.
    pub fn new(reader: R) -> (source: ByteSource<R>)
        ensures
            source.record() == Seq::<ReadEvent>::empty(),
    {
        ByteSource { reader, record: Ghost(Seq::empty()) }
    }
}

/// The reads made on a source between the record `before` and the record
/// `after`.
pub open spec fn reads_since(before: Seq<ReadEvent>, after: Seq<ReadEvent>) -> Seq<ReadEvent> {
    after.skip(before.len() as int)
}

/// `after` is `before` with more reads at its end.
pub open spec fn extends(before: Seq<ReadEvent>, after: Seq<ReadEvent>) -> bool {
    &&& before.len() <= after.len()
    &&& after.take(before.len() as int) == before
}

/// The bytes the reads of `log` delivered, one read after another.
pub open spec fn delivered(log: Seq<ReadEvent>) -> Seq<u8>
    decreases log.len(),
{
    if log.len() == 0 {
        Seq::empty()
    } else {
        delivered(log.drop_last()) + log.last().bytes
    }
}

/// The bytes of two runs of reads, one after the other.
pub proof fn lemma_delivered_concat(a: Seq<ReadEvent>, b: Seq<ReadEvent>)
    ensures
        delivered(a + b) == delivered(a) + delivered(b),
    decreases b.len(),
{
    if b.len() == 0 {
        assert(a + b =~= a);
        assert(delivered(a) + delivered(b) =~= delivered(a));
    } else {
        lemma_delivered_concat(a, b.drop_last());
        assert((a + b).drop_last() =~= a + b.drop_last());
        assert((a + b).last() == b.last());
        assert(delivered(a + b) =~= delivered(a) + delivered(b));
    }
}

/// Reads once from the source into `buf[from..]` with `std::io::Read::read`.
///
/// Trusted: the contract says that the bytes before `from` and the length of
/// `buf` stay as they were (the call only sees `buf[from..]`); that a
/// successful read reports no more bytes than it was given room for, as the
/// trait's documentation requires of every implementation; and that the
/// read is added to the source's record with its offset, its outcome and,
/// when it read `n` bytes, the `n` bytes it placed at `from`. Which bytes
/// the reader gives is not stated.
#[verifier::external_body]
pub(crate) fn read_some<R: Read>(source: &mut ByteSource<R>, buf: &mut Vec<u8>, from: usize) -> (step: ReadStep)
    requires
        from <= old(buf)@.len(),
    ensures
        final(buf)@.len() == old(buf)@.len(),
        final(buf)@.take(from as int) == old(buf)@.take(from as int),
        step matches ReadStep::Got(n) ==> n <= old(buf)@.len() - from,
        final(source).record() == old(source).record().push(
            (ReadEvent {
                at: from,
                step,
                bytes: match step {
                    ReadStep::Got(n) => final(buf)@.subrange(from as int, from + n),
                    _ => Seq::empty(),
                },
            }),
        ),
{
    match source.reader.read(&mut buf[from..]) {
        Ok(n) => ReadStep::Got(n),
        Err(e) => ReadStep::Error(e),
    }
}

/// Whether `e` is of the kind `std::io::ErrorKind::Interrupted`, as
/// `std::io::Error::kind` reports it.
pub uninterp spec fn interrupted(e: std::io::Error) -> bool;

/// Tells whether a read error is an interruption, with
/// `std::io::Error::kind`.
///
/// Trusted: the contract says that the answer is `interrupted(*e)`, which
/// depends on the error alone.
#[verifier::external_body]
pub(crate) fn is_interrupted(e: &std::io::Error) -> (b: bool)
    ensures
        b == interrupted(*e),
{
    match e.kind() {
        std::io::ErrorKind::Interrupted => true,
        _ => false,
    }
}

} // verus!
