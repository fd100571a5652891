use std::cell::Cell;

use kasagumo::chunk::to_decimal;
use kasagumo::chunker::read_full;
use std::io::{self, Cursor, Read};

use kasagumo::{
    calculate_checksum, chunk_reader, to_hex, ByteSource, ChunkId, FileChunk, FileManifest, FilePrimitive,
    StorageError, CHUNK_SIZE,
};

const ABC_SHA256: [u8; 32] = [
    0xba, 0x78, 0x16, 0xbf, 0x8f, 0x01, 0xcf, 0xea, 0x41, 0x41, 0x40, 0xde, 0x5d, 0xae, 0x22, 0x23,
    0xb0, 0x03, 0x61, 0xa3, 0x96, 0x17, 0x7a, 0x9c, 0xb4, 0x10, 0xff, 0x61, 0xf2, 0x00, 0x15, 0xad,
];

const EMPTY_SHA256: [u8; 32] = [
    0xe3, 0xb0, 0xc4, 0x42, 0x98, 0xfc, 0x1c, 0x14, 0x9a, 0xfb, 0xf4, 0xc8, 0x99, 0x6f, 0xb9, 0x24,
    0x27, 0xae, 0x41, 0xe4, 0x64, 0x9b, 0x93, 0x4c, 0xa4, 0x95, 0x99, 0x1b, 0x78, 0x52, 0xb8, 0x55,
];

fn bytes(len: usize) -> Vec<u8> {
    (0..len).map(|i| (i * 7 % 253) as u8).collect()
}

fn cut(data: &[u8], chunk_size: usize) -> FilePrimitive {
    FilePrimitive::from_reader("f.bin", &mut ByteSource::new(Cursor::new(data.to_vec())), chunk_size).unwrap()
}

#[test]
fn checksum_matches_known_vectors() {
    assert_eq!(calculate_checksum(b"abc"), ABC_SHA256);
    assert_eq!(calculate_checksum(b""), EMPTY_SHA256);
    assert_eq!(ChunkId::of(b"abc"), ChunkId(ABC_SHA256));
}

#[test]
fn incremental_checksum_matches_whole_digest() {
    // "abc" read one byte per chunk: the file checksum is fed in three pieces.
    let f = cut(b"abc", 1);
    assert_eq!(f.chunks().len(), 3);
    assert_eq!(*f.checksum(), ABC_SHA256);
    assert_eq!(f.manifest().checksum, ABC_SHA256);
}

#[test]
fn hex_encoding() {
    assert_eq!(to_hex(&[]), "");
    assert_eq!(to_hex(&[0x00, 0x0f, 0xab, 0xff]), "000fabff");
    assert_eq!(ChunkId(ABC_SHA256).short(), "ba7816bf8f01cfea");
    assert_eq!(ChunkId(ABC_SHA256).short().len(), 16);
}

#[test]
fn new_chunk_is_named_by_its_bytes() {
    let c = FileChunk::new(7, b"abc".to_vec());
    assert_eq!(c.index, 7);
    assert_eq!(c.id, ChunkId(ABC_SHA256));
    assert_eq!(c.len(), 3);
    assert!(!c.is_empty());
    assert!(c.verify().is_ok());
    assert!(FileChunk::new(0, Vec::new()).is_empty());
}

#[test]
fn corrupted_chunk_reports_both_ids() {
    let mut c = FileChunk::new(4, b"abc".to_vec());
    c.data[0] = b'x';
    match c.verify() {
        Err(StorageError::CorruptedChunk { index, expected, actual }) => {
            assert_eq!(index, 4);
            assert_eq!(expected, ChunkId(ABC_SHA256));
            assert_eq!(actual, ChunkId::of(b"xbc"));
        }
        other => panic!("unexpected {:?}", other),
    }
}

#[test]
fn same_id_compares_digests() {
    assert!(ChunkId(ABC_SHA256).same_as(&ChunkId::of(b"abc")));
    assert!(!ChunkId(ABC_SHA256).same_as(&ChunkId(EMPTY_SHA256)));
}

#[test]
fn default_chunk_size_is_one_mebibyte() {
    assert_eq!(CHUNK_SIZE, 1_048_576);
}

#[test]
fn manifest_records_the_cut() {
    let data = bytes(2500);
    let f = cut(&data, 1000);
    let m = f.manifest();
    assert_eq!(m.name, "f.bin");
    assert_eq!(f.name(), "f.bin");
    assert_eq!(m.size, 2500);
    assert_eq!(m.chunk_size, 1000);
    assert_eq!(m.chunks.len(), 3);
    assert_eq!(m.chunks[0], ChunkId::of(&data[..1000]));
    assert_eq!(m.chunks[2], ChunkId::of(&data[2000..]));
    assert_eq!(m.checksum, calculate_checksum(&data));
    for (i, c) in f.chunks().iter().enumerate() {
        assert_eq!(c.index, i as u64);
    }
    assert_eq!(f.chunks()[2].len(), 500);
}

#[test]
fn chunk_count_is_size_rounded_up() {
    assert_eq!(cut(&bytes(0), 10).chunks().len(), 0);
    assert_eq!(cut(&bytes(1), 10).chunks().len(), 1);
    assert_eq!(cut(&bytes(10), 10).chunks().len(), 1);
    assert_eq!(cut(&bytes(11), 10).chunks().len(), 2);
    assert_eq!(cut(&bytes(99), 10).chunks().len(), 10);
}

#[test]
fn verify_chunks_reports_count() {
    let (m, mut chunks) = cut(&bytes(3000), 1000).into_parts();
    chunks.pop();
    assert!(matches!(
        m.verify_chunks(&chunks),
        Err(StorageError::ChunkCount { expected: 3, actual: 2 })
    ));
}

#[test]
fn verify_chunks_reports_wrong_index() {
    let (m, mut chunks) = cut(&bytes(3000), 1000).into_parts();
    chunks.swap(0, 1);
    assert!(matches!(m.verify_chunks(&chunks), Err(StorageError::ChunkMismatch { position: 0 })));
}

#[test]
fn verify_chunks_reports_corruption_before_size() {
    let (m, mut chunks) = cut(&bytes(3000), 1000).into_parts();
    chunks[2].data.push(1);
    match m.verify_chunks(&chunks) {
        Err(StorageError::CorruptedChunk { index, expected, .. }) => {
            assert_eq!(index, 2);
            assert_eq!(expected, m.chunks[2]);
        }
        other => panic!("unexpected {:?}", other),
    }
}

#[test]
fn verify_chunks_reports_size() {
    let (mut m, chunks) = cut(&bytes(3000), 1000).into_parts();
    m.size = 2999;
    assert!(matches!(
        m.verify_chunks(&chunks),
        Err(StorageError::SizeMismatch { expected: 2999, actual: 3000 })
    ));
}

#[test]
fn verify_chunks_reports_checksum() {
    let (mut m, chunks) = cut(&bytes(3000), 1000).into_parts();
    m.checksum[0] ^= 1;
    assert!(matches!(m.verify_chunks(&chunks), Err(StorageError::FileChecksumMismatch)));
    assert!(matches!(
        FilePrimitive::from_parts(m, chunks),
        Err(StorageError::FileChecksumMismatch)
    ));
}

#[test]
fn parts_round_trip() {
    let data = bytes(4321);
    let f = cut(&data, 1000);
    let copy = f.clone();
    let (m, chunks) = f.into_parts();
    assert!(m.verify_chunks(&chunks).is_ok());
    let g = FilePrimitive::from_parts(m, chunks).unwrap();
    assert_eq!(g, copy);
    assert_eq!(g.to_bytes(), data);
}

#[test]
fn any_order_reassembles() {
    let data = bytes(7000);
    let (m, mut chunks) = cut(&data, 1000).into_parts();
    // 7 chunks: a fixed shuffle.
    let order = [3usize, 6, 0, 5, 1, 4, 2];
    let mut shuffled = Vec::new();
    for &i in order.iter() {
        shuffled.push(chunks[i].clone());
    }
    chunks.clear();
    let f = FilePrimitive::from_parts(m, shuffled).unwrap();
    assert_eq!(f.to_bytes(), data);
    for (i, c) in f.chunks().iter().enumerate() {
        assert_eq!(c.index, i as u64);
    }
}

#[test]
fn duplicate_index_is_reported_at_its_position() {
    let (m, mut chunks) = cut(&bytes(3000), 1000).into_parts();
    chunks[2] = chunks[1].clone();
    assert!(matches!(
        FilePrimitive::from_parts(m, chunks),
        Err(StorageError::ChunkMismatch { position: 2 })
    ));
}

#[test]
fn same_block_same_id_across_positions() {
    let mut data = vec![9u8; 500];
    data.extend(vec![9u8; 500]);
    let f = cut(&data, 500);
    assert_eq!(f.chunks()[0].id, f.chunks()[1].id);
    assert_ne!(f.chunks()[0].index, f.chunks()[1].index);
}

struct Interrupting {
    inner: Cursor<Vec<u8>>,
    interrupt: bool,
}

impl Read for Interrupting {
    fn read(&mut self, buf: &mut [u8]) -> io::Result<usize> {
        self.interrupt = !self.interrupt;
        if self.interrupt {
            Err(io::Error::from(io::ErrorKind::Interrupted))
        } else {
            let max = buf.len().min(3);
            self.inner.read(&mut buf[..max])
        }
    }
}

#[test]
fn interrupted_reads_are_retried() {
    let data = bytes(1000);
    let r = Interrupting { inner: Cursor::new(data.clone()), interrupt: false };
    let f = FilePrimitive::from_reader("i.bin", &mut ByteSource::new(r), 256).unwrap();
    assert_eq!(f.chunks().len(), 4);
    assert_eq!(f.to_bytes(), data);
}

struct Failing;

impl Read for Failing {
    fn read(&mut self, _buf: &mut [u8]) -> io::Result<usize> {
        Err(io::Error::other("panne"))
    }
}

#[test]
fn read_errors_are_io_errors() {
    assert!(matches!(FilePrimitive::from_reader("e.bin", &mut ByteSource::new(Failing), 16), Err(StorageError::Io(_))));
    assert!(matches!(
        chunk_reader("e.bin".to_string(), &mut ByteSource::new(Failing), 16, |_| Ok(())),
        Err(StorageError::Io(_))
    ));
}

#[test]
fn streaming_hands_over_each_chunk_in_order() {
    let data = bytes(2500);
    let seen = Cell::new(0u64);
    let m: FileManifest = chunk_reader("f.bin".to_string(), &mut ByteSource::new(Cursor::new(data.clone())), 1000, |c| {
        assert_eq!(c.index, seen.get());
        assert!(c.verify().is_ok());
        seen.set(seen.get() + 1);
        Ok(())
    })
    .unwrap();
    assert_eq!(seen.get(), 3);
    assert_eq!(m, *cut(&data, 1000).manifest());
    assert!(matches!(
        chunk_reader("z".to_string(), &mut ByteSource::new(Cursor::new(data)), 0, |_| Ok(())),
        Err(StorageError::InvalidChunkSize)
    ));
}

#[test]
fn decimal_and_hex_texts() {
    assert_eq!(to_decimal(0), "0");
    assert_eq!(to_decimal(7), "7");
    assert_eq!(to_decimal(10), "10");
    assert_eq!(to_decimal(1_048_576), "1048576");
    assert_eq!(to_decimal(u64::MAX), "18446744073709551615");
    assert_eq!(
        ChunkId(ABC_SHA256).to_hex(),
        "ba7816bf8f01cfea414140de5dae2223b00361a396177a9cb410ff61f20015ad"
    );
}

#[test]
fn descriptions() {
    let c = FileChunk::new(3, b"abc".to_vec());
    assert_eq!(c.display(), "FileChunk { id: ba7816bf8f01cfea, index: 3, taille: 3 octets }");
    let f = cut(b"abc", 2);
    assert_eq!(
        f.manifest().display(),
        "FileManifest { name: f.bin, size: 3 octets, chunks: 2, checksum: \
         ba7816bf8f01cfea414140de5dae2223b00361a396177a9cb410ff61f20015ad }"
    );
    assert_eq!(
        f.display(),
        "FilePrimitive { name: f.bin, size: 3 octets, chunks: 2, checksum: \
         ba7816bf8f01cfea414140de5dae2223b00361a396177a9cb410ff61f20015ad }"
    );
}

#[test]
fn callback_error_stops_the_stream() {
    let data = bytes(5000);
    let mut seen = Vec::new();
    let r = chunk_reader("s.bin".to_string(), &mut ByteSource::new(Cursor::new(data)), 1000, |c| {
        seen.push(c.index);
        if c.index == 2 {
            Err(StorageError::InvalidName("refus".to_string()))
        } else {
            Ok(())
        }
    });
    assert!(matches!(r, Err(StorageError::InvalidName(ref n)) if n == "refus"));
    assert_eq!(seen, vec![0, 1, 2]);
}

struct FailsAfter {
    inner: Cursor<Vec<u8>>,
    left: usize,
}

impl Read for FailsAfter {
    fn read(&mut self, buf: &mut [u8]) -> io::Result<usize> {
        if self.left == 0 {
            return Err(io::Error::other("coupure"));
        }
        let max = buf.len().min(self.left);
        let n = self.inner.read(&mut buf[..max])?;
        self.left -= n;
        Ok(n)
    }
}

#[test]
fn read_error_after_full_chunks() {
    let data = bytes(5000);
    let reader = FailsAfter { inner: Cursor::new(data), left: 2500 };
    let mut seen = Vec::new();
    let r = chunk_reader("e.bin".to_string(), &mut ByteSource::new(reader), 1000, |c| {
        seen.push(c.len());
        Ok(())
    });
    match r {
        Err(StorageError::Io(e)) => assert_eq!(e.to_string(), "coupure"),
        other => panic!("unexpected {:?}", other),
    }
    assert_eq!(seen, vec![1000, 1000]);
}

#[test]
fn name_comes_from_into() {
    let f = FilePrimitive::from_reader(String::from("nom.bin"), &mut ByteSource::new(Cursor::new(vec![1u8])), 4).unwrap();
    assert_eq!(f.name(), "nom.bin");
}

#[test]
fn read_full_fills_across_partial_reads() {
    let data = bytes(50);
    let mut source = ByteSource::new(Interrupting { inner: Cursor::new(data.clone()), interrupt: false });
    let mut buf = vec![0u8; 20];
    assert_eq!(read_full(&mut source, &mut buf).unwrap(), 20);
    assert_eq!(buf, data[..20].to_vec());
    assert_eq!(read_full(&mut source, &mut buf).unwrap(), 20);
    assert_eq!(buf, data[20..40].to_vec());
    let mut rest = vec![0u8; 20];
    assert_eq!(read_full(&mut source, &mut rest).unwrap(), 10);
    assert_eq!(rest[..10].to_vec(), data[40..].to_vec());
    assert_eq!(read_full(&mut source, &mut rest).unwrap(), 0);
}

#[test]
fn read_full_on_empty_buffer_reads_nothing() {
    let mut source = ByteSource::new(Failing);
    let mut buf: Vec<u8> = Vec::new();
    assert_eq!(read_full(&mut source, &mut buf).unwrap(), 0);
    let mut buf = vec![0u8; 4];
    match read_full(&mut source, &mut buf) {
        Err(e) => assert_eq!(e.to_string(), "panne"),
        Ok(n) => panic!("unexpected {}", n),
    }
}

#[test]
fn same_bytes_read_differently_give_the_same_manifest() {
    let data = bytes(5000);
    let slow = Interrupting { inner: Cursor::new(data.clone()), interrupt: false };
    let mut sizes = Vec::new();
    let m1 = chunk_reader("s.bin".to_string(), &mut ByteSource::new(slow), 1000, |c| {
        sizes.push(c.len());
        Ok(())
    })
    .unwrap();
    let m2 = chunk_reader(
        "s.bin".to_string(),
        &mut ByteSource::new(Cursor::new(data.clone())),
        1000,
        |_| Ok(()),
    )
    .unwrap();
    assert_eq!(m1, m2);
    assert_eq!(sizes, vec![1000; 5]);
    assert_eq!(m1.checksum, calculate_checksum(&data));
}
