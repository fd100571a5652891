//! Chunks and their content-derived ids.

use vstd::prelude::*;

use crate::digest::{calculate_checksum, sha256_spec, Sha256Hash};
use crate::error::{Result, StorageError};

verus! {

/// The lower-case hexadecimal digit of a value below 16.
pub open spec fn hex_digit_spec(v: u8) -> char {
    if v == 0 { '0' } else if v == 1 { '1' } else if v == 2 { '2' } else if v == 3 { '3' }
    else if v == 4 { '4' } else if v == 5 { '5' } else if v == 6 { '6' } else if v == 7 { '7' }
    else if v == 8 { '8' } else if v == 9 { '9' } else if v == 10 { 'a' } else if v == 11 { 'b' }
    else if v == 12 { 'c' } else if v == 13 { 'd' } else if v == 14 { 'e' } else { 'f' }
}

/// Lower-case hexadecimal encoding, two digits per byte, high nibble first.
pub open spec fn hex_spec(bytes: Seq<u8>) -> Seq<char>
    decreases bytes.len(),
{
    if bytes.len() == 0 {
        Seq::empty()
    } else {
        let b = bytes.last();
        hex_spec(bytes.drop_last()) + seq![hex_digit_spec(b >> 4), hex_digit_spec(b & 0x0f)]
    }
}

/// The value of a lower-case hexadecimal digit, read from its code point;
/// `None` for any other character.
pub open spec fn hex_value(c: char) -> Option<int> {
    let p = c as u32 as int;
    if 48 <= p <= 57 {
        Some(p - 48)
    } else if 97 <= p <= 102 {
        Some(p - 87)
    } else {
        None
    }
}

/// `s` is a hexadecimal text of `bytes`: two lower-case digits per byte,
/// which read back as the byte's high nibble then its low nibble.
pub open spec fn reads_as_hex(s: Seq<char>, bytes: Seq<u8>) -> bool {
    &&& s.len() == 2 * bytes.len()
    &&& forall|i: int|
        0 <= i < bytes.len() ==> #[trigger] hex_value(s[2 * i]) == Some(bytes[i] as int / 16) && hex_value(
            s[2 * i + 1],
        ) == Some(bytes[i] as int % 16)
}

/// Each digit reads back as its value.
pub proof fn lemma_hex_digit_value(v: u8)
    requires
        v < 16,
    ensures
        hex_value(hex_digit_spec(v)) == Some(v as int),
{
}

/// The hexadecimal text of any bytes reads back, digit pair by digit pair,
/// as those bytes.
pub proof fn lemma_hex_reads_back(bytes: Seq<u8>)
    ensures
        reads_as_hex(hex_spec(bytes), bytes),
    decreases bytes.len(),
{
    if bytes.len() > 0 {
        let rest = bytes.drop_last();
        let b = bytes.last();
        lemma_hex_reads_back(rest);
        assert(b >> 4 < 16 && b & 0x0f < 16) by (bit_vector);
        assert(b >> 4 == b / 16 && b & 0x0f == b % 16) by (bit_vector);
        lemma_hex_digit_value(b >> 4);
        lemma_hex_digit_value(b & 0x0f);
        let s = hex_spec(bytes);
        assert(s == hex_spec(rest) + seq![hex_digit_spec(b >> 4), hex_digit_spec(b & 0x0f)]);
        assert forall|i: int| 0 <= i < bytes.len() implies #[trigger] hex_value(s[2 * i]) == Some(
            bytes[i] as int / 16,
        ) && hex_value(s[2 * i + 1]) == Some(bytes[i] as int % 16) by {
            if i < rest.len() {
                assert(s[2 * i] == hex_spec(rest)[2 * i]);
                assert(s[2 * i + 1] == hex_spec(rest)[2 * i + 1]);
                assert(bytes[i] == rest[i]);
            }
        }
    }
}

/// The value of a text of decimal digits, most significant first.
pub open spec fn dec_value(s: Seq<char>) -> int
    decreases s.len(),
{
    if s.len() == 0 {
        0
    } else {
        dec_value(s.drop_last()) * 10 + (s.last() as u32 as int - 48)
    }
}

/// `s` is the decimal text of `n`: at least one digit, all of them decimal
/// digits, no leading zero, reading back as `n`.
pub open spec fn reads_as_decimal(s: Seq<char>, n: nat) -> bool {
    &&& s.len() > 0
    &&& forall|i: int| 0 <= i < s.len() ==> 48 <= #[trigger] (s[i] as u32) <= 57
    &&& (s[0] == '0' ==> s.len() == 1)
    &&& dec_value(s) == n
}

/// The decimal text of any number reads back as that number.
pub proof fn lemma_decimal_reads_back(n: nat)
    ensures
        reads_as_decimal(dec_spec(n), n),
    decreases n,
{
    if n < 10 {
        lemma_hex_digit_value(n as u8);
        let s = dec_spec(n);
        assert(s.drop_last() =~= Seq::<char>::empty());
        assert(dec_value(s.drop_last()) == 0);
        assert(s.last() == hex_digit_spec(n as u8));
        assert(dec_value(s) == n);
        assert(48 <= (s[0] as u32) <= 57);
    } else {
        let q = n / 10;
        let r = (n % 10) as u8;
        lemma_decimal_reads_back(q);
        lemma_hex_digit_value(r);
        let s = dec_spec(n);
        let t = dec_spec(q);
        assert(s == t + seq![hex_digit_spec(r)]);
        assert(s.drop_last() =~= t);
        assert(s[0] == t[0]);
        assert forall|i: int| 0 <= i < s.len() implies 48 <= #[trigger] (s[i] as u32) <= 57 by {
            if i < t.len() {
                assert(s[i] == t[i]);
            }
        }
        if t.len() == 1 && t[0] == '0' {
            assert(t.drop_last() =~= Seq::<char>::empty());
            assert(dec_value(t.drop_last()) == 0);
            assert(t.last() == t[0]);
            assert(('0' as u32) == 48);
            assert(dec_value(t) == 0);
        }
        assert(s.last() == hex_digit_spec(r));
        assert(dec_value(s) == dec_value(t) * 10 + (r as int));
        assert(n == q * 10 + (r as int));
        assert(48 <= (s[s.len() - 1] as u32) <= 57);
    }
}

fn hex_digit(v: u8) -> (s: &'static str)
    requires
        v < 16,
    ensures
        s@ == seq![hex_digit_spec(v)],
{
    proof {
        reveal_strlit("0"); reveal_strlit("1"); reveal_strlit("2"); reveal_strlit("3");
        reveal_strlit("4"); reveal_strlit("5"); reveal_strlit("6"); reveal_strlit("7");
        reveal_strlit("8"); reveal_strlit("9"); reveal_strlit("a"); reveal_strlit("b");
        reveal_strlit("c"); reveal_strlit("d"); reveal_strlit("e"); reveal_strlit("f");
    }
    if v == 0 { "0" } else if v == 1 { "1" } else if v == 2 { "2" } else if v == 3 { "3" }
    else if v == 4 { "4" } else if v == 5 { "5" } else if v == 6 { "6" } else if v == 7 { "7" }
    else if v == 8 { "8" } else if v == 9 { "9" } else if v == 10 { "a" } else if v == 11 { "b" }
    else if v == 12 { "c" } else if v == 13 { "d" } else if v == 14 { "e" } else { "f" }
}

/// Encodes `bytes` in lower-case hexadecimal.
pub fn to_hex(bytes: &[u8]) -> (s: String)
    ensures
        s@ == hex_spec(bytes@),
        reads_as_hex(s@, bytes@),
{
    proof {
        lemma_hex_reads_back(bytes@);
    }
    let mut s = String::new();
    let mut i: usize = 0;
    while i < bytes.len()
        invariant
            i <= bytes.len(),
            s@ == hex_spec(bytes@.take(i as int)),
        decreases bytes.len() - i,
    {
        let b = bytes[i];
        assert(b >> 4 < 16 && b & 0x0f < 16) by (bit_vector);
        s.append(hex_digit(b >> 4));
        s.append(hex_digit(b & 0x0f));
        assert(bytes@.take(i + 1).drop_last() =~= bytes@.take(i as int));
        i = i + 1;
    }
    assert(bytes@.take(bytes.len() as int) =~= bytes@);
    s
}

/// The decimal digits of `n`, most significant first, without leading zeros.
pub open spec fn dec_spec(n: nat) -> Seq<char>
    decreases n,
{
    if n < 10 {
        seq![hex_digit_spec(n as u8)]
    } else {
        dec_spec(n / 10) + seq![hex_digit_spec((n % 10) as u8)]
    }
}

/// Writes `n` in decimal.
pub fn to_decimal(n: u64) -> (s: String)
    ensures
        s@ == dec_spec(n as nat),
        reads_as_decimal(s@, n as nat),
    decreases n,
{
    proof {
        lemma_decimal_reads_back(n as nat);
    }
    if n < 10 {
        let mut s = String::new();
        s.append(hex_digit(n as u8));
        assert(s@ =~= dec_spec(n as nat));
        s
    } else {
        let mut s = to_decimal(n / 10);
        s.append(hex_digit((n % 10) as u8));
        s
    }
}

/// Whether two digests hold the same bytes.
pub(crate) fn same_digest(a: &Sha256Hash, b: &Sha256Hash) -> (eq: bool)
    ensures
        eq <==> a@ == b@,
{
    let mut i: usize = 0;
    while i < 32
        invariant
            i <= 32,
            forall|j: int| 0 <= j < i ==> a@[j] == b@[j],
        decreases 32 - i,
    {
        if a[i] != b[i] {
            return false;
        }
        i = i + 1;
    }
    assert(a@ =~= b@);
    true
}

/// The id of a chunk: the SHA-256 of its bytes.
#[derive(Clone, Copy, PartialEq, Eq, Hash, PartialOrd, Ord, Debug)]
pub struct ChunkId(pub Sha256Hash);

impl View for ChunkId {
    type V = Seq<u8>;

    open spec fn view(&self) -> Seq<u8> {
        self.0@
    }
}

impl ChunkId {
    /// The id of a chunk that holds `data`.
    pub fn of(data: &[u8]) -> (id: ChunkId)
        ensures
            id@ == sha256_spec(data@),
    {
        ChunkId(calculate_checksum(data))
    }

    /// The whole id in hexadecimal: sixty-four digits.
    pub fn to_hex(&self) -> (s: String)
        ensures
            s@ == hex_spec(self@),
    {
        to_hex(&self.0)
    }

    /// The first eight bytes of the id in hexadecimal: sixteen digits.
    pub fn short(&self) -> (s: String)
        ensures
            s@ == hex_spec(self@.take(8)),
            s@.len() == 16,
    {
        let s = to_hex(&self.0[0..8]);
        proof { lemma_hex_len(self@.take(8)); }
        s
    }

    /// Whether both ids hold the same digest.
    pub fn same_as(&self, other: &ChunkId) -> (eq: bool)
        ensures
            eq <==> self@ == other@,
    {
        same_digest(&self.0, &other.0)
    }
}

/// A hexadecimal encoding has two digits per byte.
pub proof fn lemma_hex_len(bytes: Seq<u8>)
    ensures
        hex_spec(bytes).len() == 2 * bytes.len(),
    decreases bytes.len(),
{
    if bytes.len() > 0 {
        lemma_hex_len(bytes.drop_last());
    }
}

/// A piece of a file: its bytes, its position in the file and its id.
#[derive(PartialEq, Eq, Debug)]
pub struct FileChunk {
    pub id: ChunkId,
    pub index: u64,
    pub data: Vec<u8>,
}

impl Clone for FileChunk {
    fn clone(&self) -> (copy: FileChunk)
        ensures
            copy.id == self.id,
            copy.index == self.index,
            copy.data@ == self.data@,
    {
        let data = self.data.clone();
        proof {
            assert forall|i: int| 0 <= i < data@.len() implies data@[i] == self.data@[i] by {
                assert(cloned::<u8>(self.data@[i], data@[i]));
            }
            assert(data@ =~= self.data@);
        }
        FileChunk { id: self.id, index: self.index, data }
    }
}

impl FileChunk {
    /// Whether the chunk's id is the SHA-256 of its bytes.
    pub open spec fn is_intact(&self) -> bool {
        self.id@ == sha256_spec(self.data@)
    }

    /// The chunk at position `index` that holds `data`, named by its hash.
    pub fn new(index: u64, data: Vec<u8>) -> (chunk: FileChunk)
        ensures
            chunk.index == index,
            chunk.data@ == data@,
            chunk.id@ == sha256_spec(data@),
            chunk.is_intact(),
    {
        let id = ChunkId::of(data.as_slice());
        FileChunk { id, index, data }
    }

    /// Checks that the bytes still hash to the chunk's id.
    pub fn verify(&self) -> (res: Result<()>)
        ensures
            res is Ok <==> self.is_intact(),
            res matches Err(e) ==> e matches StorageError::CorruptedChunk { index, expected, actual }
                && index == self.index && expected == self.id && actual@ == sha256_spec(self.data@),
    {
        let actual = ChunkId::of(self.data.as_slice());
        if actual.same_as(&self.id) {
            Ok(())
        } else {
            Err(StorageError::CorruptedChunk { index: self.index, expected: self.id, actual })
        }
    }

    /// A one-line description: the short id, the index and the size.
    pub fn display(&self) -> (s: String)
        ensures
            s@ == "FileChunk { id: "@ + hex_spec(self.id@.take(8)) + ", index: "@ + dec_spec(
                self.index as nat,
            ) + ", taille: "@ + dec_spec(self.data@.len()) + " octets }"@,
    {
        let mut s = String::new();
        s.append("FileChunk { id: ");
        s.append(self.id.short().as_str());
        s.append(", index: ");
        s.append(to_decimal(self.index).as_str());
        s.append(", taille: ");
        s.append(to_decimal(self.data.len() as u64).as_str());
        s.append(" octets }");
        s
    }

    /// The number of bytes in the chunk.
    pub fn len(&self) -> (n: usize)
        ensures
            n == self.data@.len(),
    {
        self.data.len()
    }

    /// Whether the chunk holds no byte.
    pub fn is_empty(&self) -> (b: bool)
        ensures
            b <==> self.data@.len() == 0,
    {
        self.data.is_empty()
    }
}

/// Intact chunks with the same bytes have the same id, whatever their
/// position: a block shared by two files is stored under one id.
pub proof fn lemma_same_bytes_same_id(a: FileChunk, b: FileChunk)
    requires
        a.is_intact(),
        b.is_intact(),
        a.data@ == b.data@,
    ensures
        a.id@ == b.id@,
{
}

} // verus!
