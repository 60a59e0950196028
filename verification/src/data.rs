//! Framing of a payload into a self-describing byte sequence, its
//! serialization into single bits, and the key-to-seed derivation.

use vstd::prelude::*;
use vstd::utf8::encode_utf8;

verus! {

// ---------------------------------------------------------------------------
// Bit-level model: a byte sequence as a stream of bits, MSB-first per byte.
// ---------------------------------------------------------------------------

/// Bit `j` of byte `b`, counting from the most significant (j = 0) down.
pub open spec fn bit_of(b: u8, j: int) -> u8 {
    (b >> ((7 - j) as u8)) & 1
}

/// Bit `p` of the MSB-first serialization of `data`.
pub open spec fn bits_of(data: Seq<u8>, p: int) -> u8 {
    bit_of(data[p / 8], p % 8)
}

/// Folds eight bit values (each taken modulo 2) into a byte, MSB-first.
pub open spec fn assemble8(b0: u8, b1: u8, b2: u8, b3: u8, b4: u8, b5: u8, b6: u8, b7: u8) -> u8 {
    ((b0 & 1) << 7) | ((b1 & 1) << 6) | ((b2 & 1) << 5) | ((b3 & 1) << 4) | ((b4 & 1) << 3) | ((b5
        & 1) << 2) | ((b6 & 1) << 1) | (b7 & 1)
}

/// Folds four bytes into a 32-bit word, big-endian.
pub open spec fn word_of_bytes(b0: u8, b1: u8, b2: u8, b3: u8) -> u32 {
    ((b0 as u32) << 24) | ((b1 as u32) << 16) | ((b2 as u32) << 8) | (b3 as u32)
}

/// The four big-endian bytes of a 32-bit word.
pub open spec fn be_bytes_of_word(v: u32) -> Seq<u8> {
    seq![(v >> 24) as u8, (v >> 16) as u8, (v >> 8) as u8, v as u8]
}

/// Reassembling a byte from its own eight bits gives the byte back.
pub proof fn lemma_assemble_disassemble(b: u8)
    by (bit_vector)
    ensures
        assemble8(
            (b >> 7) & 1,
            (b >> 6) & 1,
            (b >> 5) & 1,
            (b >> 4) & 1,
            (b >> 3) & 1,
            (b >> 2) & 1,
            (b >> 1) & 1,
            b & 1,
        ) == b,
{
}

/// Reassembling a word from its own big-endian bytes gives the word back.
pub proof fn lemma_word_roundtrip(v: u32)
    by (bit_vector)
    ensures
        word_of_bytes((v >> 24) as u8, (v >> 16) as u8, (v >> 8) as u8, v as u8) == v,
{
}

/// A bit extracted from a byte is 0 or 1, and masking it again changes nothing.
pub proof fn lemma_bit_is_binary(b: u8, s: u8)
    by (bit_vector)
    ensures
        (b >> s) & 1 <= 1,
        ((b >> s) & 1) & 1 == (b >> s) & 1,
{
}

/// Overwriting a byte's LSB with a bit and reading the LSB back gives the bit.
pub proof fn lemma_lsb_set_reads(v: u8, b: u8)
    by (bit_vector)
    requires
        b <= 1,
    ensures
        ((v & 0xfe) | b) & 1 == b,
{
}

/// Reassembling a byte from its bits, named through `bit_of`, gives the byte.
pub proof fn lemma_byte_reassemble(b: u8)
    ensures
        assemble8(
            bit_of(b, 0),
            bit_of(b, 1),
            bit_of(b, 2),
            bit_of(b, 3),
            bit_of(b, 4),
            bit_of(b, 5),
            bit_of(b, 6),
            bit_of(b, 7),
        ) == b,
{
    assert((7 - 0) as u8 == 7u8 && (7 - 1) as u8 == 6u8 && (7 - 2) as u8 == 5u8 && (7 - 3) as u8
        == 4u8 && (7 - 4) as u8 == 3u8 && (7 - 5) as u8 == 2u8 && (7 - 6) as u8 == 1u8 && (7
        - 7) as u8 == 0u8);
    assert(bit_of(b, 7) == (b >> 0u8) & 1);
    assert((b >> 0u8) & 1 == b & 1) by (bit_vector);
    lemma_assemble_disassemble(b);
}

// ---------------------------------------------------------------------------
// CRC-32 and SHA-256, named results of the outside routines.
// ---------------------------------------------------------------------------

pub uninterp spec fn crc32_of(data: Seq<u8>) -> u32;

/// Relies on crc32fast::hash: the IEEE CRC-32 checksum, a function of the
/// input bytes alone; its source folds an empty input to 0.
#[verifier::external_body]
pub(crate) fn crc32(data: &[u8]) -> (r: u32)
    ensures
        r == crc32_of(data@),
        data@.len() == 0 ==> r == 0,
{
    crc32fast::hash(data)
}

pub uninterp spec fn sha256_of(data: Seq<u8>) -> Seq<u8>;

/// Relies on sha2::Sha256 (through Digest::digest): a 32-byte digest that is
/// a function of the input bytes alone.
#[verifier::external_body]
fn sha256(data: &[u8]) -> (r: Vec<u8>)
    ensures
        r@ == sha256_of(data@),
        r@.len() == 32,
{
    <sha2::Sha256 as sha2::Digest>::digest(data).to_vec()
}

// ---------------------------------------------------------------------------
// Payload framing: [length: 4 bytes BE][payload][crc32(payload): 4 bytes BE].
// ---------------------------------------------------------------------------

/// The framed form of a payload.
pub open spec fn packaged(data: Seq<u8>) -> Seq<u8> {
    be_bytes_of_word(data.len() as u32) + data + be_bytes_of_word(crc32_of(data))
}

/// Frames a payload with its length and CRC-32.
pub fn package_data(secret_data: &[u8]) -> (r: Vec<u8>)
    requires
        secret_data@.len() <= u32::MAX,
    ensures
        r@ == packaged(secret_data@),
        r@.len() == secret_data@.len() + 8,
{
    let len_word: u32 = secret_data.len() as u32;
    let crc_word: u32 = crc32(secret_data);

    let mut data: Vec<u8> = Vec::new();
    data.push((len_word >> 24) as u8);
    data.push((len_word >> 16) as u8);
    data.push((len_word >> 8) as u8);
    data.push(len_word as u8);
    let mut i: usize = 0;
    while i < secret_data.len()
        invariant
            i <= secret_data@.len(),
            secret_data@.len() <= u32::MAX,
            data@ == be_bytes_of_word(secret_data@.len() as u32) + secret_data@.take(i as int),
        decreases secret_data@.len() - i,
    {
        data.push(secret_data[i]);
        proof {
            assert(secret_data@.take(i + 1) =~= secret_data@.take(i as int).push(
                secret_data@[i as int],
            ));
        }
        i = i + 1;
    }
    data.push((crc_word >> 24) as u8);
    data.push((crc_word >> 16) as u8);
    data.push((crc_word >> 8) as u8);
    data.push(crc_word as u8);
    proof {
        assert(secret_data@.take(secret_data@.len() as int) =~= secret_data@);
        assert(data@ =~= packaged(secret_data@));
    }
    data
}

// ---------------------------------------------------------------------------
// Bit iteration: a byte slice as a cursor over its bits, MSB-first.
// ---------------------------------------------------------------------------

/// A cursor over the bits of a byte slice, most significant bit first.
pub struct BitIterator<'a> {
    data: &'a [u8],
    byteidx: usize,
    bitidx: usize,
}

impl<'a> BitIterator<'a> {
    /// The bits of the underlying bytes.
    pub closed spec fn bytes(self) -> Seq<u8> {
        self.data@
    }

    /// How many bits have been handed out so far.
    pub closed spec fn pos(self) -> int {
        8 * self.byteidx + 7 - self.bitidx
    }

    pub closed spec fn wf(self) -> bool {
        &&& self.bitidx <= 7
        &&& self.byteidx <= self.data@.len()
        &&& (self.byteidx == self.data@.len() ==> self.bitidx == 7)
    }

    pub fn new(data: &'a [u8]) -> (r: Self)
        ensures
            r.wf(),
            r.bytes() == data@,
            r.pos() == 0,
    {
        BitIterator { data, byteidx: 0, bitidx: 7 }
    }

    /// The next bit, or `None` once every bit has been handed out.
    pub fn next(&mut self) -> (r: Option<u8>)
        requires
            old(self).wf(),
        ensures
            final(self).wf(),
            final(self).bytes() == old(self).bytes(),
            match r {
                Some(bit) => {
                    &&& old(self).pos() < 8 * old(self).bytes().len()
                    &&& bit == bits_of(old(self).bytes(), old(self).pos())
                    &&& final(self).pos() == old(self).pos() + 1
                },
                None => {
                    &&& old(self).pos() == 8 * old(self).bytes().len()
                    &&& final(self).pos() == old(self).pos()
                },
            },
    {
        if self.byteidx >= self.data.len() {
            return None;
        }
        let bit = (self.data[self.byteidx] >> (self.bitidx as u8)) & 1;
        proof {
            let p = self.pos();
            assert(p / 8 == self.byteidx && p % 8 == 7 - self.bitidx) by {
                vstd::arithmetic::div_mod::lemma_fundamental_div_mod_converse(
                    p,
                    8,
                    self.byteidx as int,
                    7 - self.bitidx,
                );
            }
        }
        if self.bitidx == 0 {
            self.byteidx = self.byteidx + 1;
            self.bitidx = 7;
        } else {
            self.bitidx = self.bitidx - 1;
        }
        Some(bit)
    }
}

// ---------------------------------------------------------------------------
// Batching: fixed-size groups of bits, the short tail padded with `None`.
// ---------------------------------------------------------------------------

/// Groups the bits of a `BitIterator` into batches of a fixed size; slots of
/// the final, short batch that have no bit left are `None` rather than 0.
pub struct BatchIterator<'a> {
    iter: BitIterator<'a>,
    size: usize,
}

impl<'a> BatchIterator<'a> {
    pub closed spec fn bytes(self) -> Seq<u8> {
        self.iter.bytes()
    }

    pub closed spec fn pos(self) -> int {
        self.iter.pos()
    }

    pub closed spec fn batch_size(self) -> int {
        self.size as int
    }

    pub closed spec fn wf(self) -> bool {
        self.iter.wf()
    }

    pub fn new(iter: BitIterator<'a>, size: usize) -> (r: Self)
        ensures
            r.wf() == iter.wf(),
            r.bytes() == iter.bytes(),
            r.pos() == iter.pos(),
            r.batch_size() == size,
    {
        BatchIterator { iter, size }
    }

    /// The next batch: `size` slots, slot `k` holding bit `pos + k` of the
    /// stream if that bit exists and `None` otherwise. Yields `None` once the
    /// stream is exhausted.
    pub fn next(&mut self) -> (r: Option<Vec<Option<u8>>>)
        requires
            old(self).wf(),
        ensures
            final(self).wf(),
            final(self).bytes() == old(self).bytes(),
            final(self).batch_size() == old(self).batch_size(),
            ({
                let nbits = (8 * old(self).bytes().len()) as int;
                match r {
                    Some(batch) => {
                        &&& old(self).pos() < nbits
                        &&& batch@.len() == old(self).batch_size()
                        &&& forall|k: int|
                            0 <= k < batch@.len() ==> batch@[k] == (if old(self).pos() + k
                                < nbits {
                                Some(bits_of(old(self).bytes(), old(self).pos() + k))
                            } else {
                                None
                            })
                        &&& final(self).pos() == if old(self).pos() + old(self).batch_size()
                            <= nbits {
                            old(self).pos() + old(self).batch_size()
                        } else {
                            nbits
                        }
                    },
                    None => {
                        &&& (old(self).pos() == nbits || old(self).batch_size() == 0)
                        &&& final(self).pos() == old(self).pos()
                    },
                }
            }),
    {
        let ghost nbits = (8 * self.bytes().len()) as int;
        let ghost pos0 = self.pos();
        let mut batch: Vec<Option<u8>> = Vec::new();
        let mut k: usize = 0;
        let mut got_any = false;
        while k < self.size
            invariant
                self.wf(),
                self.bytes() == old(self).bytes(),
                self.size == old(self).size,
                nbits == 8 * self.bytes().len(),
                pos0 == old(self).pos(),
                batch@.len() == k,
                k <= self.size,
                forall|j: int|
                    0 <= j < k ==> batch@[j] == (if pos0 + j < nbits {
                        Some(bits_of(self.bytes(), pos0 + j))
                    } else {
                        None
                    }),
                self.pos() == if pos0 + k <= nbits {
                    pos0 + k
                } else {
                    nbits
                },
                got_any == (k > 0 && pos0 < nbits),
            decreases self.size - k,
        {
            match self.iter.next() {
                Some(bit) => {
                    batch.push(Some(bit));
                    got_any = true;
                },
                None => {
                    batch.push(None);
                },
            }
            k = k + 1;
        }
        if got_any {
            Some(batch)
        } else {
            None
        }
    }
}

// ---------------------------------------------------------------------------
// Key-to-seed derivation.
// ---------------------------------------------------------------------------

/// The characters an optional key stands for: an absent key is the empty string.
pub open spec fn key_view(key: Option<&String>) -> Seq<char> {
    match key {
        Some(k) => k@,
        None => Seq::<char>::empty(),
    }
}

/// The first eight bytes of a digest, read as a big-endian 64-bit integer.
pub open spec fn be_u64_of(d: Seq<u8>) -> u64 {
    ((d[0] as u64) << 56) | ((d[1] as u64) << 48) | ((d[2] as u64) << 40) | ((d[3] as u64) << 32)
        | ((d[4] as u64) << 24) | ((d[5] as u64) << 16) | ((d[6] as u64) << 8) | (d[7] as u64)
}

/// The 64-bit seed a key derives: the first eight bytes of the SHA-256 digest
/// of the key's UTF-8 bytes, big-endian. A function of the key alone.
pub open spec fn seed_of_key(key: Seq<char>) -> u64 {
    be_u64_of(sha256_of(encode_utf8(key)))
}

/// Derives the traversal seed from an optional key. Same key, same seed.
pub fn hash_key(key: Option<&String>) -> (r: u64)
    ensures
        r == seed_of_key(key_view(key)),
{
    let s: &str = match key {
        Some(k) => k.as_str(),
        None => "",
    };
    proof {
        reveal_strlit("");
        assert(s@ =~= key_view(key));
    }
    let digest: Vec<u8> = sha256(s.as_bytes());
    ((digest[0] as u64) << 56) | ((digest[1] as u64) << 48) | ((digest[2] as u64) << 40) | ((
    digest[3] as u64) << 32) | ((digest[4] as u64) << 24) | ((digest[5] as u64) << 16) | ((
    digest[6] as u64) << 8) | (digest[7] as u64)
}

} // verus!
