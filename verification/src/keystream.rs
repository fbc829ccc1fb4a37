use vstd::prelude::*;

use crate::errors::MagicCapError;
use cipher::{KeyIvInit, StreamCipher, StreamCipherSeek};

verus! {

/// The byte at absolute position `pos` of the infinite keystream that
/// AES-128 in counter mode defines for a given key and nonce. The stream
/// cipher computes it from the key, the nonce and the position alone, so it
/// is a pure function of these three arguments; no short formula states its
/// value, so it stays uninterpreted.
pub uninterp spec fn keystream_byte(key: Seq<u8>, nonce: Seq<u8>, pos: int) -> u8;

/// The all-zero 128-bit nonce. A session holds it constant across all
/// blocks: uniqueness of keystream positions comes from the byte offset
/// alone, which is sound only while each key is used for a single session.
pub open spec fn zero_nonce() -> Seq<u8> {
    Seq::new(16, |i: int| 0u8)
}

/// The result of XOR-ing `data` against the keystream of `(key, nonce)`
/// starting at absolute position `start`.
pub open spec fn transformed(data: Seq<u8>, key: Seq<u8>, nonce: Seq<u8>, start: int) -> Seq<u8> {
    Seq::new(data.len(), |i: int| data[i] ^ keystream_byte(key, nonce, start + i))
}

/// Relies on `ctr::Ctr128BE<aes::Aes128>` through `cipher::KeyIvInit::new`,
/// `cipher::StreamCipherSeek::try_seek` and
/// `cipher::StreamCipher::apply_keystream`: the `len` keystream bytes
/// starting at byte position `offset` of the stream defined by `key` and
/// `nonce`. The cipher derives every byte from these arguments alone.
/// `try_seek` converts the position into a 128-bit block counter, which
/// holds every `u64` byte offset, and `apply_keystream` reports more than
/// `usize::MAX` remaining blocks at any such counter, so neither call can
/// fail here.
#[verifier::external_body]
fn keystream_bytes(key: &[u8; 16], nonce: &[u8; 16], offset: u64, len: usize) -> (r: Vec<u8>)
    requires
        offset + len <= u64::MAX,
    ensures
        r@.len() == len,
        forall|i: int| 0 <= i < len ==> r@[i] == keystream_byte(key@, nonce@, offset + i),
{
    let mut buf = vec![0u8; len];
    let mut cipher = ctr::Ctr128BE::<aes::Aes128>::new(&(*key).into(), &(*nonce).into());
    cipher.try_seek(offset).unwrap();
    cipher.apply_keystream(&mut buf);
    buf
}

/// A keystream cursor: the key, the nonce and an absolute byte position.
/// It owns no resource and is cheap to build, so parallel workers each
/// derive their own instead of sharing one; two cursors with equal fields
/// produce identical keystream bytes (see `lemma_offset_determinism`).
#[derive(Clone, Copy)]
pub struct KeystreamCursor {
    pub key: [u8; 16],
    pub nonce: [u8; 16],
    pub pos: u64,
}

/// The all-zero initialization value as bytes.
fn zero_iv() -> (r: [u8; 16])
    ensures
        r@ == zero_nonce(),
{
    let r = [0u8; 16];
    proof {
        assert(r@ =~= zero_nonce());
    }
    r
}

/// A cursor for `key_bytes` under the session's zero nonce, positioned at
/// the start of the keystream.
pub fn key_from_bytes(key_bytes: [u8; 16]) -> (r: KeystreamCursor)
    ensures
        r.key == key_bytes,
        r.nonce@ == zero_nonce(),
        r.pos == 0,
{
    KeystreamCursor { key: key_bytes, nonce: zero_iv(), pos: 0 }
}

/// A cursor for `key_bytes` under the zero nonce, positioned at byte
/// `offset` of the keystream. Deriving is idempotent and side-effect-free:
/// equal arguments give interchangeable cursors. A seek error would need an
/// offset beyond the 128-bit counter space, which no `usize` reaches, so
/// the result is always `Ok`.
pub fn key_from_bytes_with_offset(key_bytes: [u8; 16], offset: usize) -> (r: Result<
    KeystreamCursor,
    MagicCapError,
>)
    ensures
        r is Ok,
        r->Ok_0.key == key_bytes,
        r->Ok_0.nonce@ == zero_nonce(),
        r->Ok_0.pos == offset,
{
    Ok(KeystreamCursor { key: key_bytes, nonce: zero_iv(), pos: offset as u64 })
}

/// XOR the cursor's next `plain_text_block.len()` keystream bytes into the
/// buffer in place and advance the cursor by that many positions. The same
/// operation encrypts and decrypts: see `lemma_transform_involution`.
pub fn encryptor(key: &mut KeystreamCursor, plain_text_block: &mut Vec<u8>)
    requires
        old(key).pos + old(plain_text_block)@.len() <= u64::MAX,
    ensures
        final(key).key == old(key).key,
        final(key).nonce == old(key).nonce,
        final(key).pos == old(key).pos + old(plain_text_block)@.len(),
        final(plain_text_block)@ == transformed(
            old(plain_text_block)@,
            old(key).key@,
            old(key).nonce@,
            old(key).pos as int,
        ),
{
    let ghost orig: Seq<u8> = plain_text_block@;
    let len = plain_text_block.len();
    let ks = keystream_bytes(&key.key, &key.nonce, key.pos, len);
    let mut i: usize = 0;
    while i < len
        invariant
            i <= len,
            len == orig.len(),
            plain_text_block@.len() == len,
            ks@.len() == len,
            forall|j: int| 0 <= j < len ==> ks@[j] == keystream_byte(
                key.key@,
                key.nonce@,
                key.pos + j,
            ),
            forall|j: int| 0 <= j < i ==> plain_text_block@[j] == (orig[j] ^ keystream_byte(
                key.key@,
                key.nonce@,
                key.pos + j,
            )),
            forall|j: int| i <= j < len ==> plain_text_block@[j] == orig[j],
        decreases len - i,
    {
        let b = plain_text_block[i];
        let k = ks[i];
        plain_text_block[i] = b ^ k;
        i = i + 1;
    }
    proof {
        assert(plain_text_block@ =~= transformed(orig, key.key@, key.nonce@, key.pos as int));
    }
    key.pos = key.pos + len as u64;
}

proof fn lemma_xor_cancel(a: u8, b: u8)
    ensures
        (a ^ b) ^ b == a,
{
    assert((a ^ b) ^ b == a) by (bit_vector);
}

/// Law: transforming twice under the same key, nonce and starting offset
/// returns the original bytes. The transform is its own inverse, so
/// encryption and decryption share one code path, and a decryption pass
/// over ciphertext restores the plaintext.
pub proof fn lemma_transform_involution(data: Seq<u8>, key: Seq<u8>, nonce: Seq<u8>, start: int)
    ensures
        transformed(transformed(data, key, nonce, start), key, nonce, start) == data,
{
    let twice = transformed(transformed(data, key, nonce, start), key, nonce, start);
    assert forall|i: int| 0 <= i < data.len() implies twice[i] == data[i] by {
        lemma_xor_cancel(data[i], keystream_byte(key, nonce, start + i));
    }
    assert(twice =~= data);
}

/// Law: two cursors that agree on key, nonce and position transform every
/// buffer identically, however each of them was derived. This
/// interchangeability is what makes per-block derivation safe for parallel
/// workers.
pub proof fn lemma_offset_determinism(a: KeystreamCursor, b: KeystreamCursor, data: Seq<u8>)
    requires
        a.key == b.key,
        a.nonce == b.nonce,
        a.pos == b.pos,
    ensures
        transformed(data, a.key@, a.nonce@, a.pos as int) == transformed(
            data,
            b.key@,
            b.nonce@,
            b.pos as int,
        ),
{
}

} // verus!
