use vstd::prelude::*;

use crate::chunks::{
    chunk_at, chunk_len, lemma_chunk_index_bound, lemma_chunk_len_bounds, num_chunks,
    BufReaderIterator,
};
use crate::errors::MagicCapError;
use vstd::arithmetic::div_mod::{lemma_basic_div, lemma_div_plus_one};
use vstd::seq_lib::lemma_flatten_concat;

use crate::keystream::{
    encryptor, key_from_bytes, key_from_bytes_with_offset, lemma_transform_involution,
    transformed, zero_nonce,
};

verus! {

/// The ciphertext blocks of `data` under `key` and `nonce` at block size
/// `b`: block `i` is chunk `i` transformed at the keystream offset
/// `i * b`, the absolute position of the chunk's first byte. Each block's
/// content is a function of its own index alone, so any processing order
/// yields this same mapping.
pub open spec fn encrypted_chunks(data: Seq<u8>, key: Seq<u8>, nonce: Seq<u8>, b: nat) -> Seq<
    Seq<u8>,
>
    recommends
        b >= 1,
{
    Seq::new(
        num_chunks(data.len(), b),
        |i: int| transformed(chunk_at(data, b, i as nat), key, nonce, i * b),
    )
}

/// Encrypt a whole stream sequentially: one cursor, derived once at the
/// start of the keystream, advances monotonically across the blocks. The
/// result pairs each transformed block with the count of bytes it holds;
/// blocks appear in index order, and block `i` equals
/// `encrypted_chunks(..)[i]`, the same bytes that independent per-block
/// derivation produces (see `lemma_parallel_sequential_equivalence`).
pub fn encrypt_stream(key_bytes: [u8; 16], data: Vec<u8>, blocksize: usize) -> (r: Vec<
    (Vec<u8>, usize),
>)
    requires
        blocksize >= 1,
    ensures
        r@.len() == num_chunks(data@.len(), blocksize as nat),
        forall|i: int|
            0 <= i < r@.len() ==> (#[trigger] r@[i]).0@ == encrypted_chunks(
                data@,
                key_bytes@,
                zero_nonce(),
                blocksize as nat,
            )[i],
        forall|i: int|
            0 <= i < r@.len() ==> (#[trigger] r@[i]).1 == chunk_len(
                data@.len(),
                blocksize as nat,
                i as nat,
            ),
{
    let ghost n: nat = data@.len();
    let ghost b: nat = blocksize as nat;
    let mut source = BufReaderIterator::new(data, blocksize);
    let mut cursor = key_from_bytes(key_bytes);
    let mut out: Vec<(Vec<u8>, usize)> = Vec::new();
    while source.pos < source.data.len()
        invariant
            blocksize >= 1,
            b == blocksize,
            source.blocksize == blocksize,
            source.data@ == data@,
            source.data@.len() == n,
            cursor.key == key_bytes,
            cursor.nonce@ == zero_nonce(),
            cursor.pos == source.pos,
            source.pos <= n,
            out@.len() <= num_chunks(n, b),
            out@.len() < num_chunks(n, b) ==> source.pos == out@.len() * b,
            out@.len() == num_chunks(n, b) ==> source.pos == n,
            forall|i: int|
                0 <= i < out@.len() ==> (#[trigger] out@[i]).0@ == encrypted_chunks(
                    source.data@,
                    key_bytes@,
                    zero_nonce(),
                    b,
                )[i],
            forall|i: int|
                0 <= i < out@.len() ==> (#[trigger] out@[i]).1 == chunk_len(n, b, i as nat),
        decreases n - source.pos,
    {
        let ghost i: nat = out@.len() as nat;
        proof {
            if i == num_chunks(n, b) {
                assert(false);
            }
            lemma_chunk_len_bounds(n, b, i);
        }
        match source.next_block() {
            Some((mut buf, len)) => {
                proof {
                    assert(len == chunk_len(n, b, i));
                }
                buf.truncate(len);
                proof {
                    assert(buf@ =~= chunk_at(source.data@, b, i));
                }
                encryptor(&mut cursor, &mut buf);
                out.push((buf, len));
                proof {
                    assert(out@[i as int].0@ == encrypted_chunks(
                        source.data@,
                        key_bytes@,
                        zero_nonce(),
                        b,
                    )[i as int]);
                    lemma_chunk_index_bound(n, b, i + 1);
                    assert((i + 1) * b == i * b + b) by (nonlinear_arith);
                    if i + 1 < num_chunks(n, b) {
                        assert(source.pos == (i + 1) * b);
                    } else {
                        assert((i + 1) * b >= n);
                        assert(source.pos == n);
                    }
                }
            },
            None => {
                proof {
                    assert(false);
                }
            },
        }
    }
    proof {
        if out@.len() < num_chunks(n, b) {
            lemma_chunk_len_bounds(n, b, out@.len() as nat);
            assert(false);
        }
    }
    out
}

/// Transform one block independently of every other: derive a fresh cursor
/// at the block's absolute offset `index * blocksize` and apply it to the
/// buffer in place. Parallel workers each call this for their own block;
/// no cursor is shared, and the outcome for a given index never depends on
/// processing order. Deriving the cursor cannot fail for any offset a
/// `usize` can express, so the result is always `Ok`.
pub fn encrypt_block(
    key_bytes: [u8; 16],
    blocksize: usize,
    index: usize,
    block: &mut Vec<u8>,
) -> (r: Result<(), MagicCapError>)
    requires
        index * blocksize + old(block)@.len() <= usize::MAX,
    ensures
        r is Ok,
        final(block)@ == transformed(
            old(block)@,
            key_bytes@,
            zero_nonce(),
            index * blocksize,
        ),
{
    proof {
        assert(index * blocksize >= 0) by (nonlinear_arith)
            requires
                index >= 0,
                blocksize >= 0,
        ;
    }
    let offset = index * blocksize;
    match key_from_bytes_with_offset(key_bytes, offset) {
        Ok(mut c) => {
            encryptor(&mut c, block);
            Ok(())
        },
        Err(e) => Err(e),
    }
}

/// The blocks that a strictly sequential pass produces: a single cursor
/// stands at position `start`, transforms the first block, advances by
/// that block's length, and continues down the stream. No block's offset
/// is recomputed from its index; each is simply where the cursor happens
/// to stand.
pub open spec fn sequential_encrypted_chunks(
    data: Seq<u8>,
    key: Seq<u8>,
    nonce: Seq<u8>,
    b: nat,
    start: int,
) -> Seq<Seq<u8>>
    recommends
        b >= 1,
    decreases data.len(),
{
    if b == 0 || data.len() == 0 {
        Seq::<Seq<u8>>::empty()
    } else if data.len() <= b {
        seq![transformed(data, key, nonce, start)]
    } else {
        seq![transformed(data.subrange(0, b as int), key, nonce, start)]
            + sequential_encrypted_chunks(
            data.subrange(b as int, data.len() as int),
            key,
            nonce,
            b,
            start + b,
        )
    }
}

proof fn lemma_sequential_matches_indexed(
    data: Seq<u8>,
    key: Seq<u8>,
    nonce: Seq<u8>,
    b: nat,
    start: int,
)
    requires
        b >= 1,
    ensures
        sequential_encrypted_chunks(data, key, nonce, b, start) == Seq::new(
            num_chunks(data.len(), b),
            |i: int| transformed(chunk_at(data, b, i as nat), key, nonce, start + i * b),
        ),
    decreases data.len(),
{
    let n = data.len();
    let lhs = sequential_encrypted_chunks(data, key, nonce, b, start);
    let rhs = Seq::new(
        num_chunks(n, b),
        |i: int| transformed(chunk_at(data, b, i as nat), key, nonce, start + i * b),
    );
    if n == 0 {
        assert(lhs =~= rhs);
    } else if n <= b {
        lemma_basic_div((n - 1) as int, b as int);
        assert(num_chunks(n, b) == 1);
        assert(chunk_at(data, b, 0) =~= data);
        assert(lhs =~= rhs);
    } else {
        let tail = data.subrange(b as int, n as int);
        lemma_sequential_matches_indexed(tail, key, nonce, b, start + b);
        lemma_div_plus_one((n - b - 1) as int, b as int);
        assert(num_chunks(n, b) == 1 + num_chunks((n - b) as nat, b));
        assert forall|i: int| 0 <= i < num_chunks(n, b) implies lhs[i] == rhs[i] by {
            if i == 0 {
                assert(chunk_len(n, b, 0) == b);
                assert(chunk_at(data, b, 0) =~= data.subrange(0, b as int));
            } else {
                let j = i - 1;
                assert(j * b + b == i * b && j * b + 2 * b == i * b + b) by (nonlinear_arith)
                    requires
                        j + 1 == i,
                ;
                lemma_chunk_index_bound((n - b) as nat, b, j as nat);
                lemma_chunk_index_bound(n, b, i as nat);
                assert(chunk_len((n - b) as nat, b, j as nat) == chunk_len(n, b, i as nat));
                assert(chunk_at(tail, b, j as nat) =~= chunk_at(data, b, i as nat));
            }
        }
        assert(lhs =~= rhs);
    }
}

/// Law: encrypting a stream by sequential single-cursor advancement and by
/// deriving an independent cursor per block, each at its own absolute
/// offset `i * b`, yield byte-identical ciphertext.
/// `sequential_encrypted_chunks` describes the sequential pass, where each
/// block's position is only where the cursor came to rest;
/// `encrypted_chunks` describes per-block derivation, the contract of
/// `encrypt_block` and of `encrypt_stream`'s result. They are equal, so
/// the mapping from index to ciphertext does not depend on how blocks are
/// scheduled.
pub proof fn lemma_parallel_sequential_equivalence(
    data: Seq<u8>,
    key: Seq<u8>,
    nonce: Seq<u8>,
    b: nat,
)
    requires
        b >= 1,
    ensures
        sequential_encrypted_chunks(data, key, nonce, b, 0) == encrypted_chunks(
            data,
            key,
            nonce,
            b,
        ),
{
    lemma_sequential_matches_indexed(data, key, nonce, b, 0);
    assert(sequential_encrypted_chunks(data, key, nonce, b, 0) =~= encrypted_chunks(
        data,
        key,
        nonce,
        b,
    ));
}

proof fn lemma_transformed_split(data: Seq<u8>, key: Seq<u8>, nonce: Seq<u8>, start: int, b: int)
    requires
        0 <= b <= data.len(),
    ensures
        transformed(data, key, nonce, start) == transformed(
            data.subrange(0, b),
            key,
            nonce,
            start,
        ) + transformed(data.subrange(b, data.len() as int), key, nonce, start + b),
{
    assert(transformed(data, key, nonce, start) =~= transformed(
        data.subrange(0, b),
        key,
        nonce,
        start,
    ) + transformed(data.subrange(b, data.len() as int), key, nonce, start + b));
}

proof fn lemma_sequential_flattens_to_transform(
    data: Seq<u8>,
    key: Seq<u8>,
    nonce: Seq<u8>,
    b: nat,
    start: int,
)
    requires
        b >= 1,
    ensures
        sequential_encrypted_chunks(data, key, nonce, b, start).flatten() == transformed(
            data,
            key,
            nonce,
            start,
        ),
    decreases data.len(),
{
    let n = data.len();
    let s = sequential_encrypted_chunks(data, key, nonce, b, start);
    if n == 0 {
        assert(s.flatten() =~= transformed(data, key, nonce, start));
    } else if n <= b {
        s.lemma_flatten_one_element();
    } else {
        let head = seq![transformed(data.subrange(0, b as int), key, nonce, start)];
        let tail = data.subrange(b as int, n as int);
        let rest = sequential_encrypted_chunks(tail, key, nonce, b, start + b);
        lemma_flatten_concat(head, rest);
        lemma_sequential_flattens_to_transform(tail, key, nonce, b, start + b);
        head.lemma_flatten_one_element();
        lemma_transformed_split(data, key, nonce, start, b as int);
        assert(s.flatten() =~= transformed(data, key, nonce, start));
    }
}

/// Law: the ciphertext stream — a pass's blocks concatenated in index
/// order — is bit for bit the plaintext with every byte XORed against the
/// keystream at that byte's absolute offset. Any conforming implementation
/// with the same key, nonce and block size must produce these exact bytes,
/// whatever its internal parallelism.
pub proof fn lemma_ciphertext_stream_is_flat_transform(
    data: Seq<u8>,
    key: Seq<u8>,
    nonce: Seq<u8>,
    b: nat,
)
    requires
        b >= 1,
    ensures
        encrypted_chunks(data, key, nonce, b).flatten() == transformed(data, key, nonce, 0),
{
    lemma_parallel_sequential_equivalence(data, key, nonce, b);
    lemma_sequential_flattens_to_transform(data, key, nonce, b, 0);
}

/// Law: a full round trip at the stream level. Encrypting the
/// concatenated ciphertext again, with the same key, nonce and block
/// size, restores the plaintext exactly, for every plaintext and every
/// block size.
pub proof fn lemma_stream_round_trip(data: Seq<u8>, key: Seq<u8>, nonce: Seq<u8>, b: nat)
    requires
        b >= 1,
    ensures
        encrypted_chunks(
            encrypted_chunks(data, key, nonce, b).flatten(),
            key,
            nonce,
            b,
        ).flatten() == data,
{
    lemma_ciphertext_stream_is_flat_transform(data, key, nonce, b);
    let ciphertext = transformed(data, key, nonce, 0);
    lemma_ciphertext_stream_is_flat_transform(ciphertext, key, nonce, b);
    lemma_transform_involution(data, key, nonce, 0);
}

} // verus!
