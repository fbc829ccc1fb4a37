use cipher::{KeyIvInit, StreamCipher, StreamCipherSeek};
use magic_cap::{
    encrypt_block, encrypt_stream, encryptor, key_from_bytes, key_from_bytes_with_offset,
};

type ReferenceCipher = ctr::Ctr128BE<aes::Aes128>;

fn sample_bytes(n: usize) -> Vec<u8> {
    let mut v: Vec<u8> = Vec::with_capacity(n);
    for i in 0..n {
        v.push((i.wrapping_mul(31) % 256) as u8);
    }
    v
}

fn sample_key() -> [u8; 16] {
    [
        0x2b, 0x7e, 0x15, 0x16, 0x28, 0xae, 0xd2, 0xa6, 0xab, 0xf7, 0x15, 0x88, 0x09, 0xcf, 0x4f,
        0x3c,
    ]
}

fn concat_blocks(blocks: &[(Vec<u8>, usize)]) -> Vec<u8> {
    let mut out: Vec<u8> = Vec::new();
    for (block, filled) in blocks {
        assert_eq!(block.len(), *filled);
        out.extend_from_slice(block);
    }
    out
}

#[test]
fn round_trip_all_small_block_sizes() {
    let key = sample_key();
    let plain = sample_bytes(100);
    for blocksize in 1..40usize {
        let encrypted = concat_blocks(&encrypt_stream(key, plain.clone(), blocksize));
        let decrypted = concat_blocks(&encrypt_stream(key, encrypted, blocksize));
        assert_eq!(decrypted, plain);
    }
}

#[test]
fn round_trip_large_stream() {
    let key = sample_key();
    let plain = sample_bytes(5000);
    let encrypted = concat_blocks(&encrypt_stream(key, plain.clone(), 1024));
    assert_ne!(encrypted, plain);
    let decrypted = concat_blocks(&encrypt_stream(key, encrypted, 1024));
    assert_eq!(decrypted, plain);
}

#[test]
fn idempotent_transform_at_same_offset() {
    let key = sample_key();
    let original = sample_bytes(300);
    let mut buf = original.clone();
    let mut first = key_from_bytes_with_offset(key, 1234).unwrap();
    encryptor(&mut first, &mut buf);
    assert_ne!(buf, original);
    let mut second = key_from_bytes_with_offset(key, 1234).unwrap();
    encryptor(&mut second, &mut buf);
    assert_eq!(buf, original);
}

#[test]
fn offset_determinism_of_derived_cursors() {
    let key = sample_key();
    for offset in [0usize, 1, 15, 16, 17, 4096, 99999] {
        let mut a = key_from_bytes_with_offset(key, offset).unwrap();
        let mut b = key_from_bytes_with_offset(key, offset).unwrap();
        let mut buf_a = vec![0u8; 64];
        let mut buf_b = vec![0u8; 64];
        encryptor(&mut a, &mut buf_a);
        encryptor(&mut b, &mut buf_b);
        assert_eq!(buf_a, buf_b);
    }
}

#[test]
fn seeking_equals_advancing() {
    let key = sample_key();
    let mut advanced = key_from_bytes(key);
    let mut skipped = vec![0u8; 37];
    encryptor(&mut advanced, &mut skipped);
    assert_eq!(advanced.pos, 37);

    let mut derived = key_from_bytes_with_offset(key, 37).unwrap();
    let mut buf_a = vec![0u8; 64];
    let mut buf_b = vec![0u8; 64];
    encryptor(&mut advanced, &mut buf_a);
    encryptor(&mut derived, &mut buf_b);
    assert_eq!(buf_a, buf_b);
}

#[test]
fn parallel_and_sequential_passes_agree() {
    let key = sample_key();
    let plain = sample_bytes(5000);
    let blocksize = 1024usize;
    let sequential = encrypt_stream(key, plain.clone(), blocksize);

    let mut independent: Vec<Vec<u8>> = Vec::new();
    for (index, chunk) in plain.chunks(blocksize).enumerate() {
        let mut block = chunk.to_vec();
        encrypt_block(key, blocksize, index, &mut block).unwrap();
        independent.push(block);
    }

    assert_eq!(sequential.len(), independent.len());
    for (i, (block, _)) in sequential.iter().enumerate() {
        assert_eq!(block, &independent[i]);
    }
}

#[test]
fn five_thousand_bytes_make_five_blocks() {
    let key = sample_key();
    let plain = sample_bytes(5000);
    let blocks = encrypt_stream(key, plain, 1024);
    let lengths: Vec<usize> = blocks.iter().map(|(_, filled)| *filled).collect();
    assert_eq!(lengths, vec![1024, 1024, 1024, 1024, 904]);
    for (block, filled) in &blocks {
        assert_eq!(block.len(), *filled);
    }
}

#[test]
fn block_four_keystream_starts_at_4096() {
    let key = sample_key();
    let plain = sample_bytes(5000);
    let blocks = encrypt_stream(key, plain.clone(), 1024);

    let mut tail = plain[4096..5000].to_vec();
    let mut cursor = key_from_bytes_with_offset(key, 4096).unwrap();
    encryptor(&mut cursor, &mut tail);
    assert_eq!(blocks[4].0, tail);
}

#[test]
fn empty_stream_emits_zero_blocks() {
    let key = sample_key();
    let blocks = encrypt_stream(key, Vec::new(), 1024);
    assert_eq!(blocks.len(), 0);
}

#[test]
fn encryptor_advances_cursor_by_length() {
    let key = sample_key();
    let mut cursor = key_from_bytes(key);
    assert_eq!(cursor.pos, 0);
    let mut buf = sample_bytes(100);
    encryptor(&mut cursor, &mut buf);
    assert_eq!(cursor.pos, 100);
    encryptor(&mut cursor, &mut buf);
    assert_eq!(cursor.pos, 200);
}

#[test]
fn matches_aes128_ctr_reference() {
    let key = sample_key();
    let iv = [0u8; 16];
    let plain = sample_bytes(333);

    let mut expected = plain.clone();
    let mut reference = ReferenceCipher::new(&key.into(), &iv.into());
    reference.apply_keystream(&mut expected);

    let mut actual = plain.clone();
    let mut cursor = key_from_bytes(key);
    encryptor(&mut cursor, &mut actual);
    assert_eq!(actual, expected);
}

#[test]
fn matches_aes128_ctr_reference_after_seek() {
    let key = sample_key();
    let iv = [0u8; 16];
    let plain = sample_bytes(100);

    let mut expected = plain.clone();
    let mut reference = ReferenceCipher::new(&key.into(), &iv.into());
    reference.try_seek(4096u64).unwrap();
    reference.apply_keystream(&mut expected);

    let mut actual = plain.clone();
    let mut cursor = key_from_bytes_with_offset(key, 4096).unwrap();
    encryptor(&mut cursor, &mut actual);
    assert_eq!(actual, expected);
}

#[test]
fn zero_key_known_answer() {
    // AES-128 with the all-zero key encrypts the all-zero block to this
    // vector; in counter mode with the zero nonce it is the first 16
    // keystream bytes, so encrypting 16 zero bytes must produce it.
    let expected = vec![
        0x66u8, 0xe9, 0x4b, 0xd4, 0xef, 0x8a, 0x2c, 0x3b, 0x88, 0x4c, 0xfa, 0x59, 0xca, 0x34,
        0x2b, 0x2e,
    ];
    let mut buf = vec![0u8; 16];
    let mut cursor = key_from_bytes([0u8; 16]);
    encryptor(&mut cursor, &mut buf);
    assert_eq!(buf, expected);
}
