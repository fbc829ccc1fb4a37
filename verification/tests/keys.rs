use magic_cap::{new_key, new_key_bytes};

#[test]
fn new_key_bytes_yields_a_secret() {
    let key_bytes = new_key_bytes().unwrap();
    assert_eq!(key_bytes.len(), 16);
}

#[test]
fn new_key_cursor_starts_at_zero() {
    let (cursor, key_bytes) = new_key().unwrap();
    assert_eq!(cursor.key, key_bytes);
    assert_eq!(cursor.nonce, [0u8; 16]);
    assert_eq!(cursor.pos, 0);
}
