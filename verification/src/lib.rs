pub mod chunks;
pub mod errors;
pub mod keys;
pub mod keystream;
pub mod stream;

pub use chunks::BufReaderIterator;
pub use errors::MagicCapError;
pub use keys::{new_key, new_key_bytes};
pub use keystream::{encryptor, key_from_bytes, key_from_bytes_with_offset, KeystreamCursor};
pub use stream::{encrypt_block, encrypt_stream};
