use vstd::prelude::*;

verus! {

/// Error kinds surfaced by the encryption core.
///
/// `RandomError` is produced when the entropy source fails during key
/// generation. `StreamCipherError` stands for a keystream position that the
/// cipher's counter cannot represent. The remaining kinds belong to callers
/// of the core: `FileError` to the byte source, `HashInvalid`,
/// `MerkleRootInvalid` and `MerkleRootDoesNotMatch` to a separate integrity
/// pass over the stream; the core itself never produces them, but keeps them
/// distinct so cipher errors and integrity errors stay separable.
#[derive(Debug, Clone, Copy, PartialEq, Eq, Structural)]
pub enum MagicCapError {
    MerkleRootInvalid,
    HashInvalid,
    RandomError,
    FileError,
    MerkleRootDoesNotMatch,
    StreamCipherError,
}

} // verus!
