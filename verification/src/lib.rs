//! Save-file transform for "Death by Scrolling": the XXTEA word cipher and the
//! container format (payload, checksum, vendor tag, padding) that it wraps,
//! with the tables that a save editor shows.
//!
//! - `crypto`: the cipher, on blocks of words and on byte buffers
//! - `packing`: byte buffers to blocks of words and back
//! - `codec`: the plaintext block of a save file, `encrypt` and `decrypt`
//! - `editor`: categories of save game fields, edit modes, search matches

pub mod codec;
pub mod crypto;
pub mod editor;
pub mod packing;

pub use codec::{
    alignment_warning, calc_checksum, checksum_warning, decrypt, decrypt_with_warnings, encrypt,
    pack_block, unpack_block, CodecError, IntegrityWarning, UnpackedBlock, EXTRA4, KEY,
};
pub use crypto::{
    xxtea_decrypt_block, xxtea_decrypt_bytes, xxtea_encrypt_block, xxtea_encrypt_bytes,
};
