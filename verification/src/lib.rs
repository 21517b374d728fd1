//! Recovery of a repeating XOR key stream that was reused across several
//! ciphertexts (a many-time pad), via the classic crib on space characters,
//! together with the hex codec and XOR utilities that feed the recovery.

pub mod decrypt;
pub mod hex;
pub mod keyderive;
pub mod xor;

pub use decrypt::BoundsError;
pub use decrypt::decrypt;
pub use hex::FormatError;
pub use hex::bytes_to_hex;
pub use hex::hex_to_bytes;
pub use keyderive::derive_key;
pub use xor::xor_bytes;
