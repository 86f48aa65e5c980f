//! Distributed threshold decryption of LWE ciphertexts.
//!
//! A group of parties, each holding an additive share of an LWE secret key,
//! cooperates to decrypt a single ciphertext.  All arithmetic happens in
//! rings of integers modulo a power of two; correctness of the revealed
//! plaintext is guarded by an information-theoretic MAC.

pub mod ring;
pub mod sharing;
pub mod decomposition;
pub mod params;
pub mod lwe;
pub mod gates;
pub mod mac;
pub mod party;
pub mod protocol;
pub mod preprocessing;
pub mod transfer;
pub mod utils;
