//! The XXTEA block cipher over buffers of 32-bit words, with a 128-bit key.
use vstd::prelude::*;

pub mod cipher;
pub mod packing;
pub mod buffer;

pub use buffer::{check_sizes_and_alignment, decrypt, encrypt, SizeError};
pub use cipher::{decrypt_words, encrypt_words, mx, rounds_for};
