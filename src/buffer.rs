//! Encryption and decryption of byte buffers in place.
use vstd::prelude::*;

use crate::cipher::{
    decipher, decrypt_words, encipher, encrypt_words, lemma_decipher_len, lemma_encipher_len,
    lemma_words_round_trip,
};
use crate::packing::{
    bytes_of_words, lemma_bytes_of_words_of_bytes, lemma_words_of_bytes_of_words, read_words,
    words_of_bytes, write_words,
};

verus! {

/// Why a data buffer and a key cannot be handed to the cipher.
#[derive(Debug, Clone, Copy, PartialEq, Eq, Structural)]
pub enum SizeError {
    /// The data's length is not a multiple of 32 bits.
    DataNotWordMultiple,
    /// The data holds fewer than two words.
    DataTooShort,
    /// The key is not 128 bits long; the field is the length it has, in bytes.
    KeySize(usize),
}

impl SizeError {
    /// A description of the constraint that failed.
    pub fn message(&self) -> (r: &'static str)
        ensures
            *self == SizeError::DataNotWordMultiple ==> r@ == "data not multiple of 32 bits"@,
            *self == SizeError::DataTooShort ==> r@ == "data shorter than two words"@,
            *self is KeySize ==> r@ == "key size not 128 bits"@,
    {
        proof {
            reveal_strlit("data not multiple of 32 bits");
            reveal_strlit("data shorter than two words");
            reveal_strlit("key size not 128 bits");
        }
        match self {
            SizeError::DataNotWordMultiple => "data not multiple of 32 bits",
            SizeError::DataTooShort => "data shorter than two words",
            SizeError::KeySize(_) => "key size not 128 bits",
        }
    }
}

/// Whether a data buffer of `data_len` bytes and a key of `key_len` bytes
/// can be handed to the cipher.
pub open spec fn valid_sizes(data_len: nat, key_len: nat) -> bool {
    data_len % 4 == 0 && data_len >= 8 && key_len == 16
}

/// The outcome of checking the sizes: the first constraint that fails, of a
/// data length that is a multiple of four, data of two words at least, and a
/// key of 16 bytes, in that order.
pub open spec fn size_check(data_len: nat, key_len: nat) -> Result<(), SizeError> {
    if data_len % 4 != 0 {
        Err(SizeError::DataNotWordMultiple)
    } else if data_len < 8 {
        Err(SizeError::DataTooShort)
    } else if key_len != 16 {
        Err(SizeError::KeySize(key_len as usize))
    } else {
        Ok(())
    }
}

/// The ciphertext of the plaintext bytes `d` under the key bytes `k`.
pub open spec fn encrypt_bytes(d: Seq<u8>, k: Seq<u8>) -> Seq<u8> {
    bytes_of_words(encipher(words_of_bytes(d), words_of_bytes(k)))
}

/// The plaintext of the ciphertext bytes `d` under the key bytes `k`.
pub open spec fn decrypt_bytes(d: Seq<u8>, k: Seq<u8>) -> Seq<u8> {
    bytes_of_words(decipher(words_of_bytes(d), words_of_bytes(k)))
}

/// Checks the sizes that the cipher needs of a data buffer and a key. Words
/// are read out of the bytes one by one, so no alignment is asked of either.
pub fn check_sizes_and_alignment(data: &[u8], key: &[u8]) -> (r: Result<(), SizeError>)
    ensures
        r == size_check(data@.len(), key@.len()),
        r is Ok <==> valid_sizes(data@.len(), key@.len()),
{
    if data.len() % 4 != 0 {
        Err(SizeError::DataNotWordMultiple)
    } else if data.len() < 8 {
        Err(SizeError::DataTooShort)
    } else if key.len() != 16 {
        Err(SizeError::KeySize(key.len()))
    } else {
        Ok(())
    }
}

/// Encrypts `data` in place with a 16-byte key. Words are read from the
/// bytes least significant byte first on every target, so the ciphertext
/// is the same on machines of either byte order.
pub fn encrypt(data: &mut [u8], key: &[u8])
    requires
        valid_sizes(old(data)@.len(), key@.len()),
    ensures
        final(data)@ == encrypt_bytes(old(data)@, key@),
        final(data)@.len() == old(data)@.len(),
{
    let mut words = read_words(data);
    let key_words = read_words(key);
    encrypt_words(words.as_mut_slice(), key_words.as_slice());
    proof {
        lemma_encipher_len(words_of_bytes(old(data)@), key_words@);
    }
    write_words(words.as_slice(), data);
}

/// Decrypts `data` in place with a 16-byte key. Words are read from the
/// bytes least significant byte first on every target, as `encrypt` reads
/// them.
pub fn decrypt(data: &mut [u8], key: &[u8])
    requires
        valid_sizes(old(data)@.len(), key@.len()),
    ensures
        final(data)@ == decrypt_bytes(old(data)@, key@),
        final(data)@.len() == old(data)@.len(),
{
    let mut words = read_words(data);
    let key_words = read_words(key);
    decrypt_words(words.as_mut_slice(), key_words.as_slice());
    proof {
        lemma_decipher_len(words_of_bytes(old(data)@), key_words@);
    }
    write_words(words.as_slice(), data);
}


/// The sizes that `encrypt` and `decrypt` refuse by their precondition are
/// exactly those that the size check refuses, each with the error of the
/// constraint that fails: data not a multiple of 32 bits, data of fewer
/// than two words, or a key that is not 16 bytes long, with its length.
pub proof fn lemma_sizes_enforced(data_len: nat, key_len: nat)
    ensures
        valid_sizes(data_len, key_len) <==> size_check(data_len, key_len) is Ok,
        data_len % 4 != 0 ==> size_check(data_len, key_len) == Err::<(), SizeError>(
            SizeError::DataNotWordMultiple,
        ),
        data_len % 4 == 0 && data_len < 8 ==> size_check(data_len, key_len) == Err::<
            (),
            SizeError,
        >(SizeError::DataTooShort),
        data_len % 4 == 0 && data_len >= 8 && key_len != 16 ==> size_check(data_len, key_len)
            == Err::<(), SizeError>(SizeError::KeySize(key_len as usize)),
{
}

/// Encryption and decryption keep the length of a buffer of whole words.
pub proof fn lemma_length_preserved(d: Seq<u8>, k: Seq<u8>)
    requires
        d.len() % 4 == 0,
    ensures
        encrypt_bytes(d, k).len() == d.len(),
        decrypt_bytes(d, k).len() == d.len(),
{
    lemma_encipher_len(words_of_bytes(d), words_of_bytes(k));
    lemma_decipher_len(words_of_bytes(d), words_of_bytes(k));
}

/// Decrypting with a key what was encrypted with that key gives back the
/// plaintext, for every data buffer and key of valid sizes.
pub proof fn lemma_round_trip(d: Seq<u8>, k: Seq<u8>)
    requires
        valid_sizes(d.len(), k.len()),
    ensures
        decrypt_bytes(encrypt_bytes(d, k), k) == d,
{
    let w = words_of_bytes(d);
    let kw = words_of_bytes(k);
    let c = encipher(w, kw);
    lemma_words_of_bytes_of_words(c);
    lemma_words_round_trip(w, kw);
    lemma_bytes_of_words_of_bytes(d);
}

/// Encrypting the same data with the same key twice gives the same ciphertext.
pub proof fn lemma_deterministic(d1: Seq<u8>, k1: Seq<u8>, d2: Seq<u8>, k2: Seq<u8>)
    requires
        d1 == d2,
        k1 == k2,
    ensures
        encrypt_bytes(d1, k1) == encrypt_bytes(d2, k2),
{
}

/// Under one key, two different plaintexts never give the same ciphertext:
/// changing the data, be it by a single bit, changes the ciphertext.
pub proof fn lemma_distinct_plaintexts(d1: Seq<u8>, d2: Seq<u8>, k: Seq<u8>)
    requires
        valid_sizes(d1.len(), k.len()),
        valid_sizes(d2.len(), k.len()),
        d1 != d2,
    ensures
        encrypt_bytes(d1, k) != encrypt_bytes(d2, k),
{
    lemma_round_trip(d1, k);
    lemma_round_trip(d2, k);
}

} // verus!
