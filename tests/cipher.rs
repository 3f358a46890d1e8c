use xxtea::{
    check_sizes_and_alignment, decrypt, decrypt_words, encrypt, encrypt_words, mx, rounds_for,
    SizeError,
};

fn sequential_key() -> Vec<u8> {
    (0u8..16).collect()
}

fn differing_bits(a: &[u8], b: &[u8]) -> u32 {
    a.iter().zip(b.iter()).map(|(x, y)| (x ^ y).count_ones()).sum()
}

#[test]
fn concrete_scenario_round_trips() {
    let key = sequential_key();
    let plain = vec![0x41u8; 32];
    let mut data = plain.clone();
    encrypt(&mut data, &key);
    assert_ne!(data, plain);
    assert_eq!(
        data,
        vec![
            76, 54, 121, 144, 119, 190, 91, 188, 155, 228, 209, 167, 25, 134, 183, 123, 204, 186,
            20, 131, 112, 190, 255, 137, 100, 115, 185, 23, 175, 64, 61, 164
        ]
    );
    decrypt(&mut data, &key);
    assert_eq!(data, plain);
}

#[test]
fn minimum_size_round_trips() {
    let key = sequential_key();
    let plain: Vec<u8> = (0u8..8).collect();
    let mut data = plain.clone();
    encrypt(&mut data, &key);
    assert_eq!(data, vec![99, 58, 116, 40, 44, 220, 169, 36]);
    decrypt(&mut data, &key);
    assert_eq!(data, plain);
}

#[test]
fn large_buffer_round_trips_with_six_rounds() {
    let key = sequential_key();
    let plain: Vec<u8> = (0..1024u32).map(|i| (i * 7 + 3) as u8).collect();
    let mut data = plain.clone();
    encrypt(&mut data, &key);
    assert_eq!(data.len(), 1024);
    assert_ne!(data, plain);
    decrypt(&mut data, &key);
    assert_eq!(data, plain);
    assert_eq!(rounds_for(256), 6);
}

#[test]
fn round_counts() {
    assert_eq!(rounds_for(2), 32);
    assert_eq!(rounds_for(8), 12);
    assert_eq!(rounds_for(52), 7);
    assert_eq!(rounds_for(53), 6);
}

#[test]
fn encryption_is_deterministic() {
    let key = sequential_key();
    let mut a: Vec<u8> = (0u8..40).collect();
    let mut b = a.clone();
    encrypt(&mut a, &key);
    encrypt(&mut b, &key);
    assert_eq!(a, b);
}

#[test]
fn one_bit_changes_many_output_bits() {
    let key = sequential_key();
    let mut base = vec![0x41u8; 32];
    encrypt(&mut base, &key);

    let mut flipped_data = vec![0x41u8; 32];
    flipped_data[0] ^= 1;
    encrypt(&mut flipped_data, &key);
    assert!(differing_bits(&base, &flipped_data) > 64);

    let mut flipped_key = sequential_key();
    flipped_key[5] ^= 0x10;
    let mut other = vec![0x41u8; 32];
    encrypt(&mut other, &flipped_key);
    assert!(differing_bits(&base, &other) > 64);
}

#[test]
fn lengths_are_kept() {
    let key = sequential_key();
    for words in [2usize, 3, 7, 64] {
        let mut data = vec![0x5au8; 4 * words];
        encrypt(&mut data, &key);
        assert_eq!(data.len(), 4 * words);
        decrypt(&mut data, &key);
        assert_eq!(data.len(), 4 * words);
    }
}

#[test]
fn decrypting_with_another_key_gives_other_bytes() {
    let key = sequential_key();
    let plain = vec![0x41u8; 32];
    let mut data = plain.clone();
    encrypt(&mut data, &key);
    let mut other_key = sequential_key();
    other_key[0] ^= 1;
    decrypt(&mut data, &other_key);
    assert_ne!(data, plain);
}

#[test]
fn sizes_accepted() {
    assert_eq!(check_sizes_and_alignment(&[0u8; 8], &[0u8; 16]), Ok(()));
    assert_eq!(check_sizes_and_alignment(&[0u8; 1024], &[0u8; 16]), Ok(()));
}

#[test]
fn data_not_word_multiple_is_refused() {
    let r = check_sizes_and_alignment(&[0u8; 30], &[0u8; 16]);
    assert_eq!(r, Err(SizeError::DataNotWordMultiple));
    assert_eq!(r.unwrap_err().message(), "data not multiple of 32 bits");
    assert_eq!(
        check_sizes_and_alignment(&[0u8; 7], &[0u8; 3]),
        Err(SizeError::DataNotWordMultiple)
    );
}

#[test]
fn data_of_fewer_than_two_words_is_refused() {
    assert_eq!(check_sizes_and_alignment(&[0u8; 4], &[0u8; 16]), Err(SizeError::DataTooShort));
    assert_eq!(check_sizes_and_alignment(&[], &[0u8; 16]), Err(SizeError::DataTooShort));
    assert_eq!(SizeError::DataTooShort.message(), "data shorter than two words");
}

#[test]
fn key_of_wrong_size_is_refused() {
    assert_eq!(check_sizes_and_alignment(&[0u8; 32], &[0u8; 15]), Err(SizeError::KeySize(15)));
    assert_eq!(check_sizes_and_alignment(&[0u8; 32], &[0u8; 32]), Err(SizeError::KeySize(32)));
    assert_eq!(SizeError::KeySize(15).message(), "key size not 128 bits");
}

#[test]
fn mixer_value() {
    assert_eq!(mx(0x12345678, 0x9abcdef0, 0x0fedcba9, 5, 2, &[1, 2, 3, 4]), 0xd09fbe67);
}

#[test]
fn word_transforms_round_trip() {
    let key = [0u32; 4];
    let mut v = vec![1u32, 2];
    encrypt_words(&mut v, &key);
    assert_eq!(v, vec![2937274262, 2693953004]);
    decrypt_words(&mut v, &key);
    assert_eq!(v, vec![1, 2]);
}

#[test]
fn bytes_are_read_least_significant_first() {
    let key = sequential_key();
    let mut bytes: Vec<u8> = (0u8..8).collect();
    encrypt(&mut bytes, &key);
    let key_words = [0x03020100u32, 0x07060504, 0x0b0a0908, 0x0f0e0d0c];
    let mut words = vec![0x03020100u32, 0x07060504];
    encrypt_words(&mut words, &key_words);
    let expected: Vec<u8> = words.iter().flat_map(|w| w.to_le_bytes()).collect();
    assert_eq!(bytes, expected);
}
