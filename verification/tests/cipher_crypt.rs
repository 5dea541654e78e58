//! Tests of the block cipher and the section crypto.

use paks::cipher::{decrypt, encrypt, expand};
use paks::crypt::{decrypt_section, encrypt_section};
use paks::{Block, Section};

#[test]
fn test_vectors() {
    let key = [0x0f0e0d0c0b0a0908, 0x0706050403020100];
    let rk = expand(key);
    let plaintext = [0x6c61766975716520, 0x7469206564616d20];
    let ciphertext = [0xa65d985179783265, 0x7860fedf5c570d18];
    assert_eq!(ciphertext, encrypt(plaintext, &rk));
    assert_eq!(plaintext, decrypt(ciphertext, &rk));
}

#[test]
fn test_roundtrip() {
    let data = [[1, 2], [3, 4], [5, !0]];
    let ref key = [13, 42];

    let mut blocks: Vec<Block> = data.to_vec();

    let mut section = Section {
        offset: 0,
        size: 3,
        nonce: Block::default(),
        mac: Block::default(),
    };

    encrypt_section(&mut blocks, &mut section, key);
    println!("{:?}", section);

    assert!(decrypt_section(&mut blocks, &section, key));
    assert_eq!(&data[..], &blocks[..]);
}

#[test]
fn test_nonce_freshness() {
    // Two encryptions of the same plaintext under the same key draw
    // different nonces, so the ciphertexts differ too.
    let ref key = [7, 9];
    let data: Vec<Block> = vec![[1, 1], [2, 2]];

    let mut first = data.clone();
    let mut s1 = Section::default();
    encrypt_section(&mut first, &mut s1, key);

    let mut second = data.clone();
    let mut s2 = Section::default();
    encrypt_section(&mut second, &mut s2, key);

    assert_ne!(s1.nonce, s2.nonce);
    assert_ne!(first, second);
}

#[test]
fn test_mac_flip_detected() {
    // Flipping any stored MAC bit makes decryption report inauthentic.
    let ref key = [3, 5];
    let mut blocks: Vec<Block> = vec![[10, 20], [30, 40]];
    let mut section = Section::default();
    encrypt_section(&mut blocks, &mut section, key);

    let mut bad = section;
    bad.mac[0] ^= 1;
    let mut copy = blocks.clone();
    assert!(!decrypt_section(&mut copy, &bad, key));

    let mut bad_hi = section;
    bad_hi.mac[1] ^= 1 << 63;
    let mut copy = blocks.clone();
    assert!(!decrypt_section(&mut copy, &bad_hi, key));
}

#[test]
fn test_ciphertext_flip_detected() {
    // Flipping a ciphertext bit makes decryption report inauthentic, and
    // flipping it back restores authenticity.
    let ref key = [11, 13];
    let mut blocks: Vec<Block> = vec![[1, 2], [3, 4]];
    let mut section = Section::default();
    encrypt_section(&mut blocks, &mut section, key);

    blocks[1][0] ^= 4;
    let mut copy = blocks.clone();
    assert!(!decrypt_section(&mut copy, &section, key));

    blocks[1][0] ^= 4;
    let mut copy = blocks.clone();
    assert!(decrypt_section(&mut copy, &section, key));
}

#[test]
fn test_nonce_flip_detected() {
    // Flipping a nonce bit changes every derived value, so the MAC check
    // fails.
    let ref key = [17, 19];
    let mut blocks: Vec<Block> = vec![[5, 6]];
    let mut section = Section::default();
    encrypt_section(&mut blocks, &mut section, key);

    let mut bad = section;
    bad.nonce[0] ^= 2;
    let mut copy = blocks.clone();
    assert!(!decrypt_section(&mut copy, &bad, key));
}
