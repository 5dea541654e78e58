//! Authenticated encryption of block ranges: counter-mode confidentiality
//! and a CBC-MAC over the ciphertext, both built from the block cipher.
//!
//! Every encryption draws a fresh random nonce, derives four per-section
//! values from it (stream round keys, MAC round keys, stream start, MAC
//! start) and processes the blocks in place. Decryption runs the identical
//! derivation and compares the recomputed MAC in constant time.

use vstd::prelude::*;

use crate::cipher;
use crate::cipher::ROUNDS;
use crate::cipher::spec_encrypt_block;
use crate::cipher::spec_round_keys;
use crate::records::Block;
use crate::records::Header;
use crate::records::InfoHeader;
use crate::records::Key;
use crate::records::Section;
use crate::records::VERSION;
use crate::records::blocks_of_words;
use crate::records::info_from_blocks;
use crate::records::info_to_blocks;
use crate::records::info_words;
use crate::records::lemma_blocks_words_blocks;
use crate::records::spec_word_lo;
use crate::records::words_of_blocks;

verus! {

/// XOR of two blocks, word by word.
pub open spec fn xor_block(a: Block, b: Block) -> Block {
    [a[0] ^ b[0], a[1] ^ b[1]]
}

/// The `i`-th counter block of a nonce: the second word is advanced by `i`
/// modulo 2^64.
pub open spec fn ctr_block(nonce: Block, i: u64) -> Block {
    [nonce[0], vstd::wrapping::u64_specs::wrapping_add(nonce[1], i)]
}

/// Single-block encryption as a block-to-block function.
pub open spec fn enc_block(b: Block, rks: Seq<u64>) -> Block {
    [spec_encrypt_block((b[0], b[1]), rks).0, spec_encrypt_block((b[0], b[1]), rks).1]
}

/// Stream-cipher round keys derived for a section.
pub open spec fn spec_rke(key: Key, nonce: Block) -> Seq<u64> {
    spec_round_keys(enc_block(ctr_block(nonce, 0), spec_round_keys(key)))
}

/// MAC round keys derived for a section.
pub open spec fn spec_rkm(key: Key, nonce: Block) -> Seq<u64> {
    spec_round_keys(enc_block(ctr_block(nonce, 1), spec_round_keys(key)))
}

/// Stream-cipher starting nonce derived for a section.
pub open spec fn spec_ne(key: Key, nonce: Block) -> Block {
    enc_block(ctr_block(nonce, 2), spec_round_keys(key))
}

/// MAC initial chaining value derived for a section.
pub open spec fn spec_nm(key: Key, nonce: Block) -> Block {
    enc_block(ctr_block(nonce, 3), spec_round_keys(key))
}

/// The `i`-th keystream block of a section.
pub open spec fn keystream(key: Key, nonce: Block, i: u64) -> Block {
    enc_block(ctr_block(spec_ne(key, nonce), i), spec_rke(key, nonce))
}

/// The counter-mode transform of one block at position `i`: keystream XOR
/// data. Applying it twice at the same position is the identity.
pub open spec fn cipher_at(b: Block, key: Key, nonce: Block, i: u64) -> Block {
    xor_block(keystream(key, nonce, i), b)
}

/// The counter-mode transform of a block sequence. This single function is
/// both encryption (on plaintext) and decryption (on ciphertext).
pub open spec fn cipher_blocks(bs: Seq<Block>, key: Key, nonce: Block) -> Seq<Block> {
    Seq::new(bs.len(), |i: int| cipher_at(bs[i], key, nonce, i as u64))
}

/// The CBC-MAC chaining value over the first `i` ciphertext blocks.
pub open spec fn mac_state(ct: Seq<Block>, key: Key, nonce: Block, i: nat) -> Block
    decreases i,
{
    if i == 0 {
        spec_nm(key, nonce)
    } else {
        enc_block(
            xor_block(mac_state(ct, key, nonce, (i - 1) as nat), ct[i - 1]),
            spec_rkm(key, nonce),
        )
    }
}

/// The MAC of a ciphertext block sequence.
pub open spec fn spec_mac(ct: Seq<Block>, key: Key, nonce: Block) -> Block {
    mac_state(ct, key, nonce, ct.len())
}

/// XOR with the same block twice is the identity.
proof fn lemma_xor_involution(k0: u64, k1: u64, b0: u64, b1: u64)
    by (bit_vector)
    ensures
        k0 ^ (k0 ^ b0) == b0,
        k1 ^ (k1 ^ b1) == b1,
{
}

/// The counter-mode transform is an involution: applying it to its own
/// output restores the input. This is the heart of the AEAD round trip.
pub proof fn lemma_cipher_blocks_involution(bs: Seq<Block>, key: Key, nonce: Block)
    ensures
        cipher_blocks(cipher_blocks(bs, key, nonce), key, nonce) =~= bs,
{
    assert forall|i: int| 0 <= i < bs.len() implies cipher_blocks(
        cipher_blocks(bs, key, nonce),
        key,
        nonce,
    )[i] == bs[i] by {
        let ks = keystream(key, nonce, i as u64);
        lemma_xor_involution(ks[0], ks[1], bs[i][0], bs[i][1]);
        assert(xor_block(ks, xor_block(ks, bs[i])) =~= bs[i]);
    }
}

/// Constant-time equality of two 128-bit values: the OR of the XORs of the
/// halves is zero exactly when both halves agree.
proof fn lemma_ct_compare(a0: u64, a1: u64, b0: u64, b1: u64)
    by (bit_vector)
    ensures
        ((a0 ^ b0) | (a1 ^ b1) == 0) <==> (a0 == b0 && a1 == b1),
{
}

/// Relies on getrandom::u64 for a fresh random value from the operating
/// system's entropy source. Nothing is promised of the value. If the
/// source is unavailable the process aborts by panic, per the fatal
/// entropy policy.
#[verifier::external_body]
fn random_u64() -> u64 {
    getrandom::u64().unwrap()
}

/// Exec counterpart of `ctr_block`.
fn counter(nonce: &Block, i: u64) -> (r: Block)
    ensures
        r == ctr_block(*nonce, i),
{
    [nonce[0], nonce[1].wrapping_add(i)]
}

/// Exec counterpart of `xor_block`.
fn xor(a: &Block, b: &Block) -> (r: Block)
    ensures
        r == xor_block(*a, *b),
{
    proof {
        assert([a[0] ^ b[0], a[1] ^ b[1]] =~= xor_block(*a, *b));
    }
    [a[0] ^ b[0], a[1] ^ b[1]]
}

/// Encrypts the blocks in place under a fresh random nonce, stores the
/// nonce and the ciphertext MAC in the section.
///
/// Nothing is promised of the nonce itself: it comes from the random
/// source, and every clause below holds whatever value was drawn.
pub fn encrypt_section(blocks: &mut Vec<Block>, section: &mut Section, key: &Key)
    ensures
        final(section).offset == old(section).offset,
        final(section).size == old(section).size,
        final(blocks)@ =~= cipher_blocks(old(blocks)@, *key, final(section).nonce),
        final(section).mac == spec_mac(final(blocks)@, *key, final(section).nonce),
{
    let w0 = random_u64();
    let w1 = random_u64();
    section.nonce = [w0, w1];
    let nonce: Block = section.nonce;

    let rk = cipher::expand(*key);
    let e0 = cipher::encrypt(counter(&nonce, 0), &rk);
    let e1 = cipher::encrypt(counter(&nonce, 1), &rk);
    let ne = cipher::encrypt(counter(&nonce, 2), &rk);
    let nm = cipher::encrypt(counter(&nonce, 3), &rk);
    proof {
        assert(e0 =~= enc_block(ctr_block(nonce, 0), spec_round_keys(*key)));
        assert(e1 =~= enc_block(ctr_block(nonce, 1), spec_round_keys(*key)));
        assert(ne =~= spec_ne(*key, nonce));
        assert(nm =~= spec_nm(*key, nonce));
    }
    let rke = cipher::expand(e0);
    let rkm = cipher::expand(e1);

    let ghost orig = blocks@;
    let ghost ct = cipher_blocks(orig, *key, nonce);
    let mut mac: Block = nm;
    let mut i: usize = 0;
    while i < blocks.len()
        invariant
            i <= blocks@.len(),
            blocks@.len() == orig.len(),
            ct == cipher_blocks(orig, *key, nonce),
            ct.len() == orig.len(),
            rke@ =~= spec_rke(*key, nonce),
            rkm@ =~= spec_rkm(*key, nonce),
            ne == spec_ne(*key, nonce),
            nm == spec_nm(*key, nonce),
            forall|j: int| 0 <= j < i ==> blocks@[j] == ct[j],
            forall|j: int| i <= j < orig.len() ==> blocks@[j] == orig[j],
            mac == mac_state(ct, *key, nonce, i as nat),
        decreases blocks@.len() - i,
    {
        let pt = blocks[i];
        let ks = cipher::encrypt(counter(&ne, i as u64), &rke);
        proof {
            assert(ks =~= keystream(*key, nonce, i as u64));
        }
        let c = xor(&ks, &pt);
        proof {
            assert(c == cipher_at(orig[i as int], *key, nonce, i as u64));
            assert(c == ct[i as int]);
        }
        let m = xor(&mac, &c);
        mac = cipher::encrypt(m, &rkm);
        proof {
            assert(mac =~= mac_state(ct, *key, nonce, (i + 1) as nat));
        }
        blocks[i] = c;
        i += 1;
    }
    proof {
        assert(blocks@ =~= ct);
    }
    section.mac = mac;
}

/// Decrypts the blocks in place under the section's nonce and reports
/// whether the recomputed ciphertext MAC equals the stored one.
///
/// The blocks are overwritten with the decryption whatever the verdict;
/// callers must not use them when the verdict is false.
pub fn decrypt_section(blocks: &mut Vec<Block>, section: &Section, key: &Key) -> (r: bool)
    ensures
        final(blocks)@ =~= cipher_blocks(old(blocks)@, *key, section.nonce),
        r == (section.mac == spec_mac(old(blocks)@, *key, section.nonce)),
{
    let nonce: Block = section.nonce;
    let rk = cipher::expand(*key);
    let e0 = cipher::encrypt(counter(&nonce, 0), &rk);
    let e1 = cipher::encrypt(counter(&nonce, 1), &rk);
    let ne = cipher::encrypt(counter(&nonce, 2), &rk);
    let nm = cipher::encrypt(counter(&nonce, 3), &rk);
    proof {
        assert(e0 =~= enc_block(ctr_block(nonce, 0), spec_round_keys(*key)));
        assert(e1 =~= enc_block(ctr_block(nonce, 1), spec_round_keys(*key)));
        assert(ne =~= spec_ne(*key, nonce));
        assert(nm =~= spec_nm(*key, nonce));
    }
    let rke = cipher::expand(e0);
    let rkm = cipher::expand(e1);

    let ghost orig = blocks@;
    let ghost pt = cipher_blocks(orig, *key, nonce);
    let mut mac: Block = nm;
    let mut i: usize = 0;
    while i < blocks.len()
        invariant
            i <= blocks@.len(),
            blocks@.len() == orig.len(),
            pt == cipher_blocks(orig, *key, nonce),
            pt.len() == orig.len(),
            rke@ =~= spec_rke(*key, nonce),
            rkm@ =~= spec_rkm(*key, nonce),
            ne == spec_ne(*key, nonce),
            nm == spec_nm(*key, nonce),
            forall|j: int| 0 <= j < i ==> blocks@[j] == pt[j],
            forall|j: int| i <= j < orig.len() ==> blocks@[j] == orig[j],
            mac == mac_state(orig, *key, nonce, i as nat),
        decreases blocks@.len() - i,
    {
        let c = blocks[i];
        let ks = cipher::encrypt(counter(&ne, i as u64), &rke);
        proof {
            assert(ks =~= keystream(*key, nonce, i as u64));
        }
        let p = xor(&ks, &c);
        proof {
            assert(p == pt[i as int]);
        }
        let m = xor(&mac, &c);
        mac = cipher::encrypt(m, &rkm);
        proof {
            assert(mac =~= mac_state(orig, *key, nonce, (i + 1) as nat));
        }
        blocks[i] = p;
        i += 1;
    }
    proof {
        assert(blocks@ =~= pt);
    }

    let diff = (section.mac[0] ^ mac[0]) | (section.mac[1] ^ mac[1]);
    proof {
        lemma_ct_compare(section.mac[0], section.mac[1], mac[0], mac[1]);
        if section.mac[0] == mac[0] && section.mac[1] == mac[1] {
            assert(section.mac =~= mac);
        }
    }
    diff == 0
}

/// The plaintext info header that `encrypt_header` seals: the given
/// directory section under the version magic and a zero reserved field.
pub open spec fn plain_info(directory: Section) -> InfoHeader {
    InfoHeader { version: VERSION, unused: 0, directory }
}

/// The encrypted info blocks of a header sealed under `key` and `nonce`.
pub open spec fn spec_encrypt_info(h: InfoHeader, key: Key, nonce: Block) -> Seq<Block> {
    cipher_blocks(blocks_of_words(info_words(h)), key, nonce)
}

/// Seals the header: normalizes version and reserved field, encrypts the
/// info part in place under a fresh nonce, and stores that nonce and the
/// MAC in the header's top-level fields.
pub fn encrypt_header(header: &mut Header, key: &Key)
    ensures
        info_words(final(header).info) =~= words_of_blocks(
            spec_encrypt_info(
                plain_info(old(header).info.directory),
                *key,
                final(header).nonce,
            ),
        ),
        final(header).mac == spec_mac(
            spec_encrypt_info(plain_info(old(header).info.directory), *key, final(header).nonce),
            *key,
            final(header).nonce,
        ),
{
    header.info.version = VERSION;
    header.info.unused = 0;
    proof {
        assert(header.info == plain_info(old(header).info.directory));
    }
    let mut blocks = info_to_blocks(&header.info);
    proof {
        lemma_blocks_words_blocks(blocks@);
        assert(blocks_of_words(info_words(header.info)) =~= blocks_of_words(
            words_of_blocks(blocks@),
        ));
    }
    let mut section = Section::default();
    encrypt_section(&mut blocks, &mut section, key);
    let info = info_from_blocks(blocks.as_slice());
    header.info = info;
    header.nonce = section.nonce;
    header.mac = section.mac;
}

/// The decrypted info words recovered from a sealed header.
pub open spec fn spec_decrypt_info(h: Header, key: Key) -> Seq<u64> {
    words_of_blocks(cipher_blocks(blocks_of_words(info_words(h.info)), key, h.nonce))
}

/// Whether a sealed header authenticates and carries the version magic
/// under the given key.
pub open spec fn header_ok(h: Header, key: Key) -> bool {
    &&& h.mac == spec_mac(blocks_of_words(info_words(h.info)), key, h.nonce)
    &&& spec_word_lo(spec_decrypt_info(h, key)[0]) == VERSION
}

/// Unseals the header in place: decrypts the info part under the header's
/// nonce and reports whether the MAC matches and the version magic is
/// right. The info fields hold the decryption whatever the verdict.
pub fn decrypt_header(header: &mut Header, key: &Key) -> (r: bool)
    ensures
        final(header).nonce == old(header).nonce,
        final(header).mac == old(header).mac,
        info_words(final(header).info) =~= spec_decrypt_info(*old(header), *key),
        r == header_ok(*old(header), *key),
{
    let mut blocks = info_to_blocks(&header.info);
    proof {
        lemma_blocks_words_blocks(blocks@);
        assert(blocks_of_words(info_words(header.info)) =~= blocks_of_words(
            words_of_blocks(blocks@),
        ));
    }
    let section = Section {
        offset: 0,
        size: 0,
        nonce: header.nonce,
        mac: header.mac,
    };
    let ok = decrypt_section(&mut blocks, &section, key);
    let info = info_from_blocks(blocks.as_slice());
    header.info = info;
    proof {
        assert(info_words(info)[0] == spec_decrypt_info(*old(header), *key)[0]);
        crate::records::lemma_word_u32s(info_words(info)[0], info.version, info.unused);
        assert(info.version == spec_word_lo(spec_decrypt_info(*old(header), *key)[0]));
    }
    ok && header.info.version == VERSION
}

} // verus!
