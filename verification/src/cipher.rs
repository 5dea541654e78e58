//! The 128-bit block / 128-bit key Speck variant with 32 rounds: key
//! expansion, single-block encryption and decryption.
//!
//! The round and schedule recurrences are stated as spec functions; the
//! executable functions are proved to compute them, and decryption is
//! proved to invert encryption for every round-key schedule.

use vstd::prelude::*;

use crate::records::Block;
use crate::records::Key;

verus! {

/// Number of cipher rounds.
pub const ROUNDS: usize = 32;

/// Rotate right by 8.
pub open spec fn spec_ror8(x: u64) -> u64 {
    (x >> 8) | (x << 56)
}

/// Rotate left by 3.
pub open spec fn spec_rol3(x: u64) -> u64 {
    (x << 3) | (x >> 61)
}

/// Rotate right by 3.
pub open spec fn spec_ror3(x: u64) -> u64 {
    (x >> 3) | (x << 61)
}

/// Rotate left by 8.
pub open spec fn spec_rol8(x: u64) -> u64 {
    (x << 8) | (x >> 56)
}

/// Addition modulo 2^64.
pub open spec fn spec_wadd(x: u64, y: u64) -> u64 {
    vstd::wrapping::u64_specs::wrapping_add(x, y)
}

/// Subtraction modulo 2^64.
pub open spec fn spec_wsub(x: u64, y: u64) -> u64 {
    vstd::wrapping::u64_specs::wrapping_sub(x, y)
}

/// First word of the forward round: `ROR(x, 8) + y ^ k`.
pub open spec fn round_x(x: u64, y: u64, k: u64) -> u64 {
    spec_wadd(spec_ror8(x), y) ^ k
}

/// Second word of the forward round: `ROL(y, 3) ^ x'`.
pub open spec fn round_y(x: u64, y: u64, k: u64) -> u64 {
    spec_rol3(y) ^ round_x(x, y, k)
}

/// Second word of the inverse round: `ROR(y ^ x, 3)`.
pub open spec fn inv_round_y(x: u64, y: u64) -> u64 {
    spec_ror3(y ^ x)
}

/// First word of the inverse round: `ROL(x ^ k - y', 8)`.
pub open spec fn inv_round_x(x: u64, y: u64, k: u64) -> u64 {
    spec_rol8(spec_wsub(x ^ k, inv_round_y(x, y)))
}

/// The inverse round undoes the forward round.
pub proof fn lemma_round_inverse(x: u64, y: u64, k: u64)
    by (bit_vector)
    ensures
        inv_round_y(round_x(x, y, k), round_y(x, y, k)) == y,
        inv_round_x(round_x(x, y, k), round_y(x, y, k), k) == x,
{
}

/// The key-schedule state after `i` rounds, starting from the key words.
pub open spec fn key_state(k0: u64, k1: u64, i: nat) -> (u64, u64)
    decreases i,
{
    if i == 0 {
        (k0, k1)
    } else {
        let p = key_state(k0, k1, (i - 1) as nat);
        (round_x(p.0, p.1, (i - 1) as u64), round_y(p.0, p.1, (i - 1) as u64))
    }
}

/// The round keys of a cipher key: the second schedule word emitted
/// before each round.
pub open spec fn spec_round_keys(key: Key) -> Seq<u64> {
    Seq::new(ROUNDS as nat, |i: int| key_state(key[0], key[1], i as nat).1)
}

/// The encryption state after `i` forward rounds under the given round keys.
pub open spec fn enc_state(x: u64, y: u64, rks: Seq<u64>, i: nat) -> (u64, u64)
    decreases i,
{
    if i == 0 {
        (x, y)
    } else {
        let p = enc_state(x, y, rks, (i - 1) as nat);
        (round_x(p.0, p.1, rks[i - 1]), round_y(p.0, p.1, rks[i - 1]))
    }
}

/// Single-block encryption: 32 forward rounds.
pub open spec fn spec_encrypt_block(pt: (u64, u64), rks: Seq<u64>) -> (u64, u64) {
    enc_state(pt.0, pt.1, rks, ROUNDS as nat)
}

/// The decryption state after `i` inverse rounds; step `i` uses round key
/// `ROUNDS - i`.
pub open spec fn dec_state(x: u64, y: u64, rks: Seq<u64>, i: nat) -> (u64, u64)
    decreases i,
{
    if i == 0 {
        (x, y)
    } else {
        let p = dec_state(x, y, rks, (i - 1) as nat);
        let k = rks[ROUNDS - i];
        (inv_round_x(p.0, p.1, k), inv_round_y(p.0, p.1))
    }
}

/// Single-block decryption: 32 inverse rounds in reverse key order.
pub open spec fn spec_decrypt_block(ct: (u64, u64), rks: Seq<u64>) -> (u64, u64) {
    dec_state(ct.0, ct.1, rks, ROUNDS as nat)
}

proof fn lemma_dec_undoes_enc_aux(x: u64, y: u64, rks: Seq<u64>, j: nat)
    requires
        rks.len() == ROUNDS,
        j <= ROUNDS,
    ensures
        dec_state(
            enc_state(x, y, rks, ROUNDS as nat).0,
            enc_state(x, y, rks, ROUNDS as nat).1,
            rks,
            j,
        ) == enc_state(x, y, rks, (ROUNDS - j) as nat),
    decreases j,
{
    let e = enc_state(x, y, rks, ROUNDS as nat);
    if j > 0 {
        lemma_dec_undoes_enc_aux(x, y, rks, (j - 1) as nat);
        let p = enc_state(x, y, rks, (ROUNDS - j) as nat);
        let k = rks[ROUNDS - j];
        assert(enc_state(x, y, rks, (ROUNDS - j + 1) as nat) == (
            round_x(p.0, p.1, k),
            round_y(p.0, p.1, k),
        ));
        lemma_round_inverse(p.0, p.1, k);
    }
}

/// Decryption inverts encryption, for every 32-entry round-key schedule.
pub proof fn lemma_decrypt_encrypt_block(pt: (u64, u64), rks: Seq<u64>)
    requires
        rks.len() == ROUNDS,
    ensures
        spec_decrypt_block(spec_encrypt_block(pt, rks), rks) == pt,
{
    lemma_dec_undoes_enc_aux(pt.0, pt.1, rks, ROUNDS as nat);
}

/// Round-key schedule of the cipher key.
pub fn expand(key: Key) -> (r: [u64; ROUNDS])
    ensures
        r@ =~= spec_round_keys(key),
{
    let mut b: u64 = key[0];
    let mut a: u64 = key[1];
    let mut rk: [u64; ROUNDS] = [0u64; ROUNDS];
    let mut i: usize = 0;
    while i < ROUNDS
        invariant
            i <= ROUNDS,
            (b, a) == key_state(key[0], key[1], i as nat),
            rk.len() == ROUNDS,
            forall|j: int| 0 <= j < i ==> rk[j] == key_state(key[0], key[1], j as nat).1,
        decreases ROUNDS - i,
    {
        rk[i] = a;
        let nb = (((b >> 8) | (b << 56)).wrapping_add(a)) ^ (i as u64);
        let na = ((a << 3) | (a >> 61)) ^ nb;
        proof {
            assert(nb == round_x(b, a, i as u64));
            assert(na == round_y(b, a, i as u64));
            assert(key_state(key[0], key[1], (i + 1) as nat) == (nb, na));
        }
        b = nb;
        a = na;
        i += 1;
    }
    rk
}

/// Encrypts a single block under the given round keys.
pub fn encrypt(pt: Block, rk: &[u64; ROUNDS]) -> (r: Block)
    ensures
        (r[0], r[1]) == spec_encrypt_block((pt[0], pt[1]), rk@),
{
    let mut x: u64 = pt[0];
    let mut y: u64 = pt[1];
    let mut i: usize = 0;
    while i < ROUNDS
        invariant
            i <= ROUNDS,
            rk.len() == ROUNDS,
            (x, y) == enc_state(pt[0], pt[1], rk@, i as nat),
        decreases ROUNDS - i,
    {
        let k = rk[i];
        let nx = (((x >> 8) | (x << 56)).wrapping_add(y)) ^ k;
        let ny = ((y << 3) | (y >> 61)) ^ nx;
        proof {
            assert(nx == round_x(x, y, k));
            assert(ny == round_y(x, y, k));
            assert(enc_state(pt[0], pt[1], rk@, (i + 1) as nat) == (nx, ny));
        }
        x = nx;
        y = ny;
        i += 1;
    }
    [x, y]
}

/// Decrypts a single block under the given round keys.
pub fn decrypt(ct: Block, rk: &[u64; ROUNDS]) -> (r: Block)
    ensures
        (r[0], r[1]) == spec_decrypt_block((ct[0], ct[1]), rk@),
{
    let mut x: u64 = ct[0];
    let mut y: u64 = ct[1];
    let mut i: usize = ROUNDS;
    while i > 0
        invariant
            i <= ROUNDS,
            rk.len() == ROUNDS,
            (x, y) == dec_state(ct[0], ct[1], rk@, (ROUNDS - i) as nat),
        decreases i,
    {
        i -= 1;
        let k = rk[i];
        let ny = ((y ^ x) >> 3) | ((y ^ x) << 61);
        let nx = (((x ^ k).wrapping_sub(ny)) << 8) | (((x ^ k).wrapping_sub(ny)) >> 56);
        proof {
            assert(ny == inv_round_y(x, y));
            assert(nx == inv_round_x(x, y, k));
            assert(dec_state(ct[0], ct[1], rk@, (ROUNDS - i) as nat) == (nx, ny));
        }
        x = nx;
        y = ny;
    }
    [x, y]
}

} // verus!
