//! The cipher over word buffers: the round mixer, the forward and inverse
//! transforms, and their model as sequences of words.
use vstd::arithmetic::div_mod::{
    lemma_add_mod_noop, lemma_mod_sub_multiples_vanish, lemma_small_mod,
};
use vstd::prelude::*;

verus! {

/// The round constant, derived from the golden ratio.
pub const DELTA: u32 = 0x9E37_79B9;

/// The value that the round mixer yields.
pub open spec fn mix(sum: u32, y: u32, z: u32, p: u32, e: u32, k: Seq<u32>) -> u32
    recommends
        k.len() == 4,
{
    ((z >> 5u32 ^ y << 2u32).wrapping_add(y >> 3u32 ^ z << 4u32)) ^ ((sum ^ y).wrapping_add(
        k[((p ^ e) & 3u32) as int],
    ))
}

/// The round mixer: combines the checksum, the two neighbouring words, the
/// position and the key word that position and selector pick.
pub fn mx(sum: u32, y: u32, z: u32, p: u32, e: u32, k: &[u32]) -> (r: u32)
    requires
        k@.len() == 4,
    ensures
        r == mix(sum, y, z, p, e, k@),
{
    let i = (p ^ e) & 3;
    assert(i < 4) by (bit_vector)
        requires
            i == (p ^ e) & 3u32,
    ;
    ((z >> 5 ^ y << 2).wrapping_add(y >> 3 ^ z << 4)) ^ ((sum ^ y).wrapping_add(k[i as usize]))
}

/// The selector that a checksum gives: two bits of it.
pub open spec fn selector(sum: u32) -> u32 {
    (sum >> 2u32) & 3u32
}

/// The checksum of round `i` (counting from one): `i` times `DELTA`, modulo 2^32.
pub open spec fn round_sum(i: nat) -> u32 {
    ((i * DELTA as nat) % 0x1_0000_0000) as u32
}

/// The number of rounds for a buffer of `len` words.
pub open spec fn round_count(len: nat) -> nat {
    6 + 52nat / len
}

/// The number of rounds for a buffer of `n_words` words: fewer for longer
/// buffers, since each round touches every word.
pub fn rounds_for(n_words: usize) -> (r: usize)
    requires
        n_words >= 1,
    ensures
        r == round_count(n_words as nat),
{
    6 + 52 / n_words
}

/// The index before `p`, cyclically.
pub open spec fn prev(len: int, p: int) -> int {
    if p == 0 {
        len - 1
    } else {
        p - 1
    }
}

/// The index after `p`, cyclically.
pub open spec fn next(len: int, p: int) -> int {
    if p == len - 1 {
        0
    } else {
        p + 1
    }
}

/// The delta that word `p` of `v` gets in a round with checksum `sum`.
pub open spec fn delta_at(v: Seq<u32>, sum: u32, p: int, k: Seq<u32>) -> u32 {
    mix(sum, v[next(v.len() as int, p)], v[prev(v.len() as int, p)], p as u32, selector(sum), k)
}

/// Word `p` of `v` advanced by its delta.
pub open spec fn enc_step(v: Seq<u32>, sum: u32, p: int, k: Seq<u32>) -> Seq<u32> {
    v.update(p, v[p].wrapping_add(delta_at(v, sum, p, k)))
}

/// Word `p` of `v` set back by its delta.
pub open spec fn dec_step(v: Seq<u32>, sum: u32, p: int, k: Seq<u32>) -> Seq<u32> {
    v.update(p, v[p].wrapping_sub(delta_at(v, sum, p, k)))
}

/// The first `m` steps of an encryption round, words `0` to `m - 1` in turn.
pub open spec fn enc_steps(v: Seq<u32>, sum: u32, k: Seq<u32>, m: nat) -> Seq<u32>
    decreases m,
{
    if m == 0 {
        v
    } else {
        enc_step(enc_steps(v, sum, k, (m - 1) as nat), sum, m - 1, k)
    }
}

/// The first `m` steps of a decryption round, from the last word down.
pub open spec fn dec_steps(v: Seq<u32>, sum: u32, k: Seq<u32>, m: nat) -> Seq<u32>
    decreases m,
{
    if m == 0 {
        v
    } else {
        dec_step(dec_steps(v, sum, k, (m - 1) as nat), sum, v.len() - m, k)
    }
}

/// One encryption round: every word advanced once, in ascending order.
pub open spec fn enc_round(v: Seq<u32>, sum: u32, k: Seq<u32>) -> Seq<u32> {
    enc_steps(v, sum, k, v.len())
}

/// One decryption round: every word set back once, in descending order.
pub open spec fn dec_round(v: Seq<u32>, sum: u32, k: Seq<u32>) -> Seq<u32> {
    dec_steps(v, sum, k, v.len())
}

/// The first `r` encryption rounds, with the checksums of rounds `1` to `r`.
pub open spec fn enc_rounds(v: Seq<u32>, k: Seq<u32>, r: nat) -> Seq<u32>
    decreases r,
{
    if r == 0 {
        v
    } else {
        enc_round(enc_rounds(v, k, (r - 1) as nat), round_sum(r), k)
    }
}

/// The first `t` of `q` decryption rounds, with the checksums of rounds `q`
/// down to `q - t + 1`.
pub open spec fn dec_rounds(v: Seq<u32>, k: Seq<u32>, q: nat, t: nat) -> Seq<u32>
    decreases t,
{
    if t == 0 {
        v
    } else {
        dec_round(dec_rounds(v, k, q, (t - 1) as nat), round_sum((q - t + 1) as nat), k)
    }
}

/// The ciphertext words of the plaintext words `v` under the key words `k`.
pub open spec fn encipher(v: Seq<u32>, k: Seq<u32>) -> Seq<u32> {
    enc_rounds(v, k, round_count(v.len()))
}

/// The plaintext words of the ciphertext words `v` under the key words `k`.
pub open spec fn decipher(v: Seq<u32>, k: Seq<u32>) -> Seq<u32> {
    dec_rounds(v, k, round_count(v.len()), round_count(v.len()))
}


/// The checksum of the next round is this round's plus `DELTA`, wrapping.
proof fn lemma_round_sum_next(i: nat)
    ensures
        round_sum(i).wrapping_add(DELTA) == round_sum(i + 1),
        round_sum(i + 1).wrapping_sub(DELTA) == round_sum(i),
{
    let m: int = 0x1_0000_0000;
    let d: int = DELTA as int;
    let x: int = i * d;
    assert((i + 1) * d == x + d) by (nonlinear_arith)
        requires
            x == i * d,
    ;
    assert(x >= 0) by (nonlinear_arith)
        requires
            x == i * d,
            d >= 0,
    ;
    lemma_add_mod_noop(x, d, m);
    lemma_small_mod(d as nat, m as nat);
    let a: int = x % m;
    if a + d < m {
        lemma_small_mod((a + d) as nat, m as nat);
    } else {
        lemma_mod_sub_multiples_vanish(a + d, m);
        lemma_small_mod((a + d - m) as nat, m as nat);
    }
}

/// No round of a buffer of two words or more has the checksum zero.
proof fn lemma_round_sum_nonzero(i: nat)
    requires
        1 <= i <= 32,
    ensures
        round_sum(i) != 0,
{
    let j: u64 = i as u64;
    let x: u64 = (j * 0x9E37_79B9u64) as u64;
    assert(i * DELTA <= 32 * 0x9E37_79B9) by (nonlinear_arith)
        requires
            i <= 32,
    ;
    assert(x % 0x1_0000_0000u64 != 0u64) by (bit_vector)
        requires
            1 <= j <= 32,
            x == (j * 0x9E37_79B9u64) as u64,
    ;
}

/// The first `m` encryption steps keep the length and leave words `m` onward alone.
proof fn lemma_enc_steps_frame(v: Seq<u32>, sum: u32, k: Seq<u32>, m: nat)
    requires
        m <= v.len(),
    ensures
        enc_steps(v, sum, k, m).len() == v.len(),
        forall|i: int| m <= i < v.len() ==> #[trigger] enc_steps(v, sum, k, m)[i] == v[i],
    decreases m,
{
    if m > 0 {
        lemma_enc_steps_frame(v, sum, k, (m - 1) as nat);
    }
}

/// Encrypts a buffer of two words or more in place with the four key words.
pub fn encrypt_words(v: &mut [u32], key: &[u32])
    requires
        old(v)@.len() >= 2,
        key@.len() == 4,
    ensures
        final(v)@ == encipher(old(v)@, key@),
{
    let length = v.len();
    let n = length - 1;
    let mut z = v[n];
    let mut sum: u32 = 0;
    let mut q: usize = rounds_for(length);
    let ghost v0 = v@;
    let ghost total = q;
    assert(round_sum(0) == 0);
    while q > 0
        invariant
            v@.len() == length,
            length >= 2,
            n == length - 1,
            key@.len() == 4,
            q <= total,
            total == round_count(length as nat),
            v0.len() == length,
            v@ == enc_rounds(v0, key@, (total - q) as nat),
            sum == round_sum((total - q) as nat),
            z == v@[n as int],
        decreases q,
    {
        proof {
            lemma_round_sum_next((total - q) as nat);
        }
        sum = sum.wrapping_add(DELTA);
        let e = sum >> 2 & 3;
        let ghost w = v@;
        let mut y: u32;
        for p in 0..n
            invariant
                v@.len() == length,
                w.len() == length,
                n == length - 1,
                key@.len() == 4,
                e == selector(sum),
                v@ == enc_steps(w, sum, key@, p as nat),
                z == v@[prev(length as int, p as int)],
        {
            proof {
                lemma_enc_steps_frame(w, sum, key@, p as nat);
            }
            y = v[p + 1];
            v[p] = v[p].wrapping_add(mx(sum, y, z, p as u32, e, key));
            z = v[p];
        }
        proof {
            lemma_enc_steps_frame(w, sum, key@, n as nat);
        }
        y = v[0];
        v[n] = v[n].wrapping_add(mx(sum, y, z, n as u32, e, key));
        z = v[n];
        assert(v@ == enc_round(w, sum, key@));
        q -= 1;
    }
}


/// The first `m` decryption steps keep the length.
proof fn lemma_dec_steps_len(v: Seq<u32>, sum: u32, k: Seq<u32>, m: nat)
    requires
        m <= v.len(),
    ensures
        dec_steps(v, sum, k, m).len() == v.len(),
    decreases m,
{
    if m > 0 {
        lemma_dec_steps_len(v, sum, k, (m - 1) as nat);
    }
}

/// A buffer of two words or more gets at most 32 rounds.
proof fn lemma_round_count_bound(len: nat)
    requires
        len >= 2,
    ensures
        6 <= round_count(len) <= 32,
{
    assert(52nat / len <= 26) by (nonlinear_arith)
        requires
            len >= 2,
    ;
}

/// Decrypts a buffer of two words or more in place with the four key words.
pub fn decrypt_words(v: &mut [u32], key: &[u32])
    requires
        old(v)@.len() >= 2,
        key@.len() == 4,
    ensures
        final(v)@ == decipher(old(v)@, key@),
{
    let length = v.len();
    let n = length - 1;
    let mut e: u32;
    let mut y: u32 = v[0];
    let mut z: u32;
    proof {
        lemma_round_count_bound(length as nat);
    }
    let q: u32 = rounds_for(length) as u32;
    let mut sum: u32 = q.wrapping_mul(DELTA);
    let ghost v0 = v@;
    let ghost total: nat = q as nat;
    let ghost mut left: nat = q as nat;
    assert(round_sum(0) == 0);
    while sum != 0
        invariant
            v@.len() == length,
            length >= 2,
            n == length - 1,
            key@.len() == 4,
            left <= total,
            total == round_count(length as nat),
            total <= 32,
            v0.len() == length,
            v@ == dec_rounds(v0, key@, total, (total - left) as nat),
            sum == round_sum(left),
            y == v@[0],
        decreases left,
    {
        e = sum >> 2 & 3;
        let ghost w = v@;
        let mut p: usize = n;
        while p > 0
            invariant
                v@.len() == length,
                w.len() == length,
                n == length - 1,
                key@.len() == 4,
                p <= n,
                e == selector(sum),
                v@ == dec_steps(w, sum, key@, (n - p) as nat),
                y == v@[next(length as int, p as int)],
            decreases p,
        {
            proof {
                lemma_dec_steps_len(w, sum, key@, (n - p) as nat);
            }
            z = v[p - 1];
            v[p] = v[p].wrapping_sub(mx(sum, y, z, p as u32, e, key));
            y = v[p];
            p -= 1;
        }
        proof {
            lemma_dec_steps_len(w, sum, key@, n as nat);
        }
        z = v[n];
        v[0] = v[0].wrapping_sub(mx(sum, y, z, 0, e, key));
        y = v[0];
        assert(v@ == dec_round(w, sum, key@));
        proof {
            lemma_round_sum_next((left - 1) as nat);
        }
        sum = sum.wrapping_sub(DELTA);
        proof {
            left = (left - 1) as nat;
        }
    }
    proof {
        if left > 0 {
            lemma_round_sum_nonzero(left);
        }
    }
}


/// Setting a word back by its delta undoes advancing it: its neighbours, which
/// the delta reads, are other words.
proof fn lemma_step_inverse(v: Seq<u32>, sum: u32, p: int, k: Seq<u32>)
    requires
        v.len() >= 2,
        0 <= p < v.len(),
    ensures
        dec_step(enc_step(v, sum, p, k), sum, p, k) == v,
{
    let w = enc_step(v, sum, p, k);
    assert(delta_at(w, sum, p, k) == delta_at(v, sum, p, k));
    assert(dec_step(w, sum, p, k) =~= v);
}

/// The encryption rounds keep the length.
proof fn lemma_enc_rounds_len(v: Seq<u32>, k: Seq<u32>, r: nat)
    ensures
        enc_rounds(v, k, r).len() == v.len(),
    decreases r,
{
    if r > 0 {
        let u = enc_rounds(v, k, (r - 1) as nat);
        lemma_enc_rounds_len(v, k, (r - 1) as nat);
        lemma_enc_steps_frame(u, round_sum(r), k, u.len());
    }
}

/// The first `j` decryption steps undo the last `j` steps of an encryption round.
proof fn lemma_steps_inverse(v: Seq<u32>, sum: u32, k: Seq<u32>, j: nat)
    requires
        v.len() >= 2,
        j <= v.len(),
    ensures
        dec_steps(enc_round(v, sum, k), sum, k, j) == enc_steps(v, sum, k, (v.len() - j) as nat),
    decreases j,
{
    let x = enc_round(v, sum, k);
    lemma_enc_steps_frame(v, sum, k, v.len());
    if j > 0 {
        lemma_steps_inverse(v, sum, k, (j - 1) as nat);
        let m = (v.len() - j) as nat;
        lemma_enc_steps_frame(v, sum, k, m);
        lemma_step_inverse(enc_steps(v, sum, k, m), sum, m as int, k);
    }
}

/// A decryption round undoes the encryption round with the same checksum.
proof fn lemma_round_inverse(v: Seq<u32>, sum: u32, k: Seq<u32>)
    requires
        v.len() >= 2,
    ensures
        dec_round(enc_round(v, sum, k), sum, k) == v,
{
    lemma_enc_steps_frame(v, sum, k, v.len());
    lemma_steps_inverse(v, sum, k, v.len());
}

/// The first `t` of `q` decryption rounds undo the last `t` of `q` encryption rounds.
proof fn lemma_rounds_inverse(v: Seq<u32>, k: Seq<u32>, q: nat, t: nat)
    requires
        v.len() >= 2,
        t <= q,
    ensures
        dec_rounds(enc_rounds(v, k, q), k, q, t) == enc_rounds(v, k, (q - t) as nat),
    decreases t,
{
    if t > 0 {
        lemma_rounds_inverse(v, k, q, (t - 1) as nat);
        let r = (q - t) as nat;
        lemma_enc_rounds_len(v, k, r);
        lemma_round_inverse(enc_rounds(v, k, r), round_sum(r + 1), k);
    }
}

/// Encryption keeps the number of words.
pub proof fn lemma_encipher_len(v: Seq<u32>, k: Seq<u32>)
    ensures
        encipher(v, k).len() == v.len(),
{
    lemma_enc_rounds_len(v, k, round_count(v.len()));
}

/// The decryption rounds keep the length.
proof fn lemma_dec_rounds_len(v: Seq<u32>, k: Seq<u32>, q: nat, t: nat)
    ensures
        dec_rounds(v, k, q, t).len() == v.len(),
    decreases t,
{
    if t > 0 {
        let u = dec_rounds(v, k, q, (t - 1) as nat);
        lemma_dec_rounds_len(v, k, q, (t - 1) as nat);
        lemma_dec_steps_len(u, round_sum((q - t + 1) as nat), k, u.len());
    }
}

/// Decryption keeps the number of words.
pub proof fn lemma_decipher_len(v: Seq<u32>, k: Seq<u32>)
    ensures
        decipher(v, k).len() == v.len(),
{
    let q = round_count(v.len());
    lemma_dec_rounds_len(v, k, q, q);
}

/// Decrypting with a key what was encrypted with it gives back the words
/// encrypted, for every buffer of two words or more.
pub proof fn lemma_words_round_trip(v: Seq<u32>, k: Seq<u32>)
    requires
        v.len() >= 2,
        k.len() == 4,
    ensures
        decipher(encipher(v, k), k) == v,
{
    let q = round_count(v.len());
    lemma_encipher_len(v, k);
    lemma_rounds_inverse(v, k, q, q);
}

} // verus!
