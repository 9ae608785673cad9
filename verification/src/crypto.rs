//! XXTEA block cipher over 32-bit words.
//!
//! The cipher works in place on a block of `n` words with a key of four
//! words. A block of fewer than two words is left as it is. Otherwise the
//! block goes through `6 + 52 / n` rounds; each round sweeps over all
//! positions and adds to (or, when decrypting, subtracts from) each word a
//! value mixed from its two neighbours, the round's running sum and one key
//! word.

use crate::packing::{
    bytes_to_words, bytes_to_words_spec, lemma_bytes_from_their_words, lemma_bytes_to_words_len,
    lemma_words_from_their_bytes, load_word, padded_len, word_at, words_to_bytes,
    words_to_bytes_spec, words_to_padded_bytes, zero_padded,
};
use vstd::prelude::*;

verus! {

/// Round constant: the running sum grows by this much with every round.
pub const DELTA: u32 = 0x9E3779B9;

/// Number of rounds for a block of `n` words.
pub open spec fn rounds_spec(n: nat) -> nat {
    6 + 52nat / n
}

/// The running sum during round `r` (rounds count from 1): `r * DELTA`
/// modulo 2^32.
pub open spec fn sum_at(r: nat) -> u32 {
    ((r * (DELTA as nat)) % 0x1_0000_0000) as u32
}

/// The value mixed from the left neighbour `z`, the right neighbour `y`, the
/// running sum and a key word. Additions wrap at 32 bits.
pub open spec fn mix_spec(z: u32, y: u32, sum: u32, k: u32) -> u32 {
    ((z >> 5) ^ (y << 2)).wrapping_add((y >> 3) ^ (z << 4)) ^ (sum ^ y).wrapping_add(k ^ z)
}

/// Which key word position `p` uses while the running sum is `sum`:
/// `(p & 3) ^ ((sum >> 2) & 3)`.
pub open spec fn key_index(p: nat, sum: u32) -> int {
    (((p % 4) as u32) ^ ((sum >> 2) & 3)) as int
}

/// Position to the left of `p` in a block of `n` words, wrapping around.
pub open spec fn left_of(p: int, n: int) -> int {
    if p == 0 {
        n - 1
    } else {
        p - 1
    }
}

/// Position to the right of `p` in a block of `n` words, wrapping around.
pub open spec fn right_of(p: int, n: int) -> int {
    if p == n - 1 {
        0
    } else {
        p + 1
    }
}

/// The mixed value for position `p` of block `v`.
pub open spec fn mix_at(v: Seq<u32>, key: Seq<u32>, sum: u32, p: int) -> u32 {
    mix_spec(
        v[left_of(p, v.len() as int)],
        v[right_of(p, v.len() as int)],
        sum,
        key[key_index(p as nat, sum)],
    )
}

/// Encrypting update of the single position `p`.
pub open spec fn encrypt_step(v: Seq<u32>, key: Seq<u32>, sum: u32, p: int) -> Seq<u32> {
    v.update(p, v[p].wrapping_add(mix_at(v, key, sum, p)))
}

/// Decrypting update of the single position `p`.
pub open spec fn decrypt_step(v: Seq<u32>, key: Seq<u32>, sum: u32, p: int) -> Seq<u32> {
    v.update(p, v[p].wrapping_sub(mix_at(v, key, sum, p)))
}

/// The block after the encrypting updates of positions `0, 1, .., p - 1`, in
/// that order.
pub open spec fn encrypt_sweep(v: Seq<u32>, key: Seq<u32>, sum: u32, p: nat) -> Seq<u32>
    decreases p,
{
    if p == 0 {
        v
    } else {
        encrypt_step(encrypt_sweep(v, key, sum, (p - 1) as nat), key, sum, p - 1)
    }
}

/// The block after the decrypting updates of positions `n - 1, n - 2, .., p`,
/// in that order.
pub open spec fn decrypt_sweep(v: Seq<u32>, key: Seq<u32>, sum: u32, p: nat) -> Seq<u32>
    decreases v.len() - p,
{
    if p >= v.len() {
        v
    } else {
        decrypt_step(decrypt_sweep(v, key, sum, p + 1), key, sum, p as int)
    }
}

/// One whole encrypting round.
pub open spec fn encrypt_round(v: Seq<u32>, key: Seq<u32>, sum: u32) -> Seq<u32> {
    encrypt_sweep(v, key, sum, v.len())
}

/// One whole decrypting round.
pub open spec fn decrypt_round(v: Seq<u32>, key: Seq<u32>, sum: u32) -> Seq<u32> {
    decrypt_sweep(v, key, sum, 0)
}

/// The block after encrypting rounds `1, 2, .., r`.
pub open spec fn encrypt_rounds(v: Seq<u32>, key: Seq<u32>, r: nat) -> Seq<u32>
    decreases r,
{
    if r == 0 {
        v
    } else {
        encrypt_round(encrypt_rounds(v, key, (r - 1) as nat), key, sum_at(r))
    }
}

/// The block after decrypting rounds `r, r - 1, .., 1`.
pub open spec fn decrypt_rounds(v: Seq<u32>, key: Seq<u32>, r: nat) -> Seq<u32>
    decreases r,
{
    if r == 0 {
        v
    } else {
        decrypt_rounds(decrypt_round(v, key, sum_at(r)), key, (r - 1) as nat)
    }
}

/// The encrypted block.
pub open spec fn xxtea_encrypt_spec(v: Seq<u32>, key: Seq<u32>) -> Seq<u32> {
    if v.len() < 2 {
        v
    } else {
        encrypt_rounds(v, key, rounds_spec(v.len()))
    }
}

/// The decrypted block.
pub open spec fn xxtea_decrypt_spec(v: Seq<u32>, key: Seq<u32>) -> Seq<u32> {
    if v.len() < 2 {
        v
    } else {
        decrypt_rounds(v, key, rounds_spec(v.len()))
    }
}

/// Computes the mixed value of one cipher step.
pub fn mix(z: u32, y: u32, sum: u32, k: u32) -> (r: u32)
    ensures
        r == mix_spec(z, y, sum, k),
{
    ((z >> 5) ^ (y << 2)).wrapping_add((y >> 3) ^ (z << 4)) ^ (sum ^ y).wrapping_add(k ^ z)
}

/// Picks the key word for position `p` while the running sum is `sum`.
fn key_word(k: &[u32; 4], p: usize, sum: u32) -> (r: u32)
    ensures
        0 <= key_index(p as nat, sum) < 4,
        r == k@[key_index(p as nat, sum)],
{
    let e: u32 = (sum >> 2) & 3;
    let q: u32 = (p & 3) as u32;
    assert(q == (p % 4) as u32) by (bit_vector)
        requires
            q == (p & 3) as u32,
    ;
    assert((q ^ e) < 4) by (bit_vector)
        requires
            q == (p & 3) as u32,
            e == (sum >> 2) & 3,
    ;
    k[(q ^ e) as usize]
}

/// The running sum of round `r + 1` is that of round `r` plus `DELTA`.
proof fn lemma_sum_next(r: nat)
    ensures
        sum_at(r + 1) == sum_at(r).wrapping_add(DELTA),
        sum_at(r + 1).wrapping_sub(DELTA) == sum_at(r),
{
    let m = 0x1_0000_0000int;
    let a = (r * (DELTA as nat)) as int;
    assert((r + 1) * (DELTA as nat) == a + DELTA) by (nonlinear_arith)
        requires
            a == r * (DELTA as nat),
    ;
    vstd::arithmetic::div_mod::lemma_add_mod_noop(a, DELTA as int, m);
    vstd::arithmetic::div_mod::lemma_small_mod(DELTA as nat, m as nat);
}

/// The encrypting steps keep the length of the block.
proof fn lemma_encrypt_sweep_len(v: Seq<u32>, key: Seq<u32>, sum: u32, p: nat)
    requires
        p <= v.len(),
    ensures
        encrypt_sweep(v, key, sum, p).len() == v.len(),
    decreases p,
{
    if p > 0 {
        lemma_encrypt_sweep_len(v, key, sum, (p - 1) as nat);
    }
}

/// The decrypting steps keep the length of the block.
proof fn lemma_decrypt_sweep_len(v: Seq<u32>, key: Seq<u32>, sum: u32, p: nat)
    ensures
        decrypt_sweep(v, key, sum, p).len() == v.len(),
    decreases v.len() - p,
{
    if p < v.len() {
        lemma_decrypt_sweep_len(v, key, sum, p + 1);
    }
}

/// Encrypts a block of words in place.
pub fn xxtea_encrypt_block(v: &mut [u32], k: &[u32; 4])
    ensures
        final(v)@ == xxtea_encrypt_spec(old(v)@, k@),
        final(v)@.len() == old(v)@.len(),
        old(v)@.len() < 2 ==> final(v)@ == old(v)@,
{
    proof {
        lemma_xxtea_len(v@, k@);
    }
    let n = v.len();
    if n < 2 {
        return ;
    }
    let ghost v0 = v@;
    let rounds: usize = 6 + 52 / n;
    let mut z: u32 = v[n - 1];
    let mut sum: u32 = 0;
    let mut r: usize = 0;
    while r < rounds
        invariant
            n >= 2,
            v@.len() == n,
            rounds == rounds_spec(n as nat),
            r <= rounds,
            sum == sum_at(r as nat),
            v@ == encrypt_rounds(v0, k@, r as nat),
            z == v@[n - 1],
        decreases rounds - r,
    {
        proof {
            lemma_sum_next(r as nat);
        }
        sum = sum.wrapping_add(DELTA);
        let ghost start = v@;
        let mut p: usize = 0;
        while p < n - 1
            invariant
                n >= 2,
                v@.len() == n,
                start.len() == n,
                p <= n - 1,
                v@ == encrypt_sweep(start, k@, sum, p as nat),
                z == v@[left_of(p as int, n as int)],
            decreases n - p,
        {
            let y = v[p + 1];
            let mx = mix(z, y, sum, key_word(k, p, sum));
            v[p] = v[p].wrapping_add(mx);
            z = v[p];
            p += 1;
        }
        let y = v[0];
        let mx = mix(z, y, sum, key_word(k, n - 1, sum));
        v[n - 1] = v[n - 1].wrapping_add(mx);
        z = v[n - 1];
        r += 1;
    }
}

/// Decrypts a block of words in place.
pub fn xxtea_decrypt_block(v: &mut [u32], k: &[u32; 4])
    ensures
        final(v)@ == xxtea_decrypt_spec(old(v)@, k@),
        final(v)@.len() == old(v)@.len(),
        old(v)@.len() < 2 ==> final(v)@ == old(v)@,
{
    proof {
        lemma_xxtea_len(v@, k@);
    }
    let n = v.len();
    if n < 2 {
        return ;
    }
    let ghost v0 = v@;
    let rounds: usize = 6 + 52 / n;
    let mut sum: u32 = (rounds as u32).wrapping_mul(DELTA);
    let mut y: u32 = v[0];
    let mut r: usize = rounds;
    while r > 0
        invariant
            n >= 2,
            v@.len() == n,
            r <= rounds,
            sum == sum_at(r as nat),
            decrypt_rounds(v@, k@, r as nat) == decrypt_rounds(v0, k@, rounds as nat),
            y == v@[0],
        decreases r,
    {
        let ghost start = v@;
        let mut p: usize = n - 1;
        proof {
            lemma_decrypt_sweep_len(start, k@, sum, 0);
        }
        while p > 0
            invariant
                n >= 2,
                v@.len() == n,
                start.len() == n,
                p <= n - 1,
                v@ == decrypt_sweep(start, k@, sum, (p + 1) as nat),
                y == v@[right_of(p as int, n as int)],
            decreases p,
        {
            let z = v[p - 1];
            let mx = mix(z, y, sum, key_word(k, p, sum));
            v[p] = v[p].wrapping_sub(mx);
            y = v[p];
            p -= 1;
        }
        let z = v[n - 1];
        let mx = mix(z, y, sum, key_word(k, 0, sum));
        v[0] = v[0].wrapping_sub(mx);
        y = v[0];
        proof {
            lemma_sum_next((r - 1) as nat);
        }
        sum = sum.wrapping_sub(DELTA);
        r -= 1;
    }
}

/// The decrypting step at a position undoes the encrypting step there, and
/// the other way round: a step changes one word, and the value it mixes in is
/// made from the two neighbours, which it leaves alone.
proof fn lemma_step_inverse(v: Seq<u32>, key: Seq<u32>, sum: u32, p: int)
    requires
        v.len() >= 2,
        0 <= p < v.len(),
    ensures
        decrypt_step(encrypt_step(v, key, sum, p), key, sum, p) == v,
        encrypt_step(decrypt_step(v, key, sum, p), key, sum, p) == v,
{
    let n = v.len() as int;
    let m = mix_at(v, key, sum, p);
    let e = encrypt_step(v, key, sum, p);
    let d = decrypt_step(v, key, sum, p);
    assert(left_of(p, n) != p && right_of(p, n) != p);
    assert(mix_at(e, key, sum, p) == m);
    assert(mix_at(d, key, sum, p) == m);
    assert(v[p].wrapping_add(m).wrapping_sub(m) == v[p]);
    assert(v[p].wrapping_sub(m).wrapping_add(m) == v[p]);
    assert(decrypt_step(e, key, sum, p) =~= v);
    assert(encrypt_step(d, key, sum, p) =~= v);
}

/// Undoing the encrypting steps of a round from the last one down to step `p`
/// leaves the block as it was after the first `p` steps.
proof fn lemma_unwind_encrypt_sweep(v: Seq<u32>, key: Seq<u32>, sum: u32, p: nat)
    requires
        v.len() >= 2,
        p <= v.len(),
    ensures
        decrypt_sweep(encrypt_round(v, key, sum), key, sum, p) == encrypt_sweep(v, key, sum, p),
    decreases v.len() - p,
{
    let w = encrypt_round(v, key, sum);
    lemma_encrypt_sweep_len(v, key, sum, v.len());
    if p < v.len() {
        lemma_unwind_encrypt_sweep(v, key, sum, p + 1);
        let u = encrypt_sweep(v, key, sum, p);
        lemma_encrypt_sweep_len(v, key, sum, p);
        lemma_step_inverse(u, key, sum, p as int);
        assert(encrypt_sweep(v, key, sum, p + 1) == encrypt_step(u, key, sum, p as int));
    }
}

/// Redoing the first `p` encrypting steps on a block that went through a
/// whole decrypting round leaves the block as it was before the decrypting
/// steps at the positions below `p`.
proof fn lemma_unwind_decrypt_sweep(v: Seq<u32>, key: Seq<u32>, sum: u32, p: nat)
    requires
        v.len() >= 2,
        p <= v.len(),
    ensures
        encrypt_sweep(decrypt_round(v, key, sum), key, sum, p) == decrypt_sweep(v, key, sum, p),
    decreases p,
{
    if p > 0 {
        let q = (p - 1) as nat;
        lemma_unwind_decrypt_sweep(v, key, sum, q);
        let u = decrypt_sweep(v, key, sum, p);
        lemma_decrypt_sweep_len(v, key, sum, p);
        lemma_step_inverse(u, key, sum, q as int);
        assert(decrypt_sweep(v, key, sum, q) == decrypt_step(u, key, sum, q as int));
    }
}

/// A decrypting round undoes an encrypting round with the same running sum,
/// and the other way round.
proof fn lemma_round_inverse(v: Seq<u32>, key: Seq<u32>, sum: u32)
    requires
        v.len() >= 2,
    ensures
        decrypt_round(encrypt_round(v, key, sum), key, sum) == v,
        encrypt_round(decrypt_round(v, key, sum), key, sum) == v,
        encrypt_round(v, key, sum).len() == v.len(),
        decrypt_round(v, key, sum).len() == v.len(),
{
    lemma_unwind_encrypt_sweep(v, key, sum, 0);
    lemma_unwind_decrypt_sweep(v, key, sum, v.len());
    lemma_encrypt_sweep_len(v, key, sum, v.len());
    lemma_decrypt_sweep_len(v, key, sum, 0);
}

/// Any number of rounds keeps the length of the block.
proof fn lemma_rounds_len(v: Seq<u32>, key: Seq<u32>, r: nat)
    ensures
        encrypt_rounds(v, key, r).len() == v.len(),
        decrypt_rounds(v, key, r).len() == v.len(),
    decreases r,
{
    if r > 0 {
        let q = (r - 1) as nat;
        lemma_rounds_len(v, key, q);
        lemma_encrypt_sweep_len(encrypt_rounds(v, key, q), key, sum_at(r), v.len());
        lemma_decrypt_sweep_len(v, key, sum_at(r), 0);
        lemma_rounds_len(decrypt_round(v, key, sum_at(r)), key, q);
    }
}

/// Decrypting rounds `r` down to 1 undo encrypting rounds 1 up to `r`, and
/// the other way round.
proof fn lemma_rounds_inverse(v: Seq<u32>, key: Seq<u32>, r: nat)
    requires
        v.len() >= 2,
    ensures
        decrypt_rounds(encrypt_rounds(v, key, r), key, r) == v,
        encrypt_rounds(decrypt_rounds(v, key, r), key, r) == v,
    decreases r,
{
    if r > 0 {
        let q = (r - 1) as nat;
        let s = sum_at(r);
        let x = encrypt_rounds(v, key, q);
        lemma_rounds_len(v, key, q);
        lemma_round_inverse(x, key, s);
        lemma_rounds_inverse(v, key, q);
        let y = decrypt_round(v, key, s);
        lemma_round_inverse(v, key, s);
        lemma_rounds_inverse(y, key, q);
    }
}

/// Encrypting and decrypting keep the number of words.
pub proof fn lemma_xxtea_len(v: Seq<u32>, key: Seq<u32>)
    ensures
        xxtea_encrypt_spec(v, key).len() == v.len(),
        xxtea_decrypt_spec(v, key).len() == v.len(),
{
    lemma_rounds_len(v, key, rounds_spec(v.len()));
}

/// Decrypting an encrypted block with the same key gives the block back, for
/// every block and every key.
pub proof fn lemma_decrypt_encrypt_block(v: Seq<u32>, key: Seq<u32>)
    ensures
        xxtea_decrypt_spec(xxtea_encrypt_spec(v, key), key) == v,
{
    lemma_xxtea_len(v, key);
    if v.len() >= 2 {
        lemma_rounds_inverse(v, key, rounds_spec(v.len()));
    }
}

/// Encrypting a decrypted block with the same key gives the block back, for
/// every block and every key.
pub proof fn lemma_encrypt_decrypt_block(v: Seq<u32>, key: Seq<u32>)
    ensures
        xxtea_encrypt_spec(xxtea_decrypt_spec(v, key), key) == v,
{
    lemma_xxtea_len(v, key);
    if v.len() >= 2 {
        lemma_rounds_inverse(v, key, rounds_spec(v.len()));
    }
}

/// The four key words of a 16-byte key: its bytes in groups of four,
/// little-endian.
pub open spec fn key_words_spec(key16: Seq<u8>) -> Seq<u32> {
    Seq::new(4, |i: int| word_at(key16, i))
}

/// The ciphertext of a byte buffer: its words, encrypted, as bytes of the
/// buffer's padded length.
pub open spec fn xxtea_encrypt_bytes_spec(data: Seq<u8>, key16: Seq<u8>) -> Seq<u8> {
    words_to_bytes_spec(
        xxtea_encrypt_spec(bytes_to_words_spec(data), key_words_spec(key16)),
        padded_len(data.len()),
    )
}

/// The plaintext of a byte buffer: its words, decrypted, as bytes of the
/// buffer's own length.
pub open spec fn xxtea_decrypt_bytes_spec(data: Seq<u8>, key16: Seq<u8>) -> Seq<u8> {
    words_to_bytes_spec(
        xxtea_decrypt_spec(bytes_to_words_spec(data), key_words_spec(key16)),
        data.len(),
    )
}

/// Reads a 16-byte key as four little-endian words.
pub fn key_words(key16_le: &[u8; 16]) -> (k: [u32; 4])
    ensures
        k@ == key_words_spec(key16_le@),
{
    let bytes = key16_le.as_slice();
    let k = [load_word(bytes, 0), load_word(bytes, 4), load_word(bytes, 8), load_word(bytes, 12)];
    assert(k@ =~= key_words_spec(key16_le@));
    k
}

/// Encrypts a byte buffer with a 16-byte key. The result has the buffer's
/// length rounded up to a multiple of four.
pub fn xxtea_encrypt_bytes(data: &[u8], key16_le: &[u8; 16]) -> (out: Vec<u8>)
    ensures
        out@ == xxtea_encrypt_bytes_spec(data@, key16_le@),
{
    let mut v = bytes_to_words(data);
    let k = key_words(key16_le);
    xxtea_encrypt_block(v.as_mut_slice(), &k);
    words_to_padded_bytes(v.as_slice(), data.len())
}

/// Decrypts a byte buffer with a 16-byte key. The result has the buffer's
/// length.
pub fn xxtea_decrypt_bytes(data: &[u8], key16_le: &[u8; 16]) -> (out: Vec<u8>)
    ensures
        out@ == xxtea_decrypt_bytes_spec(data@, key16_le@),
{
    let mut v = bytes_to_words(data);
    let k = key_words(key16_le);
    xxtea_decrypt_block(v.as_mut_slice(), &k);
    words_to_bytes(v.as_slice(), data.len())
}

/// The ciphertext is as long as the padded buffer, and the plaintext as long
/// as the buffer it was decrypted from.
pub proof fn lemma_xxtea_bytes_len(data: Seq<u8>, key16: Seq<u8>)
    ensures
        xxtea_encrypt_bytes_spec(data, key16).len() == padded_len(data.len()),
        xxtea_decrypt_bytes_spec(data, key16).len() == data.len(),
{
    lemma_bytes_to_words_len(data);
    lemma_xxtea_len(bytes_to_words_spec(data), key_words_spec(key16));
}

/// Decrypting the ciphertext of a buffer with the same key gives the buffer
/// back, padded with zero bytes to a multiple of four. This holds of the
/// empty buffer and of every buffer of more than four bytes: the ciphertext
/// of one to four bytes is cut to four bytes, which loses the second word.
pub proof fn lemma_decrypt_encrypt_bytes(data: Seq<u8>, key16: Seq<u8>)
    requires
        data.len() == 0 || data.len() > 4,
    ensures
        xxtea_decrypt_bytes_spec(xxtea_encrypt_bytes_spec(data, key16), key16) == zero_padded(data),
{
    let key = key_words_spec(key16);
    let words = bytes_to_words_spec(data);
    let enc = xxtea_encrypt_spec(words, key);
    let cipher = xxtea_encrypt_bytes_spec(data, key16);
    lemma_bytes_to_words_len(data);
    lemma_xxtea_len(words, key);
    assert(4 * enc.len() == padded_len(data.len()));
    lemma_words_from_their_bytes(enc);
    assert(bytes_to_words_spec(cipher) == enc);
    lemma_xxtea_bytes_len(data, key16);
    assert(cipher.len() == padded_len(data.len()));
    lemma_decrypt_encrypt_block(words, key);
    assert(xxtea_decrypt_bytes_spec(cipher, key16) == words_to_bytes_spec(
        words,
        padded_len(data.len()),
    ));
    lemma_bytes_from_their_words(data);
}

/// Encrypting the plaintext of a ciphertext with the same key gives the
/// ciphertext back, where its length is a multiple of four other than four.
pub proof fn lemma_encrypt_decrypt_bytes(cipher: Seq<u8>, key16: Seq<u8>)
    requires
        cipher.len() % 4 == 0,
        cipher.len() != 4,
    ensures
        xxtea_encrypt_bytes_spec(xxtea_decrypt_bytes_spec(cipher, key16), key16) == cipher,
{
    let key = key_words_spec(key16);
    let words = bytes_to_words_spec(cipher);
    let dec = xxtea_decrypt_spec(words, key);
    let plain = xxtea_decrypt_bytes_spec(cipher, key16);
    lemma_bytes_to_words_len(cipher);
    lemma_xxtea_len(words, key);
    assert(padded_len(cipher.len()) == cipher.len());
    assert(4 * dec.len() == cipher.len());
    lemma_words_from_their_bytes(dec);
    assert(bytes_to_words_spec(plain) == dec);
    lemma_xxtea_bytes_len(cipher, key16);
    assert(plain.len() == cipher.len());
    lemma_encrypt_decrypt_block(words, key);
    assert(xxtea_encrypt_bytes_spec(plain, key16) == words_to_bytes_spec(
        words,
        padded_len(cipher.len()),
    ));
    lemma_bytes_from_their_words(cipher);
    assert(zero_padded(cipher) =~= cipher);
}

} // verus!
