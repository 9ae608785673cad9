//! Conversion between byte buffers and blocks of little-endian 32-bit words.
//!
//! A byte buffer is padded with zero bytes to a multiple of four and grouped
//! into words; a buffer that gives exactly one word gets a second, zero word,
//! because the cipher needs two. On the way back the words are flattened to
//! bytes and cut to the length the caller asks for.

use vstd::prelude::*;

verus! {

/// The word whose little-endian bytes are `b0, b1, b2, b3`.
pub open spec fn le_word(b0: u8, b1: u8, b2: u8, b3: u8) -> u32 {
    (b0 as int + 0x100 * (b1 as int) + 0x1_0000 * (b2 as int) + 0x100_0000 * (b3 as int)) as u32
}

/// Byte `j` (0 to 3) of `w` in little-endian order.
pub open spec fn le_byte(w: u32, j: int) -> u8 {
    if j == 0 {
        (w as int % 0x100) as u8
    } else if j == 1 {
        (w as int / 0x100 % 0x100) as u8
    } else if j == 2 {
        (w as int / 0x1_0000 % 0x100) as u8
    } else {
        (w as int / 0x100_0000 % 0x100) as u8
    }
}

/// `len` rounded up to a multiple of four.
pub open spec fn padded_len(len: nat) -> nat {
    (len + (4 - len % 4) % 4) as nat
}

/// Byte `i` of `buf`, or zero past its end.
pub open spec fn byte_or_zero(buf: Seq<u8>, i: int) -> u8 {
    if 0 <= i < buf.len() {
        buf[i]
    } else {
        0
    }
}

/// `buf` followed by the zero bytes that bring it to a multiple of four.
pub open spec fn zero_padded(buf: Seq<u8>) -> Seq<u8> {
    Seq::new(padded_len(buf.len()), |i: int| byte_or_zero(buf, i))
}

/// Word `i` of the zero-padded buffer.
pub open spec fn word_at(buf: Seq<u8>, i: int) -> u32 {
    le_word(
        byte_or_zero(buf, 4 * i),
        byte_or_zero(buf, 4 * i + 1),
        byte_or_zero(buf, 4 * i + 2),
        byte_or_zero(buf, 4 * i + 3),
    )
}

/// The words of a byte buffer: the zero-padded buffer in groups of four
/// little-endian bytes, with a zero word added if that gives one word only.
pub open spec fn bytes_to_words_spec(buf: Seq<u8>) -> Seq<u32> {
    let n = padded_len(buf.len()) / 4;
    let words = Seq::new(n, |i: int| word_at(buf, i));
    if n == 1 {
        words.push(0u32)
    } else {
        words
    }
}

/// All the little-endian bytes of a block of words.
pub open spec fn flat_bytes(words: Seq<u32>) -> Seq<u8> {
    Seq::new(4 * words.len(), |j: int| le_byte(words[j / 4], j % 4))
}

/// The bytes of a block of words, cut to `target_len` where they are longer.
pub open spec fn words_to_bytes_spec(words: Seq<u32>, target_len: nat) -> Seq<u8> {
    let all = flat_bytes(words);
    if target_len <= all.len() {
        all.subrange(0, target_len as int)
    } else {
        all
    }
}

/// Reads the little-endian word that starts at `at`, taking bytes past the
/// end of the buffer as zero.
pub(crate) fn load_word(buf: &[u8], at: usize) -> (w: u32)
    requires
        at <= buf@.len(),
    ensures
        w == le_word(
            byte_or_zero(buf@, at as int),
            byte_or_zero(buf@, at + 1),
            byte_or_zero(buf@, at + 2),
            byte_or_zero(buf@, at + 3),
        ),
{
    let rest = buf.len() - at;
    let b0: u8 = if rest > 0 { buf[at] } else { 0 };
    let b1: u8 = if rest > 1 { buf[at + 1] } else { 0 };
    let b2: u8 = if rest > 2 { buf[at + 2] } else { 0 };
    let b3: u8 = if rest > 3 { buf[at + 3] } else { 0 };
    assert((b0 as u32) | (b1 as u32) << 8 | (b2 as u32) << 16 | (b3 as u32) << 24 == (b0 as int
        + 0x100 * (b1 as int) + 0x1_0000 * (b2 as int) + 0x100_0000 * (b3 as int)) as u32)
        by (bit_vector);
    (b0 as u32) | (b1 as u32) << 8 | (b2 as u32) << 16 | (b3 as u32) << 24
}

/// Groups a byte buffer into little-endian words, padding with zero bytes to
/// a multiple of four and with a zero word up to two words.
pub fn bytes_to_words(buf: &[u8]) -> (words: Vec<u32>)
    ensures
        words@ == bytes_to_words_spec(buf@),
{
    let len = buf.len();
    let n: usize = if len % 4 == 0 { len / 4 } else { len / 4 + 1 };
    let mut words: Vec<u32> = Vec::new();
    let mut i: usize = 0;
    while i < n
        invariant
            len == buf@.len(),
            n == padded_len(len as nat) / 4,
            n > 0 ==> 4 * (n - 1) < len,
            i <= n,
            words@ == Seq::new(i as nat, |j: int| word_at(buf@, j)),
        decreases n - i,
    {
        let w = load_word(buf, 4 * i);
        words.push(w);
        i += 1;
        assert(words@ =~= Seq::new(i as nat, |j: int| word_at(buf@, j)));
    }
    if n == 1 {
        words.push(0);
    }
    words
}

/// The four little-endian bytes of a word.
pub open spec fn word_bytes(w: u32) -> Seq<u8> {
    seq![le_byte(w, 0), le_byte(w, 1), le_byte(w, 2), le_byte(w, 3)]
}

/// Appends the four little-endian bytes of `w` to `out`.
pub(crate) fn store_word(out: &mut Vec<u8>, w: u32)
    ensures
        final(out)@ == old(out)@ + word_bytes(w),
{
    let b0 = (w & 0xff) as u8;
    let b1 = ((w >> 8) & 0xff) as u8;
    let b2 = ((w >> 16) & 0xff) as u8;
    let b3 = ((w >> 24) & 0xff) as u8;
    assert((w & 0xff) == w % 0x100 && ((w >> 8) & 0xff) == w / 0x100 % 0x100 && ((w >> 16) & 0xff)
        == w / 0x1_0000 % 0x100 && ((w >> 24) & 0xff) == w / 0x100_0000 % 0x100) by (bit_vector);
    out.push(b0);
    out.push(b1);
    out.push(b2);
    out.push(b3);
    assert(out@ =~= old(out)@ + word_bytes(w));
}

/// Flattens a block of words into its little-endian bytes.
fn flatten_words(words: &[u32]) -> (out: Vec<u8>)
    ensures
        out@ == flat_bytes(words@),
{
    let mut out: Vec<u8> = Vec::new();
    let mut i: usize = 0;
    while i < words.len()
        invariant
            i <= words@.len(),
            out@ == flat_bytes(words@.subrange(0, i as int)),
        decreases words@.len() - i,
    {
        store_word(&mut out, words[i]);
        i += 1;
        assert(out@ =~= flat_bytes(words@.subrange(0, i as int)));
    }
    assert(words@.subrange(0, i as int) =~= words@);
    out
}

/// Flattens a block of words into little-endian bytes and cuts the result to
/// `target_len` bytes where it is longer.
pub fn words_to_bytes(words: &[u32], target_len: usize) -> (out: Vec<u8>)
    ensures
        out@ == words_to_bytes_spec(words@, target_len as nat),
{
    let mut out = flatten_words(words);
    out.truncate(target_len);
    out
}

/// Flattens a block of words into little-endian bytes and cuts the result to
/// the padded length of a buffer of `data_len` bytes where it is longer.
pub fn words_to_padded_bytes(words: &[u32], data_len: usize) -> (out: Vec<u8>)
    ensures
        out@ == words_to_bytes_spec(words@, padded_len(data_len as nat)),
{
    let mut out = flatten_words(words);
    let rest = data_len % 4;
    if rest == 0 {
        out.truncate(data_len);
    } else if data_len <= out.len() && out.len() - data_len >= 4 - rest {
        out.truncate(data_len + (4 - rest));
    }
    out
}

/// The four little-endian bytes of a word make up that word again.
pub proof fn lemma_word_from_its_bytes(w: u32)
    ensures
        le_word(le_byte(w, 0), le_byte(w, 1), le_byte(w, 2), le_byte(w, 3)) == w,
{
}

/// The little-endian bytes of the word made of four bytes are those bytes.
pub proof fn lemma_bytes_of_word(b0: u8, b1: u8, b2: u8, b3: u8)
    ensures
        le_byte(le_word(b0, b1, b2, b3), 0) == b0,
        le_byte(le_word(b0, b1, b2, b3), 1) == b1,
        le_byte(le_word(b0, b1, b2, b3), 2) == b2,
        le_byte(le_word(b0, b1, b2, b3), 3) == b3,
{
    let hi = b2 as int + 0x100 * (b3 as int);
    let mid = b1 as int + 0x100 * hi;
    let w = b0 as int + 0x100 * mid;
    assert(le_word(b0, b1, b2, b3) as int == w);
    assert(w % 0x100 == b0 && w / 0x100 == mid);
    assert(mid % 0x100 == b1 && mid / 0x100 == hi);
    assert(w / 0x1_0000 == hi);
    assert(hi % 0x100 == b2 && hi / 0x100 == b3);
    assert(w / 0x100_0000 == b3);
}

/// A buffer of `len` bytes gives `padded_len(len) / 4` words, or two where
/// that would be one.
pub proof fn lemma_bytes_to_words_len(buf: Seq<u8>)
    ensures
        padded_len(buf.len()) % 4 == 0,
        buf.len() <= padded_len(buf.len()) < buf.len() + 4,
        bytes_to_words_spec(buf).len() == if padded_len(buf.len()) == 4 {
            2
        } else {
            padded_len(buf.len()) / 4
        },
{
}

/// Grouping the bytes of a block of words gives the block back, unless the
/// block has exactly one word.
pub proof fn lemma_words_from_their_bytes(words: Seq<u32>)
    requires
        words.len() != 1,
    ensures
        bytes_to_words_spec(flat_bytes(words)) == words,
        bytes_to_words_spec(words_to_bytes_spec(words, 4 * words.len())) == words,
{
    let bytes = flat_bytes(words);
    assert(words_to_bytes_spec(words, 4 * words.len()) =~= bytes);
    let back = bytes_to_words_spec(bytes);
    assert(back.len() == words.len());
    assert forall|i: int| 0 <= i < words.len() implies back[i] == words[i] by {
        lemma_word_from_its_bytes(words[i]);
        assert(byte_or_zero(bytes, 4 * i) == le_byte(words[i], 0));
        assert(byte_or_zero(bytes, 4 * i + 1) == le_byte(words[i], 1));
        assert(byte_or_zero(bytes, 4 * i + 2) == le_byte(words[i], 2));
        assert(byte_or_zero(bytes, 4 * i + 3) == le_byte(words[i], 3));
    }
    assert(back =~= words);
}

/// Flattening the words of a buffer gives the buffer back when cut to its
/// length, and the zero-padded buffer when cut to the padded length.
pub proof fn lemma_bytes_from_their_words(buf: Seq<u8>)
    ensures
        words_to_bytes_spec(bytes_to_words_spec(buf), buf.len()) == buf,
        words_to_bytes_spec(bytes_to_words_spec(buf), padded_len(buf.len())) == zero_padded(buf),
{
    let words = bytes_to_words_spec(buf);
    let all = flat_bytes(words);
    let padded = zero_padded(buf);
    assert(padded.len() <= all.len());
    assert forall|j: int| 0 <= j < padded.len() implies all[j] == padded[j] by {
        let i = j / 4;
        assert(words[i] == word_at(buf, i));
        lemma_bytes_of_word(
            byte_or_zero(buf, 4 * i),
            byte_or_zero(buf, 4 * i + 1),
            byte_or_zero(buf, 4 * i + 2),
            byte_or_zero(buf, 4 * i + 3),
        );
    }
    assert(words_to_bytes_spec(words, padded_len(buf.len())) =~= padded);
    assert(words_to_bytes_spec(words, buf.len()) =~= buf);
}

} // verus!
