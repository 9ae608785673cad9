//! The container format of a save file and the two entry points, `encrypt`
//! and `decrypt`.
//!
//! A plaintext block is laid out as
//! `payload | checksum (4 bytes LE) | vendor tag (4 bytes LE) | pad (0..7 bytes) | padlen (1 byte)`
//! and its length is a multiple of eight.

use crate::crypto::{
    lemma_decrypt_encrypt_bytes, lemma_encrypt_decrypt_bytes, lemma_xxtea_bytes_len,
    xxtea_decrypt_bytes, xxtea_decrypt_bytes_spec, xxtea_encrypt_bytes, xxtea_encrypt_bytes_spec,
};
use crate::packing::{
    le_word, lemma_word_from_its_bytes, load_word, padded_len, store_word, word_bytes,
    zero_padded,
};
use vstd::prelude::*;

verus! {

/// The 16-byte cipher key, read as four little-endian words.
pub const KEY: [u8; 16] = [
    0x93, 0x9d, 0xab, 0x7a, 0x2a, 0x56, 0xf8, 0xaf, 0xb4, 0xdb, 0xa9, 0xb5, 0x22, 0xa3, 0x4b, 0x2b,
];

/// The vendor tag that `encrypt` writes into the footer.
pub const EXTRA4: u32 = 0x0169027d;

/// What a plaintext block holds.
#[derive(Debug)]
pub struct UnpackedBlock {
    pub payload: Vec<u8>,
    pub checksum: u32,
    pub extra4: u32,
    pub padlen: u8,
}

/// The contents of an `UnpackedBlock` as mathematical values.
pub struct UnpackedBlockView {
    pub payload: Seq<u8>,
    pub checksum: u32,
    pub extra4: u32,
    pub padlen: u8,
}

impl View for UnpackedBlock {
    type V = UnpackedBlockView;

    open spec fn view(&self) -> UnpackedBlockView {
        UnpackedBlockView {
            payload: self.payload@,
            checksum: self.checksum,
            extra4: self.extra4,
            padlen: self.padlen,
        }
    }
}

/// Why a block could not be packed or unpacked.
#[derive(Debug, Clone, Copy, PartialEq, Eq, Structural)]
pub enum CodecError {
    /// The block has fewer than the nine bytes of the smallest footer.
    BlockTooShort { len: usize },
    /// The last byte of the block, the pad length, is more than eight.
    PadlenOutOfRange { padlen: u8 },
    /// Footer and padding together are longer than the block.
    NegativePayloadLength,
    /// The caller's padding has fewer bytes than the block needs.
    PadTooShort,
}

/// A finding that does not stop decryption.
#[derive(Debug, Clone, Copy, PartialEq, Eq, Structural)]
pub enum IntegrityWarning {
    /// The ciphertext's length is not a multiple of eight.
    CipherNotAligned { len: usize },
    /// The checksum stored in the block is not that of the payload.
    ChecksumMismatch { stored: u32, computed: u32 },
}

/// Sum of the bytes of `s`.
pub open spec fn byte_sum(s: Seq<u8>) -> nat
    decreases s.len(),
{
    if s.len() == 0 {
        0
    } else {
        byte_sum(s.drop_last()) + s.last() as nat
    }
}

/// The checksum of a payload: `0x06583463` plus the sum of its bytes, modulo
/// 2^32.
pub open spec fn checksum_spec(payload: Seq<u8>) -> u32 {
    ((0x06583463 + byte_sum(payload)) % 0x1_0000_0000) as u32
}

/// Number of pad bytes for a payload of `payload_len` bytes: what brings
/// payload, checksum, vendor tag and pad length byte to a multiple of eight.
pub open spec fn padlen_spec(payload_len: nat) -> nat {
    ((8 - (payload_len + 9) % 8) % 8) as nat
}

/// The pad bytes of a block: the first `padlen` bytes of the caller's
/// padding, or zeros where the caller gave none.
pub open spec fn padding_spec(pad_bytes: Option<Seq<u8>>, padlen: nat) -> Seq<u8> {
    match pad_bytes {
        Some(pad) => pad.subrange(0, padlen as int),
        None => Seq::new(padlen, |i: int| 0u8),
    }
}

/// The plaintext block of a payload, or `PadTooShort` where the caller's
/// padding has fewer bytes than the block needs.
pub open spec fn pack_block_spec(payload: Seq<u8>, extra4: u32, pad_bytes: Option<Seq<u8>>) -> Result<
    Seq<u8>,
    CodecError,
> {
    let padlen = padlen_spec(payload.len());
    if pad_bytes is Some && pad_bytes->0.len() < padlen {
        Err(CodecError::PadTooShort)
    } else {
        Ok(
            payload + word_bytes(checksum_spec(payload)) + word_bytes(extra4) + padding_spec(
                pad_bytes,
                padlen,
            ) + seq![padlen as u8],
        )
    }
}

/// What a plaintext block holds, or the structural error that it has.
pub open spec fn unpack_block_spec(plain: Seq<u8>) -> Result<UnpackedBlockView, CodecError> {
    if plain.len() < 9 {
        Err(CodecError::BlockTooShort { len: plain.len() as usize })
    } else {
        let padlen = plain.last();
        let n = plain.len() - padlen - 9;
        if padlen > 8 {
            Err(CodecError::PadlenOutOfRange { padlen })
        } else if n < 0 {
            Err(CodecError::NegativePayloadLength)
        } else {
            Ok(
                UnpackedBlockView {
                    payload: plain.subrange(0, n),
                    checksum: le_word(plain[n], plain[n + 1], plain[n + 2], plain[n + 3]),
                    extra4: le_word(plain[n + 4], plain[n + 5], plain[n + 6], plain[n + 7]),
                    padlen,
                },
            )
        }
    }
}

/// The block that `encrypt` makes of a payload: vendor tag `EXTRA4`, zero
/// padding.
pub open spec fn plain_block(payload: Seq<u8>) -> Seq<u8> {
    pack_block_spec(payload, EXTRA4, None)->Ok_0
}

/// The save file of a payload: its block, encrypted with `KEY`.
pub open spec fn encrypt_spec(payload: Seq<u8>) -> Seq<u8> {
    xxtea_encrypt_bytes_spec(plain_block(payload), KEY@)
}

/// What unpacking the block of a payload gives.
pub open spec fn packed_view(payload: Seq<u8>, extra4: u32) -> UnpackedBlockView {
    UnpackedBlockView {
        payload,
        checksum: checksum_spec(payload),
        extra4,
        padlen: padlen_spec(payload.len()) as u8,
    }
}

/// What a save file holds: its bytes decrypted with `KEY` and unpacked.
pub open spec fn decrypt_spec(cipher: Seq<u8>) -> Result<UnpackedBlockView, CodecError> {
    unpack_block_spec(xxtea_decrypt_bytes_spec(cipher, KEY@))
}

/// The view of an optional byte slice.
pub open spec fn option_view(bytes: Option<&[u8]>) -> Option<Seq<u8>> {
    match bytes {
        Some(b) => Some(b@),
        None => None,
    }
}

/// Computes the checksum of a payload.
pub fn calc_checksum(payload: &[u8]) -> (sum: u32)
    ensures
        sum == checksum_spec(payload@),
{
    let mut sum: u32 = 0x06583463;
    let mut i: usize = 0;
    while i < payload.len()
        invariant
            i <= payload@.len(),
            sum == checksum_spec(payload@.subrange(0, i as int)),
        decreases payload@.len() - i,
    {
        proof {
            let next = payload@.subrange(0, i + 1);
            assert(next.drop_last() =~= payload@.subrange(0, i as int));
            assert(next.last() == payload@[i as int]);
        }
        sum = sum.wrapping_add(payload[i] as u32);
        i += 1;
    }
    assert(payload@.subrange(0, i as int) =~= payload@);
    sum
}

/// Appends `count` bytes of `src`, from its start, to `out`.
fn append_bytes(out: &mut Vec<u8>, src: &[u8], count: usize)
    requires
        count <= src@.len(),
    ensures
        final(out)@ == old(out)@ + src@.subrange(0, count as int),
{
    let mut i: usize = 0;
    while i < count
        invariant
            i <= count <= src@.len(),
            out@ == old(out)@ + src@.subrange(0, i as int),
        decreases count - i,
    {
        out.push(src[i]);
        i += 1;
        assert(out@ =~= old(out)@ + src@.subrange(0, i as int));
    }
}

/// Appends `count` zero bytes to `out`.
fn append_zeros(out: &mut Vec<u8>, count: usize)
    ensures
        final(out)@ == old(out)@ + Seq::new(count as nat, |i: int| 0u8),
{
    let mut i: usize = 0;
    while i < count
        invariant
            i <= count,
            out@ == old(out)@ + Seq::new(i as nat, |j: int| 0u8),
        decreases count - i,
    {
        out.push(0);
        i += 1;
        assert(out@ =~= old(out)@ + Seq::new(i as nat, |j: int| 0u8));
    }
}

/// The pad length is at most seven and brings the block to a multiple of
/// eight bytes.
pub proof fn lemma_padlen(payload_len: nat)
    ensures
        padlen_spec(payload_len) == 7 - payload_len % 8,
        padlen_spec(payload_len) <= 7,
        (payload_len + 9 + padlen_spec(payload_len)) % 8 == 0,
{
}

/// Packs a payload into a plaintext block, ready for encryption. The pad
/// bytes are taken from `pad_bytes` where given and are zero otherwise.
pub fn pack_block(payload: &[u8], extra4: u32, pad_bytes: Option<&[u8]>) -> (r: Result<
    Vec<u8>,
    CodecError,
>)
    ensures
        match pack_block_spec(payload@, extra4, option_view(pad_bytes)) {
            Ok(block) => r is Ok && r->Ok_0@ == block && block.len() % 8 == 0,
            Err(e) => r == Err::<Vec<u8>, CodecError>(e),
        },
{
    let padlen: usize = (8 - (payload.len() % 8 + 9) % 8) % 8;
    proof {
        lemma_padlen(payload@.len());
    }
    assert(padlen == padlen_spec(payload@.len()));
    let checksum = calc_checksum(payload);
    let mut block: Vec<u8> = Vec::new();
    append_bytes(&mut block, payload, payload.len());
    assert(payload@.subrange(0, payload@.len() as int) =~= payload@);
    assert(block@ =~= payload@);
    store_word(&mut block, checksum);
    store_word(&mut block, extra4);
    let ghost head = block@;
    assert(head == payload@ + word_bytes(checksum_spec(payload@)) + word_bytes(extra4));
    assert(head.len() == payload@.len() + 8);
    match pad_bytes {
        Some(pad) => {
            if pad.len() < padlen {
                return Err(CodecError::PadTooShort);
            }
            append_bytes(&mut block, pad, padlen);
        },
        None => {
            append_zeros(&mut block, padlen);
        },
    }
    assert(block@ == head + padding_spec(option_view(pad_bytes), padlen as nat));
    block.push(padlen as u8);
    assert(block@ =~= head + padding_spec(option_view(pad_bytes), padlen as nat) + seq![
        padlen as u8,
    ]);
    assert(block@.len() == payload@.len() + 9 + padlen);
    Ok(block)
}

/// Unpacks a plaintext block into payload, checksum, vendor tag and pad
/// length. The checksum is handed out as stored; it is not checked here.
pub fn unpack_block(plain: &[u8]) -> (r: Result<UnpackedBlock, CodecError>)
    ensures
        match unpack_block_spec(plain@) {
            Ok(block) => r is Ok && r->Ok_0@ == block,
            Err(e) => r is Err && r->Err_0 == e,
        },
{
    let len = plain.len();
    if len < 9 {
        return Err(CodecError::BlockTooShort { len });
    }
    let padlen = plain[len - 1];
    if padlen > 8 {
        return Err(CodecError::PadlenOutOfRange { padlen });
    }
    if len - 9 < padlen as usize {
        return Err(CodecError::NegativePayloadLength);
    }
    let payload_len = len - 9 - padlen as usize;
    let mut payload: Vec<u8> = Vec::new();
    append_bytes(&mut payload, plain, payload_len);
    let checksum = load_word(plain, payload_len);
    let extra4 = load_word(plain, payload_len + 4);
    assert(payload@ =~= plain@.subrange(0, payload_len as int));
    Ok(UnpackedBlock { payload, checksum, extra4, padlen })
}

/// Encrypts a payload into a save file.
pub fn encrypt(payload: &[u8]) -> (r: Result<Vec<u8>, CodecError>)
    ensures
        r is Ok,
        r->Ok_0@ == encrypt_spec(payload@),
        r->Ok_0@.len() % 8 == 0,
{
    match pack_block(payload, EXTRA4, None) {
        Ok(block) => {
            proof {
                lemma_xxtea_bytes_len(block@, KEY@);
            }
            Ok(xxtea_encrypt_bytes(block.as_slice(), &KEY))
        },
        Err(e) => Err(e),
    }
}

/// Decrypts a save file. A ciphertext whose length is not a multiple of
/// eight, or whose stored checksum does not fit its payload, is decoded all
/// the same: only a structural error of the decrypted block fails the call.
pub fn decrypt(cipher: &[u8]) -> (r: Result<UnpackedBlock, CodecError>)
    ensures
        match decrypt_spec(cipher@) {
            Ok(block) => r is Ok && r->Ok_0@ == block,
            Err(e) => r is Err && r->Err_0 == e,
        },
{
    let plain = xxtea_decrypt_bytes(cipher, &KEY);
    unpack_block(plain.as_slice())
}

/// The warning that a ciphertext of `len` bytes calls for: one where `len`
/// is not a multiple of eight.
pub open spec fn alignment_warning_spec(len: nat) -> Option<IntegrityWarning> {
    if len % 8 != 0 {
        Some(IntegrityWarning::CipherNotAligned { len: len as usize })
    } else {
        None
    }
}

/// The warning that an unpacked block calls for: one where the stored
/// checksum is not the checksum of the payload.
pub open spec fn checksum_warning_spec(block: UnpackedBlockView) -> Option<IntegrityWarning> {
    if block.checksum != checksum_spec(block.payload) {
        Some(
            IntegrityWarning::ChecksumMismatch {
                stored: block.checksum,
                computed: checksum_spec(block.payload),
            },
        )
    } else {
        None
    }
}

/// The warnings that decrypting a save file gives, in the order in which
/// they arise: first for its length, then, where the block could be
/// unpacked, for its checksum.
pub open spec fn decrypt_warnings_spec(cipher: Seq<u8>) -> Seq<IntegrityWarning> {
    let first = match alignment_warning_spec(cipher.len()) {
        Some(w) => seq![w],
        None => Seq::empty(),
    };
    let second = match decrypt_spec(cipher) {
        Ok(block) => match checksum_warning_spec(block) {
            Some(w) => seq![w],
            None => Seq::empty(),
        },
        Err(_) => Seq::empty(),
    };
    first + second
}

/// The warning that a ciphertext's length calls for, if any.
pub fn alignment_warning(cipher: &[u8]) -> (w: Option<IntegrityWarning>)
    ensures
        w == alignment_warning_spec(cipher@.len()),
{
    if cipher.len() % 8 != 0 {
        Some(IntegrityWarning::CipherNotAligned { len: cipher.len() })
    } else {
        None
    }
}

/// The warning that an unpacked block's checksum calls for, if any.
pub fn checksum_warning(block: &UnpackedBlock) -> (w: Option<IntegrityWarning>)
    ensures
        w == checksum_warning_spec(block@),
{
    let computed = calc_checksum(block.payload.as_slice());
    if block.checksum != computed {
        Some(IntegrityWarning::ChecksumMismatch { stored: block.checksum, computed })
    } else {
        None
    }
}

/// Decrypts a save file and tells what was found on the way. The warnings
/// never change the result: a save file of odd length or with a wrong
/// checksum is decoded all the same.
pub fn decrypt_with_warnings(cipher: &[u8]) -> (r: (
    Vec<IntegrityWarning>,
    Result<UnpackedBlock, CodecError>,
))
    ensures
        r.0@ == decrypt_warnings_spec(cipher@),
        match decrypt_spec(cipher@) {
            Ok(block) => r.1 is Ok && r.1->Ok_0@ == block,
            Err(e) => r.1 is Err && r.1->Err_0 == e,
        },
{
    let mut warnings: Vec<IntegrityWarning> = Vec::new();
    if let Some(w) = alignment_warning(cipher) {
        warnings.push(w);
    }
    let result = decrypt(cipher);
    if let Ok(block) = &result {
        if let Some(w) = checksum_warning(block) {
            warnings.push(w);
        }
    }
    assert(warnings@ =~= decrypt_warnings_spec(cipher@));
    (warnings, result)
}

/// The sum of the bytes of two buffers joined is the sum of their sums.
pub proof fn lemma_byte_sum_concat(a: Seq<u8>, b: Seq<u8>)
    ensures
        byte_sum(a + b) == byte_sum(a) + byte_sum(b),
    decreases b.len(),
{
    if b.len() == 0 {
        assert(a + b =~= a);
    } else {
        lemma_byte_sum_concat(a, b.drop_last());
        assert((a + b).drop_last() =~= a + b.drop_last());
    }
}

/// The checksum does not depend on the order of the parts of a payload.
pub proof fn lemma_checksum_order(a: Seq<u8>, b: Seq<u8>)
    ensures
        checksum_spec(a + b) == checksum_spec(b + a),
{
    lemma_byte_sum_concat(a, b);
    lemma_byte_sum_concat(b, a);
}

/// A save file is as long as its block: payload, nine bytes of footer and
/// the pad, a multiple of eight.
pub proof fn lemma_encrypt_len(payload: Seq<u8>)
    ensures
        encrypt_spec(payload).len() == payload.len() + 9 + padlen_spec(payload.len()),
        encrypt_spec(payload).len() % 8 == 0,
{
    lemma_pack_block_len(payload, EXTRA4, None);
    lemma_xxtea_bytes_len(plain_block(payload), KEY@);
}

/// Packing without explicit padding always succeeds, and every packed block
/// is `payload length + 9 + pad length` bytes long, a multiple of eight.
pub proof fn lemma_pack_block_len(payload: Seq<u8>, extra4: u32, pad_bytes: Option<Seq<u8>>)
    ensures
        pack_block_spec(payload, extra4, None) is Ok,
        pack_block_spec(payload, extra4, pad_bytes) matches Ok(block) ==> {
            &&& block.len() == payload.len() + 9 + padlen_spec(payload.len())
            &&& block.len() % 8 == 0
        },
{
    lemma_padlen(payload.len());
}

/// Unpacking a packed block gives back the payload, its checksum and the
/// vendor tag, with a pad length between 0 and 7, whatever the pad bytes.
pub proof fn lemma_unpack_pack(payload: Seq<u8>, extra4: u32, pad_bytes: Option<Seq<u8>>)
    ensures
        pack_block_spec(payload, extra4, pad_bytes) matches Ok(block) ==> {
            &&& unpack_block_spec(block) == Ok::<UnpackedBlockView, CodecError>(
                packed_view(payload, extra4),
            )
            &&& packed_view(payload, extra4).padlen <= 7
        },
{
    lemma_padlen(payload.len());
    if let Ok(block) = pack_block_spec(payload, extra4, pad_bytes) {
        let n = payload.len() as int;
        let padlen = padlen_spec(payload.len());
        let checksum = checksum_spec(payload);
        let pad = padding_spec(pad_bytes, padlen);
        assert(pad.len() == padlen);
        assert(block.len() == n + 9 + padlen);
        assert(block.last() == padlen as u8);
        assert(block.subrange(0, n) =~= payload);
        assert(block[n] == word_bytes(checksum)[0] && block[n + 1] == word_bytes(checksum)[1]
            && block[n + 2] == word_bytes(checksum)[2] && block[n + 3] == word_bytes(checksum)[3]);
        assert(block[n + 4] == word_bytes(extra4)[0] && block[n + 5] == word_bytes(extra4)[1]
            && block[n + 6] == word_bytes(extra4)[2] && block[n + 7] == word_bytes(extra4)[3]);
        lemma_word_from_its_bytes(checksum);
        lemma_word_from_its_bytes(extra4);
    }
}

/// Decrypting the save file of a payload gives back the payload, with its
/// checksum, the vendor tag `EXTRA4` and a pad length between 0 and 7. So
/// encrypting what was decrypted gives the same save file again.
pub proof fn lemma_decrypt_encrypt(payload: Seq<u8>)
    ensures
        decrypt_spec(encrypt_spec(payload)) == Ok::<UnpackedBlockView, CodecError>(
            packed_view(payload, EXTRA4),
        ),
        encrypt_spec(decrypt_spec(encrypt_spec(payload))->Ok_0.payload) == encrypt_spec(payload),
{
    let block = plain_block(payload);
    lemma_pack_block_len(payload, EXTRA4, None);
    lemma_decrypt_encrypt_bytes(block, KEY@);
    assert(padded_len(block.len()) == block.len());
    assert(zero_padded(block) =~= block);
    lemma_unpack_pack(payload, EXTRA4, None);
}

/// Encrypting the payload of a decrypted save file gives the save file back,
/// byte for byte, where the save file's block is the one that `encrypt`
/// makes of that payload: right checksum, vendor tag `EXTRA4`, zero padding.
pub proof fn lemma_encrypt_decrypt(cipher: Seq<u8>)
    requires
        decrypt_spec(cipher) is Ok,
        xxtea_decrypt_bytes_spec(cipher, KEY@) == plain_block(decrypt_spec(cipher)->Ok_0.payload),
    ensures
        encrypt_spec(decrypt_spec(cipher)->Ok_0.payload) == cipher,
{
    let payload = decrypt_spec(cipher)->Ok_0.payload;
    lemma_pack_block_len(payload, EXTRA4, None);
    lemma_xxtea_bytes_len(cipher, KEY@);
    lemma_encrypt_decrypt_bytes(cipher, KEY@);
}

} // verus!
