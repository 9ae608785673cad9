use dbs_core::crypto::{
    key_words, mix, xxtea_decrypt_block, xxtea_decrypt_bytes, xxtea_encrypt_block,
    xxtea_encrypt_bytes, DELTA,
};

fn hex(bytes: &[u8]) -> String {
    let mut s = String::new();
    for b in bytes {
        s.push_str(&format!("{:02x}", b));
    }
    s
}

#[test]
fn test_encrypt_decrypt_roundtrip() {
    let key = [0u8; 16];
    let data = b"Hello, World!";

    let encrypted = xxtea_encrypt_bytes(data, &key);
    let decrypted = xxtea_decrypt_bytes(&encrypted, &key);

    assert_eq!(&decrypted[..data.len()], data);
}

#[test]
fn delta_is_the_golden_ratio_constant() {
    assert_eq!(DELTA, 0x9E37_79B9);
}

#[test]
fn mix_follows_the_formula() {
    let (z, y, sum, k) = (0x1234_5678u32, 0x9abc_def0u32, 0x9E37_79B9u32, 0x0bad_cafeu32);
    let left = ((z >> 5) ^ (y << 2)).wrapping_add((y >> 3) ^ (z << 4));
    let right = (sum ^ y).wrapping_add(k ^ z);
    assert_eq!(mix(z, y, sum, k), left ^ right);
    assert_eq!(mix(0, 0, 0, 0), 0);
    assert_eq!(mix(0xffff_ffff, 0xffff_ffff, 0, 0), 0x27ff_ffec);
}

#[test]
fn key_words_are_little_endian() {
    let key = [
        0x93, 0x9d, 0xab, 0x7a, 0x2a, 0x56, 0xf8, 0xaf, 0xb4, 0xdb, 0xa9, 0xb5, 0x22, 0xa3, 0x4b,
        0x2b,
    ];
    assert_eq!(key_words(&key), [0x7aab_9d93, 0xaff8_562a, 0xb5a9_dbb4, 0x2b4b_a322]);
}

#[test]
fn block_of_two_words_with_zero_key() {
    let key = [0u32; 4];
    let mut w = [0x1111_1111u32, 0x2222_2222u32];
    xxtea_encrypt_block(&mut w, &key);
    assert_eq!(w, [0xd3c5_006d, 0xb593_eeb1]);
    xxtea_decrypt_block(&mut w, &key);
    assert_eq!(w, [0x1111_1111, 0x2222_2222]);
}

#[test]
fn block_of_five_words() {
    let key = [0x0123_4567u32, 0x89ab_cdef, 0xfedc_ba98, 0x7654_3210];
    let mut w = [1u32, 2, 3, 4, 5];
    xxtea_encrypt_block(&mut w, &key);
    assert_eq!(w, [0x8069_02bd, 0xdfb0_8fa9, 0xe71f_f40c, 0x96b5_121b, 0x46a6_7584]);
    xxtea_decrypt_block(&mut w, &key);
    assert_eq!(w, [1, 2, 3, 4, 5]);
}

#[test]
fn blocks_of_less_than_two_words_stay_as_they_are() {
    let key = [0xdead_beefu32, 1, 2, 3];
    let mut none: [u32; 0] = [];
    xxtea_encrypt_block(&mut none, &key);
    assert_eq!(none, []);
    xxtea_decrypt_block(&mut none, &key);
    assert_eq!(none, []);

    let mut one = [0x1234_5678u32];
    xxtea_encrypt_block(&mut one, &key);
    assert_eq!(one, [0x1234_5678]);
    xxtea_decrypt_block(&mut one, &key);
    assert_eq!(one, [0x1234_5678]);
}

#[test]
fn decrypt_block_undoes_encrypt_block_for_many_lengths() {
    let key = [0x7aab_9d93u32, 0xaff8_562a, 0xb5a9_dbb4, 0x2b4b_a322];
    for n in 0..70usize {
        let original: Vec<u32> = (0..n).map(|i| (i as u32).wrapping_mul(0x0101_0101) ^ 0x5a5a).collect();
        let mut w = original.clone();
        xxtea_encrypt_block(&mut w, &key);
        if n >= 2 {
            assert_ne!(w, original);
        }
        xxtea_decrypt_block(&mut w, &key);
        assert_eq!(w, original);
    }
}

#[test]
fn encrypt_block_undoes_decrypt_block() {
    let key = [9u32, 8, 7, 6];
    let original = vec![0xffff_ffffu32, 0, 0x8000_0000, 1, 2, 3, 4];
    let mut w = original.clone();
    xxtea_decrypt_block(&mut w, &key);
    assert_ne!(w, original);
    xxtea_encrypt_block(&mut w, &key);
    assert_eq!(w, original);
}

#[test]
fn published_vectors() {
    let zero_key = [0u8; 16];
    assert_eq!(hex(&xxtea_encrypt_bytes(&[0u8; 8], &zero_key)), "ab043705808c5d57");
    let key = [
        0x01, 0x02, 0x04, 0x08, 0x10, 0x20, 0x40, 0x80, 0xff, 0xfe, 0xfc, 0xf8, 0xf0, 0xe0, 0xc0,
        0x80,
    ];
    assert_eq!(hex(&xxtea_encrypt_bytes(&[0u8; 8], &key)), "d1e78be2c746728a");
    assert_eq!(xxtea_decrypt_bytes(&[0xd1, 0xe7, 0x8b, 0xe2, 0xc7, 0x46, 0x72, 0x8a], &key), vec![0u8; 8]);
}

#[test]
fn encrypt_bytes_pads_to_a_multiple_of_four() {
    let key = [0u8; 16];
    let encrypted = xxtea_encrypt_bytes(b"Hello, World!", &key);
    assert_eq!(hex(&encrypted), "dc6b472402cb98bea7f28588aedb07be");
    let decrypted = xxtea_decrypt_bytes(&encrypted, &key);
    assert_eq!(decrypted, b"Hello, World!\0\0\0".to_vec());
}

#[test]
fn encrypt_bytes_of_a_single_word_keeps_four_bytes() {
    let key = [0u8; 16];
    let encrypted = xxtea_encrypt_bytes(b"abc", &key);
    assert_eq!(hex(&encrypted), "f8399308");
    let decrypted = xxtea_decrypt_bytes(&encrypted, &key);
    assert_eq!(decrypted.len(), 4);
    assert_eq!(hex(&decrypted), "f548523c");
}

#[test]
fn empty_buffers_stay_empty() {
    let key = [7u8; 16];
    assert_eq!(xxtea_encrypt_bytes(&[], &key), Vec::<u8>::new());
    assert_eq!(xxtea_decrypt_bytes(&[], &key), Vec::<u8>::new());
}

#[test]
fn decrypt_bytes_keeps_the_length_of_its_input() {
    let key = [1u8; 16];
    for len in 0..40usize {
        let data: Vec<u8> = (0..len).map(|i| (i * 7 + 3) as u8).collect();
        assert_eq!(xxtea_decrypt_bytes(&data, &key).len(), len);
        assert_eq!(xxtea_encrypt_bytes(&data, &key).len(), (len + 3) / 4 * 4);
    }
}

#[test]
fn long_blocks_take_six_or_seven_rounds() {
    let key = [0x7aab_9d93u32, 0xaff8_562a, 0xb5a9_dbb4, 0x2b4b_a322];
    let mut w: Vec<u32> = (0..60).collect();
    xxtea_encrypt_block(&mut w, &key);
    assert_eq!((w[0], w[1], w[58], w[59]), (0x8c10_1cbe, 0xac6e_ba8f, 0x0489_4796, 0x6540_5ba6));

    let mut w: Vec<u32> = (0..53).collect();
    xxtea_encrypt_block(&mut w, &key);
    assert_eq!((w[0], w[52]), (0x2b3a_4adc, 0x93f3_5114));

    let mut w: Vec<u32> = (0..52).collect();
    xxtea_encrypt_block(&mut w, &key);
    assert_eq!((w[0], w[51]), (0xc75c_d610, 0xa990_e040));
}
