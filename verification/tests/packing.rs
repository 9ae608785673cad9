use dbs_core::packing::{bytes_to_words, words_to_bytes, words_to_padded_bytes};

#[test]
fn bytes_to_words_groups_little_endian() {
    assert_eq!(
        bytes_to_words(&[0x01, 0x02, 0x03, 0x04, 0xf0, 0xe0, 0xd0, 0xc0]),
        vec![0x0403_0201, 0xc0d0_e0f0]
    );
}

#[test]
fn bytes_to_words_pads_with_zero_bytes() {
    assert_eq!(
        bytes_to_words(&[0x11, 0x22, 0x33, 0x44, 0x55]),
        vec![0x4433_2211, 0x0000_0055]
    );
    assert_eq!(
        bytes_to_words(&[1, 2, 3, 4, 5, 6, 7, 8, 9, 10, 11]),
        vec![0x0403_0201, 0x0807_0605, 0x000b_0a09]
    );
}

#[test]
fn bytes_to_words_adds_a_zero_word_to_a_single_word() {
    assert_eq!(bytes_to_words(&[0xaa]), vec![0x0000_00aa, 0]);
    assert_eq!(bytes_to_words(&[1, 2, 3, 4]), vec![0x0403_0201, 0]);
}

#[test]
fn bytes_to_words_of_nothing_is_nothing() {
    assert_eq!(bytes_to_words(&[]), Vec::<u32>::new());
}

#[test]
fn words_to_bytes_flattens_and_cuts() {
    let words = [0x0403_0201u32, 0xc0d0_e0f0];
    assert_eq!(words_to_bytes(&words, 8), vec![1, 2, 3, 4, 0xf0, 0xe0, 0xd0, 0xc0]);
    assert_eq!(words_to_bytes(&words, 5), vec![1, 2, 3, 4, 0xf0]);
    assert_eq!(words_to_bytes(&words, 0), Vec::<u8>::new());
    assert_eq!(words_to_bytes(&words, 100), vec![1, 2, 3, 4, 0xf0, 0xe0, 0xd0, 0xc0]);
}

#[test]
fn words_to_padded_bytes_cuts_to_the_padded_length() {
    let words = [0x0403_0201u32, 0xc0d0_e0f0, 0x0000_0055];
    assert_eq!(words_to_padded_bytes(&words, 3), vec![1, 2, 3, 4]);
    assert_eq!(words_to_padded_bytes(&words, 4), vec![1, 2, 3, 4]);
    assert_eq!(words_to_padded_bytes(&words, 5), vec![1, 2, 3, 4, 0xf0, 0xe0, 0xd0, 0xc0]);
    assert_eq!(words_to_padded_bytes(&words, 0), Vec::<u8>::new());
    assert_eq!(
        words_to_padded_bytes(&words, 11),
        vec![1, 2, 3, 4, 0xf0, 0xe0, 0xd0, 0xc0, 0x55, 0, 0, 0]
    );
    assert_eq!(
        words_to_padded_bytes(&words, 13),
        vec![1, 2, 3, 4, 0xf0, 0xe0, 0xd0, 0xc0, 0x55, 0, 0, 0]
    );
}

#[test]
fn bytes_come_back_from_their_words() {
    for len in 0..33usize {
        let data: Vec<u8> = (0..len).map(|i| (i * 37 + 11) as u8).collect();
        let words = bytes_to_words(&data);
        assert_eq!(words_to_bytes(&words, len), data);
        let mut padded = data.clone();
        while padded.len() % 4 != 0 {
            padded.push(0);
        }
        assert_eq!(words_to_padded_bytes(&words, len), padded);
    }
}

#[test]
fn words_come_back_from_their_bytes() {
    let words = vec![0xdead_beefu32, 0, 0xffff_ffff, 0x0102_0304];
    let bytes = words_to_bytes(&words, 16);
    assert_eq!(bytes_to_words(&bytes), words);
}
