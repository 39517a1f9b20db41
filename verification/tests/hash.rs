use rsa_keygen::hash::{
    ch, get_blocks, get_new_hashes, hash_input, maj, rotate_right, sha256, sigma_0, sigma_1,
    sigmoid_0, sigmoid_1, u32s_to_u64, u64_to_u32, INITIAL_HASH, K,
};

#[test]
fn rotate_right_rotates() {
    assert_eq!(rotate_right(0xffeeddcc, 8), 0xccffeedd);
    assert_eq!(rotate_right(0b00111000, 4), 0b1000_0000_0000_0000_0000_0000_0000_0011);
    assert_eq!(rotate_right(1, 1), 0x8000_0000);
    assert_eq!(rotate_right(0x8000_0000, 31), 1);
    assert_eq!(rotate_right(0x1234_5678, 16), 0x5678_1234);
    for shift in 1u8..32 {
        assert_eq!(rotate_right(0xdead_beef, shift), 0xdead_beefu32.rotate_right(shift.into()));
    }
}

#[test]
fn choice_and_majority() {
    assert_eq!(ch(0xffff_0000, 0x1234_5678, 0x9abc_def0), 0x1234_def0);
    assert_eq!(ch(0, 0x1234_5678, 0x9abc_def0), 0x9abc_def0);
    assert_eq!(maj(0b1100, 0b1010, 0b0110), 0b1110);
    assert_eq!(maj(0xffff_ffff, 0, 0), 0);
    assert_eq!(maj(0xffff_ffff, 0xffff_ffff, 0), 0xffff_ffff);
}

#[test]
fn sigma_functions() {
    let x: u32 = 0x6a09e667;
    assert_eq!(sigma_0(x), x.rotate_right(2) ^ x.rotate_right(13) ^ x.rotate_right(22));
    assert_eq!(sigma_1(x), x.rotate_right(6) ^ x.rotate_right(11) ^ x.rotate_right(25));
    assert_eq!(sigmoid_0(x), x.rotate_right(7) ^ x.rotate_right(18) ^ (x >> 3));
    assert_eq!(sigmoid_1(x), x.rotate_right(17) ^ x.rotate_right(19) ^ (x >> 10));
    assert_eq!(sigma_0(1), 0x4008_0400);
    assert_eq!(sigma_1(1), 0x0420_0080);
    assert_eq!(sigmoid_0(1), 0x0200_4000);
    assert_eq!(sigmoid_1(1), 0x0000_a000);
}

#[test]
fn u64_to_u32_keeps_the_low_word() {
    assert_eq!(u64_to_u32(0x1_2345_6789), 0x2345_6789);
    assert_eq!(u64_to_u32(0xffff_ffff), 0xffff_ffff);
    assert_eq!(u64_to_u32(0x8000_0000), 0x8000_0000);
    assert_eq!(u64_to_u32(0x1_0000_0000), 0);
    assert_eq!(u64_to_u32(u64::MAX), 0xffff_ffff);
}

#[test]
fn u32s_to_u64_joins_the_halves() {
    assert_eq!(u32s_to_u64(0x1234_5678, 0x9abc_def0), 0x1234_5678_9abc_def0);
    assert_eq!(u32s_to_u64(0, 1), 1);
    assert_eq!(u32s_to_u64(1, 0), 0x1_0000_0000);
    assert_eq!(u32s_to_u64(u32::MAX, u32::MAX), u64::MAX);
}

#[test]
fn constants_are_those_of_the_standard() {
    assert_eq!(K[0], 0x428a2f98);
    assert_eq!(K[63], 0xc67178f2);
    assert_eq!(K.len(), 64);
    assert_eq!(
        INITIAL_HASH,
        [
            0x6a09e667, 0xbb67ae85, 0x3c6ef372, 0xa54ff53a, 0x510e527f, 0x9b05688c, 0x1f83d9ab,
            0x5be0cd19
        ]
    );
}

#[test]
fn schedule_of_the_padded_abc() {
    let mut block = vec![0u8; 64];
    block[0] = b'a';
    block[1] = b'b';
    block[2] = b'c';
    block[3] = 0x80;
    block[63] = 24;
    let words = get_blocks(&block, 0);
    assert_eq!(words[0], 0x6162_6380);
    assert_eq!(words[1], 0);
    assert_eq!(words[15], 0x18);
    assert_eq!(words[16], 0x6162_6380);
    assert_eq!(words[17], 0x000f_0000);
}

#[test]
fn schedule_starts_where_it_is_told() {
    let mut data = vec![0u8; 130];
    data[66] = 0x12;
    data[67] = 0x34;
    data[68] = 0x56;
    data[69] = 0x78;
    let words = get_blocks(&data, 66);
    assert_eq!(words[0], 0x1234_5678);
    assert_eq!(get_blocks(&data, 0)[0], 0);
}

#[test]
fn compression_of_the_padded_abc() {
    let mut block = vec![0u8; 64];
    block[0] = b'a';
    block[1] = b'b';
    block[2] = b'c';
    block[3] = 0x80;
    block[63] = 24;
    let mut hashes = INITIAL_HASH;
    get_new_hashes(&mut hashes, get_blocks(&block, 0));
    assert_eq!(
        hashes,
        [
            0xba7816bf, 0x8f01cfea, 0x414140de, 0x5dae2223, 0xb00361a3, 0x96177a9c, 0xb410ff61,
            0xf20015ad
        ]
    );
}

#[test]
fn hash_input_pads_in_place() {
    let mut input = b"abc".to_vec();
    let digest = hash_input(&mut input);
    assert_eq!(input.len(), 64);
    assert_eq!(&input[..4], &[b'a', b'b', b'c', 0x80]);
    assert!(input[4..63].iter().all(|b| *b == 0));
    assert_eq!(input[63], 24);
    assert_eq!(digest[0], 0xba7816bf_8f01cfea);
}

#[test]
fn hash_input_pads_into_a_second_block() {
    for len in [55usize, 56, 63, 64, 119, 120] {
        let mut input = vec![b'x'; len];
        hash_input(&mut input);
        let expected = if len < 56 { 64 } else if len < 120 { 128 } else { 192 };
        assert_eq!(input.len(), expected, "length {}", len);
        assert_eq!(input[len], 0x80);
        assert!(input[len + 1..expected - 8].iter().all(|b| *b == 0));
        let bits = u64::from_be_bytes(input[expected - 8..].try_into().unwrap());
        assert_eq!(bits, 8 * len as u64);
    }
}

#[test]
fn sha256_of_abc() {
    assert_eq!(
        sha256("abc"),
        [0xba7816bf_8f01cfea, 0x414140de_5dae2223, 0xb00361a3_96177a9c, 0xb410ff61_f20015ad]
    );
}

#[test]
fn sha256_of_the_empty_message() {
    assert_eq!(
        sha256(""),
        [0xe3b0c442_98fc1c14, 0x9afbf4c8_996fb924, 0x27ae41e4_649b934c, 0xa495991b_7852b855]
    );
}

#[test]
fn sha256_of_a_message_of_two_blocks() {
    assert_eq!(
        sha256("abcdbcdecdefdefgefghfghighijhijkijkljklmklmnlmnomnopnopq"),
        [0x248d6a61_d20638b8, 0xe5c02693_0c3e6039, 0xa33ce459_64ff2167, 0xf6ecedd4_19db06c1]
    );
}

#[test]
fn sha256_of_a_million_a() {
    let message = "a".repeat(1_000_000);
    assert_eq!(
        sha256(&message),
        [0xcdc76e5c_9914fb92, 0x81a1c7e2_84d73e67, 0xf1809a48_a497200e, 0x046d39cc_c7112cd0]
    );
}

#[test]
fn sha256_of_the_quick_brown_fox() {
    assert_eq!(
        sha256("The quick brown fox jumps over the lazy dog"),
        [0xd7a8fbb3_07d78094, 0x69ca9abc_b0082e4f, 0x8d5651e4_6d3cdb76, 0x2d02d0bf_37c9e592]
    );
}
