use xts::aes_engine::{Aes128XtsDecryptor, Aes128XtsEncryptor, AES_PAR_BLOCKS};
use xts::gf::gf_mul;
use xts::xts_core::{precompute_iv, xor_block, Xts, XtsMode};
use xts::Error;

fn hex(s: &str) -> Vec<u8> {
    (0..s.len())
        .step_by(2)
        .map(|i| u8::from_str_radix(&s[i..i + 2], 16).unwrap())
        .collect()
}

fn block(s: &str) -> [u8; 16] {
    let v = hex(s);
    let mut b = [0u8; 16];
    b.copy_from_slice(&v);
    b
}

fn sector(n: u64) -> [u8; 16] {
    let mut b = [0u8; 16];
    b[..8].copy_from_slice(&n.to_le_bytes());
    b
}

fn encrypt(key1: &str, key2: &str, unit: u64, data: &mut Vec<u8>) -> [u8; 16] {
    let mut iv = precompute_iv(&Aes128XtsEncryptor::new(&block(key2)), &sector(unit));
    Aes128XtsEncryptor::new(&block(key1))
        .process_all_in_place(&mut iv, data.as_mut_slice())
        .unwrap();
    iv
}

fn decrypt(key1: &str, key2: &str, unit: u64, data: &mut Vec<u8>) -> [u8; 16] {
    let mut iv = precompute_iv(&Aes128XtsEncryptor::new(&block(key2)), &sector(unit));
    Aes128XtsDecryptor::new(&block(key1))
        .process_all_in_place(&mut iv, data.as_mut_slice())
        .unwrap();
    iv
}

fn assert_vector(key1: &str, key2: &str, unit: u64, pt: &str, ct: &str) {
    let mut data = hex(pt);
    encrypt(key1, key2, unit, &mut data);
    assert_eq!(data, hex(ct));
    decrypt(key1, key2, unit, &mut data);
    assert_eq!(data, hex(pt));
}

const ZERO_KEY: &str = "00000000000000000000000000000000";
const KEY_11: &str = "11111111111111111111111111111111";
const KEY_22: &str = "22222222222222222222222222222222";
const KEY_FF: &str = "fffefdfcfbfaf9f8f7f6f5f4f3f2f1f0";
const KEY_BF: &str = "bfbebdbcbbbab9b8b7b6b5b4b3b2b1b0";

#[test]
fn vector_zero_keys_two_blocks() {
    assert_vector(
        ZERO_KEY,
        ZERO_KEY,
        0,
        "0000000000000000000000000000000000000000000000000000000000000000",
        "917cf69ebd68b2ec9b9fe9a3eadda692cd43d2f59598ed858c02c2652fbf922e",
    );
}

#[test]
fn vector_repeated_keys_two_blocks() {
    assert_vector(
        KEY_11,
        KEY_22,
        0x3333333333,
        "4444444444444444444444444444444444444444444444444444444444444444",
        "c454185e6a16936e39334038acef838bfb186fff7480adc4289382ecd6d394f0",
    );
}

#[test]
fn vector_distinct_keys_two_blocks() {
    assert_vector(
        KEY_FF,
        KEY_22,
        0x3333333333,
        "4444444444444444444444444444444444444444444444444444444444444444",
        "af85336b597afc1a900b2eb21ec949d292df4c047e0b21532186a5971a227a89",
    );
}

// The unit number of these vectors is given as the tweak bytes 9a 78 56 34 12.
const STEALING_UNIT: u64 = 0x123456789a;

#[test]
fn vector_stealing_seventeen_bytes() {
    assert_vector(
        KEY_FF,
        KEY_BF,
        STEALING_UNIT,
        "000102030405060708090a0b0c0d0e0f10",
        "6c1625db4671522d3d7599601de7ca09ed",
    );
}

#[test]
fn vector_stealing_eighteen_bytes() {
    assert_vector(
        KEY_FF,
        KEY_BF,
        STEALING_UNIT,
        "000102030405060708090a0b0c0d0e0f1011",
        "d069444b7a7e0cab09e24447d24deb1fedbf",
    );
}

#[test]
fn vector_stealing_nineteen_bytes() {
    assert_vector(
        KEY_FF,
        KEY_BF,
        STEALING_UNIT,
        "000102030405060708090a0b0c0d0e0f101112",
        "e5df1351c0544ba1350b3363cd8ef4beedbf9d",
    );
}

#[test]
fn vector_stealing_twenty_bytes() {
    assert_vector(
        KEY_FF,
        KEY_BF,
        STEALING_UNIT,
        "000102030405060708090a0b0c0d0e0f10111213",
        "9d84c813f719aa2c7be3f66171c7c5c2edbf9dac",
    );
}

#[test]
fn short_buffers_are_refused_unchanged() {
    let enc = Aes128XtsEncryptor::new(&block(KEY_11));
    for len in [0usize, 1, 15] {
        let mut data: Vec<u8> = (0..len as u8).collect();
        let mut iv = sector(7);
        let r = enc.process_all_in_place(&mut iv, data.as_mut_slice());
        assert_eq!(r, Err(Error::InvalidLength));
        assert_eq!(data, (0..len as u8).collect::<Vec<u8>>());
        assert_eq!(iv, sector(7));
    }
}

#[test]
fn round_trip_all_lengths() {
    for len in 16usize..(16 * 11 + 3) {
        let pt: Vec<u8> = (0..len).map(|i| (i * 7 + 3) as u8).collect();
        let mut data = pt.clone();
        let enc_iv = encrypt(KEY_FF, KEY_BF, 42, &mut data);
        assert_eq!(data.len(), len);
        assert_ne!(data, pt);
        let dec_iv = decrypt(KEY_FF, KEY_BF, 42, &mut data);
        assert_eq!(data, pt);
        let mut expected = precompute_iv(&Aes128XtsEncryptor::new(&block(KEY_BF)), &sector(42));
        let steps = if len % 16 == 0 { len / 16 } else { len / 16 + 1 };
        for _ in 0..steps {
            gf_mul(&mut expected);
        }
        assert_eq!(enc_iv, expected);
        if len % 16 != 0 {
            assert_ne!(dec_iv, enc_iv);
        }
    }
}

#[test]
fn full_blocks_match_block_by_block() {
    let enc = Aes128XtsEncryptor::new(&block(KEY_11));
    let len = 16 * (AES_PAR_BLOCKS + 3);
    let pt: Vec<u8> = (0..len).map(|i| (i * 13) as u8).collect();
    let mut data = pt.clone();
    let mut iv = sector(3);
    enc.process_all_in_place(&mut iv, data.as_mut_slice()).unwrap();
    let mut seq_iv = sector(3);
    for (i, chunk) in pt.chunks(16).enumerate() {
        let mut b = [0u8; 16];
        b.copy_from_slice(chunk);
        let out = enc.process_block(&mut seq_iv, &b);
        assert_eq!(&data[16 * i..16 * i + 16], &out[..]);
    }
    assert_eq!(iv, seq_iv);
}

#[test]
fn batch_matches_sequence() {
    let enc = Aes128XtsEncryptor::new(&block(KEY_FF));
    let blocks: Vec<[u8; 16]> = (0..AES_PAR_BLOCKS as u8).map(|i| [i; 16]).collect();
    let mut batched = blocks.clone();
    let mut iv_batch = sector(9);
    enc.process_par_blocks_inplace(&mut iv_batch, &mut batched);
    let mut sequential = blocks.clone();
    let mut iv_seq = sector(9);
    enc.process_tail_blocks_inplace(&mut iv_seq, &mut sequential);
    assert_eq!(batched, sequential);
    assert_eq!(iv_batch, iv_seq);
    let mut iv_copy = sector(9);
    let copied = enc.process_tail_blocks(&mut iv_copy, &blocks);
    assert_eq!(copied, sequential);
    assert_eq!(iv_copy, iv_seq);
    let mut iv_par_copy = sector(9);
    let par_copied = enc.process_par_blocks(&mut iv_par_copy, &blocks);
    assert_eq!(par_copied, sequential);
    assert_eq!(iv_par_copy, iv_seq);
    assert_ne!(batched, blocks);
}

#[test]
fn stealing_swaps_tail_with_previous_block() {
    let enc = Aes128XtsEncryptor::new(&block(KEY_11));
    let pt: Vec<u8> = (0..20u8).collect();
    let mut data = pt.clone();
    let mut iv = sector(5);
    enc.ciphertext_stealing(&mut iv, data.as_mut_slice());
    let mut t = sector(5);
    let mut first = [0u8; 16];
    first.copy_from_slice(&pt[..16]);
    let cc = enc.process_block(&mut t, &first);
    assert_eq!(&data[16..], &cc[..4]);
    let mut last = cc;
    last[..4].copy_from_slice(&pt[16..]);
    let out = enc.process_block(&mut t, &last);
    assert_eq!(&data[..16], &out[..]);
    assert_eq!(iv, t);
}

#[test]
fn single_block_engine_calls() {
    let key = block(ZERO_KEY);
    let enc = Aes128XtsEncryptor::new(&key);
    let dec = Aes128XtsDecryptor::new(&key);
    let mut b = [0u8; 16];
    enc.process_inplace(&mut b);
    assert_eq!(b, block("66e94bd4ef8a2c3b884cfa59ca342b2e"));
    dec.process_inplace(&mut b);
    assert_eq!(b, [0u8; 16]);
    let mut lanes = vec![[0u8; 16]; AES_PAR_BLOCKS];
    enc.process_par_inplace(&mut lanes);
    assert!(lanes.iter().all(|l| *l == block("66e94bd4ef8a2c3b884cfa59ca342b2e")));
    dec.process_par_inplace(&mut lanes);
    assert!(lanes.iter().all(|l| *l == [0u8; 16]));
    assert!(!Aes128XtsEncryptor::is_decrypt());
    assert!(Aes128XtsDecryptor::is_decrypt());
}

#[test]
fn xor_block_is_bytewise() {
    let mut a = [0x0fu8; 16];
    let b = block("ff00ff00ff00ff00ff00ff00ff00ff00");
    xor_block(&mut a, &b);
    assert_eq!(a, block("f00ff00ff00ff00ff00ff00ff00ff00f"));
}

#[test]
fn precompute_iv_encrypts_unit_number_once() {
    let tweak_engine = Aes128XtsEncryptor::new(&block(ZERO_KEY));
    let iv = precompute_iv(&tweak_engine, &sector(0));
    assert_eq!(iv, block("66e94bd4ef8a2c3b884cfa59ca342b2e"));
}
