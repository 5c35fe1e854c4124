use ising::bytes::{get_word, put_word, ByteOrder, WORD_BYTES};
use ising::rnd::{rng, SmallRng};
use rand::SeedableRng;

const W: u128 = 0x0102_0304_0506_0708_090a_0b0c_0d0e_0f10;

#[test]
fn a_word_takes_sixteen_bytes() {
    assert_eq!(WORD_BYTES, 16);
}

#[test]
fn put_word_little_endian() {
    let mut out: Vec<u8> = Vec::new();
    put_word(ByteOrder::Little, W, &mut out);
    assert_eq!(out, vec![0x10, 0x0f, 0x0e, 0x0d, 0x0c, 0x0b, 0x0a, 0x09, 8, 7, 6, 5, 4, 3, 2, 1]);
    assert_eq!(out, W.to_le_bytes().to_vec());
}

#[test]
fn put_word_big_endian() {
    let mut out: Vec<u8> = Vec::new();
    put_word(ByteOrder::Big, W, &mut out);
    assert_eq!(out, vec![1, 2, 3, 4, 5, 6, 7, 8, 9, 0x0a, 0x0b, 0x0c, 0x0d, 0x0e, 0x0f, 0x10]);
    assert_eq!(out, W.to_be_bytes().to_vec());
}

#[test]
fn put_word_appends() {
    let mut out: Vec<u8> = vec![0xaa, 0xbb];
    put_word(ByteOrder::Little, 1, &mut out);
    put_word(ByteOrder::Big, 1, &mut out);
    assert_eq!(out.len(), 34);
    assert_eq!(&out[..3], &[0xaa, 0xbb, 1]);
    assert_eq!(out[33], 1);
    assert!(out[3..33].iter().all(|&b| b == 0));
}

#[test]
fn get_word_reads_at_an_offset() {
    let mut bytes: Vec<u8> = vec![0xee; 3];
    bytes.extend_from_slice(&W.to_le_bytes());
    bytes.extend_from_slice(&W.to_be_bytes());
    assert_eq!(get_word(ByteOrder::Little, &bytes, 3), W);
    assert_eq!(get_word(ByteOrder::Big, &bytes, 19), W);
    assert_eq!(get_word(ByteOrder::Big, &bytes, 3), W.swap_bytes());
}

#[test]
fn get_word_reads_the_extremes() {
    assert_eq!(get_word(ByteOrder::Little, &[0u8; 16], 0), 0);
    assert_eq!(get_word(ByteOrder::Big, &[0xffu8; 16], 0), u128::MAX);
    let mut top = [0u8; 16];
    top[15] = 0x80;
    assert_eq!(get_word(ByteOrder::Little, &top, 0), 1 << 127);
    assert_eq!(get_word(ByteOrder::Big, &top, 0), 0x80);
}

#[test]
fn words_survive_the_round_trip() {
    let mut r = SmallRng::seed_from_u64(8);
    for order in [ByteOrder::Little, ByteOrder::Big] {
        for _ in 0..200 {
            let w = rng(&mut r);
            let mut out: Vec<u8> = Vec::new();
            put_word(order, w, &mut out);
            assert_eq!(out.len(), 16);
            assert_eq!(get_word(order, &out, 0), w);
        }
    }
}

#[test]
fn bytes_survive_the_round_trip() {
    let mut r = SmallRng::seed_from_u64(9);
    for order in [ByteOrder::Little, ByteOrder::Big] {
        for _ in 0..200 {
            let bytes = rng(&mut r).to_le_bytes();
            let mut out: Vec<u8> = Vec::new();
            put_word(order, get_word(order, &bytes, 0), &mut out);
            assert_eq!(out, bytes.to_vec());
        }
    }
}

#[test]
fn the_native_order_matches_the_machine() {
    let native = if u16::from_ne_bytes([1, 0]) == 1 { ByteOrder::Little } else { ByteOrder::Big };
    let mut out: Vec<u8> = Vec::new();
    put_word(native, W, &mut out);
    assert_eq!(out, W.to_ne_bytes().to_vec());
    assert_eq!(get_word(native, &W.to_ne_bytes(), 0), W);
}
