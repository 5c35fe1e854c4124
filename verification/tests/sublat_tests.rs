use ising::bytes::ByteOrder;
use ising::mask::{MaskSource, Signature};
use ising::rnd::{rng, SmallRng};
use ising::sublat::{LoadError, SubLat, MAX_WORDS, ROWS_PER_WORD};
use ising::word::ALL_UP;
use rand::SeedableRng;

fn fill(s: &mut SubLat, r: &mut SmallRng) {
    for i in 0..s.rows() {
        for j in 0..s.width() {
            s.set_word(i, j, rng(r));
        }
    }
}

fn fill_with(s: &mut SubLat, w: u128) {
    for i in 0..s.rows() {
        for j in 0..s.width() {
            s.set_word(i, j, w);
        }
    }
}

fn words_of(s: &SubLat) -> Vec<u128> {
    let mut out = Vec::new();
    for i in 0..s.rows() {
        for j in 0..s.width() {
            out.push(s.word(i, j));
        }
    }
    out
}

/// A tape on which only the mask for sites with one disagreeing neighbour
/// is set.
fn once_only(s: &SubLat) -> Vec<u128> {
    let mut tape = Vec::new();
    for _ in 0..s.rows() * s.width() {
        tape.extend_from_slice(&[0, 0, ALL_UP]);
    }
    tape
}

#[test]
fn new_sublattice_is_square_and_all_down() {
    assert_eq!(ROWS_PER_WORD, 128);
    assert_eq!(MAX_WORDS, 511);
    for n in 1..4usize {
        let s = SubLat::new(n);
        assert_eq!(s.width(), n);
        assert_eq!(s.rows(), 128 * n);
        assert!(words_of(&s).iter().all(|&w| w == 0));
        assert_eq!(s.mag(), 0);
    }
}

#[test]
fn mag_counts_the_sites_that_are_up() {
    let mut s = SubLat::new(2);
    assert_eq!(s.mag(), 0);
    s.set_word(0, 0, 0b1011);
    assert_eq!(s.mag(), 3);
    s.set_word(255, 1, 1 << 127);
    assert_eq!(s.mag(), 4);
    s.set_word(17, 1, ALL_UP);
    assert_eq!(s.mag(), 132);
}

#[test]
fn mag_of_a_full_sublattice_is_its_number_of_sites() {
    let mut s = SubLat::new(2);
    fill_with(&mut s, ALL_UP);
    assert_eq!(s.mag(), 256 * 256);
}

#[test]
fn mag_agrees_with_a_count_by_hand() {
    let mut r = SmallRng::seed_from_u64(21);
    let mut s = SubLat::new(1);
    fill(&mut s, &mut r);
    let by_hand: u32 = words_of(&s).iter().map(|w| w.count_ones()).sum();
    assert_eq!(s.mag(), by_hand);
}

#[test]
fn store_writes_rows_in_order_and_words_in_order() {
    let mut s = SubLat::new(2);
    s.set_word(0, 0, 1);
    s.set_word(0, 1, 2);
    s.set_word(1, 0, 3);
    s.set_word(255, 1, 4);
    let mut out: Vec<u8> = Vec::new();
    s.store(ByteOrder::Little, &mut out);
    assert_eq!(out.len(), 16 * 2 * 256);
    assert_eq!(s.byte_len(), 16 * 2 * 256);
    assert_eq!(out[0], 1);
    assert_eq!(out[16], 2);
    assert_eq!(out[32], 3);
    assert_eq!(out[16 * 511], 4);
    assert_eq!(out.iter().filter(|&&b| b != 0).count(), 4);
    let mut big: Vec<u8> = Vec::new();
    s.store(ByteOrder::Big, &mut big);
    assert_eq!(big[15], 1);
    assert_eq!(big[31], 2);
    assert_eq!(big[47], 3);
    assert_eq!(big[16 * 512 - 1], 4);
}

#[test]
fn store_appends_to_what_is_there() {
    let s = SubLat::new(1);
    let mut out: Vec<u8> = vec![9, 9, 9];
    s.store(ByteOrder::Little, &mut out);
    assert_eq!(out.len(), 3 + 16 * 128);
    assert_eq!(&out[..3], &[9, 9, 9]);
}

#[test]
fn store_then_load_restores_the_sublattice() {
    let mut r = SmallRng::seed_from_u64(22);
    for order in [ByteOrder::Little, ByteOrder::Big] {
        for n in 1..3usize {
            let mut s = SubLat::new(n);
            fill(&mut s, &mut r);
            let mut bytes: Vec<u8> = Vec::new();
            s.store(order, &mut bytes);
            let mut fresh = SubLat::new(n);
            assert_eq!(fresh.load(order, &bytes), Ok(()));
            assert_eq!(words_of(&fresh), words_of(&s));
        }
    }
}

#[test]
fn load_in_the_other_order_swaps_the_bytes() {
    let mut s = SubLat::new(1);
    s.set_word(3, 0, 0x0102);
    let mut bytes: Vec<u8> = Vec::new();
    s.store(ByteOrder::Little, &mut bytes);
    let mut other = SubLat::new(1);
    assert_eq!(other.load(ByteOrder::Big, &bytes), Ok(()));
    assert_eq!(other.word(3, 0), 0x0102u128.swap_bytes());
}

#[test]
fn load_rejects_a_short_snapshot_and_keeps_the_sublattice() {
    let mut r = SmallRng::seed_from_u64(23);
    let mut s = SubLat::new(1);
    fill(&mut s, &mut r);
    let before = words_of(&s);
    let bytes = vec![0u8; 16 * 128 - 1];
    assert_eq!(
        s.load(ByteOrder::Little, &bytes),
        Err(LoadError::Length { expected: 2048, found: 2047 })
    );
    assert_eq!(words_of(&s), before);
}

#[test]
fn load_rejects_a_long_snapshot_and_keeps_the_sublattice() {
    let mut s = SubLat::new(1);
    s.set_word(0, 0, 77);
    let bytes = vec![0u8; 16 * 128 + 16];
    assert_eq!(
        s.load(ByteOrder::Big, &bytes),
        Err(LoadError::Length { expected: 2048, found: 2064 })
    );
    assert_eq!(s.word(0, 0), 77);
    assert_eq!(
        s.load(ByteOrder::Big, &[]),
        Err(LoadError::Length { expected: 2048, found: 0 })
    );
}

#[test]
fn update_reads_the_site_beside_and_the_one_shifted_in() {
    // One site of the horizontal neighbour is up, at the top bit of word 0
    // of row 5. Without the shift it faces the same bit of this colour; a
    // left shift brings it to the lowest bit of the last word as well.
    let n = 2usize;
    let mut s = SubLat::new(n);
    let mut lr = SubLat::new(n);
    let ud = SubLat::new(n);
    lr.set_word(5, 0, 1 << 127);
    let tape = once_only(&s);
    s.update_with(&tape, &lr, false, &ud, false);
    let mut expected = vec![0u128; 2 * 256];
    expected[5 * 2] = 1 << 127;
    expected[5 * 2 + 1] = 1;
    assert_eq!(words_of(&s), expected);
}

#[test]
fn update_shifts_the_other_way_when_asked() {
    let n = 2usize;
    let mut s = SubLat::new(n);
    let mut lr = SubLat::new(n);
    let ud = SubLat::new(n);
    lr.set_word(5, 1, 1);
    let tape = once_only(&s);
    s.update_with(&tape, &lr, true, &ud, false);
    let mut expected = vec![0u128; 2 * 256];
    expected[5 * 2 + 1] = 1;
    expected[5 * 2] = 1 << 127;
    assert_eq!(words_of(&s), expected);
}

#[test]
fn update_reads_the_row_before_around_the_ring() {
    let n = 1usize;
    let mut s = SubLat::new(n);
    let lr = SubLat::new(n);
    let mut ud = SubLat::new(n);
    ud.set_word(127, 0, 0b100);
    let tape = once_only(&s);
    s.update_with(&tape, &lr, false, &ud, false);
    let mut expected = vec![0u128; 128];
    expected[127] = 0b100;
    expected[0] = 0b100;
    assert_eq!(words_of(&s), expected);
}

#[test]
fn update_reads_the_row_after_around_the_ring() {
    let n = 1usize;
    let mut s = SubLat::new(n);
    let lr = SubLat::new(n);
    let mut ud = SubLat::new(n);
    ud.set_word(0, 0, 0b100);
    let tape = once_only(&s);
    s.update_with(&tape, &lr, false, &ud, true);
    let mut expected = vec![0u128; 128];
    expected[0] = 0b100;
    expected[127] = 0b100;
    assert_eq!(words_of(&s), expected);
    let mut t = SubLat::new(n);
    let mut mid = SubLat::new(n);
    mid.set_word(64, 0, 1);
    t.update_with(&tape, &lr, false, &mid, true);
    assert_eq!(t.word(64, 0), 1);
    assert_eq!(t.word(63, 0), 1);
    assert_eq!(t.word(65, 0), 0);
}

#[test]
fn update_gives_each_row_its_own_stretch_of_the_tape() {
    let n = 1usize;
    let mut s = SubLat::new(n);
    let lr = SubLat::new(n);
    let ud = SubLat::new(n);
    // Every site is aligned; row i flips where both of its masks are set.
    let mut tape = vec![0u128; 3 * 128];
    for i in 0..128usize {
        tape[3 * i] = ALL_UP;
        tape[3 * i + 1] = i as u128;
    }
    s.update_with(&tape, &lr, false, &ud, false);
    let expected: Vec<u128> = (0..128u128).collect();
    assert_eq!(words_of(&s), expected);
}

#[test]
fn update_with_full_masks_turns_the_sublattice_over() {
    let mut r = SmallRng::seed_from_u64(24);
    let mut s = SubLat::new(1);
    let mut lr = SubLat::new(1);
    let mut ud = SubLat::new(1);
    fill(&mut s, &mut r);
    fill(&mut lr, &mut r);
    fill(&mut ud, &mut r);
    let expected: Vec<u128> = words_of(&s).iter().map(|w| !w).collect();
    s.update_with(&vec![ALL_UP; 3 * 128], &lr, true, &ud, true);
    assert_eq!(words_of(&s), expected);
}

#[test]
fn update_from_a_zero_probability_source_keeps_a_settled_sublattice() {
    let mut source = MaskSource::new(Signature::parse("00").unwrap(), SmallRng::seed_from_u64(25));
    let mut s = SubLat::new(1);
    let mut lr = SubLat::new(1);
    let mut ud = SubLat::new(1);
    fill_with(&mut s, ALL_UP);
    fill_with(&mut lr, ALL_UP);
    fill_with(&mut ud, ALL_UP);
    s.update(&mut source, &lr, false, &ud, true);
    assert!(words_of(&s).iter().all(|&w| w == ALL_UP));
}

#[test]
fn update_from_a_source_agrees_with_update_from_its_tape() {
    let mut r = SmallRng::seed_from_u64(26);
    let mut a = SubLat::new(1);
    let mut lr = SubLat::new(1);
    let mut ud = SubLat::new(1);
    fill(&mut a, &mut r);
    fill(&mut lr, &mut r);
    fill(&mut ud, &mut r);
    let mut b = SubLat::new(1);
    for i in 0..128 {
        b.set_word(i, 0, a.word(i, 0));
    }
    let mut drawing = MaskSource::new(Signature::parse("011").unwrap(), SmallRng::seed_from_u64(27));
    let mut taping = MaskSource::new(Signature::parse("011").unwrap(), SmallRng::seed_from_u64(27));
    a.update(&mut drawing, &lr, true, &ud, false);
    let tape = taping.tape(3 * 128);
    b.update_with(&tape, &lr, true, &ud, false);
    assert_eq!(words_of(&a), words_of(&b));
}
