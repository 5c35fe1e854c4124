use ising::line::{Line, MASKS_PER_WORD};
use ising::mask::{MaskSource, Signature};
use ising::rnd::{rng, SmallRng};
use ising::word::ALL_UP;
use rand::SeedableRng;

fn words_of(line: &Line) -> Vec<u128> {
    (0..line.len()).map(|i| line.word(i)).collect()
}

fn random_line(r: &mut SmallRng, n: usize) -> Line {
    Line::from_words((0..n).map(|_| rng(r)).collect())
}

#[test]
fn new_line_is_all_down() {
    let line = Line::new(3);
    assert_eq!(line.len(), 3);
    assert_eq!(words_of(&line), vec![0, 0, 0]);
    assert_eq!(Line::new(0).len(), 0);
}

#[test]
fn from_words_keeps_the_words() {
    let line = Line::from_words(vec![1, 2, 3]);
    assert_eq!(words_of(&line), vec![1, 2, 3]);
}

#[test]
fn set_word_replaces_one_word() {
    let mut line = Line::new(3);
    line.set_word(1, 42);
    assert_eq!(words_of(&line), vec![0, 42, 0]);
}

#[test]
fn clone_copies_the_row() {
    let line = Line::from_words(vec![5, 6]);
    let copy = line.clone();
    assert_eq!(words_of(&copy), vec![5, 6]);
}

#[test]
fn three_masks_per_word() {
    assert_eq!(MASKS_PER_WORD, 3);
}

#[test]
fn shift_right_moves_bits_down_within_a_word() {
    let line = Line::from_words(vec![0b1100]);
    assert_eq!(words_of(&line.shift(true)), vec![0b0110]);
}

#[test]
fn shift_left_moves_bits_up_within_a_word() {
    let line = Line::from_words(vec![0b0110]);
    assert_eq!(words_of(&line.shift(false)), vec![0b1100]);
}

#[test]
fn shift_right_carries_into_the_next_word() {
    let line = Line::from_words(vec![1, 0]);
    assert_eq!(words_of(&line.shift(true)), vec![0, 1 << 127]);
}

#[test]
fn shift_right_wraps_from_the_last_word_to_the_first() {
    let line = Line::from_words(vec![0, 1]);
    assert_eq!(words_of(&line.shift(true)), vec![1 << 127, 0]);
}

#[test]
fn shift_left_carries_into_the_word_before() {
    let line = Line::from_words(vec![0, 1 << 127]);
    assert_eq!(words_of(&line.shift(false)), vec![1, 0]);
}

#[test]
fn shift_left_wraps_from_the_first_word_to_the_last() {
    let line = Line::from_words(vec![1 << 127, 0]);
    assert_eq!(words_of(&line.shift(false)), vec![0, 1]);
}

#[test]
fn shift_of_a_single_word_is_a_rotation() {
    let w: u128 = 0x8000_0000_0000_0000_0000_0000_0000_0001;
    let line = Line::from_words(vec![w]);
    assert_eq!(words_of(&line.shift(true)), vec![w.rotate_right(1)]);
    assert_eq!(words_of(&line.shift(false)), vec![w.rotate_left(1)]);
}

#[test]
fn shift_of_three_words_rotates_the_whole_ring() {
    let line = Line::from_words(vec![1, 3, 1 << 127]);
    assert_eq!(words_of(&line.shift(true)), vec![0, (1 << 127) | 1, (1 << 127) | (1 << 126)]);
    assert_eq!(words_of(&line.shift(false)), vec![2, 7, 0]);
}

#[test]
fn shift_of_an_empty_row_is_empty() {
    assert_eq!(Line::new(0).shift(true).len(), 0);
    assert_eq!(Line::new(0).shift(false).len(), 0);
}

#[test]
fn shift_there_and_back_restores_the_row() {
    let mut r = SmallRng::seed_from_u64(2024);
    for n in 1..6usize {
        for _ in 0..20 {
            let line = random_line(&mut r, n);
            let before = words_of(&line);
            assert_eq!(words_of(&line.shift(true).shift(false)), before);
            assert_eq!(words_of(&line.shift(false).shift(true)), before);
        }
    }
}

#[test]
fn shift_there_and_back_restores_edge_patterns() {
    for w in [0u128, 1, 1 << 127, ALL_UP, ALL_UP >> 1, ALL_UP << 1, (1 << 127) | 1] {
        for n in 1..4usize {
            let line = Line::from_words(vec![w; n]);
            assert_eq!(words_of(&line.shift(true).shift(false)), vec![w; n]);
            assert_eq!(words_of(&line.shift(false).shift(true)), vec![w; n]);
        }
    }
}

#[test]
fn shift_moves_every_site_by_one_place() {
    let mut r = SmallRng::seed_from_u64(99);
    let n = 3usize;
    let line = random_line(&mut r, n);
    let right = line.shift(true);
    let site = |l: &Line, g: usize| (l.word(g / 128) >> (127 - g % 128)) & 1;
    for g in 0..128 * n {
        assert_eq!(site(&right, (g + 1) % (128 * n)), site(&line, g));
    }
}

#[test]
fn update_with_uses_three_masks_for_each_word() {
    // Word 0: every site aligned, flips where both of its first two masks
    // are set. Word 1: every site has one disagreeing neighbour, flips
    // where its third mask is set.
    let mut line = Line::from_words(vec![0, 0]);
    let same = Line::from_words(vec![0, 0]);
    let one_off = Line::from_words(vec![0, ALL_UP]);
    let tape: Vec<u128> = vec![0b0110, 0b0011, ALL_UP, ALL_UP, ALL_UP, 0b1001];
    line.update_with(&tape, &one_off, &same, &same, &same);
    assert_eq!(words_of(&line), vec![0b0010, 0b1001]);
}

#[test]
fn update_with_empty_masks_keeps_a_row_without_conflicts() {
    let mut r = SmallRng::seed_from_u64(5);
    let before = random_line(&mut r, 4);
    let mut line = before.clone();
    let other = random_line(&mut r, 4);
    let tape = vec![0u128; 12];
    // At most one neighbour disagrees anywhere: three are copies of the row.
    line.update_with(&tape, &other, &before, &before, &before);
    assert_eq!(words_of(&line), words_of(&before));
}

#[test]
fn update_with_empty_masks_flips_sites_with_two_disagreements() {
    let mut line = Line::from_words(vec![0b0101]);
    let a = Line::from_words(vec![0b0110]);
    let b = Line::from_words(vec![0b0100]);
    let same = Line::from_words(vec![0b0101]);
    // Bit 0 disagrees with a and b, bit 1 with a only, bit 2 with nobody.
    line.update_with(&[0, 0, 0], &a, &b, &same, &same);
    assert_eq!(words_of(&line), vec![0b0100]);
}

#[test]
fn update_with_full_masks_turns_the_row_over() {
    let mut r = SmallRng::seed_from_u64(6);
    let before = random_line(&mut r, 3);
    let mut line = before.clone();
    let (a, b, c, d) =
        (random_line(&mut r, 3), random_line(&mut r, 3), random_line(&mut r, 3), random_line(&mut r, 3));
    line.update_with(&[ALL_UP; 9], &a, &b, &c, &d);
    let expected: Vec<u128> = words_of(&before).iter().map(|w| !w).collect();
    assert_eq!(words_of(&line), expected);
}

#[test]
fn update_with_a_zero_probability_source_flips_only_conflicts() {
    let sig = Signature::parse("0000").unwrap();
    let mut source = MaskSource::new(sig, SmallRng::seed_from_u64(11));
    let mut line = Line::from_words(vec![0b0101, 7]);
    let a = Line::from_words(vec![0b0110, 7]);
    let b = Line::from_words(vec![0b0100, 7]);
    let same = line.clone();
    line.update(&mut source, &a, &b, &same, &same);
    assert_eq!(words_of(&line), vec![0b0100, 7]);
}

#[test]
fn update_always_flips_sites_with_two_disagreements() {
    let sig = Signature::parse("0101").unwrap();
    let mut source = MaskSource::new(sig, SmallRng::seed_from_u64(12));
    for _ in 0..50 {
        let mut line = Line::from_words(vec![0]);
        let up = Line::from_words(vec![ALL_UP]);
        let down = Line::from_words(vec![0]);
        line.update(&mut source, &up, &up, &down, &down);
        assert_eq!(words_of(&line), vec![ALL_UP]);
    }
}
