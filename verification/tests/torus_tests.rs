use ising::lattice::{Colour, Lattice};
use ising::rnd::{rng, SmallRng};
use ising::torus::colour_of;
use rand::SeedableRng;

/// A lattice kept site by site: `spin[y][x]` on a torus of side `256 n`.
struct Naive {
    side: usize,
    spin: Vec<Vec<bool>>,
}

const ORDER: [Colour; 4] = [Colour::S00, Colour::S11, Colour::S01, Colour::S10];

impl Naive {
    fn of(l: &Lattice) -> Naive {
        let side = 256 * l.width();
        let spin = (0..side).map(|y| (0..side).map(|x| l.spin(y, x)).collect()).collect();
        Naive { side, spin }
    }

    fn differing(&self, y: usize, x: usize) -> usize {
        let s = self.side;
        let me = self.spin[y][x];
        [
            self.spin[(y + 1) % s][x],
            self.spin[(y + s - 1) % s][x],
            self.spin[y][(x + 1) % s],
            self.spin[y][(x + s - 1) % s],
        ]
        .iter()
        .filter(|&&other| other != me)
        .count()
    }

    /// One pass, site by site, with the masks of `tape` laid out as the
    /// packed pass consumes them.
    fn pass(&mut self, tape: &[u128]) {
        let n = self.side / 256;
        let per_update = 3 * n * 128 * n;
        for (u, c) in ORDER.iter().enumerate() {
            let mut flips = Vec::new();
            for y in 0..self.side {
                for x in 0..self.side {
                    if colour_of(y, x) != *c {
                        continue;
                    }
                    let (i, site) = (y / 2, x / 2);
                    let (j, k) = (n - 1 - site / 128, site % 128);
                    let at = u * per_update + 3 * (n * i + j);
                    let bit = |m: u128| (m >> k) & 1 == 1;
                    let flip = match self.differing(y, x) {
                        0 => bit(tape[at]) && bit(tape[at + 1]),
                        1 => bit(tape[at + 2]),
                        _ => true,
                    };
                    if flip {
                        flips.push((y, x));
                    }
                }
            }
            for (y, x) in flips {
                self.spin[y][x] = !self.spin[y][x];
            }
        }
    }
}

fn random_lattice(r: &mut SmallRng, n: usize) -> Lattice {
    let mut l = Lattice::new(n);
    for c in ORDER {
        for i in 0..128 * n {
            for j in 0..n {
                l.set_word(c, i, j, rng(r));
            }
        }
    }
    l
}

#[test]
fn colour_goes_by_the_parities_of_row_and_column() {
    assert_eq!(colour_of(0, 0), Colour::S00);
    assert_eq!(colour_of(0, 1), Colour::S01);
    assert_eq!(colour_of(1, 0), Colour::S10);
    assert_eq!(colour_of(1, 1), Colour::S11);
    assert_eq!(colour_of(254, 511), Colour::S01);
    assert_eq!(colour_of(255, 510), Colour::S10);
}

#[test]
fn spin_reads_the_bit_that_holds_the_site() {
    let mut l = Lattice::new(2);
    // Row 0 of s00 holds row 0 of the torus; its lowest bit is column 0.
    l.set_word(Colour::S00, 0, 1, 1);
    assert!(l.spin(0, 0));
    // Word 0 is the upper half of the row.
    l.set_word(Colour::S00, 0, 0, 1 << 127);
    assert!(l.spin(0, 510));
    // s11 holds odd rows and odd columns.
    l.set_word(Colour::S11, 3, 1, 1 << 5);
    assert!(l.spin(7, 11));
    l.set_word(Colour::S01, 255, 0, 1);
    assert!(l.spin(510, 257));
    l.set_word(Colour::S10, 255, 1, 1 << 127);
    assert!(l.spin(511, 254));
    assert_eq!(l.mag(), 5);
    let up = (0..512).flat_map(|y| (0..512).map(move |x| (y, x))).filter(|&(y, x)| l.spin(y, x)).count();
    assert_eq!(up, 5);
}

#[test]
fn set_spin_turns_one_site_and_no_other() {
    let mut r = SmallRng::seed_from_u64(50);
    let mut l = random_lattice(&mut r, 1);
    let before = Naive::of(&l);
    for (y, x, to) in [(0usize, 0usize, true), (255, 255, false), (17, 200, true), (128, 1, false)] {
        l.set_spin(y, x, to);
        assert_eq!(l.spin(y, x), to);
    }
    let after = Naive::of(&l);
    let mut changed = 0;
    for y in 0..256 {
        for x in 0..256 {
            let touched = [(0, 0), (255, 255), (17, 200), (128, 1)].contains(&(y, x));
            if !touched {
                assert_eq!(after.spin[y][x], before.spin[y][x]);
            } else if after.spin[y][x] != before.spin[y][x] {
                changed += 1;
            }
        }
    }
    assert!(changed <= 4);
}

#[test]
fn set_spin_reaches_every_site_once() {
    let mut l = Lattice::new(1);
    for y in 0..256 {
        for x in 0..256 {
            assert!(!l.spin(y, x));
            l.set_spin(y, x, true);
        }
    }
    assert_eq!(l.mag(), 65536);
}

#[test]
fn a_packed_pass_is_a_pass_over_the_torus_site_by_site() {
    let mut r = SmallRng::seed_from_u64(51);
    for n in 1..3usize {
        let mut l = random_lattice(&mut r, n);
        let mut naive = Naive::of(&l);
        for _ in 0..2 {
            let tape: Vec<u128> = (0..4 * 3 * n * 128 * n).map(|_| rng(&mut r)).collect();
            l.pass_with(&tape);
            naive.pass(&tape);
            let packed = Naive::of(&l);
            assert!(packed.spin == naive.spin);
        }
    }
}

#[test]
fn a_packed_pass_wraps_around_both_edges() {
    // A stripe along each edge of the torus: the sites in the corners see
    // neighbours across both seams.
    let n = 1usize;
    let mut l = Lattice::new(n);
    for v in 0..256 {
        for edge in [0usize, 255] {
            l.set_spin(v, edge, true);
            l.set_spin(edge, v, true);
        }
    }
    let mut naive = Naive::of(&l);
    let mut r = SmallRng::seed_from_u64(52);
    let tape: Vec<u128> = (0..4 * 3 * 128).map(|_| rng(&mut r)).collect();
    l.pass_with(&tape);
    naive.pass(&tape);
    assert!(Naive::of(&l).spin == naive.spin);
}

#[test]
fn a_droplet_grows_across_the_seams() {
    // Sites with one antiparallel neighbour flip as surely as those with
    // more; aligned sites never do. The seed sits at the left edge, one row
    // from the top, in the colour that is updated last. Its neighbours
    // above and below (s00) and to both sides (s11) turn up first, then the
    // four sites diagonal to it (s01), each of which has two neighbours up
    // by then; at last the sites of its own colour two steps away. The seed
    // itself is aligned with its neighbours by the time its turn comes.
    let mut l = Lattice::new(1);
    l.set_spin(1, 0, true);
    let mut tape = Vec::new();
    for _ in 0..4 * 128 {
        tape.extend_from_slice(&[0, 0, u128::MAX]);
    }
    l.pass_with(&tape);
    let expected = [
        (0, 0),
        (2, 0),
        (1, 1),
        (1, 255),
        (0, 1),
        (0, 255),
        (2, 1),
        (2, 255),
        (1, 0),
        (1, 2),
        (1, 254),
        (3, 0),
        (255, 0),
    ];
    for (y, x) in expected {
        assert!(l.spin(y, x), "site ({}, {})", y, x);
    }
    assert_eq!(l.mag(), expected.len() as u64);
}

#[test]
fn a_packed_sweep_is_sixteen_passes_over_the_torus() {
    let mut r = SmallRng::seed_from_u64(53);
    let n = 1usize;
    let mut l = random_lattice(&mut r, n);
    let mut naive = Naive::of(&l);
    let per_pass = 4 * 3 * 128;
    let tape: Vec<u128> = (0..16 * per_pass).map(|_| rng(&mut r)).collect();
    l.sweep_with(&tape);
    for p in 0..16 {
        naive.pass(&tape[p * per_pass..(p + 1) * per_pass]);
    }
    assert!(Naive::of(&l).spin == naive.spin);
}

#[test]
fn diagonal_stripes_march_at_zero_probability() {
    // Stripes of width two along the diagonal: every site has exactly two
    // antiparallel neighbours and flips whenever its colour is updated,
    // whatever the masks. One pass moves the stripes on by two sites, so
    // that two passes, and with them a sweep, bring the lattice back.
    let mut l = Lattice::new(1);
    for y in 0..256 {
        for x in 0..256 {
            l.set_spin(y, x, (x + y) % 4 < 2);
        }
    }
    l.pass_with(&vec![0u128; 4 * 3 * 128]);
    for y in 0..256 {
        for x in 0..256 {
            assert_eq!(l.spin(y, x), (x + y) % 4 >= 2);
        }
    }
    l.pass_with(&vec![0u128; 4 * 3 * 128]);
    for y in 0..256 {
        for x in 0..256 {
            assert_eq!(l.spin(y, x), (x + y) % 4 < 2);
        }
    }
    l.sweep_with(&vec![0u128; 16 * 4 * 3 * 128]);
    for y in 0..256 {
        for x in 0..256 {
            assert_eq!(l.spin(y, x), (x + y) % 4 < 2);
        }
    }
}
