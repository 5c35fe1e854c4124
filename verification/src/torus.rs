//! The lattice as a torus of sites.
//!
//! A row of `n` words is one binary number of `128 n` bits, word 0 on top;
//! site `c` of the row is the bit of weight `2^c`. Rotating the row left
//! doubles the number around the ring, so that every site moves one place
//! up. Colour `S<a><b>` holds in its row `i`, at site `c`, the site of the
//! torus in row `2 i + a` and column `2 c + b`.
//!
//! The laws of this module say that an update, which works on whole words,
//! does to each site what the heat-bath rule asks for, with the four sites
//! next to it on the torus as its neighbours.

use crate::lattice::{quiet, recoloured, update_masks, whole, Colour, Grid, Lattice};
use crate::line::{
    after, before, calm, calm_word, lemma_shifted_site, lemma_updated_site, shifted, site,
};
use crate::sublat::{beside, settled, square, stepped};
use crate::word::{several_differ, site_flips, tally, up, WORD_BITS};
use vstd::prelude::*;

verus! {

/// Side of the torus that a lattice of width `n` makes.
pub open spec fn side(n: nat) -> int {
    (256 * n) as int
}

/// Sites in a row of `n` words, and rows in a sub-lattice of that width.
pub open spec fn ring(n: nat) -> int {
    (128 * n) as int
}

/// The colour of the site in row `y` and column `x` of the torus.
pub open spec fn colour_at(y: int, x: int) -> Colour {
    if y % 2 == 0 {
        if x % 2 == 0 {
            Colour::S00
        } else {
            Colour::S01
        }
    } else {
        if x % 2 == 0 {
            Colour::S10
        } else {
            Colour::S11
        }
    }
}

/// Whether the site in row `y` and column `x` of the torus is up.
pub open spec fn spin(g: Grid, y: int, x: int) -> bool {
    site(g.of(colour_at(y, x))[y / 2], x / 2)
}

/// Bit `m` of the three mask bits that an update of a sub-lattice of width
/// `n` holds ready for site `c` of row `i`: the bit at the site's place in
/// mask `m` of its word.
pub open spec fn mask_site(tape: Seq<u128>, n: nat, i: int, c: int, m: int) -> bool {
    up(tape[3 * (n * i + (n - 1 - c / 128)) + m], (c % 128) as u128)
}

proof fn lemma_stretch_index(n: int, i: int, rows: int, j: int, m: int)
    by (nonlinear_arith)
    requires
        0 <= i < rows,
        0 <= j < n,
        0 <= m < 3,
    ensures
        3 * n * i == 3 * (n * i),
        3 * n * (i + 1) == 3 * (n * i) + 3 * n,
        0 <= 3 * (n * i),
        3 * (n * i) + 3 * n <= 3 * n * rows,
        3 * (n * i + j) + m == 3 * (n * i) + (3 * j + m),
{
}

/// An update of a sub-lattice toggles site `c` of row `i` exactly when the
/// heat-bath rule says so of its disagreements with four sites: site `c` of
/// row `i` of `lr`, the site beside that one (after it if `is_left`, else
/// before it), site `c` of row `i` of `ud`, and site `c` of the row of `ud`
/// beside row `i` (after it if `is_up`, else before it).
pub proof fn lemma_stepped_site(
    s: Seq<Seq<u128>>,
    lr: Seq<Seq<u128>>,
    is_left: bool,
    ud: Seq<Seq<u128>>,
    is_up: bool,
    tape: Seq<u128>,
    n: nat,
    i: int,
    c: int,
)
    requires
        square(s, n),
        square(lr, n),
        square(ud, n),
        tape.len() == update_masks(n),
        0 <= i < 128 * n,
        0 <= c < 128 * n,
    ensures
        ({
            let me = site(s[i], c);
            let beside_c = if is_left {
                after(c, ring(n))
            } else {
                before(c, ring(n))
            };
            (site(stepped(s, lr, is_left, ud, is_up, tape)[i], c) != me) == site_flips(
                me != site(lr[i], c),
                me != site(lr[i], beside_c),
                me != site(ud[i], c),
                me != site(ud[beside(i, ring(n), is_up)], c),
                mask_site(tape, n, i, c, 0) && mask_site(tape, n, i, c, 1),
                mask_site(tape, n, i, c, 2),
            )
        }),
{
    let rows = ring(n);
    let j = n - 1 - c / 128;
    let piece = tape.subrange(3 * n * i, 3 * n * (i + 1));
    let other = beside(i, rows, is_up);
    lemma_stretch_index(n as int, i, rows, j, 0);
    lemma_stretch_index(n as int, i, rows, j, 1);
    lemma_stretch_index(n as int, i, rows, j, 2);
    assert(piece[3 * j] == tape[3 * (n * i + j) + 0]);
    assert(piece[3 * j + 1] == tape[3 * (n * i + j) + 1]);
    assert(piece[3 * j + 2] == tape[3 * (n * i + j) + 2]);
    lemma_shifted_site(lr[i], is_left, c);
    lemma_updated_site(s[i], lr[i], ud[i], shifted(lr[i], is_left), ud[other], piece, c);
}

/// The four mask bits and neighbours of a site, put through the rule: what
/// an update does to the site in row `y` and column `x` of the torus, given
/// as whether the site changes.
pub open spec fn site_changes(g: Grid, n: nat, tape: Seq<u128>, y: int, x: int) -> bool {
    let me = spin(g, y, x);
    site_flips(
        me != spin(g, y, before(x, side(n))),
        me != spin(g, y, after(x, side(n))),
        me != spin(g, before(y, side(n)), x),
        me != spin(g, after(y, side(n)), x),
        mask_site(tape, n, y / 2, x / 2, 0) && mask_site(tape, n, y / 2, x / 2, 1),
        mask_site(tape, n, y / 2, x / 2, 2),
    )
}

/// An update of one colour is the heat-bath rule on the torus. Each site of
/// that colour changes exactly when the rule says so of its disagreements
/// with the sites to its left and right and above and below it, around the
/// edges of the torus where it lies on one; the sites of the other colours
/// stay as they are.
pub proof fn lemma_recoloured_site(g: Grid, n: nat, c: Colour, tape: Seq<u128>, y: int, x: int)
    requires
        whole(g, n),
        tape.len() == update_masks(n),
        0 <= y < side(n),
        0 <= x < side(n),
    ensures
        spin(recoloured(g, c, tape), y, x) != spin(g, y, x) <==> colour_at(y, x) == c
            && site_changes(g, n, tape, y, x),
{
    if colour_at(y, x) == c {
        let i = y / 2;
        let k = x / 2;
        match c {
            Colour::S00 => {
                lemma_stepped_site(g.s00, g.s01, false, g.s10, false, tape, n, i, k);
            },
            Colour::S11 => {
                lemma_stepped_site(g.s11, g.s10, true, g.s01, true, tape, n, i, k);
            },
            Colour::S01 => {
                lemma_stepped_site(g.s01, g.s00, true, g.s11, false, tape, n, i, k);
            },
            Colour::S10 => {
                lemma_stepped_site(g.s10, g.s11, false, g.s00, true, tape, n, i, k);
            },
        }
    }
}

proof fn lemma_set_site(w: u128, k: u128, j: u128)
    by (bit_vector)
    requires
        k < 128,
        j < 128,
    ensures
        up(w | (1u128 << k), j) == (j == k || up(w, j)),
        up(w & !(1u128 << k), j) == (j != k && up(w, j)),
{
}

impl Lattice {
    /// Whether the site in row `y` and column `x` of the torus is up.
    pub fn spin(&self, y: usize, x: usize) -> (b: bool)
        requires
            self.wf(),
            y < side(self.words()),
            x < side(self.words()),
        ensures
            b == spin(self@, y as int, x as int),
    {
        let n: usize = self.width();
        let c: usize = x / 2;
        let w: u128 = self.word(colour_of(y, x), y / 2, n - 1 - c / WORD_BITS);
        let k: u128 = (c % WORD_BITS) as u128;
        (w >> k) & 1 == 1
    }

    /// Turns the site in row `y` and column `x` of the torus up or down, and
    /// leaves every other site as it is.
    pub fn set_spin(&mut self, y: usize, x: usize, to: bool)
        requires
            old(self).wf(),
            y < side(old(self).words()),
            x < side(old(self).words()),
        ensures
            final(self).wf(),
            final(self).words() == old(self).words(),
            forall|v: int, u: int|
                0 <= v < side(old(self).words()) && 0 <= u < side(old(self).words()) ==> #[trigger] spin(
                    final(self)@,
                    v,
                    u,
                ) == if v == y && u == x {
                    to
                } else {
                    spin(old(self)@, v, u)
                },
    {
        let n: usize = self.width();
        let colour: Colour = colour_of(y, x);
        let i: usize = y / 2;
        let c: usize = x / 2;
        let j: usize = n - 1 - c / WORD_BITS;
        let k: u128 = (c % WORD_BITS) as u128;
        let w: u128 = self.word(colour, i, j);
        let next: u128 = if to {
            w | (1u128 << k)
        } else {
            w & !(1u128 << k)
        };
        self.set_word(colour, i, j, next);
        proof {
            assert forall|v: int, u: int|
                0 <= v < side(old(self).words()) && 0 <= u < side(old(
                    self,
                ).words()) implies #[trigger] spin(self@, v, u) == if v == y && u == x {
                to
            } else {
                spin(old(self)@, v, u)
            } by {
                let d = u / 2;
                if colour_at(v, u) == colour && v / 2 == i && n - 1 - d / 128 == j {
                    lemma_set_site(w, k, (d % 128) as u128);
                }
            }
        }
    }
}

/// The colour of the site in row `y` and column `x` of the torus.
pub fn colour_of(y: usize, x: usize) -> (c: Colour)
    ensures
        c == colour_at(y as int, x as int),
{
    if y % 2 == 0 {
        if x % 2 == 0 {
            Colour::S00
        } else {
            Colour::S01
        }
    } else {
        if x % 2 == 0 {
            Colour::S10
        } else {
            Colour::S11
        }
    }
}

/// Number of the four neighbours of site `c` of row `i` that are
/// antiparallel to it, as an update of `s` against `lr` and `ud` finds them.
pub open spec fn differing_in(
    s: Seq<Seq<u128>>,
    lr: Seq<Seq<u128>>,
    is_left: bool,
    ud: Seq<Seq<u128>>,
    is_up: bool,
    n: nat,
    i: int,
    c: int,
) -> int {
    let me = site(s[i], c);
    let beside_c = if is_left {
        after(c, ring(n))
    } else {
        before(c, ring(n))
    };
    tally(me != site(lr[i], c)) + tally(me != site(lr[i], beside_c)) + tally(
        me != site(ud[i], c),
    ) + tally(me != site(ud[beside(i, ring(n), is_up)], c))
}

/// Number of the four neighbours of the site in row `y` and column `x` of
/// the torus that are antiparallel to it.
pub open spec fn differing(g: Grid, n: nat, y: int, x: int) -> int {
    let me = spin(g, y, x);
    tally(me != spin(g, y, before(x, side(n)))) + tally(me != spin(g, y, after(x, side(n))))
        + tally(me != spin(g, before(y, side(n)), x)) + tally(me != spin(g, after(y, side(n)), x))
}

proof fn lemma_several_site(w: u128, n0: u128, n1: u128, n2: u128, n3: u128, k: u128)
    by (bit_vector)
    requires
        k < 128,
    ensures
        up(several_differ(w ^ n0, w ^ n1, w ^ n2, w ^ n3), k) == (tally(up(w, k) != up(n0, k))
            + tally(up(w, k) != up(n1, k)) + tally(up(w, k) != up(n2, k)) + tally(
            up(w, k) != up(n3, k),
        ) >= 2),
{
}

proof fn lemma_rest_is_set(m: u128, k: u128)
    by (bit_vector)
    requires
        k < 128,
        (m >> k) != 0,
        !up(m, k),
    ensures
        k < 127,
        (m >> ((k + 1) as u128)) != 0,
{
}

proof fn lemma_whole_is_rest(m: u128)
    by (bit_vector)
    ensures
        (m >> 0u128) == m,
{
}

/// A word that is not empty has a site that is up, at or above bit `k` if
/// the word has anything there.
proof fn lemma_some_site_up(m: u128, k: u128) -> (at: u128)
    requires
        k < 128,
        (m >> k) != 0,
    ensures
        at < 128,
        up(m, at),
    decreases 128 - k,
{
    if up(m, k) {
        k
    } else {
        lemma_rest_is_set(m, k);
        lemma_some_site_up(m, (k + 1) as u128)
    }
}

/// A sub-lattice is settled exactly when none of its sites has two or more
/// antiparallel neighbours.
pub proof fn lemma_settled_sites(
    s: Seq<Seq<u128>>,
    lr: Seq<Seq<u128>>,
    is_left: bool,
    ud: Seq<Seq<u128>>,
    is_up: bool,
    n: nat,
)
    requires
        square(s, n),
        square(lr, n),
        square(ud, n),
    ensures
        settled(s, lr, is_left, ud, is_up) <==> forall|i: int, c: int|
            0 <= i < ring(n) && 0 <= c < ring(n) ==> #[trigger] differing_in(
                s,
                lr,
                is_left,
                ud,
                is_up,
                n,
                i,
                c,
            ) <= 1,
{
    let rows = ring(n);
    if settled(s, lr, is_left, ud, is_up) {
        assert forall|i: int, c: int| 0 <= i < rows && 0 <= c < rows implies #[trigger] differing_in(
            s,
            lr,
            is_left,
            ud,
            is_up,
            n,
            i,
            c,
        ) <= 1 by {
            let j = n - 1 - c / 128;
            let k = (c % 128) as u128;
            let side_row = shifted(lr[i], is_left);
            let other = ud[beside(i, rows, is_up)];
            assert(calm(s[i], lr[i], ud[i], side_row, other));
            assert(calm_word(s[i][j], lr[i][j], ud[i][j], side_row[j], other[j]));
            lemma_several_site(s[i][j], lr[i][j], ud[i][j], side_row[j], other[j], k);
            lemma_shifted_site(lr[i], is_left, c);
            assert(!up(0u128, k)) by (bit_vector);
        }
    }
    if forall|i: int, c: int|
        0 <= i < rows && 0 <= c < rows ==> #[trigger] differing_in(
            s,
            lr,
            is_left,
            ud,
            is_up,
            n,
            i,
            c,
        ) <= 1 {
        assert forall|i: int| 0 <= i < s.len() implies #[trigger] calm(
            s[i],
            lr[i],
            ud[i],
            shifted(lr[i], is_left),
            ud[beside(i, s.len() as int, is_up)],
        ) by {
            let side_row = shifted(lr[i], is_left);
            let other = ud[beside(i, rows, is_up)];
            assert forall|j: int| 0 <= j < n implies #[trigger] calm_word(
                s[i][j],
                lr[i][j],
                ud[i][j],
                side_row[j],
                other[j],
            ) by {
                let m = several_differ(
                    s[i][j] ^ lr[i][j],
                    s[i][j] ^ ud[i][j],
                    s[i][j] ^ side_row[j],
                    s[i][j] ^ other[j],
                );
                if m != 0 {
                    lemma_whole_is_rest(m);
                    let k = lemma_some_site_up(m, 0);
                    let c = 128 * (n - 1 - j) + k;
                    assert(c / 128 == n - 1 - j && c % 128 == k);
                    lemma_several_site(s[i][j], lr[i][j], ud[i][j], side_row[j], other[j], k);
                    lemma_shifted_site(lr[i], is_left, c);
                    assert(differing_in(s, lr, is_left, ud, is_up, n, i, c) <= 1);
                }
            }
        }
    }
}

/// Number of antiparallel neighbours of the site in row `y` and column `x`
/// of the torus, as the update of the site's colour finds them.
pub open spec fn differing_found(g: Grid, n: nat, y: int, x: int) -> int {
    match colour_at(y, x) {
        Colour::S00 => differing_in(g.s00, g.s01, false, g.s10, false, n, y / 2, x / 2),
        Colour::S11 => differing_in(g.s11, g.s10, true, g.s01, true, n, y / 2, x / 2),
        Colour::S01 => differing_in(g.s01, g.s00, true, g.s11, false, n, y / 2, x / 2),
        Colour::S10 => differing_in(g.s10, g.s11, false, g.s00, true, n, y / 2, x / 2),
    }
}

/// The four sites that an update reads for a site are the four sites next
/// to it on the torus.
pub proof fn lemma_differing_found(g: Grid, n: nat, y: int, x: int)
    requires
        0 <= y < side(n),
        0 <= x < side(n),
    ensures
        differing_found(g, n, y, x) == differing(g, n, y, x),
{
}

proof fn lemma_quiet_to_sites(g: Grid, n: nat, y: int, x: int)
    requires
        whole(g, n),
        quiet(g),
        0 <= y < side(n),
        0 <= x < side(n),
    ensures
        differing(g, n, y, x) <= 1,
{
    lemma_differing_found(g, n, y, x);
    let i = y / 2;
    let c = x / 2;
    match colour_at(y, x) {
        Colour::S00 => {
            lemma_settled_sites(g.s00, g.s01, false, g.s10, false, n);
            assert(differing_in(g.s00, g.s01, false, g.s10, false, n, i, c) <= 1);
        },
        Colour::S11 => {
            lemma_settled_sites(g.s11, g.s10, true, g.s01, true, n);
            assert(differing_in(g.s11, g.s10, true, g.s01, true, n, i, c) <= 1);
        },
        Colour::S01 => {
            lemma_settled_sites(g.s01, g.s00, true, g.s11, false, n);
            assert(differing_in(g.s01, g.s00, true, g.s11, false, n, i, c) <= 1);
        },
        Colour::S10 => {
            lemma_settled_sites(g.s10, g.s11, false, g.s00, true, n);
            assert(differing_in(g.s10, g.s11, false, g.s00, true, n, i, c) <= 1);
        },
    }
}

proof fn lemma_sites_to_settled(g: Grid, n: nat, c: Colour)
    requires
        whole(g, n),
        forall|y: int, x: int|
            0 <= y < side(n) && 0 <= x < side(n) ==> #[trigger] differing(g, n, y, x) <= 1,
    ensures
        match c {
            Colour::S00 => settled(g.s00, g.s01, false, g.s10, false),
            Colour::S11 => settled(g.s11, g.s10, true, g.s01, true),
            Colour::S01 => settled(g.s01, g.s00, true, g.s11, false),
            Colour::S10 => settled(g.s10, g.s11, false, g.s00, true),
        },
{
    let a = row_parity(c);
    let b = column_parity(c);
    match c {
        Colour::S00 => {
            assert forall|i: int, k: int|
                0 <= i < ring(n) && 0 <= k < ring(n) implies #[trigger] differing_in(
                g.s00,
                g.s01,
                false,
                g.s10,
                false,
                n,
                i,
                k,
            ) <= 1 by {
                lemma_differing_found(g, n, 2 * i + a, 2 * k + b);
                assert(differing(g, n, 2 * i + a, 2 * k + b) <= 1);
            }
            lemma_settled_sites(g.s00, g.s01, false, g.s10, false, n);
        },
        Colour::S11 => {
            assert forall|i: int, k: int|
                0 <= i < ring(n) && 0 <= k < ring(n) implies #[trigger] differing_in(
                g.s11,
                g.s10,
                true,
                g.s01,
                true,
                n,
                i,
                k,
            ) <= 1 by {
                lemma_differing_found(g, n, 2 * i + a, 2 * k + b);
                assert(differing(g, n, 2 * i + a, 2 * k + b) <= 1);
            }
            lemma_settled_sites(g.s11, g.s10, true, g.s01, true, n);
        },
        Colour::S01 => {
            assert forall|i: int, k: int|
                0 <= i < ring(n) && 0 <= k < ring(n) implies #[trigger] differing_in(
                g.s01,
                g.s00,
                true,
                g.s11,
                false,
                n,
                i,
                k,
            ) <= 1 by {
                lemma_differing_found(g, n, 2 * i + a, 2 * k + b);
                assert(differing(g, n, 2 * i + a, 2 * k + b) <= 1);
            }
            lemma_settled_sites(g.s01, g.s00, true, g.s11, false, n);
        },
        Colour::S10 => {
            assert forall|i: int, k: int|
                0 <= i < ring(n) && 0 <= k < ring(n) implies #[trigger] differing_in(
                g.s10,
                g.s11,
                false,
                g.s00,
                true,
                n,
                i,
                k,
            ) <= 1 by {
                lemma_differing_found(g, n, 2 * i + a, 2 * k + b);
                assert(differing(g, n, 2 * i + a, 2 * k + b) <= 1);
            }
            lemma_settled_sites(g.s10, g.s11, false, g.s00, true, n);
        },
    }
}

/// A lattice is quiet exactly when no site of the torus has two or more
/// antiparallel neighbours among the four sites next to it.
pub proof fn lemma_quiet_sites(g: Grid, n: nat)
    requires
        whole(g, n),
    ensures
        quiet(g) <==> forall|y: int, x: int|
            0 <= y < side(n) && 0 <= x < side(n) ==> #[trigger] differing(g, n, y, x) <= 1,
{
    if quiet(g) {
        assert forall|y: int, x: int|
            0 <= y < side(n) && 0 <= x < side(n) implies #[trigger] differing(g, n, y, x) <= 1 by {
            lemma_quiet_to_sites(g, n, y, x);
        }
    }
    if forall|y: int, x: int|
        0 <= y < side(n) && 0 <= x < side(n) ==> #[trigger] differing(g, n, y, x) <= 1 {
        lemma_sites_to_settled(g, n, Colour::S00);
        lemma_sites_to_settled(g, n, Colour::S11);
        lemma_sites_to_settled(g, n, Colour::S01);
        lemma_sites_to_settled(g, n, Colour::S10);
    }
}

/// Parity of the rows of the torus that a colour holds.
pub open spec fn row_parity(c: Colour) -> int {
    match c {
        Colour::S00 | Colour::S01 => 0,
        Colour::S10 | Colour::S11 => 1,
    }
}

/// Parity of the columns of the torus that a colour holds.
pub open spec fn column_parity(c: Colour) -> int {
    match c {
        Colour::S00 | Colour::S10 => 0,
        Colour::S01 | Colour::S11 => 1,
    }
}

/// The four colours cover the torus, each site once. The site in row `y`
/// and column `x` is held by the colour of its parities, in row `y / 2`, at
/// site `x / 2`; no other site of the torus is held there; and site `k` of
/// row `i` of a colour holds a site of the torus, the one in row
/// `2 i + a` and column `2 k + b` for the parities `a` and `b` of the
/// colour.
pub proof fn lemma_colours_tile(n: nat, y: int, x: int, v: int, u: int, c: Colour, i: int, k: int)
    requires
        0 <= y < side(n),
        0 <= x < side(n),
        0 <= v < side(n),
        0 <= u < side(n),
        0 <= i < ring(n),
        0 <= k < ring(n),
    ensures
        0 <= y / 2 < ring(n),
        0 <= x / 2 < ring(n),
        (colour_at(y, x) == colour_at(v, u) && y / 2 == v / 2 && x / 2 == u / 2) ==> (y == v && x
            == u),
        ({
            let row = 2 * i + row_parity(c);
            let column = 2 * k + column_parity(c);
            &&& 0 <= row < side(n)
            &&& 0 <= column < side(n)
            &&& colour_at(row, column) == c
            &&& row / 2 == i
            &&& column / 2 == k
        }),
{
}

/// No two sites of one colour are neighbours: the four sites next to a site
/// of the torus all have other colours than the site itself. An update of a
/// colour therefore reads nothing that it writes.
pub proof fn lemma_neighbours_of_other_colours(n: nat, y: int, x: int)
    requires
        0 <= y < side(n),
        0 <= x < side(n),
    ensures
        colour_at(y, before(x, side(n))) != colour_at(y, x),
        colour_at(y, after(x, side(n))) != colour_at(y, x),
        colour_at(before(y, side(n)), x) != colour_at(y, x),
        colour_at(after(y, side(n)), x) != colour_at(y, x),
{
}

} // verus!
