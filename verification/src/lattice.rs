//! The whole torus: four sub-lattices, one for each colour.
//!
//! The site at row `y` and column `x` of the torus belongs to the colour
//! given by the parities of `y` and `x`. A pass updates the four colours in
//! a fixed order, each against two colours that are its neighbours; a sweep
//! is a fixed number of passes.

use crate::bytes::{
    decoded_words, encoded_words, lemma_decode_encode, lemma_encode_decode, lemma_encoded_len,
    ByteOrder,
};
use crate::line::MASKS_PER_WORD;
use crate::mask::{drawn, lemma_drawn_never, never, uniform, MaskSource};
use crate::sublat::{
    flat, inverted_block, lemma_flat_len, lemma_flat_unflat, lemma_ones_in_bound,
    lemma_stepped_certain, lemma_stepped_never, lemma_unflat_flat, ones_in, settled, square,
    stepped, unflat, LoadError, SubLat, MAX_WORDS,
};
use crate::word::{lemma_ones_of_word, ALL_UP};
use vstd::prelude::*;
use vstd::slice::slice_subrange;

verus! {

/// Passes that make one sweep.
pub const PASSES: usize = 16;

/// The four colours of the lattice. `S<a><b>` is the colour of the sites in
/// rows of parity `a` and columns of parity `b`.
#[derive(Clone, Copy, Debug, PartialEq, Eq, Structural)]
pub enum Colour {
    S00,
    S01,
    S10,
    S11,
}

/// What a lattice holds: the rows of words of its four colours. Colour
/// `s<a><b>` holds the sites in rows of parity `a` and columns of parity `b`.
pub struct Grid {
    pub s00: Seq<Seq<u128>>,
    pub s01: Seq<Seq<u128>>,
    pub s10: Seq<Seq<u128>>,
    pub s11: Seq<Seq<u128>>,
}

impl Grid {
    /// The rows of one colour.
    pub open spec fn of(self, c: Colour) -> Seq<Seq<u128>> {
        match c {
            Colour::S00 => self.s00,
            Colour::S01 => self.s01,
            Colour::S10 => self.s10,
            Colour::S11 => self.s11,
        }
    }

    /// The lattice with the rows of one colour replaced.
    pub open spec fn with(self, c: Colour, rows: Seq<Seq<u128>>) -> Grid {
        match c {
            Colour::S00 => Grid { s00: rows, ..self },
            Colour::S01 => Grid { s01: rows, ..self },
            Colour::S10 => Grid { s10: rows, ..self },
            Colour::S11 => Grid { s11: rows, ..self },
        }
    }
}

/// Whether `g` is a lattice whose colours all have width `n`.
pub open spec fn whole(g: Grid, n: nat) -> bool {
    &&& square(g.s00, n)
    &&& square(g.s01, n)
    &&& square(g.s10, n)
    &&& square(g.s11, n)
}

/// Masks that one update of one colour consumes in a lattice of width `n`.
pub open spec fn update_masks(n: nat) -> nat {
    3 * n * (128 * n)
}

/// Masks that one pass consumes.
pub open spec fn pass_masks(n: nat) -> nat {
    4 * update_masks(n)
}

/// Masks that one sweep consumes.
pub open spec fn sweep_masks(n: nat) -> nat {
    16 * pass_masks(n)
}

/// Sites of a lattice of width `n`: a torus of side `256 n`.
pub open spec fn sites(n: nat) -> nat {
    (256 * n) * (256 * n)
}

/// The lattice after one update of the colour `c`. A colour is updated
/// against the two colours that share a row or a column with it: the one in
/// its rows as `lr`, the one in its columns as `ud`, each with the direction
/// in which the second neighbour of that colour lies.
pub open spec fn recoloured(g: Grid, c: Colour, tape: Seq<u128>) -> Grid {
    match c {
        Colour::S00 => Grid { s00: stepped(g.s00, g.s01, false, g.s10, false, tape), ..g },
        Colour::S11 => Grid { s11: stepped(g.s11, g.s10, true, g.s01, true, tape), ..g },
        Colour::S01 => Grid { s01: stepped(g.s01, g.s00, true, g.s11, false, tape), ..g },
        Colour::S10 => Grid { s10: stepped(g.s10, g.s11, false, g.s00, true, tape), ..g },
    }
}

/// The lattice after one pass. The colours are updated in the order `s00`,
/// `s11`, `s01`, `s10`, each on the lattice as the update before it left
/// it: the first two read colours that the pass has not touched yet, the
/// last two read the first two as just updated. Each update consumes its
/// own quarter of the tape.
pub open spec fn passed(g: Grid, n: nat, tape: Seq<u128>) -> Grid {
    let q = update_masks(n) as int;
    let first = recoloured(g, Colour::S00, tape.subrange(0, q));
    let second = recoloured(first, Colour::S11, tape.subrange(q, 2 * q));
    let third = recoloured(second, Colour::S01, tape.subrange(2 * q, 3 * q));
    recoloured(third, Colour::S10, tape.subrange(3 * q, 4 * q))
}

/// The lattice after `k` passes, each on its own stretch of the tape.
pub open spec fn swept(g: Grid, n: nat, tape: Seq<u128>, k: nat) -> Grid
    decreases k,
{
    if k == 0 {
        g
    } else {
        let p = pass_masks(n) as int;
        passed(
            swept(g, n, tape.subrange(0, (k - 1) * p), (k - 1) as nat),
            n,
            tape.subrange((k - 1) * p, k * p),
        )
    }
}

/// Number of sites of the lattice that are up.
pub open spec fn up_sites(g: Grid) -> nat {
    ones_in(flat(g.s00)) + ones_in(flat(g.s01)) + ones_in(flat(g.s10)) + ones_in(flat(g.s11))
}

/// The bytes of a snapshot: the four colours, `s00`, `s01`, `s10`, `s11`,
/// each row by row and word by word.
pub open spec fn snapshot(order: ByteOrder, g: Grid) -> Seq<u8> {
    encoded_words(order, flat(g.s00)) + encoded_words(order, flat(g.s01)) + encoded_words(
        order,
        flat(g.s10),
    ) + encoded_words(order, flat(g.s11))
}

/// Bytes that one colour of a lattice of width `n` takes in a snapshot.
pub open spec fn colour_bytes(n: nat) -> nat {
    16 * (n * (128 * n))
}

/// The lattice of width `n` that a snapshot holds.
pub open spec fn restored(order: ByteOrder, bytes: Seq<u8>, n: nat) -> Grid {
    let c = colour_bytes(n) as int;
    Grid {
        s00: unflat(decoded_words(order, bytes.subrange(0, c)), n, 128 * n),
        s01: unflat(decoded_words(order, bytes.subrange(c, 2 * c)), n, 128 * n),
        s10: unflat(decoded_words(order, bytes.subrange(2 * c, 3 * c)), n, 128 * n),
        s11: unflat(decoded_words(order, bytes.subrange(3 * c, 4 * c)), n, 128 * n),
    }
}

/// The lattice of width `n` with every site down.
pub open spec fn blank(n: nat) -> Grid {
    let s = Seq::new(128 * n, |i: int| Seq::new(n, |j: int| 0u128));
    Grid { s00: s, s01: s, s10: s, s11: s }
}

/// What `sample` measures on the lattice `g` of width `n`.
pub open spec fn sample_of(g: Grid, n: nat) -> Sample {
    Sample { up: up_sites(g) as u64, sites: sites(n) as u64 }
}

/// A pass keeps the shape of a lattice.
pub proof fn lemma_passed_whole(g: Grid, n: nat, tape: Seq<u128>)
    requires
        whole(g, n),
    ensures
        whole(passed(g, n, tape), n),
{
}

/// Any number of passes keeps the shape of a lattice.
pub proof fn lemma_swept_whole(g: Grid, n: nat, tape: Seq<u128>, k: nat)
    requires
        whole(g, n),
    ensures
        whole(swept(g, n, tape, k), n),
    decreases k,
{
    if k > 0 {
        let p = pass_masks(n) as int;
        lemma_swept_whole(g, n, tape.subrange(0, (k - 1) * p), (k - 1) as nat);
        lemma_passed_whole(
            swept(g, n, tape.subrange(0, (k - 1) * p), (k - 1) as nat),
            n,
            tape.subrange((k - 1) * p, k * p),
        );
    }
}

proof fn lemma_mask_counts(n: nat)
    by (nonlinear_arith)
    requires
        1 <= n <= 511,
    ensures
        update_masks(n) == 3 * n * (128 * n),
        update_masks(n) <= 100_270_464,
        colour_bytes(n) <= 534_775_808,
        sites(n) == 4 * (128 * (n * (128 * n))),
        sites(n) <= 17_112_825_856,
        4 * colour_bytes(n) == sites(n) / 128 * 16,
{
}

/// The lattice with every site turned over.
pub open spec fn flipped(g: Grid) -> Grid {
    Grid {
        s00: inverted_block(g.s00),
        s01: inverted_block(g.s01),
        s10: inverted_block(g.s10),
        s11: inverted_block(g.s11),
    }
}

/// Whether no site of the lattice has two or more antiparallel neighbours.
pub open spec fn quiet(g: Grid) -> bool {
    &&& settled(g.s00, g.s01, false, g.s10, false)
    &&& settled(g.s11, g.s10, true, g.s01, true)
    &&& settled(g.s01, g.s00, true, g.s11, false)
    &&& settled(g.s10, g.s11, false, g.s00, true)
}

/// Whether every word of the lattice is `w`.
pub open spec fn filled(g: Grid, w: u128) -> bool {
    &&& uniform(flat(g.s00), w)
    &&& uniform(flat(g.s01), w)
    &&& uniform(flat(g.s10), w)
    &&& uniform(flat(g.s11), w)
}

/// With an acceptance probability of zero, one pass leaves the lattice as it
/// is exactly when the lattice is quiet. Sites with two or more antiparallel
/// neighbours flip at any probability, so a lattice that has one changes.
pub proof fn lemma_passed_never(g: Grid, n: nat, tape: Seq<u128>)
    requires
        whole(g, n),
        tape.len() == pass_masks(n),
        uniform(tape, 0),
    ensures
        passed(g, n, tape) == g <==> quiet(g),
{
    let q = update_masks(n) as int;
    let t0 = tape.subrange(0, q);
    let t1 = tape.subrange(q, 2 * q);
    let t2 = tape.subrange(2 * q, 3 * q);
    let t3 = tape.subrange(3 * q, 4 * q);
    assert(uniform(t0, 0) && uniform(t1, 0) && uniform(t2, 0) && uniform(t3, 0));
    let after = passed(g, n, tape);
    lemma_stepped_never(g.s00, g.s01, false, g.s10, false, t0, n);
    lemma_stepped_never(g.s11, g.s10, true, g.s01, true, t1, n);
    lemma_stepped_never(g.s01, after.s00, true, after.s11, false, t2, n);
    lemma_stepped_never(g.s10, after.s11, false, after.s00, true, t3, n);
}

/// With an acceptance probability of zero, no number of passes changes a
/// quiet lattice: a sweep is then a no-op. (A lattice that is not quiet is
/// changed by the first pass. Later passes may undo that, so that some
/// lattices that are not quiet come out of a sweep as they went in.)
pub proof fn lemma_swept_never(g: Grid, n: nat, tape: Seq<u128>, k: nat)
    requires
        whole(g, n),
        tape.len() == k * pass_masks(n),
        uniform(tape, 0),
        quiet(g),
    ensures
        swept(g, n, tape, k) == g,
    decreases k,
{
    if k > 0 {
        let p = pass_masks(n) as int;
        lemma_pass_start(p, k - 1, k as int);
        let head = tape.subrange(0, (k - 1) * p);
        let last = tape.subrange((k - 1) * p, k * p);
        assert(uniform(head, 0) && uniform(last, 0));
        lemma_swept_never(g, n, head, (k - 1) as nat);
        lemma_passed_never(g, n, last);
    }
}

proof fn lemma_not_not(w: u128)
    by (bit_vector)
    ensures
        !!w == w,
{
}

/// Turning a lattice over twice restores it.
pub proof fn lemma_flipped_twice(g: Grid)
    ensures
        flipped(flipped(g)) == g,
{
    let back = flipped(flipped(g));
    assert forall|s: Seq<Seq<u128>>| #[trigger] inverted_block(inverted_block(s)) == s by {
        let twice = inverted_block(inverted_block(s));
        assert forall|i: int| 0 <= i < s.len() implies twice[i] == s[i] by {
            assert forall|j: int| 0 <= j < s[i].len() implies twice[i][j] == s[i][j] by {
                lemma_not_not(s[i][j]);
            }
            assert(twice[i] =~= s[i]);
        }
        assert(twice =~= s);
    }
}

/// With an acceptance probability of one, a pass turns over every site of
/// the lattice: each site flips when its colour is updated, whether or not a
/// neighbour disagrees with it.
pub proof fn lemma_passed_certain(g: Grid, n: nat, tape: Seq<u128>)
    requires
        whole(g, n),
        tape.len() == pass_masks(n),
        uniform(tape, ALL_UP),
    ensures
        passed(g, n, tape) == flipped(g),
{
    let q = update_masks(n) as int;
    let t0 = tape.subrange(0, q);
    let t1 = tape.subrange(q, 2 * q);
    let t2 = tape.subrange(2 * q, 3 * q);
    let t3 = tape.subrange(3 * q, 4 * q);
    assert(uniform(t0, ALL_UP) && uniform(t1, ALL_UP) && uniform(t2, ALL_UP) && uniform(
        t3,
        ALL_UP,
    ));
    let after = passed(g, n, tape);
    lemma_stepped_certain(g.s00, g.s01, false, g.s10, false, t0, n);
    lemma_stepped_certain(g.s11, g.s10, true, g.s01, true, t1, n);
    lemma_stepped_certain(g.s01, after.s00, true, after.s11, false, t2, n);
    lemma_stepped_certain(g.s10, after.s11, false, after.s00, true, t3, n);
}

/// With an acceptance probability of one, an even number of passes restores
/// the lattice and an odd number turns it over.
pub proof fn lemma_swept_certain(g: Grid, n: nat, tape: Seq<u128>, k: nat)
    requires
        whole(g, n),
        tape.len() == k * pass_masks(n),
        uniform(tape, ALL_UP),
    ensures
        swept(g, n, tape, k) == if k % 2 == 0 {
            g
        } else {
            flipped(g)
        },
    decreases k,
{
    if k > 0 {
        let p = pass_masks(n) as int;
        lemma_pass_start(p, k - 1, k as int);
        let head = tape.subrange(0, (k - 1) * p);
        let last = tape.subrange((k - 1) * p, k * p);
        assert(uniform(head, ALL_UP) && uniform(last, ALL_UP));
        lemma_swept_certain(g, n, head, (k - 1) as nat);
        let mid = swept(g, n, head, (k - 1) as nat);
        lemma_swept_whole(g, n, head, (k - 1) as nat);
        lemma_passed_certain(mid, n, last);
        lemma_flipped_twice(g);
    }
}

/// A snapshot of a lattice of width `n` has the one length that `load`
/// accepts, sixteen bytes for every 128 sites, and loading it gives the
/// lattice back, bit for bit.
pub proof fn lemma_snapshot_round_trip(order: ByteOrder, g: Grid, n: nat)
    requires
        whole(g, n),
    ensures
        snapshot(order, g).len() == 4 * colour_bytes(n),
        snapshot(order, g).len() == sites(n) / 128 * 16,
        restored(order, snapshot(order, g), n) == g,
{
    lemma_mask_counts(n);
    let c = colour_bytes(n) as int;
    let bytes = snapshot(order, g);
    let b00 = encoded_words(order, flat(g.s00));
    let b01 = encoded_words(order, flat(g.s01));
    let b10 = encoded_words(order, flat(g.s10));
    let b11 = encoded_words(order, flat(g.s11));
    lemma_colour_round_trip(order, g.s00, n);
    lemma_colour_round_trip(order, g.s01, n);
    lemma_colour_round_trip(order, g.s10, n);
    lemma_colour_round_trip(order, g.s11, n);
    assert(bytes.subrange(0, c) =~= b00);
    assert(bytes.subrange(c, 2 * c) =~= b01);
    assert(bytes.subrange(2 * c, 3 * c) =~= b10);
    assert(bytes.subrange(3 * c, 4 * c) =~= b11);
}

/// One colour survives being written and read back.
pub proof fn lemma_colour_round_trip(order: ByteOrder, s: Seq<Seq<u128>>, n: nat)
    requires
        square(s, n),
    ensures
        encoded_words(order, flat(s)).len() == colour_bytes(n),
        unflat(decoded_words(order, encoded_words(order, flat(s))), n, 128 * n) == s,
{
    lemma_flat_len(s, n);
    lemma_encoded_len(order, flat(s));
    lemma_decode_encode(order, flat(s));
    lemma_unflat_flat(s, n);
}

/// Bytes of the length of a snapshot survive being loaded and stored again:
/// the snapshot of the lattice that they hold is the same bytes.
pub proof fn lemma_restored_round_trip(order: ByteOrder, bytes: Seq<u8>, n: nat)
    requires
        1 <= n <= MAX_WORDS,
        bytes.len() == 4 * colour_bytes(n),
    ensures
        whole(restored(order, bytes, n), n),
        snapshot(order, restored(order, bytes, n)) == bytes,
{
    let c = colour_bytes(n) as int;
    let g = restored(order, bytes, n);
    let b0 = bytes.subrange(0, c);
    let b1 = bytes.subrange(c, 2 * c);
    let b2 = bytes.subrange(2 * c, 3 * c);
    let b3 = bytes.subrange(3 * c, 4 * c);
    lemma_colour_bytes_round_trip(order, b0, n);
    lemma_colour_bytes_round_trip(order, b1, n);
    lemma_colour_bytes_round_trip(order, b2, n);
    lemma_colour_bytes_round_trip(order, b3, n);
    assert(b0 + b1 + b2 + b3 =~= bytes);
}

/// The bytes of one colour survive being read and written back.
pub proof fn lemma_colour_bytes_round_trip(order: ByteOrder, bytes: Seq<u8>, n: nat)
    requires
        1 <= n <= MAX_WORDS,
        bytes.len() == colour_bytes(n),
    ensures
        square(unflat(decoded_words(order, bytes), n, 128 * n), n),
        encoded_words(order, flat(unflat(decoded_words(order, bytes), n, 128 * n))) == bytes,
{
    let ws = decoded_words(order, bytes);
    assert(ws.len() == n * (128 * n));
    lemma_flat_unflat(ws, n, 128 * n);
    lemma_encode_decode(order, bytes);
}

/// In a run of words that are all full, every site is up; in a run of words
/// that are all empty, none is.
pub proof fn lemma_ones_in_uniform(ws: Seq<u128>)
    ensures
        uniform(ws, ALL_UP) ==> ones_in(ws) == 128 * ws.len(),
        uniform(ws, 0) ==> ones_in(ws) == 0,
    decreases ws.len(),
{
    if ws.len() > 0 {
        lemma_ones_in_uniform(ws.drop_last());
        lemma_ones_of_word(ws.last());
        if uniform(ws, ALL_UP) {
            assert(uniform(ws.drop_last(), ALL_UP));
            assert(ws.last() == ALL_UP);
        }
        if uniform(ws, 0) {
            assert(uniform(ws.drop_last(), 0));
            assert(ws.last() == 0);
        }
    }
}

/// The magnetisation density `|2 up / sites - 1|` of any lattice lies
/// between zero and one: its numerator `|2 up - sites|` is at most its
/// denominator `sites`. For a lattice with all sites up, and for one with
/// all sites down, it is exactly one.
pub proof fn lemma_density_bounds(g: Grid, n: nat)
    requires
        whole(g, n),
    ensures
        up_sites(g) <= sites(n),
        0 <= excess_of(up_sites(g) as int, sites(n) as int) <= sites(n),
        filled(g, ALL_UP) ==> excess_of(up_sites(g) as int, sites(n) as int) == sites(n),
        filled(g, 0) ==> excess_of(up_sites(g) as int, sites(n) as int) == sites(n),
{
    lemma_mask_counts(n);
    lemma_flat_len(g.s00, n);
    lemma_flat_len(g.s01, n);
    lemma_flat_len(g.s10, n);
    lemma_flat_len(g.s11, n);
    lemma_ones_in_bound(flat(g.s00));
    lemma_ones_in_bound(flat(g.s01));
    lemma_ones_in_bound(flat(g.s10));
    lemma_ones_in_bound(flat(g.s11));
    lemma_ones_in_uniform(flat(g.s00));
    lemma_ones_in_uniform(flat(g.s01));
    lemma_ones_in_uniform(flat(g.s10));
    lemma_ones_in_uniform(flat(g.s11));
}

proof fn lemma_pass_start(p: int, k: int, passes: int)
    by (nonlinear_arith)
    requires
        0 <= k < passes,
        0 <= p,
    ensures
        0 * p == 0,
        k * p >= 0,
        k * p + p == (k + 1) * p,
        (k + 1) * p <= passes * p,
{
}

/// A lattice: the four colour classes of a torus.
pub struct Lattice {
    s00: SubLat,
    s01: SubLat,
    s10: SubLat,
    s11: SubLat,
}

impl View for Lattice {
    type V = Grid;

    closed spec fn view(&self) -> Grid {
        Grid { s00: self.s00@, s01: self.s01@, s10: self.s10@, s11: self.s11@ }
    }
}

impl Lattice {
    /// Width of each colour in words.
    pub open spec fn words(&self) -> nat {
        self@.s00[0].len()
    }

    /// Whether the four colours are square blocks of one width.
    pub open spec fn wf(&self) -> bool {
        whole(self@, self.words())
    }

    /// A lattice of width `n` words, side `256 n` sites, with every site
    /// down.
    pub fn new(n: usize) -> (r: Self)
        requires
            1 <= n <= MAX_WORDS,
        ensures
            r.wf(),
            r.words() == n,
            r@ == blank(n as nat),
    {
        Lattice { s00: SubLat::new(n), s01: SubLat::new(n), s10: SubLat::new(n), s11: SubLat::new(n) }
    }

    /// Width of each colour in words.
    pub fn width(&self) -> (n: usize)
        requires
            self.wf(),
        ensures
            n == self.words(),
            1 <= n <= MAX_WORDS,
    {
        self.s00.width()
    }

    /// Word `j` of row `i` of the colour `c`.
    pub fn word(&self, c: Colour, i: usize, j: usize) -> (w: u128)
        requires
            self.wf(),
            i < 128 * self.words(),
            j < self.words(),
        ensures
            w == self@.of(c)[i as int][j as int],
    {
        match c {
            Colour::S00 => self.s00.word(i, j),
            Colour::S01 => self.s01.word(i, j),
            Colour::S10 => self.s10.word(i, j),
            Colour::S11 => self.s11.word(i, j),
        }
    }

    /// Replaces word `j` of row `i` of the colour `c` by `w`.
    pub fn set_word(&mut self, c: Colour, i: usize, j: usize, w: u128)
        requires
            old(self).wf(),
            i < 128 * old(self).words(),
            j < old(self).words(),
        ensures
            final(self).wf(),
            final(self).words() == old(self).words(),
            final(self)@ == old(self)@.with(
                c,
                old(self)@.of(c).update(i as int, old(self)@.of(c)[i as int].update(j as int, w)),
            ),
    {
        match c {
            Colour::S00 => self.s00.set_word(i, j, w),
            Colour::S01 => self.s01.set_word(i, j, w),
            Colour::S10 => self.s10.set_word(i, j, w),
            Colour::S11 => self.s11.set_word(i, j, w),
        }
    }

    /// One pass over the lattice with the masks taken from `tape`.
    pub fn pass_with(&mut self, tape: &[u128])
        requires
            old(self).wf(),
            tape@.len() == pass_masks(old(self).words()),
        ensures
            final(self).wf(),
            final(self).words() == old(self).words(),
            final(self)@ == passed(old(self)@, old(self).words(), tape@),
    {
        let n: usize = self.s00.width();
        proof {
            lemma_mask_counts(n as nat);
        }
        let q: usize = MASKS_PER_WORD * n * self.s00.rows();
        self.s00.update_with(slice_subrange(tape, 0, q), &self.s01, false, &self.s10, false);
        self.s11.update_with(slice_subrange(tape, q, 2 * q), &self.s10, true, &self.s01, true);
        self.s01.update_with(slice_subrange(tape, 2 * q, 3 * q), &self.s00, true, &self.s11, false);
        self.s10.update_with(slice_subrange(tape, 3 * q, 4 * q), &self.s11, false, &self.s00, true);
    }

    /// One sweep over the lattice with the masks taken from `tape`.
    pub fn sweep_with(&mut self, tape: &[u128])
        requires
            old(self).wf(),
            tape@.len() == sweep_masks(old(self).words()),
        ensures
            final(self).wf(),
            final(self).words() == old(self).words(),
            final(self)@ == swept(old(self)@, old(self).words(), tape@, 16),
    {
        let n: usize = self.s00.width();
        proof {
            lemma_mask_counts(n as nat);
        }
        let p: usize = 4 * (MASKS_PER_WORD * n * self.s00.rows());
        let total: usize = tape.len();
        let mut at: usize = 0;
        proof {
            assert(tape@.subrange(0, 0) =~= Seq::<u128>::empty());
            lemma_pass_start(p as int, 0, 16);
        }
        for k in 0..PASSES
            invariant
                self.wf(),
                self.words() == n,
                old(self).words() == n,
                1 <= n <= MAX_WORDS,
                p == pass_masks(n as nat),
                total == tape@.len(),
                total == 16 * p,
                at == k * p,
                self@ == swept(old(self)@, n as nat, tape@.subrange(0, at as int), k as nat),
        {
            proof {
                lemma_pass_start(p as int, k as int, 16);
            }
            let piece = slice_subrange(tape, at, at + p);
            self.pass_with(piece);
            proof {
                let next = at + p;
                let so_far = tape@.subrange(0, next);
                assert(so_far.subrange(0, k * p) =~= tape@.subrange(0, at as int));
                assert(so_far.subrange(k * p, (k + 1) * p) =~= piece@);
                assert((k + 1 - 1) * p == k * p);
            }
            at = at + p;
        }
        assert(tape@.subrange(0, at as int) =~= tape@);
    }

    /// One pass over the lattice with fresh masks drawn from `r`. The
    /// lattice that results is the pass under some tape that `r` can draw.
    pub fn pass(&mut self, r: &mut MaskSource)
        requires
            old(self).wf(),
        ensures
            final(self).wf(),
            final(self).words() == old(self).words(),
            final(r).digits() == old(r).digits(),
            exists|tape: Seq<u128>|
                {
                    &&& tape.len() == pass_masks(old(self).words())
                    &&& drawn(old(r).digits(), tape)
                    &&& final(self)@ == passed(old(self)@, old(self).words(), tape)
                },
    {
        let ghost n = self.words();
        let ghost q = update_masks(n) as int;
        let ghost digits = r.digits();
        let ghost g = self@;
        self.s00.update(r, &self.s01, false, &self.s10, false);
        let ghost s00 = self.s00@;
        let ghost t0 = choose|t: Seq<u128>|
            t.len() == q && drawn(digits, t) && s00 == stepped(g.s00, g.s01, false, g.s10, false, t);
        self.s11.update(r, &self.s10, true, &self.s01, true);
        let ghost s11 = self.s11@;
        let ghost t1 = choose|t: Seq<u128>|
            t.len() == q && drawn(digits, t) && s11 == stepped(g.s11, g.s10, true, g.s01, true, t);
        self.s01.update(r, &self.s00, true, &self.s11, false);
        let ghost s01 = self.s01@;
        let ghost t2 = choose|t: Seq<u128>|
            t.len() == q && drawn(digits, t) && s01 == stepped(g.s01, s00, true, s11, false, t);
        self.s10.update(r, &self.s11, false, &self.s00, true);
        let ghost s10 = self.s10@;
        let ghost t3 = choose|t: Seq<u128>|
            t.len() == q && drawn(digits, t) && s10 == stepped(g.s10, s11, false, s00, true, t);
        proof {
            let tape = t0 + t1 + t2 + t3;
            assert(tape.subrange(0, q) =~= t0);
            assert(tape.subrange(q, 2 * q) =~= t1);
            assert(tape.subrange(2 * q, 3 * q) =~= t2);
            assert(tape.subrange(3 * q, 4 * q) =~= t3);
            assert(drawn(digits, tape));
            assert(self@ == passed(g, n, tape));
        }
    }

    /// One sweep over the lattice with fresh masks drawn from `r`: sixteen
    /// passes. The lattice that results is the sweep under some tape that
    /// `r` can draw.
    pub fn sweep(&mut self, r: &mut MaskSource)
        requires
            old(self).wf(),
        ensures
            final(self).wf(),
            final(self).words() == old(self).words(),
            final(r).digits() == old(r).digits(),
            exists|tape: Seq<u128>|
                {
                    &&& tape.len() == sweep_masks(old(self).words())
                    &&& drawn(old(r).digits(), tape)
                    &&& final(self)@ == swept(old(self)@, old(self).words(), tape, 16)
                },
            never(old(r).digits()) && quiet(old(self)@) ==> final(self)@ == old(self)@,
    {
        let ghost n = self.words();
        let ghost p = pass_masks(n) as int;
        let ghost digits = r.digits();
        let ghost mut tape: Seq<u128> = Seq::empty();
        proof {
            assert(tape.subrange(0, 0) =~= tape);
            lemma_pass_start(p, 0, 16);
        }
        for k in 0..PASSES
            invariant
                self.wf(),
                self.words() == n,
                old(self).words() == n,
                p == pass_masks(n),
                digits == old(r).digits(),
                r.digits() == digits,
                tape.len() == k * p,
                drawn(digits, tape),
                self@ == swept(old(self)@, n, tape, k as nat),
        {
            let ghost before = self@;
            self.pass(r);
            proof {
                let now = self@;
                let t = choose|t: Seq<u128>|
                    t.len() == p && drawn(digits, t) && now == passed(before, n, t);
                let longer = tape + t;
                lemma_pass_start(p, k as int, 16);
                assert(longer.subrange(0, k * p) =~= tape);
                assert(longer.subrange(k * p, (k + 1) * p) =~= t);
                assert((k + 1 - 1) * p == k * p);
                tape = longer;
            }
        }
        proof {
            if never(digits) && quiet(old(self)@) {
                lemma_drawn_never(digits, tape);
                lemma_swept_never(old(self)@, n, tape, 16);
            }
        }
    }

    /// Number of sites of the lattice that are up.
    pub fn mag(&self) -> (m: u64)
        requires
            self.wf(),
        ensures
            m == up_sites(self@),
            m <= sites(self.words()),
    {
        proof {
            lemma_mask_counts(self.words());
        }
        let a: u64 = self.s00.mag() as u64;
        let b: u64 = self.s01.mag() as u64;
        let c: u64 = self.s10.mag() as u64;
        let d: u64 = self.s11.mag() as u64;
        a + b + c + d
    }

    /// The magnetisation of the lattice as it stands: how many sites are up,
    /// out of how many.
    pub fn sample(&self) -> (s: Sample)
        requires
            self.wf(),
        ensures
            s == sample_of(self@, self.words()),
            s.up == up_sites(self@),
            s.sites == sites(self.words()),
            s.wf(),
    {
        let n: u64 = self.s00.width() as u64;
        proof {
            lemma_mask_counts(self.words());
        }
        let side: u64 = 256 * n;
        assert(side * side == sites(self.words())) by (nonlinear_arith)
            requires
                side == 256 * self.words(),
        ;
        Sample { up: self.mag(), sites: side * side }
    }

    /// Number of bytes that a snapshot of the lattice takes.
    pub fn byte_len(&self) -> (len: usize)
        requires
            self.wf(),
        ensures
            len == 4 * colour_bytes(self.words()),
    {
        proof {
            lemma_mask_counts(self.words());
        }
        4 * self.s00.byte_len()
    }

    /// Appends a snapshot of the lattice to `out`.
    pub fn store(&self, order: ByteOrder, out: &mut Vec<u8>)
        requires
            self.wf(),
        ensures
            final(out)@ == old(out)@ + snapshot(order, self@),
    {
        self.s00.store(order, out);
        self.s01.store(order, out);
        self.s10.store(order, out);
        self.s11.store(order, out);
        assert(out@ =~= old(out)@ + snapshot(order, self@));
    }

    /// Replaces the lattice by the one that the snapshot `bytes` holds. The
    /// snapshot must have exactly the length that a lattice of this width
    /// takes; otherwise nothing is loaded and the lattice is left as it was.
    pub fn load(&mut self, order: ByteOrder, bytes: &[u8]) -> (r: Result<(), LoadError>)
        requires
            old(self).wf(),
        ensures
            final(self).wf(),
            final(self).words() == old(self).words(),
            match r {
                Ok(()) => {
                    &&& bytes@.len() == 4 * colour_bytes(old(self).words())
                    &&& final(self)@ == restored(order, bytes@, old(self).words())
                },
                Err(LoadError::Length { expected, found }) => {
                    &&& bytes@.len() != 4 * colour_bytes(old(self).words())
                    &&& expected == 4 * colour_bytes(old(self).words())
                    &&& found == bytes@.len()
                    &&& final(self)@ == old(self)@
                },
            },
    {
        let expected: usize = self.byte_len();
        let found: usize = bytes.len();
        if found != expected {
            return Err(LoadError::Length { expected, found });
        }
        let c: usize = self.s00.byte_len();
        let r0 = self.s00.load(order, slice_subrange(bytes, 0, c));
        let r1 = self.s01.load(order, slice_subrange(bytes, c, 2 * c));
        let r2 = self.s10.load(order, slice_subrange(bytes, 2 * c, 3 * c));
        let r3 = self.s11.load(order, slice_subrange(bytes, 3 * c, 4 * c));
        assert(r0.is_ok() && r1.is_ok() && r2.is_ok() && r3.is_ok());
        Ok(())
    }
}

/// One measurement of the magnetisation: `up` sites out of `sites` are up.
#[derive(Clone, Copy, Debug, PartialEq, Eq, Structural)]
pub struct Sample {
    pub up: u64,
    pub sites: u64,
}

/// How far a count of `up` sites out of `sites` is from an even split, in
/// sites: the magnitude of `2 up - sites`.
pub open spec fn excess_of(up: int, sites: int) -> int {
    if 2 * up >= sites {
        2 * up - sites
    } else {
        sites - 2 * up
    }
}

impl Sample {
    /// Whether the sample counts no more sites up than there are.
    pub open spec fn wf(&self) -> bool {
        self.up <= self.sites
    }

    /// The numerator of the magnetisation density `|2 up / sites - 1|` over
    /// the denominator `sites`. It is at most `sites`, and equal to it
    /// exactly when all sites point the same way.
    pub fn excess(&self) -> (e: u64)
        requires
            self.wf(),
        ensures
            e == excess_of(self.up as int, self.sites as int),
            e <= self.sites,
            e == self.sites <==> (self.up == 0 || self.up == self.sites),
    {
        let down: u64 = self.sites - self.up;
        if self.up >= down {
            self.up - down
        } else {
            down - self.up
        }
    }
}

} // verus!
