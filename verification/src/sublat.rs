//! One colour class of the torus: a square block of rows.
//!
//! A sub-lattice of width `n` words has `128 n` sites to the row and `128 n`
//! rows. Its sites are those torus sites that agree in the parity of both
//! coordinates, so that none of them is a neighbour of another.

use crate::bytes::{
    decoded_words, encoded_words, get_word, lemma_encoded_push, put_word, ByteOrder, WORD_BYTES,
};
use crate::line::{
    after, before, calm, inverted, lemma_updated_certain, lemma_updated_never, shifted, updated,
    Line, MASKS_PER_WORD,
};
use crate::mask::{drawn, uniform, MaskSource};
use crate::word::{count_up, lemma_ones_of_word, ones, ALL_UP};
use vstd::prelude::*;
use vstd::slice::slice_subrange;

verus! {

/// Rows of a sub-lattice for each word of its width.
pub const ROWS_PER_WORD: usize = 128;

/// Largest width, in words, that a sub-lattice can have. Up to this width
/// the number of sites fits `u32` and a whole snapshot fits `usize`.
pub const MAX_WORDS: usize = 511;

/// Why a snapshot cannot be loaded.
#[derive(Clone, Copy, Debug, PartialEq, Eq, Structural)]
pub enum LoadError {
    /// The snapshot does not have the length that the lattice calls for.
    Length { expected: usize, found: usize },
}

/// Whether `s` is a sub-lattice of width `n`: `128 n` rows of `n` words.
pub open spec fn square(s: Seq<Seq<u128>>, n: nat) -> bool {
    &&& 1 <= n <= MAX_WORDS
    &&& s.len() == 128 * n
    &&& forall|i: int| 0 <= i < s.len() ==> (#[trigger] s[i]).len() == n
}

/// The words of all rows, row after row.
pub open spec fn flat(rows: Seq<Seq<u128>>) -> Seq<u128>
    decreases rows.len(),
{
    if rows.len() == 0 {
        Seq::empty()
    } else {
        flat(rows.drop_last()) + rows.last()
    }
}

/// A run of words cut into `rows` rows of `n` words.
pub open spec fn unflat(ws: Seq<u128>, n: nat, rows: nat) -> Seq<Seq<u128>> {
    Seq::new(rows, |i: int| Seq::new(n, |j: int| ws[i * n + j]))
}

/// Number of sites that are up in a run of words.
pub open spec fn ones_in(ws: Seq<u128>) -> nat
    decreases ws.len(),
{
    if ws.len() == 0 {
        0
    } else {
        ones_in(ws.drop_last()) + ones(ws.last() as nat)
    }
}

/// The row that holds the second vertical neighbours of row `i`: the row
/// after it if `is_up`, else the one before, around the ring of rows.
pub open spec fn beside(i: int, rows: int, is_up: bool) -> int {
    if is_up {
        after(i, rows)
    } else {
        before(i, rows)
    }
}

/// The sub-lattice `s` after one update against two sub-lattices of other
/// colours: `lr`, which holds the neighbours to the left and right of its
/// sites, and `ud`, which holds those above and below.
///
/// One neighbour of each kind sits at the site's own place in `lr` and in
/// `ud`. `is_left` says that the one in `lr` is the left neighbour; the right
/// neighbour is then one site on in the row, and the row is rotated right to
/// bring it in (and left in the other case). `is_up` says that the one in
/// `ud` is the upper neighbour; the lower neighbour is then in the row
/// after (and in the row before in the other case). Both wrap around.
///
/// Row `i` consumes its own stretch of the tape, three masks per word.
pub open spec fn stepped(
    s: Seq<Seq<u128>>,
    lr: Seq<Seq<u128>>,
    is_left: bool,
    ud: Seq<Seq<u128>>,
    is_up: bool,
    tape: Seq<u128>,
) -> Seq<Seq<u128>> {
    Seq::new(
        s.len(),
        |i: int|
            updated(
                s[i],
                lr[i],
                ud[i],
                shifted(lr[i], is_left),
                ud[beside(i, s.len() as int, is_up)],
                tape.subrange(3 * s[i].len() * i, 3 * s[i].len() * (i + 1)),
            ),
    )
}

proof fn lemma_stretch(per_row: int, i: int, rows: int)
    by (nonlinear_arith)
    requires
        0 <= i < rows,
        0 <= per_row,
    ensures
        per_row * i >= 0,
        per_row * i + per_row == per_row * (i + 1),
        per_row * (i + 1) <= per_row * rows,
{
}

proof fn lemma_site_count(n: int)
    by (nonlinear_arith)
    requires
        1 <= n <= 511,
    ensures
        n * (128 * n) <= 33_423_488,
        128 * (n * (128 * n)) <= 0xffff_ffff,
{
}

/// A block of `rows.len()` rows of `n` words holds `n * rows.len()` words.
pub proof fn lemma_flat_len(rows: Seq<Seq<u128>>, n: nat)
    requires
        forall|i: int| 0 <= i < rows.len() ==> (#[trigger] rows[i]).len() == n,
    ensures
        flat(rows).len() == n * rows.len(),
    decreases rows.len(),
{
    if rows.len() > 0 {
        lemma_flat_len(rows.drop_last(), n);
        assert(n * (rows.len() - 1) + n == n * rows.len()) by (nonlinear_arith);
    } else {
        assert(n * 0 == 0) by (nonlinear_arith);
    }
}

/// Word `j` of row `i` is word `i n + j` of the block's words.
pub proof fn lemma_flat_index(rows: Seq<Seq<u128>>, n: nat, i: int, j: int)
    requires
        forall|k: int| 0 <= k < rows.len() ==> (#[trigger] rows[k]).len() == n,
        0 <= i < rows.len(),
        0 <= j < n,
    ensures
        0 <= i * n + j < flat(rows).len(),
        flat(rows)[i * n + j] == rows[i][j],
    decreases rows.len(),
{
    let init = rows.drop_last();
    lemma_flat_len(init, n);
    lemma_flat_len(rows, n);
    let last = rows.len() - 1;
    assert(n * last + n == n * rows.len()) by (nonlinear_arith)
        requires
            last == rows.len() - 1,
    ;
    if i < last {
        lemma_flat_index(init, n, i, j);
    } else {
        assert(i * n == n * last) by (nonlinear_arith)
            requires
                i == last,
        ;
    }
}

/// Cutting a block's words back into rows restores the block.
pub proof fn lemma_unflat_flat(rows: Seq<Seq<u128>>, n: nat)
    requires
        forall|k: int| 0 <= k < rows.len() ==> (#[trigger] rows[k]).len() == n,
    ensures
        unflat(flat(rows), n, rows.len()) == rows,
{
    let back = unflat(flat(rows), n, rows.len());
    assert forall|i: int| 0 <= i < rows.len() implies back[i] == rows[i] by {
        assert forall|j: int| 0 <= j < n implies back[i][j] == rows[i][j] by {
            lemma_flat_index(rows, n, i, j);
        }
        assert(back[i] =~= rows[i]);
    }
    assert(back =~= rows);
}

/// Joining the rows cut from a run of `n * rows` words restores the run.
pub proof fn lemma_flat_unflat(ws: Seq<u128>, n: nat, rows: nat)
    requires
        ws.len() == n * rows,
    ensures
        flat(unflat(ws, n, rows)) == ws,
{
    let cut = unflat(ws, n, rows);
    lemma_flat_len(cut, n);
    assert forall|k: int| 0 <= k < ws.len() implies flat(cut)[k] == ws[k] by {
        if n == 0 {
            assert(n * rows == 0) by (nonlinear_arith)
                requires
                    n == 0,
            ;
        } else {
            let i = k / (n as int);
            let j = k % (n as int);
            assert(k == i * n + j && 0 <= j < n && 0 <= i < rows) by (nonlinear_arith)
                requires
                    0 <= k < n * rows,
                    n > 0,
                    i == k / (n as int),
                    j == k % (n as int),
            ;
            lemma_flat_index(cut, n, i, j);
        }
    }
    assert(flat(cut) =~= ws);
}

/// A run of words has at most 128 sites up for each word.
pub proof fn lemma_ones_in_bound(ws: Seq<u128>)
    ensures
        ones_in(ws) <= 128 * ws.len(),
    decreases ws.len(),
{
    if ws.len() > 0 {
        lemma_ones_in_bound(ws.drop_last());
        lemma_ones_of_word(ws.last());
    }
}

/// The sub-lattice with every site turned over.
pub open spec fn inverted_block(s: Seq<Seq<u128>>) -> Seq<Seq<u128>> {
    Seq::new(s.len(), |i: int| inverted(s[i]))
}

/// Whether no site of `s` has two or more antiparallel neighbours among the
/// four sites that an update against `lr` and `ud` reads for it.
pub open spec fn settled(
    s: Seq<Seq<u128>>,
    lr: Seq<Seq<u128>>,
    is_left: bool,
    ud: Seq<Seq<u128>>,
    is_up: bool,
) -> bool {
    forall|i: int|
        0 <= i < s.len() ==> #[trigger] calm(
            s[i],
            lr[i],
            ud[i],
            shifted(lr[i], is_left),
            ud[beside(i, s.len() as int, is_up)],
        )
}

/// Under empty masks an update leaves a sub-lattice as it is exactly when it
/// is settled.
pub proof fn lemma_stepped_never(
    s: Seq<Seq<u128>>,
    lr: Seq<Seq<u128>>,
    is_left: bool,
    ud: Seq<Seq<u128>>,
    is_up: bool,
    tape: Seq<u128>,
    n: nat,
)
    requires
        square(s, n),
        tape.len() == 3 * n * s.len(),
        uniform(tape, 0),
    ensures
        stepped(s, lr, is_left, ud, is_up, tape) == s <==> settled(s, lr, is_left, ud, is_up),
{
    let next = stepped(s, lr, is_left, ud, is_up, tape);
    let rows = s.len() as int;
    assert forall|i: int| 0 <= i < rows implies (next[i] == s[i]) == #[trigger] calm(
        s[i],
        lr[i],
        ud[i],
        shifted(lr[i], is_left),
        ud[beside(i, rows, is_up)],
    ) by {
        lemma_stretch((3 * n) as int, i, rows);
        let piece = tape.subrange(3 * n * i, 3 * n * (i + 1));
        assert(uniform(piece, 0));
        lemma_updated_never(
            s[i],
            lr[i],
            ud[i],
            shifted(lr[i], is_left),
            ud[beside(i, rows, is_up)],
            piece,
        );
    }
    if settled(s, lr, is_left, ud, is_up) {
        assert forall|i: int| 0 <= i < rows implies next[i] == s[i] by {
            assert(calm(s[i], lr[i], ud[i], shifted(lr[i], is_left), ud[beside(i, rows, is_up)]));
        }
        assert(next =~= s);
    }
}

/// Under full masks an update turns over every site of a sub-lattice.
pub proof fn lemma_stepped_certain(
    s: Seq<Seq<u128>>,
    lr: Seq<Seq<u128>>,
    is_left: bool,
    ud: Seq<Seq<u128>>,
    is_up: bool,
    tape: Seq<u128>,
    n: nat,
)
    requires
        square(s, n),
        tape.len() == 3 * n * s.len(),
        uniform(tape, ALL_UP),
    ensures
        stepped(s, lr, is_left, ud, is_up, tape) == inverted_block(s),
{
    let next = stepped(s, lr, is_left, ud, is_up, tape);
    let rows = s.len() as int;
    assert forall|i: int| 0 <= i < rows implies next[i] == inverted(s[i]) by {
        lemma_stretch((3 * n) as int, i, rows);
        let piece = tape.subrange(3 * n * i, 3 * n * (i + 1));
        assert(uniform(piece, ALL_UP));
        lemma_updated_certain(
            s[i],
            lr[i],
            ud[i],
            shifted(lr[i], is_left),
            ud[beside(i, rows, is_up)],
            piece,
        );
    }
    assert(next =~= inverted_block(s));
}

/// The row that holds the second vertical neighbours of row `i`.
fn beside_row(i: usize, rows: usize, is_up: bool) -> (j: usize)
    requires
        i < rows,
    ensures
        j == beside(i as int, rows as int, is_up),
        j < rows,
{
    if is_up {
        if i + 1 == rows {
            0
        } else {
            i + 1
        }
    } else {
        if i == 0 {
            rows - 1
        } else {
            i - 1
        }
    }
}

/// One colour class of the lattice.
pub struct SubLat {
    row: Vec<Line>,
}

impl View for SubLat {
    type V = Seq<Seq<u128>>;

    closed spec fn view(&self) -> Seq<Seq<u128>> {
        Seq::new(self.row@.len(), |i: int| self.row@[i]@)
    }
}

impl SubLat {
    /// Width of the sub-lattice in words.
    pub open spec fn words(&self) -> nat {
        self@[0].len()
    }

    /// Whether the sub-lattice is a square block of one of the widths that
    /// the library handles.
    pub open spec fn wf(&self) -> bool {
        square(self@, self.words())
    }

    /// A sub-lattice of width `n` words with every site down.
    pub fn new(n: usize) -> (r: Self)
        requires
            1 <= n <= MAX_WORDS,
        ensures
            r.wf(),
            r.words() == n,
            r@ == Seq::new((128 * n) as nat, |i: int| Seq::new(n as nat, |j: int| 0u128)),
    {
        let rows: usize = ROWS_PER_WORD * n;
        let mut row: Vec<Line> = Vec::with_capacity(rows);
        for i in 0..rows
            invariant
                row@.len() == i,
                forall|k: int| 0 <= k < i ==> (#[trigger] row@[k])@ == Seq::new(n as nat, |j: int| 0u128),
        {
            let line = Line::new(n);
            row.push(line);
        }
        let r = SubLat { row };
        assert(r@ =~= Seq::new((128 * n) as nat, |i: int| Seq::new(n as nat, |j: int| 0u128)));
        r
    }

    /// Width of the sub-lattice in words.
    pub fn width(&self) -> (n: usize)
        requires
            self.wf(),
        ensures
            n == self.words(),
            1 <= n <= MAX_WORDS,
    {
        assert(self@[0] == self.row@[0]@);
        self.row[0].len()
    }

    /// Number of rows.
    pub fn rows(&self) -> (r: usize)
        ensures
            r == self@.len(),
    {
        self.row.len()
    }

    /// Word `j` of row `i`.
    pub fn word(&self, i: usize, j: usize) -> (w: u128)
        requires
            i < self@.len(),
            j < self@[i as int].len(),
        ensures
            w == self@[i as int][j as int],
    {
        self.row[i].word(j)
    }

    /// Replaces word `j` of row `i` by `w`.
    pub fn set_word(&mut self, i: usize, j: usize, w: u128)
        requires
            i < old(self)@.len(),
            j < old(self)@[i as int].len(),
        ensures
            final(self)@ == old(self)@.update(i as int, old(self)@[i as int].update(j as int, w)),
    {
        self.row[i].set_word(j, w);
        assert(self@ =~= old(self)@.update(i as int, old(self)@[i as int].update(j as int, w)));
    }

    /// One update of the sub-lattice against the sub-lattices `lr` and `ud`
    /// of other colours, with the masks taken from `tape`.
    pub fn update_with(
        &mut self,
        tape: &[u128],
        lr: &SubLat,
        is_left: bool,
        ud: &SubLat,
        is_up: bool,
    )
        requires
            old(self).wf(),
            lr.wf(),
            ud.wf(),
            lr.words() == old(self).words(),
            ud.words() == old(self).words(),
            tape@.len() == 3 * old(self).words() * old(self)@.len(),
        ensures
            final(self).wf(),
            final(self).words() == old(self).words(),
            final(self)@ == stepped(old(self)@, lr@, is_left, ud@, is_up, tape@),
    {
        let rows: usize = self.row.len();
        assert(self@[0] == self.row@[0]@);
        let n: usize = self.row[0].len();
        let per_row: usize = MASKS_PER_WORD * n;
        let total: usize = tape.len();
        let mut at: usize = 0;
        assert(per_row * 0 == 0);
        for i in 0..rows
            invariant
                rows == self@.len(),
                rows == old(self)@.len(),
                square(old(self)@, n as nat),
                square(lr@, n as nat),
                square(ud@, n as nat),
                per_row == 3 * n,
                total == tape@.len(),
                total == per_row * rows,
                at == per_row * i,
                forall|k: int|
                    0 <= k < i ==> #[trigger] self@[k] == stepped(
                        old(self)@,
                        lr@,
                        is_left,
                        ud@,
                        is_up,
                        tape@,
                    )[k],
                forall|k: int| i <= k < rows ==> #[trigger] self@[k] == old(self)@[k],
        {
            proof {
                lemma_stretch(per_row as int, i as int, rows as int);
            }
            let side: Line = lr.row[i].shift(is_left);
            let j: usize = beside_row(i, rows, is_up);
            let piece = slice_subrange(tape, at, at + per_row);
            let ghost prev = self@;
            assert(lr@[i as int] == lr.row@[i as int]@);
            assert(ud@[i as int] == ud.row@[i as int]@);
            assert(ud@[j as int] == ud.row@[j as int]@);
            assert(prev[i as int] == self.row@[i as int]@);
            self.row[i].update_with(piece, &lr.row[i], &ud.row[i], &side, &ud.row[j]);
            at = at + per_row;
            proof {
                assert(self@ =~= prev.update(i as int, self.row@[i as int]@));
                assert(3 * old(self)@[i as int].len() * i == per_row * i);
                assert(3 * old(self)@[i as int].len() * (i + 1) == per_row * (i + 1));
            }
        }
        assert(self@ =~= stepped(old(self)@, lr@, is_left, ud@, is_up, tape@));
        assert(self@[0].len() == n);
    }

    /// One update of the sub-lattice against the sub-lattices `lr` and `ud`
    /// of other colours, with fresh masks drawn from `r` row by row. The
    /// sub-lattice that results is the update under some tape that `r` can
    /// draw.
    pub fn update(
        &mut self,
        r: &mut MaskSource,
        lr: &SubLat,
        is_left: bool,
        ud: &SubLat,
        is_up: bool,
    )
        requires
            old(self).wf(),
            lr.wf(),
            ud.wf(),
            lr.words() == old(self).words(),
            ud.words() == old(self).words(),
        ensures
            final(self).wf(),
            final(self).words() == old(self).words(),
            final(r).digits() == old(r).digits(),
            exists|tape: Seq<u128>|
                {
                    &&& tape.len() == 3 * old(self).words() * old(self)@.len()
                    &&& drawn(old(r).digits(), tape)
                    &&& final(self)@ == stepped(old(self)@, lr@, is_left, ud@, is_up, tape)
                },
    {
        let rows: usize = self.row.len();
        assert(self@[0] == self.row@[0]@);
        let n: usize = self.row[0].len();
        let ghost per_row: int = 3 * n;
        let ghost mut tape: Seq<u128> = Seq::empty();
        assert(per_row * 0 == 0);
        for i in 0..rows
            invariant
                rows == self@.len(),
                rows == old(self)@.len(),
                square(old(self)@, n as nat),
                square(lr@, n as nat),
                square(ud@, n as nat),
                per_row == 3 * n,
                r.digits() == old(r).digits(),
                tape.len() == per_row * i,
                drawn(old(r).digits(), tape),
                forall|k: int|
                    0 <= k < i ==> #[trigger] self@[k] == stepped(
                        old(self)@,
                        lr@,
                        is_left,
                        ud@,
                        is_up,
                        tape,
                    )[k],
                forall|k: int| i <= k < rows ==> #[trigger] self@[k] == old(self)@[k],
        {
            let side: Line = lr.row[i].shift(is_left);
            let j: usize = beside_row(i, rows, is_up);
            let ghost prev = self@;
            assert(lr@[i as int] == lr.row@[i as int]@);
            assert(ud@[i as int] == ud.row@[i as int]@);
            assert(ud@[j as int] == ud.row@[j as int]@);
            assert(prev[i as int] == self.row@[i as int]@);
            self.row[i].update(r, &lr.row[i], &ud.row[i], &side, &ud.row[j]);
            proof {
                assert(self@ =~= prev.update(i as int, self.row@[i as int]@));
                let now = self.row@[i as int]@;
                let t = choose|t: Seq<u128>|
                    {
                        &&& t.len() == 3 * prev[i as int].len()
                        &&& drawn(old(r).digits(), t)
                        &&& now == updated(
                            prev[i as int],
                            lr@[i as int],
                            ud@[i as int],
                            side@,
                            ud@[j as int],
                            t,
                        )
                    };
                let longer = tape + t;
                lemma_stretch(per_row, i as int, rows as int);
                assert(longer.subrange(per_row * i, per_row * (i + 1)) =~= t);
                assert forall|k: int| 0 <= k <= i implies #[trigger] self@[k] == stepped(
                    old(self)@,
                    lr@,
                    is_left,
                    ud@,
                    is_up,
                    longer,
                )[k] by {
                    assert(3 * old(self)@[k].len() * k == per_row * k);
                    assert(3 * old(self)@[k].len() * (k + 1) == per_row * (k + 1));
                    if k < i {
                        lemma_stretch(per_row, k, i as int);
                        assert(longer.subrange(per_row * k, per_row * (k + 1))
                            =~= tape.subrange(per_row * k, per_row * (k + 1)));
                    }
                }
                tape = longer;
            }
        }
        assert(self@ =~= stepped(old(self)@, lr@, is_left, ud@, is_up, tape));
        assert(self@[0].len() == n);
        assert(tape.len() == 3 * old(self).words() * old(self)@.len());
    }

    /// Number of sites of the sub-lattice that are up.
    pub fn mag(&self) -> (m: u32)
        requires
            self.wf(),
        ensures
            m == ones_in(flat(self@)),
            m <= 128 * (self.words() * self@.len()),
    {
        let rows: usize = self.row.len();
        assert(self@[0] == self.row@[0]@);
        let n: usize = self.row[0].len();
        let mut result: u32 = 0;
        proof {
            lemma_site_count(n as int);
            assert(self@.subrange(0, 0) =~= Seq::<Seq<u128>>::empty());
        }
        for i in 0..rows
            invariant
                rows == self@.len(),
                square(self@, n as nat),
                128 * (n * rows) <= 0xffff_ffff,
                result == ones_in(flat(self@.subrange(0, i as int))),
        {
            let ghost done = flat(self@.subrange(0, i as int));
            proof {
                lemma_flat_len(self@.subrange(0, i as int), n as nat);
                assert(done + self@[i as int].subrange(0, 0) =~= done);
            }
            for j in 0..n
                invariant
                    i < rows,
                    rows == self@.len(),
                    square(self@, n as nat),
                    128 * (n * rows) <= 0xffff_ffff,
                    done == flat(self@.subrange(0, i as int)),
                    done.len() == n * i,
                    result == ones_in(done + self@[i as int].subrange(0, j as int)),
            {
                let ghost seen = done + self@[i as int].subrange(0, j as int);
                assert(self@[i as int] == self.row@[i as int]@);
                let w: u128 = self.row[i].word(j);
                proof {
                    let more = done + self@[i as int].subrange(0, j + 1);
                    assert(more.drop_last() =~= seen);
                    assert(more.last() == w);
                    lemma_ones_in_bound(seen);
                    lemma_ones_of_word(w);
                    assert(n * i + j + 1 <= n * rows) by (nonlinear_arith)
                        requires
                            0 <= i < rows,
                            0 <= j < n,
                    ;
                }
                result = result + count_up(w);
            }
            proof {
                assert(self@[i as int].subrange(0, n as int) =~= self@[i as int]);
                assert(self@.subrange(0, i + 1).drop_last() =~= self@.subrange(0, i as int));
                assert(self@.subrange(0, i + 1).last() == self@[i as int]);
            }
        }
        proof {
            assert(self@.subrange(0, rows as int) =~= self@);
            lemma_flat_len(self@, n as nat);
            lemma_ones_in_bound(flat(self@));
        }
        result
    }

    /// Number of bytes that the sub-lattice takes in a snapshot.
    pub fn byte_len(&self) -> (len: usize)
        requires
            self.wf(),
        ensures
            len == 16 * (self.words() * self@.len()),
    {
        assert(self@[0] == self.row@[0]@);
        let n: usize = self.row[0].len();
        proof {
            lemma_site_count(n as int);
        }
        WORD_BYTES * (n * self.row.len())
    }

    /// Appends the sub-lattice to `out`: every word of every row, row by row
    /// and word by word within the row, sixteen bytes to the word.
    pub fn store(&self, order: ByteOrder, out: &mut Vec<u8>)
        requires
            self.wf(),
        ensures
            final(out)@ == old(out)@ + encoded_words(order, flat(self@)),
    {
        let rows: usize = self.row.len();
        assert(self@[0] == self.row@[0]@);
        let n: usize = self.row[0].len();
        proof {
            assert(self@.subrange(0, 0) =~= Seq::<Seq<u128>>::empty());
            assert(old(out)@ + encoded_words(order, Seq::<u128>::empty()) =~= old(out)@);
        }
        for i in 0..rows
            invariant
                rows == self@.len(),
                square(self@, n as nat),
                out@ == old(out)@ + encoded_words(order, flat(self@.subrange(0, i as int))),
        {
            let ghost done = flat(self@.subrange(0, i as int));
            proof {
                assert(done + self@[i as int].subrange(0, 0) =~= done);
            }
            for j in 0..n
                invariant
                    i < rows,
                    rows == self@.len(),
                    square(self@, n as nat),
                    done == flat(self@.subrange(0, i as int)),
                    out@ == old(out)@ + encoded_words(
                        order,
                        done + self@[i as int].subrange(0, j as int),
                    ),
            {
                let ghost seen = done + self@[i as int].subrange(0, j as int);
                assert(self@[i as int] == self.row@[i as int]@);
                let w: u128 = self.row[i].word(j);
                put_word(order, w, out);
                proof {
                    let more = done + self@[i as int].subrange(0, j + 1);
                    assert(more =~= seen.push(w));
                    lemma_encoded_push(order, seen, w);
                    assert(out@ =~= old(out)@ + encoded_words(order, more));
                }
            }
            proof {
                assert(self@[i as int].subrange(0, n as int) =~= self@[i as int]);
                assert(self@.subrange(0, i + 1).drop_last() =~= self@.subrange(0, i as int));
                assert(self@.subrange(0, i + 1).last() == self@[i as int]);
            }
        }
        assert(self@.subrange(0, rows as int) =~= self@);
    }

    /// Replaces the sub-lattice by the one that `bytes` holds, as `store`
    /// writes it. The length of `bytes` must be exactly that of a snapshot of
    /// this sub-lattice; otherwise nothing is loaded and the sub-lattice is
    /// left as it was.
    pub fn load(&mut self, order: ByteOrder, bytes: &[u8]) -> (r: Result<(), LoadError>)
        requires
            old(self).wf(),
        ensures
            final(self).wf(),
            final(self).words() == old(self).words(),
            match r {
                Ok(()) => {
                    &&& bytes@.len() == 16 * (old(self).words() * old(self)@.len())
                    &&& final(self)@ == unflat(
                        decoded_words(order, bytes@),
                        old(self).words(),
                        old(self)@.len(),
                    )
                },
                Err(LoadError::Length { expected, found }) => {
                    &&& bytes@.len() != 16 * (old(self).words() * old(self)@.len())
                    &&& expected == 16 * (old(self).words() * old(self)@.len())
                    &&& found == bytes@.len()
                    &&& final(self)@ == old(self)@
                },
            },
    {
        let expected: usize = self.byte_len();
        let found: usize = bytes.len();
        if found != expected {
            return Err(LoadError::Length { expected, found });
        }
        let rows: usize = self.row.len();
        assert(self@[0] == self.row@[0]@);
        let n: usize = self.row[0].len();
        let ghost ws = decoded_words(order, bytes@);
        let mut at: usize = 0;
        assert(16 * (n * 0 + 0) == 0) by (nonlinear_arith);
        for i in 0..rows
            invariant
                rows == self@.len(),
                rows == old(self)@.len(),
                1 <= n <= MAX_WORDS,
                rows == 128 * n,
                forall|k: int| 0 <= k < rows ==> (#[trigger] self@[k]).len() == n,
                found == bytes@.len(),
                found == 16 * (n * rows),
                ws == decoded_words(order, bytes@),
                at == 16 * (n * i),
                forall|k: int|
                    0 <= k < i ==> #[trigger] self@[k] == unflat(ws, n as nat, rows as nat)[k],
        {
            assert(n * i + 0 == n * i);
            for j in 0..n
                invariant
                    i < rows,
                    rows == self@.len(),
                    rows == old(self)@.len(),
                    1 <= n <= MAX_WORDS,
                    rows == 128 * n,
                    forall|k: int| 0 <= k < rows ==> (#[trigger] self@[k]).len() == n,
                    found == bytes@.len(),
                    found == 16 * (n * rows),
                    ws == decoded_words(order, bytes@),
                    at == 16 * (n * i + j),
                    forall|k: int|
                        0 <= k < i ==> #[trigger] self@[k] == unflat(ws, n as nat, rows as nat)[k],
                    forall|l: int| 0 <= l < j ==> self@[i as int][l] == ws[i * n + l],
            {
                proof {
                    assert(n * i + j + 1 <= n * rows && i * n == n * i) by (nonlinear_arith)
                        requires
                            0 <= i < rows,
                            0 <= j < n,
                    ;
                }
                let w: u128 = get_word(order, bytes, at);
                let ghost prev = self@;
                assert(prev[i as int] == self.row@[i as int]@);
                self.row[i].set_word(j, w);
                at = at + WORD_BYTES;
                proof {
                    assert(self@ =~= prev.update(i as int, prev[i as int].update(j as int, w)));
                    let slot = n * i + j;
                    assert(w == ws[slot]);
                }
            }
            proof {
                assert(n * i + n == n * (i + 1)) by (nonlinear_arith);
                assert(self@[i as int] =~= unflat(ws, n as nat, rows as nat)[i as int]);
            }
        }
        assert(self@ =~= unflat(ws, n as nat, rows as nat));
        assert(self@[0].len() == n);
        Ok(())
    }
}

} // verus!
