//! A lattice row: a ring of sites packed into 128-bit words.

use crate::mask::{drawn, uniform, MaskSource};
use crate::word::{
    heat_bath, heat_bath_spec, lemma_heat_bath_certain, lemma_heat_bath_never,
    lemma_heat_bath_sites, several_differ, site_flips, up, ALL_UP,
};
use vstd::prelude::*;

verus! {

/// Masks that one word consumes in an update: two for the aligned sites,
/// one for the sites with a single antiparallel neighbour.
pub const MASKS_PER_WORD: usize = 3;

/// The place before place `i` on a ring of `n` places.
pub open spec fn before(i: int, n: int) -> int {
    if i == 0 {
        n - 1
    } else {
        i - 1
    }
}

/// The place after place `i` on a ring of `n` places.
pub open spec fn after(i: int, n: int) -> int {
    if i + 1 == n {
        0
    } else {
        i + 1
    }
}

/// The row `s` rotated by one site. Rotating right moves every word's bits
/// one place down and carries the lowest bit of each word into the top of
/// the next word; rotating left is the inverse. The last word and the first
/// are adjacent, which makes the row a ring.
pub open spec fn shifted(s: Seq<u128>, right: bool) -> Seq<u128> {
    let n = s.len() as int;
    Seq::new(
        s.len(),
        |i: int|
            if right {
                (s[i] >> 1) | (s[before(i, n)] << 127)
            } else {
                (s[i] << 1) | (s[after(i, n)] >> 127)
            },
    )
}

/// The row `s` after one heat-bath update against the four neighbour rows.
/// Word `i` consumes the masks `tape[3i]`, `tape[3i + 1]` (combined, for the
/// aligned sites) and `tape[3i + 2]`.
pub open spec fn updated(
    s: Seq<u128>,
    n0: Seq<u128>,
    n1: Seq<u128>,
    n2: Seq<u128>,
    n3: Seq<u128>,
    tape: Seq<u128>,
) -> Seq<u128> {
    Seq::new(
        s.len(),
        |i: int|
            heat_bath_spec(
                s[i],
                n0[i],
                n1[i],
                n2[i],
                n3[i],
                tape[3 * i],
                tape[3 * i + 1],
                tape[3 * i + 2],
            ),
    )
}

/// Whether site `c` of the row is up.
pub open spec fn site(row: Seq<u128>, c: int) -> bool {
    up(row[row.len() - 1 - c / 128], (c % 128) as u128)
}

proof fn lemma_rotated_left_site(a: u128, x: u128, k: u128)
    by (bit_vector)
    requires
        k < 128,
    ensures
        up((a << 1) | (x >> 127), k) == if k == 0 {
            up(x, 127)
        } else {
            up(a, (k - 1) as u128)
        },
{
}

proof fn lemma_rotated_right_site(a: u128, p: u128, k: u128)
    by (bit_vector)
    requires
        k < 128,
    ensures
        up((a >> 1) | (p << 127), k) == if k == 127 {
            up(p, 0)
        } else {
            up(a, (k + 1) as u128)
        },
{
}

/// Rotating a row moves every site by one place around the ring: to the
/// right, site `c` takes the value of the site after it; to the left, of the
/// site before it.
pub proof fn lemma_shifted_site(row: Seq<u128>, right: bool, c: int)
    requires
        0 <= c < 128 * row.len(),
    ensures
        site(shifted(row, right), c) == site(
            row,
            if right {
                after(c, (128 * row.len()) as int)
            } else {
                before(c, (128 * row.len()) as int)
            },
        ),
{
    let len = row.len() as int;
    let j = len - 1 - c / 128;
    let k = (c % 128) as u128;
    if right {
        lemma_rotated_right_site(row[j], row[before(j, len)], k);
    } else {
        lemma_rotated_left_site(row[j], row[after(j, len)], k);
    }
}

/// An update of a row toggles site `c` exactly when the heat-bath rule says
/// so of the site's disagreements with site `c` of the four neighbour rows
/// and of the mask bits at its place.
pub proof fn lemma_updated_site(
    s: Seq<u128>,
    n0: Seq<u128>,
    n1: Seq<u128>,
    n2: Seq<u128>,
    n3: Seq<u128>,
    tape: Seq<u128>,
    c: int,
)
    requires
        n0.len() == s.len(),
        n1.len() == s.len(),
        n2.len() == s.len(),
        n3.len() == s.len(),
        tape.len() == 3 * s.len(),
        0 <= c < 128 * s.len(),
    ensures
        ({
            let j = s.len() - 1 - c / 128;
            let k = (c % 128) as u128;
            (site(updated(s, n0, n1, n2, n3, tape), c) != site(s, c)) == site_flips(
                site(s, c) != site(n0, c),
                site(s, c) != site(n1, c),
                site(s, c) != site(n2, c),
                site(s, c) != site(n3, c),
                up(tape[3 * j], k) && up(tape[3 * j + 1], k),
                up(tape[3 * j + 2], k),
            )
        }),
{
    let j = s.len() - 1 - c / 128;
    let k = (c % 128) as u128;
    lemma_heat_bath_sites(
        s[j],
        n0[j],
        n1[j],
        n2[j],
        n3[j],
        tape[3 * j],
        tape[3 * j + 1],
        tape[3 * j + 2],
        k,
    );
}

proof fn lemma_right_then_left(a: u128, p: u128, x: u128)
    by (bit_vector)
    ensures
        (((a >> 1) | (p << 127)) << 1) | (((x >> 1) | (a << 127)) >> 127) == a,
{
}

proof fn lemma_left_then_right(a: u128, p: u128, x: u128)
    by (bit_vector)
    ensures
        (((a << 1) | (x >> 127)) >> 1) | (((p << 1) | (a >> 127)) << 127) == a,
{
}

/// Rotating a row by one site and then back restores every word, whichever
/// direction comes first and whatever the row holds.
pub proof fn lemma_shift_there_and_back(s: Seq<u128>, right: bool)
    ensures
        shifted(shifted(s, right), !right) == s,
{
    let n = s.len() as int;
    let there = shifted(s, right);
    let back = shifted(there, !right);
    assert forall|i: int| 0 <= i < n implies back[i] == s[i] by {
        if right {
            assert(before(after(i, n), n) == i);
            lemma_right_then_left(s[i], s[before(i, n)], s[after(i, n)]);
        } else {
            assert(after(before(i, n), n) == i);
            lemma_left_then_right(s[i], s[before(i, n)], s[after(i, n)]);
        }
    }
    assert(back =~= s);
}

/// The row with every site turned over.
pub open spec fn inverted(s: Seq<u128>) -> Seq<u128> {
    Seq::new(s.len(), |i: int| !s[i])
}

/// Whether no site of the word `w` has two or more antiparallel neighbours
/// among the sites at its place in the four neighbour words.
pub open spec fn calm_word(w: u128, n0: u128, n1: u128, n2: u128, n3: u128) -> bool {
    several_differ(w ^ n0, w ^ n1, w ^ n2, w ^ n3) == 0
}

/// Whether no site of the row `s` has two or more antiparallel neighbours
/// among the sites at its place in the four neighbour rows.
pub open spec fn calm(s: Seq<u128>, n0: Seq<u128>, n1: Seq<u128>, n2: Seq<u128>, n3: Seq<u128>) -> bool {
    forall|i: int| 0 <= i < s.len() ==> #[trigger] calm_word(s[i], n0[i], n1[i], n2[i], n3[i])
}

proof fn lemma_toggle_nothing(w: u128, m: u128)
    by (bit_vector)
    ensures
        (w ^ m == w) == (m == 0),
{
}

/// Under empty masks an update leaves a row as it is exactly when the row is
/// calm: the sites with two or more antiparallel neighbours flip whatever the
/// masks, and no others do.
pub proof fn lemma_updated_never(
    s: Seq<u128>,
    n0: Seq<u128>,
    n1: Seq<u128>,
    n2: Seq<u128>,
    n3: Seq<u128>,
    tape: Seq<u128>,
)
    requires
        tape.len() == 3 * s.len(),
        uniform(tape, 0),
    ensures
        updated(s, n0, n1, n2, n3, tape) == s <==> calm(s, n0, n1, n2, n3),
{
    let after = updated(s, n0, n1, n2, n3, tape);
    assert forall|i: int| 0 <= i < s.len() implies (after[i] == s[i]) == #[trigger] calm_word(
        s[i],
        n0[i],
        n1[i],
        n2[i],
        n3[i],
    ) by {
        assert(tape[3 * i] == 0 && tape[3 * i + 1] == 0 && tape[3 * i + 2] == 0);
        lemma_heat_bath_never(s[i], n0[i], n1[i], n2[i], n3[i]);
        lemma_toggle_nothing(
            s[i],
            several_differ(s[i] ^ n0[i], s[i] ^ n1[i], s[i] ^ n2[i], s[i] ^ n3[i]),
        );
    }
    if calm(s, n0, n1, n2, n3) {
        assert forall|i: int| 0 <= i < s.len() implies after[i] == s[i] by {
            assert(calm_word(s[i], n0[i], n1[i], n2[i], n3[i]));
        }
        assert(after =~= s);
    }
}

/// Under full masks an update turns over every site of a row, whatever its
/// neighbours are: each site with an antiparallel neighbour flips, and so
/// does each site without one.
pub proof fn lemma_updated_certain(
    s: Seq<u128>,
    n0: Seq<u128>,
    n1: Seq<u128>,
    n2: Seq<u128>,
    n3: Seq<u128>,
    tape: Seq<u128>,
)
    requires
        tape.len() == 3 * s.len(),
        uniform(tape, ALL_UP),
    ensures
        updated(s, n0, n1, n2, n3, tape) == inverted(s),
{
    let after = updated(s, n0, n1, n2, n3, tape);
    assert forall|i: int| 0 <= i < s.len() implies after[i] == !s[i] by {
        assert(tape[3 * i] == ALL_UP && tape[3 * i + 1] == ALL_UP && tape[3 * i + 2] == ALL_UP);
        lemma_heat_bath_certain(s[i], n0[i], n1[i], n2[i], n3[i]);
    }
    assert(after =~= inverted(s));
}

/// One row of a sub-lattice.
pub struct Line {
    c: Vec<u128>,
}

impl View for Line {
    type V = Seq<u128>;

    closed spec fn view(&self) -> Seq<u128> {
        self.c@
    }
}

impl Clone for Line {
    fn clone(&self) -> (r: Self)
        ensures
            r@ == self@,
    {
        Line { c: self.c.clone() }
    }
}

impl Line {
    /// A row of `n` words with every site down.
    pub fn new(n: usize) -> (r: Self)
        ensures
            r@ == Seq::new(n as nat, |i: int| 0u128),
    {
        let mut c: Vec<u128> = Vec::with_capacity(n);
        for i in 0..n
            invariant
                c@ == Seq::new(i as nat, |j: int| 0u128),
        {
            c.push(0u128);
            assert(c@ =~= Seq::new((i + 1) as nat, |j: int| 0u128));
        }
        Line { c }
    }

    /// The row that holds exactly `words`.
    pub fn from_words(words: Vec<u128>) -> (r: Self)
        ensures
            r@ == words@,
    {
        Line { c: words }
    }

    /// Number of words in the row.
    pub fn len(&self) -> (n: usize)
        ensures
            n == self@.len(),
    {
        self.c.len()
    }

    /// Word `i` of the row.
    pub fn word(&self, i: usize) -> (w: u128)
        requires
            i < self@.len(),
        ensures
            w == self@[i as int],
    {
        self.c[i]
    }

    /// Replaces word `i` of the row by `w`.
    pub fn set_word(&mut self, i: usize, w: u128)
        requires
            i < old(self)@.len(),
        ensures
            final(self)@ == old(self)@.update(i as int, w),
    {
        self.c[i] = w;
    }

    /// The row rotated by one site, to the right or to the left. Rotated
    /// to the right, each site takes the value of the site after it on the
    /// ring; rotated to the left, of the site before it.
    pub fn shift(&self, right: bool) -> (r: Self)
        ensures
            r@ == shifted(self@, right),
            forall|c: int|
                0 <= c < 128 * self@.len() ==> #[trigger] site(r@, c) == site(
                    self@,
                    if right {
                        after(c, (128 * self@.len()) as int)
                    } else {
                        before(c, (128 * self@.len()) as int)
                    },
                ),
    {
        proof {
            assert forall|c: int| 0 <= c < 128 * self@.len() implies #[trigger] site(
                shifted(self@, right),
                c,
            ) == site(
                self@,
                if right {
                    after(c, (128 * self@.len()) as int)
                } else {
                    before(c, (128 * self@.len()) as int)
                },
            ) by {
                lemma_shifted_site(self@, right, c);
            }
        }
        let n: usize = self.c.len();
        let mut c: Vec<u128> = Vec::with_capacity(n);
        if n == 0 {
            assert(c@ =~= shifted(self@, right));
            return Line { c };
        }
        if right {
            c.push((self.c[0] >> 1) | (self.c[n - 1] << 127));
            for i in 1..n
                invariant
                    n == self.c@.len(),
                    c@.len() == i,
                    forall|j: int| 0 <= j < i ==> c@[j] == shifted(self@, true)[j],
            {
                c.push((self.c[i] >> 1) | (self.c[i - 1] << 127));
            }
        } else {
            for i in 0..(n - 1)
                invariant
                    n >= 1,
                    n == self.c@.len(),
                    c@.len() == i,
                    forall|j: int| 0 <= j < i ==> c@[j] == shifted(self@, false)[j],
            {
                c.push((self.c[i] << 1) | (self.c[i + 1] >> 127));
            }
            c.push((self.c[n - 1] << 1) | (self.c[0] >> 127));
        }
        assert(c@ =~= shifted(self@, right));
        Line { c }
    }

    /// One heat-bath update of the row against its four neighbour rows, with
    /// the masks taken from `tape`, three per word.
    pub fn update_with(&mut self, tape: &[u128], n0: &Line, n1: &Line, n2: &Line, n3: &Line)
        requires
            tape@.len() == 3 * old(self)@.len(),
            n0@.len() == old(self)@.len(),
            n1@.len() == old(self)@.len(),
            n2@.len() == old(self)@.len(),
            n3@.len() == old(self)@.len(),
        ensures
            final(self)@ == updated(old(self)@, n0@, n1@, n2@, n3@, tape@),
    {
        let n: usize = self.c.len();
        let masks: usize = tape.len();
        for i in 0..n
            invariant
                n == self.c@.len(),
                n == old(self)@.len(),
                tape@.len() == 3 * n,
                masks == 3 * n,
                n0@.len() == n,
                n1@.len() == n,
                n2@.len() == n,
                n3@.len() == n,
                forall|j: int|
                    0 <= j < i ==> self.c@[j] == updated(old(self)@, n0@, n1@, n2@, n3@, tape@)[j],
                forall|j: int| i <= j < n ==> self.c@[j] == old(self)@[j],
        {
            let at: usize = MASKS_PER_WORD * i;
            let w: u128 = heat_bath(
                self.c[i],
                n0.c[i],
                n1.c[i],
                n2.c[i],
                n3.c[i],
                tape[at],
                tape[at + 1],
                tape[at + 2],
            );
            self.c[i] = w;
        }
        assert(self.c@ =~= updated(old(self)@, n0@, n1@, n2@, n3@, tape@));
    }

    /// One heat-bath update of the row against its four neighbour rows, with
    /// three fresh masks drawn from `r` for each word, in the order of the
    /// words. The row that results is the update under some tape that `r`
    /// can draw.
    pub fn update(&mut self, r: &mut MaskSource, n0: &Line, n1: &Line, n2: &Line, n3: &Line)
        requires
            n0@.len() == old(self)@.len(),
            n1@.len() == old(self)@.len(),
            n2@.len() == old(self)@.len(),
            n3@.len() == old(self)@.len(),
        ensures
            final(r).digits() == old(r).digits(),
            exists|tape: Seq<u128>|
                {
                    &&& tape.len() == 3 * old(self)@.len()
                    &&& drawn(old(r).digits(), tape)
                    &&& final(self)@ == updated(old(self)@, n0@, n1@, n2@, n3@, tape)
                },
    {
        let n: usize = self.c.len();
        let ghost mut tape: Seq<u128> = Seq::empty();
        for i in 0..n
            invariant
                n == self.c@.len(),
                n == old(self)@.len(),
                n0@.len() == n,
                n1@.len() == n,
                n2@.len() == n,
                n3@.len() == n,
                r.digits() == old(r).digits(),
                tape.len() == 3 * i,
                drawn(old(r).digits(), tape),
                forall|j: int|
                    0 <= j < i ==> self.c@[j] == heat_bath_spec(
                        old(self)@[j],
                        n0@[j],
                        n1@[j],
                        n2@[j],
                        n3@[j],
                        tape[3 * j],
                        tape[3 * j + 1],
                        tape[3 * j + 2],
                    ),
                forall|j: int| i <= j < n ==> self.c@[j] == old(self)@[j],
        {
            let first: u128 = r.draw();
            let second: u128 = r.draw();
            let third: u128 = r.draw();
            let w: u128 = heat_bath(self.c[i], n0.c[i], n1.c[i], n2.c[i], n3.c[i], first, second, third);
            self.c[i] = w;
            proof {
                tape = tape.push(first).push(second).push(third);
            }
        }
        assert(self.c@ =~= updated(old(self)@, n0@, n1@, n2@, n3@, tape));
    }
}

} // verus!
