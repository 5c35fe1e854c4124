//! The probability-mask source: words whose bits are set with a probability
//! that a temperature signature fixes.
//!
//! A signature is a binary fraction `0.d0 d1 d2 ...`, written as a string of
//! the characters `0` and `1`. A mask is blended from one random word per
//! digit, last digit first: a digit `1` ORs the word into the mask, a digit
//! `0` ANDs it. With uniform random words each bit of the result is set with
//! exactly the probability that the fraction denotes.

use crate::rnd::rng;
use crate::word::{tally, up};
use rand::rngs::SmallRng;
use vstd::arithmetic::power2::{lemma_pow2_pos, lemma_pow2_unfold, pow2};
use vstd::prelude::*;
use vstd::string::StringSliceAdditionalSpecFns;

verus! {

/// Why a text is not a temperature signature.
#[derive(Clone, Copy, Debug, PartialEq, Eq, Structural)]
pub enum SignatureError {
    /// The text holds no digit at all.
    Empty,
    /// The byte at this offset is neither `0` nor `1`.
    Digit(usize),
}

/// Whether `b` is the character `0` or the character `1`.
pub open spec fn is_binary_digit(b: u8) -> bool {
    b == 0x30 || b == 0x31
}

/// The digits that a text of binary digits denotes.
pub open spec fn digits_of(bytes: Seq<u8>) -> Seq<bool> {
    Seq::new(bytes.len(), |i: int| bytes[i] == 0x31)
}

/// What `parse` makes of a text, given as its bytes: the digits if the text
/// is a non-empty run of binary digits, else the first thing wrong with it.
pub open spec fn parsed(bytes: Seq<u8>, r: Result<Seq<bool>, SignatureError>) -> bool {
    match r {
        Ok(digits) => {
            &&& bytes.len() > 0
            &&& forall|i: int| 0 <= i < bytes.len() ==> is_binary_digit(#[trigger] bytes[i])
            &&& digits == digits_of(bytes)
        },
        Err(SignatureError::Empty) => bytes.len() == 0,
        Err(SignatureError::Digit(at)) => {
            &&& at < bytes.len()
            &&& !is_binary_digit(bytes[at as int])
            &&& forall|i: int| 0 <= i < at ==> is_binary_digit(#[trigger] bytes[i])
        },
    }
}

/// One blending step: a digit `1` sets every site that `word` or the mask so
/// far has set, a digit `0` only those that both have set.
pub open spec fn blended(digit: bool, word: u128, rest: u128) -> u128 {
    if digit {
        word | rest
    } else {
        word & rest
    }
}

/// The mask blended from `words` under `digits`, one word per digit.
pub open spec fn folded(digits: Seq<bool>, words: Seq<u128>) -> u128
    decreases digits.len(),
{
    if digits.len() == 0 {
        0
    } else {
        blended(digits[0], words[0], folded(digits.drop_first(), words.drop_first()))
    }
}

/// Whether `mask` can come out of a source with these digits: whether some
/// choice of random words blends to it.
pub open spec fn yields(digits: Seq<bool>, mask: u128) -> bool {
    exists|words: Seq<u128>| words.len() == digits.len() && mask == folded(digits, words)
}

/// Whether every mask on `tape` can come out of a source with these digits.
pub open spec fn drawn(digits: Seq<bool>, tape: Seq<u128>) -> bool {
    forall|i: int| 0 <= i < tape.len() ==> yields(digits, #[trigger] tape[i])
}

/// Whether every mask on `tape` is `mask`.
pub open spec fn uniform(tape: Seq<u128>, mask: u128) -> bool {
    forall|i: int| 0 <= i < tape.len() ==> #[trigger] tape[i] == mask
}

/// Whether the fraction is zero: no digit is set.
pub open spec fn never(digits: Seq<bool>) -> bool {
    forall|i: int| 0 <= i < digits.len() ==> !#[trigger] digits[i]
}

/// The number that binary digits spell, most significant digit first. The
/// fraction that a signature of `n` digits denotes is this number over
/// `2^n`.
pub open spec fn numeral(digits: Seq<bool>) -> nat
    decreases digits.len(),
{
    if digits.len() == 0 {
        0
    } else {
        (tally(digits[0]) * pow2((digits.len() - 1) as nat) + numeral(digits.drop_first())) as nat
    }
}

/// Site `k` of each word, turned over.
pub open spec fn against(words: Seq<u128>, k: u128) -> Seq<bool> {
    Seq::new(words.len(), |i: int| !up(words[i], k))
}

proof fn lemma_blend_site(digit: bool, word: u128, rest: u128, k: u128)
    by (bit_vector)
    requires
        k < 128,
    ensures
        up(word | rest, k) == (up(word, k) || up(rest, k)),
        up(word & rest, k) == (up(word, k) && up(rest, k)),
        !up(0, k),
{
}

/// `n` binary digits spell a number below `2^n`.
pub proof fn lemma_numeral_below(digits: Seq<bool>)
    ensures
        numeral(digits) < pow2(digits.len()),
    decreases digits.len(),
{
    if digits.len() == 0 {
        lemma_pow2_pos(0);
    } else {
        lemma_numeral_below(digits.drop_first());
        lemma_pow2_unfold(digits.len());
    }
}

/// Site `k` of a blended mask is set exactly when the number spelled by
/// site `k` of the words, each turned over, is below the number spelled by
/// the digits. If the words are uniformly random, so is that number among
/// the `2^n` numbers of `n` digits; hence each site of the mask is set with
/// probability `numeral(digits) / 2^n`, which is the fraction that the
/// signature denotes, and sites at different places depend on different
/// bits of the words.
pub proof fn lemma_mask_site_threshold(digits: Seq<bool>, words: Seq<u128>, k: u128)
    requires
        words.len() == digits.len(),
        k < 128,
    ensures
        up(folded(digits, words), k) <==> numeral(against(words, k)) < numeral(digits),
    decreases digits.len(),
{
    if digits.len() == 0 {
        lemma_blend_site(false, 0, 0, k);
    } else {
        let rest_digits = digits.drop_first();
        let rest_words = words.drop_first();
        let rest = folded(rest_digits, rest_words);
        lemma_mask_site_threshold(rest_digits, rest_words, k);
        lemma_blend_site(digits[0], words[0], rest, k);
        assert(against(words, k).drop_first() =~= against(rest_words, k));
        lemma_numeral_below(against(rest_words, k));
        lemma_numeral_below(rest_digits);
        lemma_pow2_pos((digits.len() - 1) as nat);
    }
}

/// The fraction is zero exactly when no digit is set.
pub proof fn lemma_never_is_zero(digits: Seq<bool>)
    ensures
        never(digits) <==> numeral(digits) == 0,
    decreases digits.len(),
{
    if digits.len() > 0 {
        let rest = digits.drop_first();
        lemma_never_is_zero(rest);
        lemma_pow2_pos((digits.len() - 1) as nat);
        if never(digits) {
            assert(!digits[0]);
            assert forall|i: int| 0 <= i < rest.len() implies !#[trigger] rest[i] by {
                assert(!digits[i + 1]);
            }
        }
        if numeral(digits) == 0 {
            assert forall|i: int| 0 <= i < digits.len() implies !#[trigger] digits[i] by {
                if i > 0 {
                    assert(!rest[i - 1]);
                }
            }
        }
    }
}

proof fn lemma_and_zero(w: u128)
    by (bit_vector)
    ensures
        w & 0 == 0,
{
}

/// Under a zero fraction every blend is the empty mask, whatever the words.
pub proof fn lemma_folded_never(digits: Seq<bool>, words: Seq<u128>)
    requires
        never(digits),
    ensures
        folded(digits, words) == 0,
    decreases digits.len(),
{
    if digits.len() > 0 {
        assert(!digits[0]);
        assert forall|i: int| 0 <= i < digits.drop_first().len() implies !#[trigger] digits.drop_first()[i] by {
            assert(!digits[i + 1]);
        }
        lemma_folded_never(digits.drop_first(), words.drop_first());
        lemma_and_zero(words[0]);
    }
}

proof fn lemma_blend_blank(digit: bool)
    ensures
        blended(digit, 0, 0) == 0,
{
    assert(0u128 | 0u128 == 0u128) by (bit_vector);
    assert(0u128 & 0u128 == 0u128) by (bit_vector);
}

/// Empty words blend to the empty mask under any digits.
pub proof fn lemma_folded_blank(digits: Seq<bool>)
    ensures
        folded(digits, Seq::new(digits.len(), |i: int| 0u128)) == 0,
    decreases digits.len(),
{
    if digits.len() > 0 {
        let words = Seq::new(digits.len(), |i: int| 0u128);
        let rest = digits.drop_first();
        assert(words.drop_first() =~= Seq::new(rest.len(), |i: int| 0u128));
        lemma_folded_blank(rest);
        lemma_blend_blank(digits[0]);
    }
}

/// Every source can draw a tape of empty masks, of any length.
pub proof fn lemma_blank_is_drawn(digits: Seq<bool>, len: nat)
    ensures
        drawn(digits, Seq::new(len, |i: int| 0u128)),
{
    lemma_folded_blank(digits);
    let words = Seq::new(digits.len(), |i: int| 0u128);
    assert(words.len() == digits.len() && 0u128 == folded(digits, words));
    assert(yields(digits, 0u128));
}

/// A source with a zero fraction draws nothing but empty masks.
pub proof fn lemma_drawn_never(digits: Seq<bool>, tape: Seq<u128>)
    requires
        never(digits),
        drawn(digits, tape),
    ensures
        uniform(tape, 0),
{
    assert forall|i: int| 0 <= i < tape.len() implies tape[i] == 0 by {
        assert(yields(digits, tape[i]));
        let words = choose|words: Seq<u128>|
            words.len() == digits.len() && tape[i] == folded(digits, words);
        lemma_folded_never(digits, words);
    }
}

/// A temperature signature: the digits of the acceptance probability.
pub struct Signature {
    digits: Vec<bool>,
}

impl View for Signature {
    type V = Seq<bool>;

    closed spec fn view(&self) -> Seq<bool> {
        self.digits@
    }
}

impl Signature {
    /// The signature with exactly these digits, most significant first.
    pub fn from_digits(digits: Vec<bool>) -> (r: Self)
        ensures
            r@ == digits@,
    {
        Signature { digits }
    }

    /// Reads a signature from its text. The text must be a non-empty run of
    /// the characters `0` and `1`; otherwise the first fault is reported.
    pub fn parse(text: &str) -> (r: Result<Self, SignatureError>)
        ensures
            parsed(
                text.spec_bytes(),
                match r {
                    Ok(sig) => Ok(sig@),
                    Err(e) => Err(e),
                },
            ),
    {
        let bytes = text.as_bytes();
        let n: usize = bytes.len();
        if n == 0 {
            return Err(SignatureError::Empty);
        }
        let mut digits: Vec<bool> = Vec::with_capacity(n);
        for i in 0..n
            invariant
                n == bytes@.len(),
                bytes@ == text.spec_bytes(),
                digits@.len() == i,
                forall|j: int| 0 <= j < i ==> is_binary_digit(#[trigger] bytes@[j]),
                forall|j: int| 0 <= j < i ==> digits@[j] == (bytes@[j] == 0x31),
        {
            let b: u8 = bytes[i];
            if b == 0x31 {
                digits.push(true);
            } else if b == 0x30 {
                digits.push(false);
            } else {
                return Err(SignatureError::Digit(i));
            }
        }
        assert(digits@ =~= digits_of(bytes@));
        Ok(Signature { digits })
    }

    /// Number of digits.
    pub fn len(&self) -> (n: usize)
        ensures
            n == self@.len(),
    {
        self.digits.len()
    }

    /// Digit `i`, counted from the most significant one.
    pub fn digit(&self, i: usize) -> (d: bool)
        requires
            i < self@.len(),
        ensures
            d == self@[i as int],
    {
        self.digits[i]
    }

    /// Whether the probability is zero.
    pub fn is_never(&self) -> (b: bool)
        ensures
            b == never(self@),
    {
        let n: usize = self.digits.len();
        for i in 0..n
            invariant
                n == self.digits@.len(),
                forall|j: int| 0 <= j < i ==> !#[trigger] self.digits@[j],
        {
            if self.digits[i] {
                return false;
            }
        }
        true
    }

    /// One blending step.
    pub fn blend(digit: bool, word: u128, rest: u128) -> (m: u128)
        ensures
            m == blended(digit, word, rest),
    {
        if digit {
            word | rest
        } else {
            word & rest
        }
    }

    /// The mask blended from `words`, one word per digit. Site `k` of the
    /// mask is set exactly when the number spelled by site `k` of the words,
    /// each turned over, is below the number spelled by the digits.
    pub fn fold(&self, words: &[u128]) -> (m: u128)
        requires
            words@.len() == self@.len(),
        ensures
            m == folded(self@, words@),
            forall|k: u128|
                k < 128 ==> (#[trigger] up(m, k) <==> numeral(against(words@, k)) < numeral(
                    self@,
                )),
    {
        proof {
            assert forall|k: u128| k < 128 implies (#[trigger] up(folded(self@, words@), k)
                <==> numeral(against(words@, k)) < numeral(self@)) by {
                lemma_mask_site_threshold(self@, words@, k);
            }
        }
        let n: usize = self.digits.len();
        let mut m: u128 = 0;
        let mut j: usize = n;
        assert(self@.subrange(n as int, n as int) =~= Seq::<bool>::empty());
        while j > 0
            invariant
                j <= n,
                n == self@.len(),
                n == words@.len(),
                m == folded(self@.subrange(j as int, n as int), words@.subrange(j as int, n as int)),
            decreases j,
        {
            j = j - 1;
            proof {
                let d = self@.subrange(j as int, n as int);
                let w = words@.subrange(j as int, n as int);
                assert(d.drop_first() =~= self@.subrange(j + 1, n as int));
                assert(w.drop_first() =~= words@.subrange(j + 1, n as int));
            }
            m = Self::blend(self.digits[j], words[j], m);
        }
        assert(self@.subrange(0, n as int) =~= self@);
        assert(words@.subrange(0, n as int) =~= words@);
        m
    }
}

/// A signature together with the generator that feeds it.
pub struct MaskSource {
    rng: SmallRng,
    sig: Signature,
}

impl MaskSource {
    /// The digits of the source's signature.
    pub closed spec fn digits(&self) -> Seq<bool> {
        self.sig@
    }

    /// A source that blends words of `rng` under `sig`.
    pub fn new(sig: Signature, rng: SmallRng) -> (r: Self)
        ensures
            r.digits() == sig@,
    {
        MaskSource { rng, sig }
    }

    /// The signature of the source.
    pub fn signature(&self) -> (sig: &Signature)
        ensures
            sig@ == self.digits(),
    {
        &self.sig
    }

    /// Draws one probability mask: one random word per digit, blended from
    /// the last digit to the first. Which mask comes out depends on the
    /// generator; it is always one that some choice of words blends to.
    pub fn draw(&mut self) -> (m: u128)
        ensures
            final(self).digits() == old(self).digits(),
            yields(old(self).digits(), m),
    {
        let n: usize = self.sig.digits.len();
        let mut m: u128 = 0;
        let mut j: usize = n;
        let ghost mut words: Seq<u128> = Seq::empty();
        assert(self.sig@.subrange(n as int, n as int) =~= Seq::<bool>::empty());
        while j > 0
            invariant
                j <= n,
                n == self.sig@.len(),
                self.sig@ == old(self).sig@,
                words.len() == n - j,
                m == folded(self.sig@.subrange(j as int, n as int), words),
            decreases j,
        {
            j = j - 1;
            let w: u128 = rng(&mut self.rng);
            proof {
                let d = self.sig@.subrange(j as int, n as int);
                let longer = seq![w] + words;
                assert(d.drop_first() =~= self.sig@.subrange(j + 1, n as int));
                assert(longer.drop_first() =~= words);
                words = longer;
            }
            m = Signature::blend(self.sig.digits[j], w, m);
        }
        assert(self.sig@.subrange(0, n as int) =~= self.sig@);
        m
    }

    /// Draws `n` masks, in the order in which an update consumes them.
    pub fn tape(&mut self, n: usize) -> (t: Vec<u128>)
        ensures
            final(self).digits() == old(self).digits(),
            t@.len() == n,
            drawn(old(self).digits(), t@),
    {
        let mut t: Vec<u128> = Vec::with_capacity(n);
        for i in 0..n
            invariant
                self.digits() == old(self).digits(),
                t@.len() == i,
                drawn(old(self).digits(), t@),
        {
            let m: u128 = self.draw();
            t.push(m);
        }
        t
    }
}

} // verus!
