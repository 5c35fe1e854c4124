//! Words as bytes: the fixed-width encoding that snapshots are made of.
//!
//! A word is written as sixteen bytes in one of the two byte orders. Which
//! order is native is for the caller to say; both are handled alike here, so
//! that a snapshot written in one order reads back in the same order
//! on any machine.

use crate::word::{lemma_word_range, ALL_UP};
use vstd::arithmetic::power2::pow2;
use vstd::prelude::*;

verus! {

/// Bytes that one word takes.
pub const WORD_BYTES: usize = 16;

/// The order in which the bytes of a word are laid out.
#[derive(Clone, Copy, Debug, PartialEq, Eq, Structural)]
pub enum ByteOrder {
    /// Least significant byte first.
    Little,
    /// Most significant byte first.
    Big,
}

/// `x` without its `k` lowest bytes.
pub open spec fn dropped(x: nat, k: nat) -> nat
    decreases k,
{
    if k == 0 {
        x
    } else {
        dropped(x / 256, (k - 1) as nat)
    }
}

/// Byte `k` of `x`, counted from the least significant one.
pub open spec fn byte_at(x: nat, k: nat) -> u8 {
    (dropped(x, k) % 256) as u8
}

/// The `n` lowest bytes of `x`, least significant first.
pub open spec fn low_bytes(x: nat, n: nat) -> Seq<u8> {
    Seq::new(n, |k: int| byte_at(x, k as nat))
}

/// The number whose bytes, least significant first, are `s`.
pub open spec fn value_of(s: Seq<u8>) -> nat
    decreases s.len(),
{
    if s.len() == 0 {
        0
    } else {
        s[0] as nat + 256 * value_of(s.drop_first())
    }
}

/// `256^n`: how many numbers `n` bytes can tell apart.
pub open spec fn span(n: nat) -> nat
    decreases n,
{
    if n == 0 {
        1
    } else {
        256 * span((n - 1) as nat)
    }
}

/// `s` read least significant byte first: itself in little-endian order,
/// reversed in big-endian order. Applying it twice gives `s` back.
pub open spec fn canonical(order: ByteOrder, s: Seq<u8>) -> Seq<u8> {
    match order {
        ByteOrder::Little => s,
        ByteOrder::Big => s.reverse(),
    }
}

/// The sixteen bytes of the word `w` in the given order.
pub open spec fn word_bytes(order: ByteOrder, w: u128) -> Seq<u8> {
    canonical(order, low_bytes(w as nat, 16))
}

/// The word that sixteen bytes in the given order denote.
pub open spec fn word_of(order: ByteOrder, s: Seq<u8>) -> u128 {
    value_of(canonical(order, s)) as u128
}

/// Dropping one more byte divides by 256.
pub proof fn lemma_dropped_step(x: nat, k: nat)
    ensures
        dropped(x, k + 1) == dropped(x, k) / 256,
    decreases k,
{
    if k > 0 {
        lemma_dropped_step(x / 256, (k - 1) as nat);
        assert(dropped(x, k) == dropped(x / 256, (k - 1) as nat));
    }
    assert(dropped(x, k + 1) == dropped(x / 256, k));
}

/// Sixteen bytes tell the words apart: `256^16` is `2^128`.
pub proof fn lemma_span_of_word()
    ensures
        span(16) == ALL_UP + 1,
{
    reveal_with_fuel(span, 17);
    lemma_word_range();
    assert(pow2(128) == ALL_UP + 1);
}

/// The value of `n` bytes is below `256^n`.
pub proof fn lemma_value_below(s: Seq<u8>)
    ensures
        value_of(s) < span(s.len()),
    decreases s.len(),
{
    if s.len() > 0 {
        lemma_value_below(s.drop_first());
    }
}

/// Reading back the `n` lowest bytes of a number below `256^n` gives the
/// number.
pub proof fn lemma_value_of_low_bytes(x: nat, n: nat)
    requires
        x < span(n),
    ensures
        value_of(low_bytes(x, n)) == x,
    decreases n,
{
    if n > 0 {
        let rest = low_bytes(x / 256, (n - 1) as nat);
        assert(low_bytes(x, n).drop_first() =~= rest) by {
            assert forall|k: int| 0 <= k < n - 1 implies low_bytes(x, n).drop_first()[k]
                == rest[k] by {
                assert(byte_at(x, (k + 1) as nat) == byte_at(x / 256, k as nat));
            }
        }
        lemma_value_of_low_bytes(x / 256, (n - 1) as nat);
    }
}

/// Writing out the value of some bytes gives the bytes.
pub proof fn lemma_low_bytes_of_value(s: Seq<u8>)
    ensures
        low_bytes(value_of(s), s.len()) == s,
    decreases s.len(),
{
    if s.len() > 0 {
        let v = value_of(s);
        let rest = s.drop_first();
        lemma_low_bytes_of_value(rest);
        assert(v / 256 == value_of(rest));
        assert(v % 256 == s[0]);
        assert forall|k: int| 0 <= k < s.len() implies low_bytes(v, s.len())[k] == s[k] by {
            if k > 0 {
                assert(byte_at(v, k as nat) == byte_at(v / 256, (k - 1) as nat));
                assert(low_bytes(value_of(rest), rest.len())[k - 1] == rest[k - 1]);
            }
        }
    }
    assert(low_bytes(value_of(s), s.len()) =~= s);
}

/// Putting bytes into canonical order twice gives them back.
pub proof fn lemma_canonical_twice(order: ByteOrder, s: Seq<u8>)
    ensures
        canonical(order, canonical(order, s)) == s,
        canonical(order, s).len() == s.len(),
{
    assert(s.reverse().reverse() =~= s);
    assert(canonical(order, canonical(order, s)) =~= s);
}

/// A word survives being written and read back in the same byte order.
pub proof fn lemma_word_round_trip(order: ByteOrder, w: u128)
    ensures
        word_bytes(order, w).len() == 16,
        word_of(order, word_bytes(order, w)) == w,
{
    lemma_span_of_word();
    lemma_canonical_twice(order, low_bytes(w as nat, 16));
    lemma_value_of_low_bytes(w as nat, 16);
}

/// Sixteen bytes survive being read and written back in the same byte order.
pub proof fn lemma_bytes_round_trip(order: ByteOrder, s: Seq<u8>)
    requires
        s.len() == 16,
    ensures
        word_bytes(order, word_of(order, s)) == s,
{
    let c = canonical(order, s);
    lemma_canonical_twice(order, s);
    lemma_span_of_word();
    lemma_value_below(c);
    lemma_low_bytes_of_value(c);
}

/// Position in a sixteen-byte field of the byte of weight `256^k`.
pub open spec fn place(order: ByteOrder, k: int) -> int {
    match order {
        ByteOrder::Little => k,
        ByteOrder::Big => 15 - k,
    }
}

/// Appends the sixteen bytes of `w` to `out`, in the given order.
pub fn put_word(order: ByteOrder, w: u128, out: &mut Vec<u8>)
    ensures
        final(out)@ == old(out)@ + word_bytes(order, w),
{
    let base: usize = out.len();
    for k in 0..16usize
        invariant
            base == old(out)@.len(),
            out@.len() == base + k,
            out@.subrange(0, base as int) == old(out)@,
    {
        out.push(0u8);
        assert(out@.subrange(0, base as int) =~= old(out)@);
    }
    let end: usize = out.len();
    let mut x: u128 = w;
    for k in 0..16usize
        invariant
            base == old(out)@.len(),
            end == base + 16,
            out@.len() == base + 16,
            out@.subrange(0, base as int) == old(out)@,
            x == dropped(w as nat, k as nat),
            forall|j: int| 0 <= j < k ==> out@[base + place(order, j)] == byte_at(w as nat, j as nat),
    {
        let at: usize = match order {
            ByteOrder::Little => base + k,
            ByteOrder::Big => base + (15 - k),
        };
        let ghost before = out@;
        out[at] = (x % 256) as u8;
        proof {
            lemma_dropped_step(w as nat, k as nat);
            assert(out@ == before.update(at as int, (x % 256) as u8));
            assert(out@.subrange(0, base as int) =~= old(out)@);
        }
        x = x / 256;
    }
    assert(out@ =~= old(out)@ + word_bytes(order, w)) by {
        let bytes = word_bytes(order, w);
        assert(bytes.len() == 16);
        assert forall|i: int| 0 <= i < 16 implies out@[base + i] == bytes[i] by {
            let j = place(order, i);
            assert(place(order, j) == i);
            assert(out@[base + place(order, j)] == byte_at(w as nat, j as nat));
        }
        assert forall|i: int| 0 <= i < base implies out@[i] == old(out)@[i] by {
            assert(out@.subrange(0, base as int)[i] == out@[i]);
        }
    }
}

/// Reads the word that the sixteen bytes from offset `at` on denote.
pub fn get_word(order: ByteOrder, bytes: &[u8], at: usize) -> (w: u128)
    requires
        at + 16 <= bytes@.len(),
    ensures
        w == word_of(order, bytes@.subrange(at as int, at + 16)),
{
    let ghost field = bytes@.subrange(at as int, at + 16);
    let ghost c = canonical(order, field);
    let mut acc: u128 = 0;
    let len: usize = bytes.len();
    proof {
        lemma_span_of_word();
        assert(c.subrange(16, 16) =~= Seq::<u8>::empty());
    }
    for k in 0..16usize
        invariant
            at + 16 <= bytes@.len(),
            len == bytes@.len(),
            field == bytes@.subrange(at as int, at + 16),
            c == canonical(order, field),
            c.len() == 16,
            acc == value_of(c.subrange(16 - k, 16)),
            span(16) == ALL_UP + 1,
    {
        let from: usize = match order {
            ByteOrder::Little => at + (15 - k),
            ByteOrder::Big => at + k,
        };
        let b: u8 = bytes[from];
        proof {
            let tail = c.subrange(16 - k, 16);
            let longer = c.subrange(15 - k, 16);
            assert(longer.drop_first() =~= tail);
            assert(longer[0] == c[15 - k]);
            assert(c[15 - k] == b);
            lemma_value_below(longer);
            lemma_span_grows(longer.len(), 16);
        }
        acc = acc * 256 + (b as u128);
    }
    assert(c.subrange(0, 16) =~= c);
    acc
}

/// The bytes of a run of words: each word's sixteen bytes, in the order of
/// the words.
pub open spec fn encoded_words(order: ByteOrder, ws: Seq<u128>) -> Seq<u8>
    decreases ws.len(),
{
    if ws.len() == 0 {
        Seq::empty()
    } else {
        encoded_words(order, ws.drop_last()) + word_bytes(order, ws.last())
    }
}

/// The words that a run of bytes denotes, sixteen bytes to the word. Bytes
/// beyond the last full field of sixteen are not read.
pub open spec fn decoded_words(order: ByteOrder, bytes: Seq<u8>) -> Seq<u128> {
    Seq::new(
        (bytes.len() / 16) as nat,
        |k: int| word_of(order, bytes.subrange(16 * k, 16 * k + 16)),
    )
}

/// A run of words takes sixteen bytes for each word.
pub proof fn lemma_encoded_len(order: ByteOrder, ws: Seq<u128>)
    ensures
        encoded_words(order, ws).len() == 16 * ws.len(),
    decreases ws.len(),
{
    if ws.len() > 0 {
        lemma_encoded_len(order, ws.drop_last());
        lemma_word_round_trip(order, ws.last());
    }
}

/// Word `k` of a run is found in the `k`-th field of sixteen bytes.
pub proof fn lemma_encoded_field(order: ByteOrder, ws: Seq<u128>, k: int)
    requires
        0 <= k < ws.len(),
    ensures
        encoded_words(order, ws).subrange(16 * k, 16 * k + 16) == word_bytes(order, ws[k]),
    decreases ws.len(),
{
    let init = ws.drop_last();
    let head = encoded_words(order, init);
    let tail = word_bytes(order, ws.last());
    lemma_encoded_len(order, init);
    lemma_word_round_trip(order, ws.last());
    if k < ws.len() - 1 {
        lemma_encoded_field(order, init, k);
        assert((head + tail).subrange(16 * k, 16 * k + 16) =~= head.subrange(16 * k, 16 * k + 16));
    } else {
        assert((head + tail).subrange(16 * k, 16 * k + 16) =~= tail);
    }
}

/// Appending a word to a run appends its sixteen bytes to the run's bytes.
pub proof fn lemma_encoded_push(order: ByteOrder, ws: Seq<u128>, w: u128)
    ensures
        encoded_words(order, ws.push(w)) == encoded_words(order, ws) + word_bytes(order, w),
{
    assert(ws.push(w).drop_last() =~= ws);
}

/// Words survive being written and read back in the same byte order.
pub proof fn lemma_decode_encode(order: ByteOrder, ws: Seq<u128>)
    ensures
        decoded_words(order, encoded_words(order, ws)) == ws,
{
    let bytes = encoded_words(order, ws);
    lemma_encoded_len(order, ws);
    assert forall|k: int| 0 <= k < ws.len() implies decoded_words(order, bytes)[k] == ws[k] by {
        lemma_encoded_field(order, ws, k);
        lemma_word_round_trip(order, ws[k]);
    }
    assert(decoded_words(order, bytes) =~= ws);
}

/// Bytes that fill whole fields of sixteen survive being read and written
/// back in the same byte order.
pub proof fn lemma_encode_decode(order: ByteOrder, bytes: Seq<u8>)
    requires
        bytes.len() % 16 == 0,
    ensures
        encoded_words(order, decoded_words(order, bytes)) == bytes,
    decreases bytes.len(),
{
    let ws = decoded_words(order, bytes);
    if bytes.len() == 0 {
        assert(encoded_words(order, ws) =~= bytes);
    } else {
        let cut = bytes.len() - 16;
        let front = bytes.subrange(0, cut);
        let field = bytes.subrange(cut, bytes.len() as int);
        lemma_encode_decode(order, front);
        assert(ws.drop_last() =~= decoded_words(order, front)) by {
            assert forall|k: int| 0 <= k < ws.len() - 1 implies ws[k] == decoded_words(
                order,
                front,
            )[k] by {
                assert(front.subrange(16 * k, 16 * k + 16) =~= bytes.subrange(
                    16 * k,
                    16 * k + 16,
                ));
            }
        }
        assert(ws.last() == word_of(order, field));
        lemma_bytes_round_trip(order, field);
        assert(front + field =~= bytes);
    }
}

/// More bytes tell more numbers apart.
pub proof fn lemma_span_grows(m: nat, n: nat)
    requires
        m <= n,
    ensures
        span(m) <= span(n),
    decreases n,
{
    if m < n {
        lemma_span_grows(m, (n - 1) as nat);
    }
}

} // verus!
