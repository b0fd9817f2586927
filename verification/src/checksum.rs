//! The Internet checksum (one's-complement sum of 16-bit words).
//!
//! TCP checksums are computed over a pseudo-header followed by the TCP
//! segment, taken as big-endian 16-bit words (an odd trailing byte is padded
//! with a zero low byte), folding carries back in and complementing.  The
//! theorem at the bottom is what a receiver relies on: filling the checksum
//! field with the computed value makes the whole buffer sum to `0xffff`.

use vstd::prelude::*;

use vstd::arithmetic::div_mod::{
    lemma_fundamental_div_mod, lemma_mod_multiples_vanish, lemma_small_mod,
};

verus! {

/// The `k`-th big-endian 16-bit word of `b`; an odd trailing byte counts as
/// the high byte of a final word.
pub open spec fn word_at(b: Seq<u8>, k: int) -> int {
    if 2 * k + 1 < b.len() {
        256 * b[2 * k] + b[2 * k + 1]
    } else {
        256 * b[2 * k]
    }
}

/// Number of 16-bit words `b` covers.
pub open spec fn num_words(b: Seq<u8>) -> int {
    (b.len() + 1) as int / 2
}

/// Sum of the first `k` words of `b`.
pub open spec fn words_sum_to(b: Seq<u8>, k: int) -> int
    decreases k,
{
    if k <= 0 {
        0
    } else {
        words_sum_to(b, k - 1) + word_at(b, k - 1)
    }
}

/// Sum of all 16-bit words of `b`.
pub open spec fn words_sum(b: Seq<u8>) -> int {
    words_sum_to(b, num_words(b))
}

/// One end-around-carry step.
pub open spec fn fold_step(x: int) -> int {
    x / 0x10000 + x % 0x10000
}

/// Two carry steps collapse any sum below 2^32 (and slightly above) into 16
/// bits.
pub open spec fn ones_fold32(x: int) -> int {
    fold_step(fold_step(x))
}

/// The Internet checksum of `b`: the complement of the folded word sum.
pub open spec fn checksum_of(b: Seq<u8>) -> int {
    0xffff - ones_fold32(words_sum(b))
}

/// What a receiver checks: the folded sum of the buffer, checksum included,
/// is `0xffff`.
pub open spec fn checksum_valid(b: Seq<u8>) -> bool {
    ones_fold32(words_sum(b)) == 0xffff
}

/// A carry step preserves the value modulo 0xffff.
proof fn lemma_fold_step_mod(x: int)
    requires
        x >= 0,
    ensures
        fold_step(x) % 0xffff == x % 0xffff,
        fold_step(x) >= 0,
{
    lemma_fundamental_div_mod(x, 0x10000);
    assert(x == 0x10000 * (x / 0x10000) + x % 0x10000);
    assert(fold_step(x) == x - 0xffff * (x / 0x10000));
    lemma_mod_multiples_vanish(x / 0x10000, fold_step(x), 0xffff);
}

/// For sums in the range that can actually arise (below 2^32 + 2^16), two
/// carry steps land in `[0, 0x10000]`, and strictly below `0x10000` when the
/// sum is below 2^32.
proof fn lemma_fold32_range(x: int)
    requires
        0 <= x < 0x1_0001_0000,
    ensures
        0 <= ones_fold32(x) <= 0x10000,
        x < 0x1_0000_0000 ==> ones_fold32(x) <= 0xffff,
        x > 0 ==> ones_fold32(x) > 0,
{
    lemma_fundamental_div_mod(x, 0x10000);
    let y = fold_step(x);
    lemma_fundamental_div_mod(y, 0x10000);
}

/// The core of checksum verification: a positive multiple of 0xffff below
/// 2^32 + 2^16 folds to exactly 0xffff.
proof fn lemma_fold32_multiple(t: int)
    requires
        0 < t < 0x1_0001_0000,
        t % 0xffff == 0,
    ensures
        ones_fold32(t) == 0xffff,
{
    lemma_fold_step_mod(t);
    lemma_fold_step_mod(fold_step(t));
    lemma_fold32_range(t);
    let z = ones_fold32(t);
    assert(z % 0xffff == 0);
    if z < 0xffff {
        lemma_small_mod(z as nat, 0xffff);
        assert(z == 0);
        // but folding cannot reach zero from a positive value
        lemma_fundamental_div_mod(t, 0x10000);
        lemma_fundamental_div_mod(fold_step(t), 0x10000);
        assert(fold_step(t) > 0);
        assert(false);
    } else if z == 0x10000 {
        assert(0x10000int % 0xffff == 1) by {
            lemma_mod_multiples_vanish(1, 1, 0xffff);
            lemma_small_mod(1nat, 0xffff);
        }
        assert(false);
    }
}

/// Each word lies in `[0, 0xffff]`, so the sum of `k` words is bounded.
pub proof fn lemma_words_sum_bound(b: Seq<u8>, k: int)
    requires
        k >= 0,
    ensures
        0 <= words_sum_to(b, k) <= k * 0xffff,
    decreases k,
{
    if k > 0 {
        lemma_words_sum_bound(b, k - 1);
        assert((k - 1) * 0xffff + 0xffff == k * 0xffff) by (nonlinear_arith);
    }
}

/// Replacing the zeroed word `p` of `b` with value `c` adds `c` to the sum
/// of the first `k` words, once `k` passes `p`.
proof fn lemma_words_sum_update(b: Seq<u8>, b2: Seq<u8>, p: int, c: int, k: int)
    requires
        0 <= p,
        0 <= 2 * p + 1 < b.len(),
        b2.len() == b.len(),
        word_at(b, p) == 0,
        word_at(b2, p) == c,
        forall|i: int| 0 <= i < b.len() && i != 2 * p && i != 2 * p + 1 ==> b2[i] == b[i],
        k >= 0,
        2 * k <= b.len() + 1,
    ensures
        words_sum_to(b2, k) == words_sum_to(b, k) + if k > p {
            c
        } else {
            0
        },
    decreases k,
{
    if k > 0 {
        lemma_words_sum_update(b, b2, p, c, k - 1);
        if k - 1 != p {
            assert(word_at(b2, k - 1) == word_at(b, k - 1));
        }
    }
}

/// Computes the Internet checksum of `data`.
pub fn compute_checksum(data: &[u8]) -> (r: u16)
    requires
        data@.len() <= 0x2_0000,
    ensures
        r == checksum_of(data@),
        0 <= checksum_of(data@) <= 0xffff,
{
    let len = data.len();
    let words = (len + 1) / 2;
    let mut acc: u64 = 0;
    let mut k: usize = 0;
    while k < words
        invariant
            0 <= k <= words,
            len == data@.len(),
            len <= 0x2_0000,
            words == num_words(data@),
            acc == words_sum_to(data@, k as int),
            acc <= k * 0xffff,
        decreases words - k,
    {
        let hi = data[2 * k] as u64;
        let lo: u64 = if 2 * k + 1 < len {
            data[2 * k + 1] as u64
        } else {
            0
        };
        proof {
            assert((k + 1) * 0xffff == k * 0xffff + 0xffff) by (nonlinear_arith);
        }
        acc = acc + hi * 256 + lo;
        k += 1;
    }
    proof {
        lemma_fold32_range(acc as int);
        assert((0x2_0000int / 2 + 1) * 0xffff < 0x1_0000_0000) by (nonlinear_arith);
        assert(words * 0xffff <= (0x2_0000int / 2 + 1) * 0xffff) by (nonlinear_arith)
            requires
                words <= 0x2_0000int / 2 + 1,
        ;
    }
    let folded1 = acc / 0x10000 + acc % 0x10000;
    let folded = folded1 / 0x10000 + folded1 % 0x10000;
    (0xffffu64 - folded) as u16
}

/// Filling the (previously zero) checksum word of `b` with the computed
/// checksum makes the whole buffer verify: its folded sum is `0xffff`.
pub proof fn lemma_checksum_verifies(b: Seq<u8>, p: int)
    requires
        0 <= p,
        2 * p + 1 < b.len(),
        word_at(b, p) == 0,
        0 <= words_sum(b) < 0x1_0000_0000,
    ensures
        ({
            let c = checksum_of(b);
            let b2 = b.update(2 * p, (c / 256) as u8).update(2 * p + 1, (c % 256) as u8);
            checksum_valid(b2)
        }),
{
    let s0 = words_sum(b);
    lemma_fold32_range(s0);
    let f = ones_fold32(s0);
    let c = 0xffff - f;
    let b2 = b.update(2 * p, (c / 256) as u8).update(2 * p + 1, (c % 256) as u8);
    assert(word_at(b2, p) == c);
    lemma_words_sum_update(b, b2, p, c, num_words(b));
    assert(num_words(b2) == num_words(b));
    assert(words_sum(b2) == s0 + c);
    let t = s0 + c;
    // t is a positive multiple of 0xffff: s0 and its fold agree modulo 0xffff
    lemma_fold_step_mod(s0);
    lemma_fold_step_mod(fold_step(s0));
    assert(f % 0xffff == s0 % 0xffff);
    lemma_fundamental_div_mod(s0, 0xffff);
    lemma_mod_multiples_vanish(s0 / 0xffff, 0xffff - f + s0 % 0xffff, 0xffff);
    assert(t % 0xffff == (0xffff - f + s0 % 0xffff) % 0xffff);
    lemma_fundamental_div_mod(f, 0xffff);
    if f >= s0 % 0xffff {
        // f and s0 % 0xffff are congruent and f <= 0xffff, so they differ by
        // 0 or 0xffff
        assert(f - s0 % 0xffff == 0xffff * (f / 0xffff));
        lemma_mod_multiples_vanish(1 - f / 0xffff, 0, 0xffff);
        assert(t % 0xffff == (0xffff * (1 - f / 0xffff)) % 0xffff);
    }
    lemma_fold32_multiple(t);
}

} // verus!
