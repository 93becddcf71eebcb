//! Helpers shared by kernels.

use vstd::arithmetic::div_mod::{lemma_add_mod_noop_right, lemma_mul_mod_noop_right};
use vstd::prelude::*;

verus! {

/// The steps of the generator, on 32-bit words that wrap around.
pub open spec fn scrambled(x: u32) -> u32 {
    let a = x.wrapping_add(x << 13u32);
    let b = a.wrapping_sub(a >> 17u32);
    b.wrapping_mul(b << 5u32)
}

/// The number that a word stands for: its share of the greatest word.
pub open spec fn share_of(word: u32) -> real {
    (word as int as real) / (u32::MAX as int as real)
}

/// Shares lie between zero and one.
pub proof fn lemma_share(word: u32)
    ensures
        0int as real <= share_of(word),
        share_of(word) <= 1int as real,
{
    let whole = u32::MAX as int as real;
    let part = word as int as real;
    let share = part / whole;
    assert(share * whole == part) by (nonlinear_arith)
        requires
            share == part / whole,
            whole > 0int as real,
    ;
    assert(share >= 0int as real && share <= 1int as real) by (nonlinear_arith)
        requires
            share * whole == part,
            whole > 0int as real,
            part >= 0int as real,
            part <= whole,
    ;
}

/// Shares are even: no word has none, the greatest has all, and the shares of two words add up
/// to the share of their sum.
pub proof fn law_shares_are_even(a: u32, b: u32)
    requires
        a + b <= u32::MAX,
    ensures
        share_of(0) == 0int as real,
        share_of(u32::MAX) == 1int as real,
        share_of((a + b) as u32) == share_of(a) + share_of(b),
{
    let whole = u32::MAX as int as real;
    let x = a as int as real;
    let y = b as int as real;
    assert((0int as real) / whole == 0int as real && whole / whole == 1int as real && (x + y)
        / whole == x / whole + y / whole) by (nonlinear_arith)
        requires
            whole > 0int as real,
    ;
}

/// The generator in plain arithmetic, modulo the number of words: a word times 8193, less the
/// part of that above its lowest seventeen bits, squared and times 32.
pub proof fn law_the_generator_multiplies_and_squares(x: u32)
    ensures
        ({
            let words: int = 0x1_0000_0000;
            let a = (x * 8193) % words;
            let b = a - a / 131072;
            scrambled(x) == (b * b * 32) % words
        }),
{
    let words: int = 0x1_0000_0000;
    let s = x << 13u32;
    assert(s == (x * 8192) % 0x1_0000_0000) by (bit_vector)
        requires
            s == x << 13u32,
    ;
    let a = x.wrapping_add(s);
    lemma_add_mod_noop_right(x as int, x * 8192, words);
    assert(a == (x + s) % words);
    assert(a == (x * 8193) % words);
    let t = a >> 17u32;
    assert(t == a / 131072u32) by (bit_vector)
        requires
            t == a >> 17u32,
    ;
    let b = a.wrapping_sub(t);
    assert(b == a - a / 131072);
    let u = b << 5u32;
    assert(u == (b * 32) % 0x1_0000_0000) by (bit_vector)
        requires
            u == b << 5u32,
    ;
    assert(u == (b * 32) % words);
    lemma_mul_mod_noop_right(b as int, b * 32, words);
    assert(b * (b * 32) == b * b * 32) by (nonlinear_arith);
    assert(scrambled(x) == b.wrapping_mul(u));
    assert(b.wrapping_mul(u) == (b * u) % words);
}

/// The next word of the pseudo-random sequence.
pub fn random(x: u32) -> (r: u32)
    ensures
        r == scrambled(x),
{
    let a: u32 = x.wrapping_add(x << 13u32);
    let b: u32 = a.wrapping_sub(a >> 17u32);
    b.wrapping_mul(b << 5u32)
}

} // verus!
