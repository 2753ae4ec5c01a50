//! Random draws from a seeded generator of the `rand` crate.
//!
//! The words that a generator will still hand out are its stream; every
//! draw takes the first word of the stream and leaves the rest.
use vstd::prelude::*;
use rand::rngs::StdRng;
use rand::RngCore;
use rand::SeedableRng;
use crate::fixed::div_floor;
use crate::fixed::lemma_product_bound;
use crate::fixed::ONE;

verus! {

/// `rand::rngs::StdRng`, the seeded generator of the `rand` crate. Nothing
/// inside it is visible here; all that is said of it is said through
/// `upcoming`.
#[verifier::external_type_specification]
#[verifier::external_body]
pub struct ExStdRng(StdRng);

/// The words that `rng` will hand out, in their order: what its state and
/// its algorithm determine, word by word.
pub uninterp spec fn upcoming(rng: StdRng) -> Map<nat, u32>;

/// The words that a generator made by `StdRng::seed_from_u64` from `seed`
/// hands out. They depend on the seed alone, for the version of the `rand`
/// crate that is built in.
pub uninterp spec fn seeded_stream(seed: u64) -> Map<nat, u32>;

/// The stream `s` without its first `k` words.
pub open spec fn advanced(s: Map<nat, u32>, k: nat) -> Map<nat, u32> {
    if k == 0 {
        s
    } else {
        Map::new(|i: nat| true, |i: nat| s[i + k])
    }
}

/// Leaving out `a` words and then `b` words leaves out `a + b` words.
pub proof fn lemma_advanced_twice(s: Map<nat, u32>, a: nat, b: nat)
    ensures
        advanced(advanced(s, a), b) == advanced(s, a + b),
{
    assert(advanced(advanced(s, a), b) =~= advanced(s, a + b));
}

/// `StdRng::seed_from_u64`: the generator that the seed determines. Its
/// stream depends on the seed alone.
#[verifier::external_body]
pub(crate) fn seeded(seed: u64) -> (rng: StdRng)
    ensures
        upcoming(rng) == seeded_stream(seed),
{
    StdRng::seed_from_u64(seed)
}

/// `RngCore::next_u32` on `StdRng`: hands out the first word of the stream
/// and leaves the rest.
#[verifier::external_body]
pub(crate) fn next_word(rng: &mut StdRng) -> (w: u32)
    ensures
        w == upcoming(*old(rng))[0],
        upcoming(*final(rng)) == advanced(upcoming(*old(rng)), 1),
{
    rng.next_u32()
}

/// The fraction of one that the word `w` stands for: its upper half.
pub open spec fn unit_of(w: u32) -> int {
    w as int / 65536
}

/// The value between `lo` and `hi` that the word `w` stands for, by its
/// upper 23 bits.
pub open spec fn between_of(w: u32, lo: int, hi: int) -> int {
    lo + ((hi - lo) * (w as int / 512)) / 0x80_0000
}

/// The fraction of one that a word stands for.
pub fn word_unit(w: u32) -> (u: i64)
    ensures
        u == unit_of(w),
        0 <= u < ONE,
{
    (w / 65536) as i64
}

/// The value from `lo` up to `hi` that a word stands for.
pub fn word_between(w: u32, lo: i32, hi: i32) -> (v: i64)
    ensures
        v == between_of(w, lo as int, hi as int),
        lo <= hi ==> lo <= v <= hi,
{
    let part: i64 = (w / 512) as i64;
    let span: i64 = hi as i64 - lo as i64;
    proof {
        lemma_product_bound(span as int, part as int, 0x1_0000_0000, 0x80_0000);
        if lo <= hi {
            assert(0 <= span * part <= span * 0x80_0000) by (nonlinear_arith)
                requires
                    0 <= span,
                    0 <= part <= 0x80_0000,
            ;
            vstd::arithmetic::div_mod::lemma_div_is_ordered(0, span * part, 0x80_0000);
            vstd::arithmetic::div_mod::lemma_div_is_ordered(
                span * part,
                span * 0x80_0000,
                0x80_0000,
            );
        }
    }
    let q: i128 = div_floor((span as i128) * (part as i128), 0x80_0000);
    (lo as i128 + q) as i64
}

/// A uniform draw from zero up to, but not including, `ONE`.
pub fn draw_unit(rng: &mut StdRng) -> (u: i64)
    ensures
        u == unit_of(upcoming(*old(rng))[0]),
        upcoming(*final(rng)) == advanced(upcoming(*old(rng)), 1),
        0 <= u < ONE,
{
    word_unit(next_word(rng))
}

/// A uniform draw from `lo` up to `hi`.
pub fn draw_between(rng: &mut StdRng, lo: i32, hi: i32) -> (v: i64)
    ensures
        v == between_of(upcoming(*old(rng))[0], lo as int, hi as int),
        upcoming(*final(rng)) == advanced(upcoming(*old(rng)), 1),
        lo <= hi ==> lo <= v <= hi,
{
    word_between(next_word(rng), lo, hi)
}

} // verus!
