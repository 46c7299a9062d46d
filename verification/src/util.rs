//! Seeds and random streams.
//!
//! A client's streams are seeded from the global seed, the client's id and a
//! salt, so each is reproducible from these alone, and a client's streams for
//! different purposes differ.

use rand::{Rng, SeedableRng};
use vstd::prelude::*;

verus! {

/// Salt of the stream that a client's trade count is drawn from.
pub const SALT_COUNT: u64 = 0xC0;

/// Salt of the stream that a client's trades are drawn from.
pub const SALT_TRADE: u64 = 0x7E;

/// Salt of the seed of a symbol's price.
pub const SALT_SYM_PRICE: u64 = 0x50_5800;

/// Salt of the stream that a whale's weight is drawn from.
pub const SALT_WHALE_W: u64 = 0x57_4157;

/// The increment of SplitMix64.
pub const GOLDEN: u64 = 0x9E37_79B9_7F4A_7C15;

/// The first multiplier of SplitMix64.
pub const MIX_A: u64 = 0xBF58_476D_1CE4_E5B9;

/// The second multiplier of SplitMix64.
pub const MIX_B: u64 = 0x94D0_49BB_1331_11EB;

/// The SplitMix64 finalizer, step by step.
pub open spec fn mixed(x: u64) -> u64 {
    let a = x.wrapping_add(GOLDEN);
    let b = (a ^ (a >> 30u64)).wrapping_mul(MIX_A);
    let c = (b ^ (b >> 27u64)).wrapping_mul(MIX_B);
    c ^ (c >> 31u64)
}

/// SplitMix64: a 64-bit mixer.
pub fn splitmix64(x: u64) -> (r: u64)
    ensures
        r == mixed(x),
        r == ({
            let a = x.wrapping_add(0x9E37_79B9_7F4A_7C15u64);
            let b = (a ^ (a >> 30u64)).wrapping_mul(0xBF58_476D_1CE4_E5B9u64);
            let c = (b ^ (b >> 27u64)).wrapping_mul(0x94D0_49BB_1331_11EBu64);
            c ^ (c >> 31u64)
        }),
{
    let mut z: u64 = x.wrapping_add(GOLDEN);
    z = (z ^ (z >> 30u64)).wrapping_mul(MIX_A);
    z = (z ^ (z >> 27u64)).wrapping_mul(MIX_B);
    z ^ (z >> 31u64)
}

/// The seed of a stream.
pub open spec fn mixed_seed(seed: u64, id: u64, salt: u64) -> u64 {
    mixed(seed ^ mixed(id.wrapping_mul(GOLDEN) ^ salt))
}

/// The seed of a stream: a function of the global seed, an id and a salt.
pub fn mix_seed(seed: u64, id: u64, salt: u64) -> (r: u64)
    ensures
        r == mixed_seed(seed, id, salt),
        r == mixed(seed ^ mixed(id.wrapping_mul(0x9E37_79B9_7F4A_7C15u64) ^ salt)),
{
    let a: u64 = splitmix64(id.wrapping_mul(GOLDEN) ^ salt);
    splitmix64(seed ^ a)
}

// ---------------------------------------------------------------------------
// Laws
// ---------------------------------------------------------------------------

/// Multiplying by a number that has an inverse loses nothing.
proof fn lemma_mul_injective(x: u64, y: u64, c: u64, inv: u64)
    requires
        (c * inv) % 0x1_0000_0000_0000_0000 == 1,
        x.wrapping_mul(c) == y.wrapping_mul(c),
    ensures
        x == y,
{
    lemma_undo(x, c, inv);
    lemma_undo(y, c, inv);
}

proof fn lemma_undo(x: u64, c: u64, inv: u64)
    requires
        (c * inv) % 0x1_0000_0000_0000_0000 == 1,
    ensures
        (x.wrapping_mul(c) * inv) % 0x1_0000_0000_0000_0000 == x,
{
    let m: int = 0x1_0000_0000_0000_0000;
    let p = (x as int) * (c as int);
    vstd::arithmetic::div_mod::lemma_mul_mod_noop_left(p, inv as int, m);
    assert(((x as nat) * (c as nat)) % (m as nat) == p % m);
    assert((p % m * (inv as int)) % m == (p * (inv as int)) % m);
    assert(p * (inv as int) == (x as int) * ((c as int) * (inv as int))) by (nonlinear_arith)
        requires
            p == (x as int) * (c as int),
    ;
    vstd::arithmetic::div_mod::lemma_mul_mod_noop_right(x as int, (c as int) * (inv as int), m);
    assert(((x as int) * 1) % m == x);
}

/// The mixer maps distinct numbers to distinct numbers.
pub proof fn lemma_splitmix_injective(x: u64, y: u64)
    requires
        mixed(x) == mixed(y),
    ensures
        x == y,
{
    let a1 = x.wrapping_add(GOLDEN);
    let a2 = y.wrapping_add(GOLDEN);
    let b1 = (a1 ^ (a1 >> 30u64)).wrapping_mul(MIX_A);
    let b2 = (a2 ^ (a2 >> 30u64)).wrapping_mul(MIX_A);
    let c1 = (b1 ^ (b1 >> 27u64)).wrapping_mul(MIX_B);
    let c2 = (b2 ^ (b2 >> 27u64)).wrapping_mul(MIX_B);
    assert((c1 ^ (c1 >> 31u64)) == (c2 ^ (c2 >> 31u64)) ==> c1 == c2) by (bit_vector);
    lemma_mul_injective(b1 ^ (b1 >> 27u64), b2 ^ (b2 >> 27u64), MIX_B, 0x3196_42b2_d24d_8ec3);
    assert((b1 ^ (b1 >> 27u64)) == (b2 ^ (b2 >> 27u64)) ==> b1 == b2) by (bit_vector);
    lemma_mul_injective(a1 ^ (a1 >> 30u64), a2 ^ (a2 >> 30u64), MIX_A, 0x96de_1b17_3f11_9089);
    assert((a1 ^ (a1 >> 30u64)) == (a2 ^ (a2 >> 30u64)) ==> a1 == a2) by (bit_vector);
}

/// Distinct clients have distinct streams for the same purpose.
pub proof fn lemma_seeds_by_id(seed: u64, a: u64, b: u64, salt: u64)
    requires
        mixed_seed(seed, a, salt) == mixed_seed(seed, b, salt),
    ensures
        a == b,
{
    let x = a.wrapping_mul(GOLDEN);
    let y = b.wrapping_mul(GOLDEN);
    let mx = mixed(x ^ salt);
    let my = mixed(y ^ salt);
    lemma_splitmix_injective(seed ^ mx, seed ^ my);
    assert(seed ^ mx == seed ^ my ==> mx == my) by (bit_vector);
    lemma_splitmix_injective(x ^ salt, y ^ salt);
    assert(x ^ salt == y ^ salt ==> x == y) by (bit_vector);
    lemma_mul_injective(a, b, GOLDEN, 0xf1de_83e1_9937_733d);
}

/// A client's streams for different purposes are distinct.
pub proof fn lemma_seeds_by_salt(seed: u64, id: u64, s: u64, t: u64)
    requires
        mixed_seed(seed, id, s) == mixed_seed(seed, id, t),
    ensures
        s == t,
{
    let x = id.wrapping_mul(GOLDEN);
    let ms = mixed(x ^ s);
    let mt = mixed(x ^ t);
    lemma_splitmix_injective(seed ^ ms, seed ^ mt);
    assert(seed ^ ms == seed ^ mt ==> ms == mt) by (bit_vector);
    lemma_splitmix_injective(x ^ s, x ^ t);
    assert(x ^ s == x ^ t ==> s == t) by (bit_vector);
}

/// Taking the mixer apart: it adds, and then folds the number onto itself and
/// multiplies, twice, and folds once more.
pub proof fn lemma_mixer_by_steps(x: u64)
    ensures
        ({
            let a = x.wrapping_add(0x9E37_79B9_7F4A_7C15u64);
            let b = (a ^ (a >> 30u64)).wrapping_mul(0xBF58_476D_1CE4_E5B9u64);
            let c = (b ^ (b >> 27u64)).wrapping_mul(0x94D0_49BB_1331_11EBu64);
            mixed(x) == c ^ (c >> 31u64)
        }),
{
}

/// A seed mixes the client and the purpose first, and the global seed into what comes
/// of it.
pub proof fn lemma_seed_by_steps(seed: u64, id: u64, salt: u64)
    ensures
        mixed_seed(seed, id, salt) == mixed(
            seed ^ mixed(id.wrapping_mul(0x9E37_79B9_7F4A_7C15u64) ^ salt),
        ),
{
}

/// Distinct global seeds give a client distinct streams for the same purpose.
pub proof fn lemma_seeds_by_seed(a: u64, b: u64, id: u64, salt: u64)
    requires
        mixed_seed(a, id, salt) == mixed_seed(b, id, salt),
    ensures
        a == b,
{
    let m = mixed(id.wrapping_mul(GOLDEN) ^ salt);
    lemma_splitmix_injective(a ^ m, b ^ m);
    assert(a ^ m == b ^ m ==> a == b) by (bit_vector);
}

/// The purposes that a stream is drawn for have salts of their own.
pub proof fn lemma_salts_differ()
    ensures
        SALT_COUNT != SALT_TRADE,
        SALT_COUNT != SALT_SYM_PRICE,
        SALT_COUNT != SALT_WHALE_W,
        SALT_TRADE != SALT_SYM_PRICE,
        SALT_TRADE != SALT_WHALE_W,
        SALT_SYM_PRICE != SALT_WHALE_W,
{
}

// ---------------------------------------------------------------------------
// Streams
// ---------------------------------------------------------------------------

/// The random generator of `rand_chacha`, opaque here.
#[verifier::external_type_specification]
#[verifier::external_body]
pub struct ExChaCha8Rng(rand_chacha::ChaCha8Rng);

/// The generator that `rand_chacha` seeds from a number: a function of that
/// number alone.
pub uninterp spec fn seeded_stream(seed: u64) -> rand_chacha::ChaCha8Rng;

/// A fresh stream, seeded by `ChaCha8Rng::seed_from_u64`. The generator expands
/// the number into its key and reads nothing else, so the same seed gives the
/// same stream.
#[verifier::external_body]
pub fn stream(seed: u64) -> (r: rand_chacha::ChaCha8Rng)
    ensures
        r == seeded_stream(seed),
{
    rand_chacha::ChaCha8Rng::seed_from_u64(seed)
}

/// What `Rng::gen_range` draws from a stream for the numbers from `lo` up to, but
/// not including, `hi`, and the stream after the draw. Both are computed from
/// the generator's state and the bounds alone.
pub uninterp spec fn range_draw(rng: rand_chacha::ChaCha8Rng, lo: i64, hi: i64) -> (
    i64,
    rand_chacha::ChaCha8Rng,
);

/// A number from `lo` up to, but not including, `hi`, drawn by `Rng::gen_range`,
/// which panics on an empty range and otherwise returns a member of it. Which
/// member, and what the generator becomes, depends on the generator and the
/// bounds and on nothing else.
#[verifier::external_body]
pub(crate) fn draw_below(rng: &mut rand_chacha::ChaCha8Rng, lo: i64, hi: i64) -> (r: i64)
    requires
        lo < hi,
    ensures
        lo <= r < hi,
        (r, *final(rng)) == range_draw(*old(rng), lo, hi),
{
    rng.gen_range(lo..hi)
}

/// The 32-bit number that `Rng::gen` draws from a stream, and the stream after
/// the draw. Both are computed from the generator's state alone.
pub uninterp spec fn word_draw(rng: rand_chacha::ChaCha8Rng) -> (u32, rand_chacha::ChaCha8Rng);

/// A 32-bit number, drawn by `Rng::gen`. Which one, and what the generator
/// becomes, depends on the generator and on nothing else.
#[verifier::external_body]
pub(crate) fn draw_u32(rng: &mut rand_chacha::ChaCha8Rng) -> (r: u32)
    ensures
        (r, *final(rng)) == word_draw(*old(rng)),
{
    rng.gen::<u32>()
}

} // verus!
