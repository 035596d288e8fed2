//! Seeds for the chunks of a run.
use vstd::prelude::*;

verus! {

/// 2^64.
pub open spec fn word() -> int {
    0x1_0000_0000_0000_0000
}

pub open spec fn wrapped_sum(a: int, b: int) -> int {
    (a + b) % word()
}

pub open spec fn wrapped_product(a: int, b: int) -> int {
    (a * b) % word()
}

/// `v` with its upper bits, shifted down by `n`, folded into it.
pub open spec fn folded(v: u64, n: u64) -> u64 {
    v ^ (v >> n)
}

/// The start of the mixing: a stride for each chunk, added to the base.
pub open spec fn strided(base: u64, index: u64) -> u64 {
    wrapped_sum(
        base as int,
        wrapped_product(wrapped_sum(index as int, 1), 0x9E37_79B9_7F4A_7C15),
    ) as u64
}

/// The mixing of a word: an invertible map that spreads every bit.
pub open spec fn mixed(v: u64) -> u64 {
    let v = wrapped_product(folded(v, 30) as int, 0xBF58_476D_1CE4_E5B9) as u64;
    let v = wrapped_product(folded(v, 27) as int, 0x94D0_49BB_1331_11EB) as u64;
    folded(v, 31)
}

/// The seed of a chunk; zero, which would stand for a random seed, becomes one.
pub open spec fn chunk_seed(base: u64, index: u64) -> u64 {
    let v = mixed(strided(base, index));
    if v < 1 {
        1
    } else {
        v
    }
}

/// Derives the seed of a chunk from the seed of the run.
pub fn derive_chunk_seed(base_seed: u64, index: usize) -> (seed: u64)
    ensures
        seed == chunk_seed(base_seed, index as u64),
        seed >= 1,
{
    let stride: u64 = (index as u64).wrapping_add(1).wrapping_mul(0x9E37_79B9_7F4A_7C15);
    assert(stride == wrapped_product(wrapped_sum(index as int, 1), 0x9E37_79B9_7F4A_7C15));
    let mut value: u64 = base_seed.wrapping_add(stride);
    assert(value == strided(base_seed, index as u64));
    value = value ^ (value >> 30u64);
    value = value.wrapping_mul(0xBF58_476D_1CE4_E5B9);
    value = value ^ (value >> 27u64);
    value = value.wrapping_mul(0x94D0_49BB_1331_11EB);
    value = value ^ (value >> 31u64);
    assert(value == mixed(strided(base_seed, index as u64)));
    if value < 1 {
        1
    } else {
        value
    }
}

/// Multiplication by a number that has an inverse loses nothing.
proof fn lemma_product_injective(x: int, y: int, c: int, inverse: int)
    requires
        0 <= x < word(),
        0 <= y < word(),
        (c * inverse) % word() == 1,
        wrapped_product(x, c) == wrapped_product(y, c),
    ensures
        x == y,
{
    lemma_product_undone(x, c, inverse);
    lemma_product_undone(y, c, inverse);
}

proof fn lemma_product_undone(x: int, c: int, inverse: int)
    requires
        0 <= x < word(),
        (c * inverse) % word() == 1,
    ensures
        wrapped_product(wrapped_product(x, c), inverse) == x,
{
    let w = word();
    vstd::arithmetic::div_mod::lemma_mul_mod_noop_left(x * c, inverse, w);
    vstd::arithmetic::mul::lemma_mul_is_associative(x, c, inverse);
    vstd::arithmetic::div_mod::lemma_mul_mod_noop_right(x, c * inverse, w);
    assert(x * ((c * inverse) % w) == x) by (nonlinear_arith)
        requires
            (c * inverse) % w == 1,
    ;
    vstd::arithmetic::div_mod::lemma_small_mod(x as nat, w as nat);
}

proof fn lemma_sum_injective(base: int, s: int, t: int)
    requires
        0 <= base < word(),
        0 <= s < word(),
        0 <= t < word(),
        wrapped_sum(base, s) == wrapped_sum(base, t),
    ensures
        s == t,
{
}

proof fn lemma_fold_injective(x: u64, y: u64)
    ensures
        folded(x, 30) == folded(y, 30) ==> x == y,
        folded(x, 27) == folded(y, 27) ==> x == y,
        folded(x, 31) == folded(y, 31) ==> x == y,
{
    assert((x ^ (x >> 30u64)) == (y ^ (y >> 30u64)) ==> x == y) by (bit_vector);
    assert((x ^ (x >> 27u64)) == (y ^ (y >> 27u64)) ==> x == y) by (bit_vector);
    assert((x ^ (x >> 31u64)) == (y ^ (y >> 31u64)) ==> x == y) by (bit_vector);
}

/// The mixing maps different words to different words.
pub proof fn law_mixing_is_injective(x: u64, y: u64)
    requires
        mixed(x) == mixed(y),
    ensures
        x == y,
{
    let (x1, y1) = (folded(x, 30), folded(y, 30));
    let x2 = wrapped_product(x1 as int, 0xBF58_476D_1CE4_E5B9) as u64;
    let y2 = wrapped_product(y1 as int, 0xBF58_476D_1CE4_E5B9) as u64;
    let (x3, y3) = (folded(x2, 27), folded(y2, 27));
    let x4 = wrapped_product(x3 as int, 0x94D0_49BB_1331_11EB) as u64;
    let y4 = wrapped_product(y3 as int, 0x94D0_49BB_1331_11EB) as u64;
    lemma_fold_injective(x4, y4);
    assert((0x94D0_49BB_1331_11EBint * 0x3196_42B2_D24D_8EC3int) % word() == 1);
    lemma_product_injective(x3 as int, y3 as int, 0x94D0_49BB_1331_11EB, 0x3196_42B2_D24D_8EC3);
    lemma_fold_injective(x2, y2);
    assert((0xBF58_476D_1CE4_E5B9int * 0x96DE_1B17_3F11_9089int) % word() == 1);
    lemma_product_injective(x1 as int, y1 as int, 0xBF58_476D_1CE4_E5B9, 0x96DE_1B17_3F11_9089);
    lemma_fold_injective(x, y);
}

/// Different chunks of a run have different seeds, but that the chunk whose mixed
/// word is zero, if there is one, shares the seed one with the chunk whose mixed
/// word is one.
pub proof fn law_chunks_have_different_seeds(base: u64, i: u64, j: u64)
    requires
        i != j,
    ensures
        chunk_seed(base, i) != chunk_seed(base, j) || chunk_seed(base, i) == 1,
{
    if chunk_seed(base, i) == chunk_seed(base, j) && chunk_seed(base, i) != 1 {
        law_mixing_is_injective(strided(base, i), strided(base, j));
        let (a, b) = (wrapped_sum(i as int, 1), wrapped_sum(j as int, 1));
        let c: int = 0x9E37_79B9_7F4A_7C15;
        lemma_sum_injective(base as int, wrapped_product(a, c), wrapped_product(b, c));
        assert((0x9E37_79B9_7F4A_7C15int * 0xF1DE_83E1_9937_733Dint) % word() == 1);
        lemma_product_injective(a, b, c, 0xF1DE_83E1_9937_733D);
        lemma_sum_injective(1, i as int, j as int);
    }
}

/// The seed of a chunk, which follows from that of the run and its place.
pub open spec fn seed_for(random_base: Option<u64>, seed: u64, index: u64) -> u64 {
    match random_base {
        Some(base) => chunk_seed(base, index),
        None => seed,
    }
}

/// A run draws a random base where its chunks are worked on side by side and it has no
/// seed.
pub open spec fn draws_base(parallel: bool, seed: u64) -> bool {
    parallel && seed == 0
}

/// A seed that is given is the seed of every chunk, whether or not the chunks are worked
/// on side by side.
pub proof fn law_given_seed_is_kept(
    parallel: bool,
    seed: u64,
    random_base: Option<u64>,
    index: u64,
)
    requires
        seed != 0,
        random_base is Some ==> draws_base(parallel, seed),
    ensures
        seed_for(random_base, seed, index) == seed,
{
}

/// The seed that a chunk is worked on with: derived from a random base where there
/// is one, and the seed of the run otherwise.
pub fn seed_for_chunk(random_base: Option<u64>, seed: u64, index: usize) -> (s: u64)
    ensures
        s == seed_for(random_base, seed, index as u64),
{
    match random_base {
        Some(base) => derive_chunk_seed(base, index),
        None => seed,
    }
}

/// Whether a run needs a random base: chunks that are worked on side by side get
/// seeds of their own where the run has none.
pub fn needs_random_base(parallel: bool, seed: u64) -> (b: bool)
    ensures
        b == draws_base(parallel, seed),
{
    parallel && seed == 0
}

/// Undoes a fold by `n`, for an `n` of a third of the word at least.
pub open spec fn unfolded(v: u64, n: u64) -> u64 {
    v ^ (v >> n) ^ (v >> (2 * n) as u64)
}

/// The word that a seed was mixed from: every step of the mixing undone, the last first.
pub open spec fn unmixed(seed: u64) -> u64 {
    let v = unfolded(seed, 31);
    let v = ((v * 0x3196_42B2_D24D_8EC3) % 0x1_0000_0000_0000_0000) as u64;
    let v = unfolded(v, 27);
    let v = ((v * 0x96DE_1B17_3F11_9089) % 0x1_0000_0000_0000_0000) as u64;
    unfolded(v, 30)
}

proof fn lemma_fold_undone(x: u64)
    ensures
        unfolded(folded(x, 30), 30) == x,
        unfolded(folded(x, 27), 27) == x,
        unfolded(folded(x, 31), 31) == x,
{
    assert(({
        let y = x ^ (x >> 30u64);
        y ^ (y >> 30u64) ^ (y >> 60u64)
    }) == x) by (bit_vector);
    assert(({
        let y = x ^ (x >> 27u64);
        y ^ (y >> 27u64) ^ (y >> 54u64)
    }) == x) by (bit_vector);
    assert(({
        let y = x ^ (x >> 31u64);
        y ^ (y >> 31u64) ^ (y >> 62u64)
    }) == x) by (bit_vector);
}

/// A seed tells the base and the chunk that it was derived from: undoing the mixing gives
/// the base and as many strides as there are chunks up to this one. Only the seed one, which
/// also stands for zero, may not.
pub proof fn law_seed_tells_base_and_chunk(base: u64, index: u64)
    ensures
        chunk_seed(base, index) >= 1,
        chunk_seed(base, index) > 1 ==> unmixed(chunk_seed(base, index)) == (base + (index + 1)
            * 0x9E37_79B9_7F4A_7C15) % 0x1_0000_0000_0000_0000,
{
    let c: int = 0x9E37_79B9_7F4A_7C15;
    let w = word();
    let x = strided(base, index);
    vstd::arithmetic::div_mod::lemma_mul_mod_noop_left(index + 1, c, w);
    vstd::arithmetic::div_mod::lemma_add_mod_noop_right(base as int, (index + 1) * c, w);
    assert(x == (base + (index + 1) * c) % w);
    if chunk_seed(base, index) > 1 {
        let x1 = folded(x, 30);
        let x2 = wrapped_product(x1 as int, 0xBF58_476D_1CE4_E5B9) as u64;
        let x3 = folded(x2, 27);
        let x4 = wrapped_product(x3 as int, 0x94D0_49BB_1331_11EB) as u64;
        lemma_fold_undone(x);
        lemma_fold_undone(x2);
        lemma_fold_undone(x4);
        assert((0x94D0_49BB_1331_11EBint * 0x3196_42B2_D24D_8EC3int) % word() == 1);
        assert((0xBF58_476D_1CE4_E5B9int * 0x96DE_1B17_3F11_9089int) % word() == 1);
        lemma_product_undone(x3 as int, 0x94D0_49BB_1331_11EB, 0x3196_42B2_D24D_8EC3);
        lemma_product_undone(x1 as int, 0xBF58_476D_1CE4_E5B9, 0x96DE_1B17_3F11_9089);
    }
}

/// A base that is drawn gives every chunk a seed of its own, a stride further than the
/// chunk before it; without one every chunk has the seed of the run. It is drawn exactly
/// where chunks are worked on side by side and the run has no seed.
pub proof fn law_seeds_of_a_run(parallel: bool, seed: u64, base: u64, index: u64)
    ensures
        draws_base(parallel, seed) <==> (parallel && seed == 0),
        seed_for(None, seed, index) == seed,
        seed_for(Some(base), seed, index) >= 1,
        seed_for(Some(base), seed, index) > 1 ==> unmixed(seed_for(Some(base), seed, index)) == (
        base + (index + 1) * 0x9E37_79B9_7F4A_7C15) % 0x1_0000_0000_0000_0000,
{
    law_seed_tells_base_and_chunk(base, index);
}

} // verus!
