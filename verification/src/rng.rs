//! The 48-bit linear congruential generator: one forward step, the two-step
//! `next_long` draw, and the inverse of the masked `next_long` map.

use vstd::prelude::*;

use crate::{FLOOR_HASH, LCG_ADD, LCG_MULT, MASK48, ROOF_HASH, TWO48};

verus! {

use vstd::arithmetic::power2::pow2;

/// One LCG step on a 48-bit state: `(s * LCG_MULT + LCG_ADD) mod 2^48`.
pub open spec fn lcg_next_spec(s: u64) -> u64 {
    (((s as int) * (LCG_MULT as int) + (LCG_ADD as int)) % (TWO48 as int)) as u64
}

proof fn lemma_mask48_is_mod(x: u64)
    ensures
        x & MASK48 == (x as int) % (TWO48 as int),
{
    assert(x & MASK48 == x % TWO48) by (bit_vector);
}

/// `2^48` divides `2^64`, so reducing mod `2^64` first does not change a
/// value taken mod `2^48`.
proof fn lemma_mod64_then_mod48(x: int)
    ensures
        (x % 0x1_0000_0000_0000_0000) % (TWO48 as int) == x % (TWO48 as int),
{
    assert(0x1_0000_0000_0000_0000 == (TWO48 as int) * 0x1_0000int);
    vstd::arithmetic::div_mod::lemma_mod_mod(x, TWO48 as int, 0x1_0000int);
}

/// The wrapping 64-bit multiply-then-add, masked to 48 bits, computes
/// `(x * LCG_MULT + a) mod 2^48`.
pub(crate) proof fn lemma_wrap_mul_add_mask48(x: u64, a: u64, prod: u64, sum: u64)
    requires
        prod == (((x as int) * (LCG_MULT as int)) % 0x1_0000_0000_0000_0000),
        sum == (((prod as int) + (a as int)) % 0x1_0000_0000_0000_0000),
    ensures
        sum & MASK48 == (((x as int) * (LCG_MULT as int) + (a as int)) % (TWO48 as int)),
        sum & MASK48 <= MASK48,
{
    let m64 = 0x1_0000_0000_0000_0000int;
    let v = (x as int) * (LCG_MULT as int);
    assert((prod as int + a as int) % m64 == (v + a as int) % m64) by {
        vstd::arithmetic::div_mod::lemma_add_mod_noop(v, a as int, m64);
        vstd::arithmetic::div_mod::lemma_mod_twice(v, m64);
        vstd::arithmetic::div_mod::lemma_small_mod(a as nat, m64 as nat);
    };
    assert((sum as int) % (TWO48 as int) == (v + a as int) % (TWO48 as int)) by {
        lemma_mod64_then_mod48(v + a as int);
    };
    lemma_mask48_is_mod(sum);
    assert(sum & MASK48 <= MASK48) by (bit_vector);
}

/// The value of a 32-bit draw read as Java's signed `int`.
pub open spec fn sign_ext_32(v: u64) -> int {
    if v < 0x8000_0000 {
        v as int
    } else {
        v as int - 0x1_0000_0000
    }
}

/// Java's `nextLong` from a raw (unscrambled) 48-bit state: two LCG steps,
/// the top 32 bits of each step read as a signed `int`, combined as
/// `(hi << 32) + lo` and reduced mod `2^64`.
#[verifier::opaque]
pub open spec fn java_next_long_spec(s: u64) -> u64 {
    let s1 = lcg_next_spec(s & MASK48);
    let s2 = lcg_next_spec(s1);
    (((sign_ext_32(s1 >> 16) * 0x1_0000_0000 + sign_ext_32(s2 >> 16))
        % 0x1_0000_0000_0000_0000) as u64)
}

/// The `nextLong` output reduced to the 48-bit state space.
pub open spec fn next_long_mask48(s: u64) -> u64 {
    java_next_long_spec(s) & MASK48
}

/// One forward step of the generator, on the low 48 bits of `s`.
pub fn next_state(s: u64) -> (r: u64)
    ensures
        r == lcg_next_spec(s & MASK48),
        r <= MASK48,
{
    let x = s & MASK48;
    let prod = x.wrapping_mul(LCG_MULT);
    let sum = prod.wrapping_add(LCG_ADD);
    proof {
        assert(sum == (((prod as int) + (LCG_ADD as int)) % 0x1_0000_0000_0000_0000)) by {
            if (prod as int) + (LCG_ADD as int) <= u64::MAX as int {
                vstd::arithmetic::div_mod::lemma_small_mod(
                    (prod + LCG_ADD) as nat,
                    0x1_0000_0000_0000_0000nat,
                );
            }
        };
        lemma_wrap_mul_add_mask48(x, LCG_ADD, prod, sum);
    }
    sum & MASK48
}

/// Java's `nextLong` from a raw 48-bit state, as the 64-bit bit pattern.
pub fn next_long_from_state(s: u64) -> (r: u64)
    ensures
        r == java_next_long_spec(s),
{
    let s1 = next_state(s);
    let s2 = next_state(s1);
    proof {
        reveal(java_next_long_spec);
        assert(s1 <= MASK48 ==> s1 & MASK48 == s1) by (bit_vector);
    }
    let hi = s1 >> 16;
    let lo = s2 >> 16;
    let lo_ext: u64 = if lo >= 0x8000_0000 {
        lo.wrapping_sub(0x1_0000_0000)
    } else {
        lo
    };
    let r = (hi << 32u64).wrapping_add(lo_ext);
    proof {
        let m64 = 0x1_0000_0000_0000_0000int;
        assert(s1 <= MASK48 ==> (s1 >> 16) < 0x1_0000_0000) by (bit_vector);
        assert(s2 <= MASK48 ==> (s2 >> 16) < 0x1_0000_0000) by (bit_vector);
        assert((hi << 32u64) == hi * pow2(32)) by {
            vstd::arithmetic::power2::lemma2_to64();
            vstd::bits::lemma_u64_shl_is_mul(hi, 32);
        };
        vstd::arithmetic::power2::lemma2_to64();
        // The sign extensions differ from `hi` and `lo_ext` by multiples of
        // 2^64 once shifted, so the mod-2^64 sums agree.
        let target = sign_ext_32(hi) * 0x1_0000_0000 + sign_ext_32(lo);
        let actual = (hi * 0x1_0000_0000) + (lo_ext as int);
        assert(actual % m64 == target % m64) by {
            if hi < 0x8000_0000 && lo < 0x8000_0000 {
                assert(actual == target);
            } else if hi < 0x8000_0000 {
                assert(actual == target + m64);
                vstd::arithmetic::div_mod::lemma_mod_add_multiples_vanish(target, m64);
            } else if lo < 0x8000_0000 {
                assert(hi * 0x1_0000_0000 == (sign_ext_32(hi) + 0x1_0000_0000)
                    * 0x1_0000_0000) by {
                    vstd::arithmetic::mul::lemma_mul_is_distributive_add_other_way(
                        0x1_0000_0000,
                        sign_ext_32(hi),
                        0x1_0000_0000,
                    );
                };
                assert(actual == target + m64);
                vstd::arithmetic::div_mod::lemma_mod_add_multiples_vanish(target, m64);
            } else {
                assert(hi * 0x1_0000_0000 == (sign_ext_32(hi) + 0x1_0000_0000)
                    * 0x1_0000_0000) by {
                    vstd::arithmetic::mul::lemma_mul_is_distributive_add_other_way(
                        0x1_0000_0000,
                        sign_ext_32(hi),
                        0x1_0000_0000,
                    );
                };
                assert(actual == target + m64 + m64);
                vstd::arithmetic::div_mod::lemma_mod_add_multiples_vanish(target + m64, m64);
                vstd::arithmetic::div_mod::lemma_mod_add_multiples_vanish(target, m64);
            }
        };
        assert(r == actual % m64) by {
            if (hi * 0x1_0000_0000) + (lo_ext as int) <= u64::MAX as int {
                vstd::arithmetic::div_mod::lemma_small_mod(
                    ((hi * 0x1_0000_0000) + (lo_ext as int)) as nat,
                    m64 as nat,
                );
            }
        };
        assert(0 <= target % m64 < m64) by {
            vstd::arithmetic::div_mod::lemma_mod_division_less_than_divisor(target, m64);
        };
    }
    r
}

/// `nextLong` as drawn from a scrambled seed: the seed is XORed with the
/// multiplier before the state is advanced, as Java's `setSeed` does.
pub fn next_long(seed: u64) -> (r: u64)
    ensures
        r == java_next_long_spec(seed ^ LCG_MULT),
{
    next_long_from_state(seed ^ LCG_MULT)
}

/// A raw 48-bit state whose `nextLong` output, masked to 48 bits, is `target`.
pub open spec fn inverts_to(p: u64, target: u64) -> bool {
    p <= MASK48 && next_long_mask48(p) == target & MASK48
}

/// Relies on `next_long_reverser::get_next_long`: it returns exactly the raw
/// 48-bit states whose Java `nextLong` output, masked to 48 bits, equals the
/// masked target, each already reduced to 48 bits.
#[verifier::external_body]
fn reversed_next_longs(target: u64) -> (r: Vec<u64>)
    ensures
        forall|i: int| 0 <= i < r@.len() ==> inverts_to(#[trigger] r@[i], target),
        forall|p: u64| inverts_to(p, target) ==> r@.contains(p),
{
    next_long_reverser::get_next_long(target)
}

/// The seeds (scrambled states) whose `nextLong` output lands on `seed` in
/// the 48-bit state space: the raw preimages, unscrambled by the multiplier.
/// The contract fixes the result as a set; how often an entry repeats and how
/// long the list is are left open, since the inverse routine enumerates a
/// window of lattice candidates rather than the preimages directly.
pub fn reverse_next_long(seed: u64) -> (r: Vec<u64>)
    ensures
        forall|q: u64| r@.contains(q) <==> inverts_to(q ^ LCG_MULT, seed),
{
    let raw = reversed_next_longs(seed);
    let mut out: Vec<u64> = Vec::new();
    let mut i: usize = 0;
    while i < raw.len()
        invariant
            0 <= i <= raw.len(),
            forall|j: int| 0 <= j < raw@.len() ==> inverts_to(#[trigger] raw@[j], seed),
            forall|p: u64| inverts_to(p, seed) ==> raw@.contains(p),
            out@.len() == i,
            forall|j: int| 0 <= j < i ==> out@[j] == #[trigger] raw@[j] ^ LCG_MULT,
        decreases raw.len() - i,
    {
        let p = raw[i];
        out.push(p ^ LCG_MULT);
        i = i + 1;
    }
    proof {
        assert forall|q: u64| out@.contains(q) implies inverts_to(q ^ LCG_MULT, seed) by {
            let j = choose|j: int| 0 <= j < out@.len() && out@[j] == q;
            let a: u64 = raw@[j];
            assert(a == q ^ LCG_MULT) by (bit_vector)
                requires
                    q == a ^ LCG_MULT,
            ;
        };
        assert forall|q: u64| inverts_to(q ^ LCG_MULT, seed) implies out@.contains(q) by {
            let p = q ^ LCG_MULT;
            assert(raw@.contains(p));
            let j = choose|j: int| 0 <= j < raw@.len() && raw@[j] == p;
            assert(out@[j] == (q ^ LCG_MULT) ^ LCG_MULT);
            assert((q ^ LCG_MULT) ^ LCG_MULT == q) by (bit_vector);
        };
    }
    out
}

proof fn lemma_xor_involution(a: u64, b: u64)
    ensures
        (a ^ b) ^ b == a,
{
    assert((a ^ b) ^ b == a) by (bit_vector);
}

/// The scrambled form of `inverts_to`: the seed `q` names the raw state
/// `q ^ LCG_MULT`.
pub open spec fn seed_inverts_to(q: u64, target: u64) -> bool {
    inverts_to(q ^ LCG_MULT, target)
}

/// For every input seed `s`, collect the seeds whose `nextLong` output lands
/// on `s ^ xor_in` in the 48-bit state space.
pub(crate) fn expand_preimages(inputs: &Vec<u64>, xor_in: u64) -> (out: Vec<u64>)
    ensures
        forall|q: u64|
            out@.contains(q) <==> exists|s: u64|
                #[trigger] inputs@.contains(s) && inverts_to(q ^ LCG_MULT, s ^ xor_in),
{
    let mut out: Vec<u64> = Vec::new();
    let mut i: usize = 0;
    while i < inputs.len()
        invariant
            0 <= i <= inputs.len(),
            forall|q: u64|
                out@.contains(q) <==> exists|j: int|
                    0 <= j < i && inverts_to(q ^ LCG_MULT, #[trigger] inputs@[j] ^ xor_in),
        decreases inputs.len() - i,
    {
        let s = inputs[i];
        let mut part = reverse_next_long(s ^ xor_in);
        let ghost old_out = out@;
        let mut k: usize = 0;
        while k < part.len()
            invariant
                0 <= k <= part.len(),
                forall|q: u64| part@.contains(q) <==> inverts_to(q ^ LCG_MULT, s ^ xor_in),
                out@ == old_out + part@.subrange(0, k as int),
            decreases part.len() - k,
        {
            let q = part[k];
            proof {
                assert(part@.subrange(0, k as int).push(part@[k as int]) == part@.subrange(
                    0,
                    k as int + 1,
                ));
            }
            out.push(q);
            k = k + 1;
        }
        proof {
            assert(part@.subrange(0, part@.len() as int) == part@);
            assert(out@ == old_out + part@);
            assert forall|q: u64| out@.contains(q) implies exists|j: int|
                0 <= j < i + 1 && inverts_to(q ^ LCG_MULT, #[trigger] inputs@[j] ^ xor_in) by {
                let n = choose|n: int| 0 <= n < out@.len() && out@[n] == q;
                if n < old_out.len() {
                    assert(old_out.contains(q));
                    let j = choose|j: int|
                        0 <= j < i && inverts_to(q ^ LCG_MULT, #[trigger] inputs@[j] ^ xor_in);
                    assert(0 <= j < i + 1 && inverts_to(q ^ LCG_MULT, inputs@[j] ^ xor_in));
                } else {
                    assert(part@[n - old_out.len()] == q);
                    assert(part@.contains(q));
                    assert(inverts_to(q ^ LCG_MULT, inputs@[i as int] ^ xor_in));
                }
            };
            assert forall|q: u64|
                (exists|j: int|
                    0 <= j < i + 1 && inverts_to(
                        q ^ LCG_MULT,
                        #[trigger] inputs@[j] ^ xor_in,
                    )) implies out@.contains(q) by {
                let j = choose|j: int|
                    0 <= j < i + 1 && inverts_to(q ^ LCG_MULT, #[trigger] inputs@[j] ^ xor_in);
                if j < i {
                    assert(old_out.contains(q));
                    let n = choose|n: int| 0 <= n < old_out.len() && old_out[n] == q;
                    assert(out@[n] == q);
                } else {
                    assert(part@.contains(q));
                    let m = choose|m: int| 0 <= m < part@.len() && part@[m] == q;
                    assert(out@[old_out.len() + m] == q);
                }
            };
        }
        i = i + 1;
    }
    proof {
        assert forall|q: u64|
            (exists|s: u64| #[trigger] inputs@.contains(s) && inverts_to(q ^ LCG_MULT, s ^ xor_in))
            implies out@.contains(q) by {
            let s = choose|s: u64|
                #[trigger] inputs@.contains(s) && inverts_to(q ^ LCG_MULT, s ^ xor_in);
            let j = choose|j: int| 0 <= j < inputs@.len() && inputs@[j] == s;
        };
        assert forall|q: u64| out@.contains(q) implies exists|s: u64|
            #[trigger] inputs@.contains(s) && inverts_to(q ^ LCG_MULT, s ^ xor_in) by {
            let j = choose|j: int|
                0 <= j < inputs@.len() && inverts_to(q ^ LCG_MULT, #[trigger] inputs@[j] ^ xor_in);
            assert(inputs@.contains(inputs@[j]));
        };
    }
    out
}

/// Some raw state `p3` inverts the structure seed `p2` and draws `w`.
pub open spec fn world_seed_links_from_structure(w: i64, p2: u64) -> bool {
    exists|p3: u64|
        #[trigger] inverts_to(p3, p2 ^ LCG_MULT) && w == java_next_long_spec(p3) as i64
}

/// Some structure seed under the common seed `p1` leads to `w`.
pub open spec fn world_seed_links_from_common(w: i64, p1: u64, hash: u64) -> bool {
    exists|p2: u64|
        #[trigger] inverts_to(p2, p1 ^ LCG_MULT ^ hash) && world_seed_links_from_structure(w, p2)
}

/// A world seed `w` is reachable from the 48-bit surface seed `seed` through
/// the given surface hash: three inverse `nextLong` steps (surface seed to
/// common seed, common seed to structure seed, structure seed to raw world
/// state) followed by one forward `nextLong`.
pub open spec fn world_seed_links(w: i64, seed: u64, hash: u64) -> bool {
    exists|p1: u64| #[trigger] inverts_to(p1, seed) && world_seed_links_from_common(w, p1, hash)
}

/// The 64-bit world seeds whose generator, run one `nextLong` step after the
/// surface XOR, produces the given 48-bit surface seed.
pub fn world_seeds_from_bedrock_seed(seed: u64, is_floor: bool) -> (r: Vec<i64>)
    ensures
        forall|w: i64|
            r@.contains(w) <==> world_seed_links(
                w,
                seed,
                if is_floor {
                    FLOOR_HASH
                } else {
                    ROOF_HASH
                },
            ),
{
    let hashcode = if is_floor {
        FLOOR_HASH
    } else {
        ROOF_HASH
    };
    let mut start: Vec<u64> = Vec::new();
    start.push(seed);
    let v1 = expand_preimages(&start, 0);
    let v2 = expand_preimages(&v1, hashcode);
    let v3 = expand_preimages(&v2, 0);
    let mut out: Vec<i64> = Vec::new();
    let mut i: usize = 0;
    while i < v3.len()
        invariant
            0 <= i <= v3.len(),
            out@.len() == i,
            forall|j: int|
                0 <= j < i ==> out@[j] == java_next_long_spec(#[trigger] v3@[j] ^ LCG_MULT) as i64,
        decreases v3.len() - i,
    {
        let q3 = v3[i];
        let w = next_long(q3) as i64;
        out.push(w);
        i = i + 1;
    }
    proof {
        assert forall|w: i64| out@.contains(w) implies exists|j: int|
            0 <= j < v3@.len() && w == java_next_long_spec(#[trigger] v3@[j] ^ LCG_MULT) as i64 by {
            let n = choose|n: int| 0 <= n < out@.len() && out@[n] == w;
            assert(w == java_next_long_spec(v3@[n] ^ LCG_MULT) as i64);
        };
        assert forall|w: i64|
            (exists|j: int|
                0 <= j < v3@.len() && w == java_next_long_spec(
                    #[trigger] v3@[j] ^ LCG_MULT,
                ) as i64) implies out@.contains(w) by {
            let j = choose|j: int|
                0 <= j < v3@.len() && w == java_next_long_spec(#[trigger] v3@[j] ^ LCG_MULT) as i64;
            assert(out@[j] == w);
        };
        assert(start@ =~= seq![seed]);
        lemma_world_seed_stage_equiv(seed, hashcode, v1@, v2@, v3@, out@);
    }
    out
}

/// Packs the per-stage preimage characterizations into `world_seed_links`.
proof fn lemma_world_seed_stage_equiv(
    seed: u64,
    hash: u64,
    v1: Seq<u64>,
    v2: Seq<u64>,
    v3: Seq<u64>,
    out: Seq<i64>,
)
    requires
        forall|q: u64|
            v1.contains(q) <==> exists|s: u64|
                #[trigger] seq![seed].contains(s) && inverts_to(q ^ LCG_MULT, s ^ 0),
        forall|q: u64|
            v2.contains(q) <==> exists|s: u64|
                #[trigger] v1.contains(s) && inverts_to(q ^ LCG_MULT, s ^ hash),
        forall|q: u64|
            v3.contains(q) <==> exists|s: u64|
                #[trigger] v2.contains(s) && inverts_to(q ^ LCG_MULT, s ^ 0),
        forall|w: i64|
            out.contains(w) <==> exists|j: int|
                0 <= j < v3.len() && w == java_next_long_spec(#[trigger] v3[j] ^ LCG_MULT) as i64,
    ensures
        forall|w: i64| out.contains(w) <==> world_seed_links(w, seed, hash),
{
    assert forall|w: i64| out.contains(w) implies world_seed_links(w, seed, hash) by {
        let j = choose|j: int|
            0 <= j < v3.len() && w == java_next_long_spec(#[trigger] v3[j] ^ LCG_MULT) as i64;
        let q3 = v3[j];
        assert(v3.contains(q3));
        let q2 = choose|s: u64| #[trigger] v2.contains(s) && inverts_to(q3 ^ LCG_MULT, s ^ 0);
        let q1 = choose|s: u64| #[trigger] v1.contains(s) && inverts_to(q2 ^ LCG_MULT, s ^ hash);
        let s0 = choose|s: u64| #[trigger] seq![seed].contains(s) && inverts_to(q1 ^ LCG_MULT, s ^ 0);
        assert(seq![seed].len() == 1 && seq![seed][0] == seed);
        assert(s0 == seed);
        let p1 = q1 ^ LCG_MULT;
        let p2 = q2 ^ LCG_MULT;
        let p3 = q3 ^ LCG_MULT;
        assert(seed ^ 0 == seed) by (bit_vector);
        assert(q2 ^ 0 == q2) by (bit_vector);
        lemma_xor_involution(q1, LCG_MULT);
        lemma_xor_involution(q2, LCG_MULT);
        assert(inverts_to(p3, p2 ^ LCG_MULT));
        assert(world_seed_links_from_structure(w, p2));
        assert(inverts_to(p2, p1 ^ LCG_MULT ^ hash)) by {
            assert((p1 ^ LCG_MULT) ^ hash == q1 ^ hash) by (bit_vector)
                requires
                    q1 == p1 ^ LCG_MULT,
            ;
        };
        assert(world_seed_links_from_common(w, p1, hash));
        assert(inverts_to(p1, seed));
    };
    assert forall|w: i64| world_seed_links(w, seed, hash) implies out.contains(w) by {
        let p1 = choose|p1: u64|
            #[trigger] inverts_to(p1, seed) && world_seed_links_from_common(w, p1, hash);
        let p2 = choose|p2: u64|
            #[trigger] inverts_to(p2, p1 ^ LCG_MULT ^ hash) && world_seed_links_from_structure(
                w,
                p2,
            );
        let p3 = choose|p3: u64|
            #[trigger] inverts_to(p3, p2 ^ LCG_MULT) && w == java_next_long_spec(p3) as i64;
        let q1 = p1 ^ LCG_MULT;
        let q2 = p2 ^ LCG_MULT;
        let q3 = p3 ^ LCG_MULT;
        lemma_xor_involution(p1, LCG_MULT);
        lemma_xor_involution(p2, LCG_MULT);
        lemma_xor_involution(p3, LCG_MULT);
        assert(seq![seed].len() == 1 && seq![seed][0] == seed);
        assert(seq![seed].contains(seed));
        assert(seed ^ 0 == seed) by (bit_vector);
        assert(inverts_to(q1 ^ LCG_MULT, seed ^ 0));
        assert(v1.contains(q1));
        assert((q1 ^ LCG_MULT) ^ LCG_MULT ^ hash == q1 ^ hash) by (bit_vector);
        assert(v2.contains(q2));
        assert(q2 ^ 0 == q2) by (bit_vector);
        assert(v3.contains(q3));
        let j = choose|j: int| 0 <= j < v3.len() && v3[j] == q3;
        assert(w == java_next_long_spec(v3[j] ^ LCG_MULT) as i64);
    };
}

} // verus!
