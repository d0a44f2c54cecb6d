//! Position filters and prefix checks: the arithmetic heart of the search.
//!
//! A `BlockFilter` turns one observation into an acceptance window for the
//! generator output drawn at that position; a `CheckObject` compiles the
//! window into a single fused multiply-add-compare over a candidate prefix.

use vstd::prelude::*;

use crate::block::{valid_observation_y, Block};
use crate::block_type::BlockType;
use crate::modes::CrackerMode;
use crate::rng::lemma_wrap_mul_add_mask48;
use crate::{LCG_ADD, LCG_MULT, MASK48, TWO48};

verus! {

/// One fifth of the 48-bit space, exactly: `5 * FIFTH48 == MASK48`.
pub const FIFTH48: u64 = 56294995342131;

/// The 48-bit position hash: a signed wrapping mix of the coordinates,
/// squared and remixed, with the top 48 bits of the 64-bit result kept.
pub open spec fn pos_hash_spec(x: i32, y: i32, z: i32) -> u64 {
    let h0 = (vstd::wrapping::i32_specs::wrapping_mul(x, 3129871) as i64)
        ^ vstd::wrapping::i64_specs::wrapping_mul(z as i64, 116129781) ^ (y as i64);
    let h1 = vstd::wrapping::i64_specs::wrapping_add(
        vstd::wrapping::i64_specs::wrapping_mul(
            vstd::wrapping::i64_specs::wrapping_mul(h0, h0),
            42317861,
        ),
        vstd::wrapping::i64_specs::wrapping_mul(h0, 11),
    );
    (h1 as u64) >> 16
}

/// The acceptance window `[lower, upper)` for an observation at layer `y`
/// with the given outcome. On the four valid layers of either surface the
/// per-layer threshold is an exact multiple of `FIFTH48`.
pub open spec fn bounds_spec(y: i32, t: BlockType) -> (u64, u64) {
    let layer: int = if y > 5 {
        y as int - 122
    } else {
        y as int
    };
    let b = ((FIFTH48 as int) * (5 - layer)) as u64;
    if y > 5 {
        match t {
            BlockType::BEDROCK => (b, MASK48),
            BlockType::OTHER => (0u64, b),
        }
    } else {
        match t {
            BlockType::BEDROCK => (0u64, b),
            BlockType::OTHER => (b, MASK48),
        }
    }
}

/// On valid layers the window is non-degenerate and inside the state space.
pub proof fn lemma_bounds_spec_wf(y: i32, t: BlockType)
    requires
        valid_observation_y(y as int),
    ensures
        bounds_spec(y, t).0 < bounds_spec(y, t).1 <= MASK48,
{
}

/// The mask with the low `k` bits set.
pub open spec fn low_mask(k: u64) -> u64 {
    (((1u64 << k) as int) - 1) as u64
}

/// A filter derived from one observation: the stored position hash (already
/// XORed with the multiplier), the acceptance window, and an upper bound on
/// the arc of outputs still reachable from a surviving prefix.
#[derive(Clone, Copy, Debug)]
pub struct BlockFilter {
    pub pos_hash: u64,
    pub lower_bound: u64,
    pub upper_bound: u64,
    pub possible_range: u64,
}

/// The filter an observation compiles to, before any refinement.
pub open spec fn from_block_spec(b: Block) -> BlockFilter {
    BlockFilter {
        pos_hash: pos_hash_spec(b.x, b.y, b.z) ^ LCG_MULT,
        lower_bound: bounds_spec(b.y, b.block_type).0,
        upper_bound: bounds_spec(b.y, b.block_type).1,
        possible_range: MASK48,
    }
}

/// The length of the arc of generator outputs that completions of a prefix
/// with `mask` unknown low bits can reach for this filter's window.
pub open spec fn spans_range(f: BlockFilter, mask: u64) -> int {
    (f.upper_bound - f.lower_bound) + (mask as int) * (LCG_MULT as int)
}

impl BlockFilter {
    /// Well-formed: hash in the 48-bit space, non-degenerate window, and a
    /// positive range bound no larger than the state space.
    pub open spec fn wf(self) -> bool {
        &&& self.pos_hash <= MASK48
        &&& self.lower_bound < self.upper_bound
        &&& self.upper_bound <= MASK48
        &&& 1 <= self.possible_range <= MASK48
    }

    pub fn new(x: i32, y: i32, z: i32, block_type: BlockType) -> (r: BlockFilter)
        requires
            valid_observation_y(y as int),
        ensures
            r == from_block_spec(Block { x, y, z, block_type }),
            r.wf(),
    {
        let h = Self::hashcode(x, y, z);
        let pos_hash = h ^ LCG_MULT;
        let (lower_bound, upper_bound) = Self::bounds(y, block_type);
        proof {
            assert(h <= MASK48 ==> (h ^ LCG_MULT) <= MASK48) by (bit_vector);
        }
        BlockFilter { pos_hash, lower_bound, upper_bound, possible_range: MASK48 }
    }

    /// Builds the filter for one observation. Both generator variants share
    /// the same filter arithmetic; the variant only affects which observation
    /// sets the input validator admits.
    pub fn from(block: &Block, _mode: CrackerMode) -> (r: BlockFilter)
        requires
            valid_observation_y(block.y as int),
        ensures
            r == from_block_spec(*block),
            r.wf(),
    {
        Self::new(block.x, block.y, block.z, block.block_type)
    }

    /// Compiles this filter into a check for prefixes with `lower_bits`
    /// unknown low bits, and tightens `possible_range` to the arc the check
    /// leaves open, so that refinement at the next level is measured against
    /// it. The range strictly decreases at every refinement.
    pub fn create_check(&mut self, lower_bits: u64) -> (r: CheckObject)
        requires
            old(self).wf(),
            lower_bits <= 12,
            spans_range(*old(self), low_mask(lower_bits)) < old(self).possible_range,
        ensures
            r == check_spec(
                old(self).pos_hash,
                old(self).lower_bound,
                old(self).upper_bound,
                low_mask(lower_bits),
            ),
            final(self).pos_hash == old(self).pos_hash,
            final(self).lower_bound == old(self).lower_bound,
            final(self).upper_bound == old(self).upper_bound,
            final(self).possible_range == spans_range(*old(self), low_mask(lower_bits)),
            final(self).possible_range < old(self).possible_range,
            final(self).wf(),
            r.wf_for(old(self).pos_hash, old(self).lower_bound, old(self).upper_bound, lower_bits),
    {
        proof {
            assert(lower_bits <= 12 ==> 1u64 <= (1u64 << lower_bits) && (1u64 << lower_bits)
                <= 0x1000) by (bit_vector);
        }
        let lower_bits_mask = (1u64 << lower_bits) - 1;
        self.check_with_bits(lower_bits);
        let r = CheckObject::new(
            self.pos_hash,
            self.lower_bound,
            self.upper_bound,
            lower_bits_mask,
        );
        proof {
            assert(r.wf_for(self.pos_hash, self.lower_bound, self.upper_bound, lower_bits));
        }
        r
    }

    /// Tightens `possible_range` to the arc length left at this refinement.
    fn check_with_bits(&mut self, lower_bits: u64)
        requires
            old(self).wf(),
            lower_bits <= 12,
            spans_range(*old(self), low_mask(lower_bits)) < old(self).possible_range,
        ensures
            final(self).pos_hash == old(self).pos_hash,
            final(self).lower_bound == old(self).lower_bound,
            final(self).upper_bound == old(self).upper_bound,
            final(self).possible_range == spans_range(*old(self), low_mask(lower_bits)),
            final(self).possible_range < old(self).possible_range,
            final(self).wf(),
    {
        proof {
            assert(lower_bits <= 12 ==> 1u64 <= (1u64 << lower_bits) && (1u64 << lower_bits)
                <= 0x1000) by (bit_vector);
        }
        let lower_bits_mask = (1u64 << lower_bits) - 1;
        let jiggle_room = lower_bits_mask * LCG_MULT;
        let new_range = jiggle_room + self.bound();
        self.possible_range = new_range;
    }

    /// The width of the acceptance window.
    pub fn bound(&self) -> (r: u64)
        requires
            self.lower_bound < self.upper_bound,
        ensures
            r == self.upper_bound - self.lower_bound,
    {
        self.upper_bound - self.lower_bound
    }

    /// Whether this filter still rejects any completion at this refinement:
    /// the reachable arc is shorter than the range it is measured against,
    /// which is exactly when the discarded-seed estimate is positive.
    pub fn discards_seeds(&self, lower_bits: u64) -> (r: bool)
        requires
            self.wf(),
            lower_bits <= 12,
        ensures
            r == (spans_range(*self, low_mask(lower_bits)) < self.possible_range),
    {
        proof {
            assert(lower_bits <= 12 ==> 1u64 <= (1u64 << lower_bits) && (1u64 << lower_bits)
                <= 0x1000) by (bit_vector);
        }
        let lower_bits_mask = (1u64 << lower_bits) - 1;
        self.bound() + lower_bits_mask * LCG_MULT < self.possible_range
    }

    /// The raw 48-bit position hash of an observation's coordinates.
    pub fn hashcode(x: i32, y: i32, z: i32) -> (r: u64)
        ensures
            r == pos_hash_spec(x, y, z),
            r <= MASK48,
    {
        let mut pos_hash: i64 = (x.wrapping_mul(3129871)) as i64 ^ ((z as i64).wrapping_mul(
            116129781,
        )) ^ y as i64;
        pos_hash = pos_hash.wrapping_mul(pos_hash).wrapping_mul(42317861).wrapping_add(
            pos_hash.wrapping_mul(11),
        );
        let h = pos_hash as u64;
        proof {
            assert(h >> 16 <= MASK48) by (bit_vector);
        }
        h >> 16
    }

    /// The acceptance window for layer `y` and the given outcome.
    pub fn bounds(y: i32, block_type: BlockType) -> (r: (u64, u64))
        requires
            valid_observation_y(y as int),
        ensures
            r == bounds_spec(y, block_type),
            r.0 < r.1 <= MASK48,
    {
        let layer: i32 = if y > 5 {
            y - 122
        } else {
            y
        };
        let b: u64 = FIFTH48 * ((5 - layer) as u64);
        if y > 5 {
            match block_type {
                BlockType::BEDROCK => (b, MASK48),
                BlockType::OTHER => (0u64, b),
            }
        } else {
            match block_type {
                BlockType::BEDROCK => (0u64, b),
                BlockType::OTHER => (b, MASK48),
            }
        }
    }
}

/// The expected number of 48-bit states that survive all the filters: `2^48`
/// scaled by each filter's acceptance ratio, truncated at every step. A
/// filter whose window already covers its whole range contributes nothing.
pub open spec fn filter_power_spec(s: Seq<BlockFilter>) -> int
    decreases s.len(),
{
    if s.len() == 0 {
        TWO48 as int
    } else {
        let f = s.last();
        let acc = filter_power_spec(s.drop_last());
        if f.upper_bound - f.lower_bound >= f.possible_range {
            acc
        } else {
            acc * (f.upper_bound - f.lower_bound) / (f.possible_range as int)
        }
    }
}

/// The power product stays within `[0, 2^48]`.
pub proof fn lemma_filter_power_bounds(s: Seq<BlockFilter>)
    requires
        forall|i: int| 0 <= i < s.len() ==> (#[trigger] s[i]).wf(),
    ensures
        0 <= filter_power_spec(s) <= TWO48,
    decreases s.len(),
{
    if s.len() > 0 {
        let f = s.last();
        let prefix = s.drop_last();
        assert(forall|i: int| 0 <= i < prefix.len() ==> (#[trigger] prefix[i]).wf());
        lemma_filter_power_bounds(prefix);
        let acc = filter_power_spec(prefix);
        let w = f.upper_bound - f.lower_bound;
        if w < f.possible_range {
            let d = f.possible_range as int;
            assert(0 <= acc * w / d <= acc) by {
                vstd::arithmetic::mul::lemma_mul_nonnegative(acc, w);
                vstd::arithmetic::div_mod::lemma_div_pos_is_pos(acc * w, d);
                vstd::arithmetic::mul::lemma_mul_inequality(w, d, acc);
                vstd::arithmetic::mul::lemma_mul_is_commutative(acc, w);
                vstd::arithmetic::mul::lemma_mul_is_commutative(acc, d);
                vstd::arithmetic::div_mod::lemma_div_is_ordered(acc * w, acc * d, d);
                vstd::arithmetic::div_mod::lemma_div_by_multiple(acc, d);
            };
        }
    }
}

/// The expected survivor count for a list of filters.
pub fn get_filter_power(filters: &[BlockFilter]) -> (r: u64)
    requires
        forall|i: int| 0 <= i < filters@.len() ==> (#[trigger] filters@[i]).wf(),
    ensures
        r as int == filter_power_spec(filters@),
{
    let mut acc: u128 = TWO48 as u128;
    let mut i: usize = 0;
    proof {
        assert(filters@.subrange(0, 0) =~= Seq::<BlockFilter>::empty());
    }
    while i < filters.len()
        invariant
            0 <= i <= filters@.len(),
            forall|j: int| 0 <= j < filters@.len() ==> (#[trigger] filters@[j]).wf(),
            acc as int == filter_power_spec(filters@.subrange(0, i as int)),
            0 <= acc as int <= TWO48 as int,
        decreases filters@.len() - i,
    {
        let f = &filters[i];
        let w = f.upper_bound - f.lower_bound;
        proof {
            let prefix = filters@.subrange(0, i as int);
            let next = filters@.subrange(0, i as int + 1);
            assert(next.drop_last() =~= prefix);
            assert(next.last() == filters@[i as int]);
            lemma_filter_power_bounds(next);
            if w < f.possible_range {
                vstd::arithmetic::mul::lemma_mul_upper_bound(
                    acc as int,
                    TWO48 as int,
                    w as int,
                    MASK48 as int,
                );
                vstd::arithmetic::mul::lemma_mul_nonnegative(acc as int, w as int);
            }
        }
        if w < f.possible_range {
            acc = acc * (w as u128) / (f.possible_range as u128);
        }
        i = i + 1;
    }
    proof {
        assert(filters@.subrange(0, filters@.len() as int) =~= filters@);
    }
    acc as u64
}

/// A compiled prefix check: true means the candidate prefix is rejected.
#[derive(Clone, Copy, Debug)]
pub struct CheckObject {
    pub pos_hash: u64,
    pub condition: u64,
    pub offset: u64,
}

/// The check compiled from a window and a low-bit mask. `offset` recenters
/// the window's upper end on zero; `condition` is the length of the part of
/// the circle from which no completion under `mask` can reach the window.
pub open spec fn check_spec(pos_hash: u64, lower: u64, upper: u64, mask: u64) -> CheckObject {
    CheckObject {
        pos_hash: pos_hash & ((MASK48 - mask) as u64),
        condition: ((lower + (MASK48 - upper)) - (mask as int) * (LCG_MULT as int)) as u64,
        offset: (MASK48 - upper) as u64,
    }
}

/// Evaluating a check on a prefix: one multiply-add on the XOR of prefix and
/// stored hash, masked to 48 bits and compared against the condition.
pub open spec fn check_eval(c: CheckObject, p: u64) -> bool {
    ((((p ^ c.pos_hash) as int) * (LCG_MULT as int) + (c.offset as int)) % (TWO48 as int))
        < c.condition
}

impl CheckObject {
    /// The shape every compiled (non-filler) check has: it equals
    /// `check_spec` of a well-formed window whose arc fits the circle.
    pub open spec fn wf_for(self, pos_hash: u64, lower: u64, upper: u64, k: u64) -> bool {
        &&& self == check_spec(pos_hash, lower, upper, low_mask(k))
        &&& pos_hash <= MASK48
        &&& lower < upper <= MASK48
        &&& k <= 12
        &&& (upper - lower) + (low_mask(k) as int) * (LCG_MULT as int) <= MASK48
    }

    pub fn new(pos_hash: u64, lower_bound: u64, upper_bound: u64, lower_bit_mask: u64) -> (r:
        CheckObject)
        requires
            pos_hash <= MASK48,
            lower_bound < upper_bound <= MASK48,
            lower_bit_mask <= 0xFFF,
            (upper_bound - lower_bound) + (lower_bit_mask as int) * (LCG_MULT as int) <= MASK48,
        ensures
            r == check_spec(pos_hash, lower_bound, upper_bound, lower_bit_mask),
    {
        let offset = MASK48 - upper_bound;
        let pos_hash = pos_hash & (MASK48 - lower_bit_mask);
        let condition = lower_bound + offset - lower_bit_mask * LCG_MULT;
        CheckObject { pos_hash, condition, offset }
    }

    /// A check that rejects nothing; used to pad check lists to a multiple
    /// of eight.
    pub fn filler() -> (r: CheckObject)
        ensures
            r == (CheckObject { pos_hash: 0u64, condition: 0u64, offset: 0u64 }),
    {
        CheckObject { pos_hash: 0, condition: 0, offset: 0 }
    }

    /// Fillers never reject a candidate.
    pub proof fn lemma_filler_never_rejects(p: u64)
        ensures
            !check_eval(CheckObject { pos_hash: 0u64, condition: 0u64, offset: 0u64 }, p),
    {
        let v = (((p ^ 0u64) as int) * (LCG_MULT as int) + 0) % (TWO48 as int);
        vstd::arithmetic::div_mod::lemma_mod_division_less_than_divisor(
            ((p ^ 0u64) as int) * (LCG_MULT as int),
            TWO48 as int,
        );
    }

    /// Evaluates the check on a candidate prefix; `true` rejects it.
    pub fn check(&self, upper_bits: u64) -> (r: bool)
        ensures
            r == check_eval(*self, upper_bits),
    {
        let x = upper_bits ^ self.pos_hash;
        let prod = x.wrapping_mul(LCG_MULT);
        let sum = prod.wrapping_add(self.offset);
        proof {
            assert(sum == (((prod as int) + (self.offset as int)) % 0x1_0000_0000_0000_0000)) by {
                if (prod as int) + (self.offset as int) <= u64::MAX as int {
                    vstd::arithmetic::div_mod::lemma_small_mod(
                        (prod + self.offset) as nat,
                        0x1_0000_0000_0000_0000nat,
                    );
                }
            };
            lemma_wrap_mul_add_mask48(x, self.offset, prod, sum);
        }
        (sum & MASK48) < self.condition
    }
}

/// The output the generator draws at a position with stored hash `ph` when
/// the hidden surface state is `s`: one LCG step on their XOR.
pub open spec fn draw_spec(ph: u64, s: u64) -> u64 {
    crate::rng::lcg_next_spec(s ^ ph)
}

/// Modular core of check soundness: if the draw `(x + ell*MULT + ADD) mod 2^48`
/// lands in `[lower + ADD, upper)`, the check value `(x + 2^48-1-upper) mod
/// 2^48` stays at or above the reject threshold.
proof fn lemma_arc_arith(x: int, ell: int, m: int, lower: int, upper: int)
    requires
        0 <= x,
        0 <= lower,
        lower < upper <= (TWO48 as int) - 1,
        0 <= ell <= m,
        (upper - lower) + m * (LCG_MULT as int) <= (TWO48 as int) - 1,
        lower + (LCG_ADD as int) <= (x + ell * (LCG_MULT as int) + (LCG_ADD as int)) % (
        TWO48 as int) < upper,
    ensures
        (x + ((TWO48 as int) - 1 - upper)) % (TWO48 as int) >= ((TWO48 as int) - 1) - (upper
            - lower) - m * (LCG_MULT as int),
{
    let n = TWO48 as int;
    let mult = LCG_MULT as int;
    let a = LCG_ADD as int;
    let d = (x + ell * mult + a) % n;
    let delta = n - 1 - upper - ell * mult - a;
    assert(0 <= ell * mult <= m * mult) by {
        vstd::arithmetic::mul::lemma_mul_nonnegative(ell, mult);
        vstd::arithmetic::mul::lemma_mul_inequality(ell, m, mult);
    };
    assert(0 <= d < n) by {
        vstd::arithmetic::div_mod::lemma_mod_division_less_than_divisor(x + ell * mult + a, n);
    };
    assert((x + (n - 1 - upper)) % n == (d + delta) % n) by {
        assert(x + (n - 1 - upper) == (x + ell * mult + a) + delta);
        vstd::arithmetic::div_mod::lemma_add_mod_noop(x + ell * mult + a, delta, n);
        vstd::arithmetic::div_mod::lemma_add_mod_noop(d, delta, n);
        vstd::arithmetic::div_mod::lemma_small_mod(d as nat, n as nat);
    };
    assert(0 <= d + delta < n);
    vstd::arithmetic::div_mod::lemma_small_mod((d + delta) as nat, n as nat);
    assert((d + delta) >= (n - 1) - (upper - lower) - m * mult);
}

/// A compiled prefix check is sound: it never rejects the prefix of a state
/// whose draw lands inside the window and clears the window's lower end by at
/// least the generator addend. (A draw within `LCG_ADD` of the lower bound
/// can be lost to the check's fused rounding; every other consistent state
/// survives every refinement level.)
pub proof fn lemma_check_sound(ph: u64, lower: u64, upper: u64, k: u64, s: u64)
    requires
        ph <= MASK48,
        lower < upper <= MASK48,
        k <= 12,
        (upper - lower) + (low_mask(k) as int) * (LCG_MULT as int) <= MASK48,
        s <= MASK48,
        lower + LCG_ADD <= draw_spec(ph, s) < upper,
    ensures
        !check_eval(check_spec(ph, lower, upper, low_mask(k)), s & (MASK48 ^ low_mask(k))),
{
    let n = TWO48 as int;
    let mult = LCG_MULT as int;
    assert(k <= 12 ==> 1u64 <= (1u64 << k) && (1u64 << k) <= 0x1000) by (bit_vector);
    let m: u64 = low_mask(k);
    assert(m == (1u64 << k) - 1);
    let u0: u64 = (s ^ ph) & (MASK48 ^ m);
    let ell: u64 = (s ^ ph) & m;
    let p: u64 = s & (MASK48 ^ m);
    assert((p ^ (ph & (MASK48 ^ m))) == u0 && (s ^ ph) == u0 + ell && ell <= m && u0
        <= MASK48 && (MASK48 - m == MASK48 ^ m)) by (bit_vector)
        requires
            m == (1u64 << k) - 1,
            k <= 12u64,
            s <= MASK48,
            ph <= MASK48,
            u0 == (s ^ ph) & (MASK48 ^ m),
            ell == (s ^ ph) & m,
            p == s & (MASK48 ^ m),
    ;
    let c = check_spec(ph, lower, upper, m);
    assert(c.pos_hash == ph & (MASK48 ^ m));
    assert(c.offset == MASK48 - upper);
    assert(c.condition == (n - 1) - (upper - lower) - m * mult);
    let x = (u0 as int) * mult;
    assert(((s ^ ph) as int) * mult == x + (ell as int) * mult) by {
        vstd::arithmetic::mul::lemma_mul_is_distributive_add_other_way(
            mult,
            u0 as int,
            ell as int,
        );
    };
    assert(0 <= x) by {
        vstd::arithmetic::mul::lemma_mul_nonnegative(u0 as int, mult);
    };
    lemma_arc_arith(x, ell as int, m as int, lower as int, upper as int);
}

/// The raw position hash stays within the 48-bit space.
pub proof fn lemma_pos_hash_in_range(x: i32, y: i32, z: i32)
    ensures
        pos_hash_spec(x, y, z) <= MASK48,
        pos_hash_spec(x, y, z) ^ LCG_MULT <= MASK48,
{
    let h1 = vstd::wrapping::i64_specs::wrapping_add(
        vstd::wrapping::i64_specs::wrapping_mul(
            vstd::wrapping::i64_specs::wrapping_mul(
                (vstd::wrapping::i32_specs::wrapping_mul(x, 3129871) as i64)
                    ^ vstd::wrapping::i64_specs::wrapping_mul(z as i64, 116129781) ^ (y as i64),
                (vstd::wrapping::i32_specs::wrapping_mul(x, 3129871) as i64)
                    ^ vstd::wrapping::i64_specs::wrapping_mul(z as i64, 116129781) ^ (y as i64),
            ),
            42317861,
        ),
        vstd::wrapping::i64_specs::wrapping_mul(
            (vstd::wrapping::i32_specs::wrapping_mul(x, 3129871) as i64)
                ^ vstd::wrapping::i64_specs::wrapping_mul(z as i64, 116129781) ^ (y as i64),
            11,
        ),
    );
    let hv: u64 = h1 as u64;
    assert(hv >> 16 <= MASK48 && (hv >> 16) ^ LCG_MULT <= MASK48) by (bit_vector);
    assert(pos_hash_spec(x, y, z) == hv >> 16);
}

/// A single observation's compiled check never rejects the prefix of a state
/// that actually produces the observed outcome, at any refinement level at
/// which the observation still carries information — provided the state's
/// draw clears the window's lower end by at least the generator addend.
pub proof fn lemma_observation_never_rejected(b: Block, k: u64, s: u64)
    requires
        valid_observation_y(b.y as int),
        k <= 12,
        s <= MASK48,
        spans_range(from_block_spec(b), low_mask(k)) <= MASK48,
        bounds_spec(b.y, b.block_type).0 + LCG_ADD <= draw_spec(from_block_spec(b).pos_hash, s),
        draw_spec(from_block_spec(b).pos_hash, s) < bounds_spec(b.y, b.block_type).1,
    ensures
        !check_eval(
            check_spec(
                from_block_spec(b).pos_hash,
                bounds_spec(b.y, b.block_type).0,
                bounds_spec(b.y, b.block_type).1,
                low_mask(k),
            ),
            s & (MASK48 ^ low_mask(k)),
        ),
{
    lemma_bounds_spec_wf(b.y, b.block_type);
    lemma_pos_hash_in_range(b.x, b.y, b.z);
    lemma_check_sound(
        from_block_spec(b).pos_hash,
        bounds_spec(b.y, b.block_type).0,
        bounds_spec(b.y, b.block_type).1,
        k,
        s,
    );
}

} // verus!
