//! Recovery of hidden 48-bit linear-congruential-generator states from
//! position-tagged boolean observations.
//!
//! Each observation records whether the generator, re-seeded from a hash of a
//! 3D position, produced an output below a layer-dependent threshold. The
//! library builds a layered prefix filter over the 48-bit state space,
//! verifies the survivors against the observations of the opposite surface,
//! and reports the matching structure or world seeds.

use vstd::prelude::*;

use crate::block::{valid_observation_y, Block};
use crate::block_data::{filter_power_spec, from_block_spec, get_filter_power, BlockFilter};
use crate::layer::Layer;
use crate::modes::CrackerMode;
use crate::sender::Sender;

pub mod bedrock_tab;
pub mod block;
pub mod block_data;
pub mod block_entry;
pub mod controls;
pub mod layer;
pub mod block_type;
pub mod modes;
pub mod rng;
pub mod sender;
pub mod text;

verus! {

/// Multiplier of the 48-bit Java-style linear congruential generator.
pub const LCG_MULT: u64 = 25214903917;

/// Addend of the 48-bit Java-style linear congruential generator.
pub const LCG_ADD: u64 = 11;

/// Low 48 bits set: the generator state space is `[0, MASK48]`.
pub const MASK48: u64 = 0xFFFF_FFFF_FFFF;

/// `2^48`, the modulus of the generator.
pub const TWO48: u64 = 0x1_0000_0000_0000;

/// XOR constant separating the ceiling surface channel from the common seed.
pub const ROOF_HASH: u64 = 343340730;

/// XOR constant separating the floor surface channel from the common seed.
pub const FLOOR_HASH: u64 = 2042456806;

/// Candidates swept between two progress events of one worker: `2^(12+25)`.
pub const CHUNK_SIZE: u64 = 0x20_0000_0000;

/// Event streamed by the search: a confirmed seed, or the number of
/// candidates swept since the last progress event.
#[derive(Clone, Debug)]
pub enum CrackProgress {
    Seed(u64),
    Progress(u64),
}

/// A naive estimate of how many seeds the observations leave: the power
/// product of the filters they compile to.
pub fn estimate_result_amount(blocks: &[Block]) -> (r: u64)
    requires
        forall|i: int|
            0 <= i < blocks@.len() ==> valid_observation_y(#[trigger] blocks@[i].y as int),
    ensures
        r as int == filter_power_spec(blocks@.map_values(|b: Block| from_block_spec(b))),
{
    let mut filters: Vec<BlockFilter> = Vec::new();
    let mut i: usize = 0;
    while i < blocks.len()
        invariant
            0 <= i <= blocks@.len(),
            forall|j: int|
                0 <= j < blocks@.len() ==> valid_observation_y(#[trigger] blocks@[j].y as int),
            filters@ =~= blocks@.subrange(0, i as int).map_values(|b: Block| from_block_spec(b)),
            forall|j: int| 0 <= j < filters@.len() ==> (#[trigger] filters@[j]).wf(),
        decreases blocks@.len() - i,
    {
        let f = BlockFilter::from(&blocks[i], CrackerMode::Normal);
        filters.push(f);
        i = i + 1;
        proof {
            assert(filters@ =~= blocks@.subrange(0, i as int).map_values(
                |b: Block| from_block_spec(b),
            ));
        }
    }
    proof {
        assert(blocks@.subrange(0, blocks@.len() as int) =~= blocks@);
    }
    get_filter_power(filters.as_slice())
}

/// The half-open range of 48-bit prefixes that worker `thread` out of
/// `thread_count` sweeps: an even share of the 2^36 top-bit space, shifted
/// twelve bits into place. Consecutive workers' ranges tile the whole space:
/// worker 0 starts at zero, each range ends where the next begins, and the
/// last ends at `2^48`.
pub fn shard_bounds(thread: u64, thread_count: u64) -> (r: (u64, u64))
    requires
        thread < thread_count,
        1 <= thread_count <= 0x800_0000,
    ensures
        r.0 == (((thread as int) * 0x10_0000_0000) / (thread_count as int)) * 0x1000,
        r.1 == ((((thread as int) + 1) * 0x10_0000_0000) / (thread_count as int)) * 0x1000,
        r.0 <= r.1 <= TWO48,
        r.0 % 0x1000 == 0,
        r.1 % 0x1000 == 0,
        thread == 0 ==> r.0 == 0,
        thread == thread_count - 1 ==> r.1 == TWO48,
{
    proof {
        let n36 = 0x10_0000_0000int;
        let t = thread as int;
        let c = thread_count as int;
        vstd::arithmetic::mul::lemma_mul_inequality(t + 1, c, n36);
        vstd::arithmetic::mul::lemma_mul_inequality(t, t + 1, n36);
        vstd::arithmetic::mul::lemma_mul_nonnegative(t, n36);
        vstd::arithmetic::div_mod::lemma_div_is_ordered(t * n36, (t + 1) * n36, c);
        vstd::arithmetic::div_mod::lemma_div_is_ordered((t + 1) * n36, c * n36, c);
        vstd::arithmetic::div_mod::lemma_div_pos_is_pos(t * n36, c);
        vstd::arithmetic::div_mod::lemma_div_by_multiple(n36, c);
        vstd::arithmetic::mul::lemma_mul_is_commutative(c, n36);
        if thread == 0 {
            vstd::arithmetic::div_mod::lemma_div_of0(c);
        }
    }
    let start_bits = (thread * 0x10_0000_0000u64) / thread_count;
    let end_bits = ((thread + 1) * 0x10_0000_0000u64) / thread_count;
    proof {
        assert(start_bits <= 0x10_0000_0000 && end_bits <= 0x10_0000_0000);
        assert(start_bits <= 0x10_0000_0000 ==> (start_bits << 12u64) == start_bits * 0x1000
            && (start_bits << 12u64) % 0x1000 == 0) by (bit_vector);
        assert(end_bits <= 0x10_0000_0000 ==> (end_bits << 12u64) == end_bits * 0x1000 && (
        end_bits << 12u64) % 0x1000 == 0) by (bit_vector);
        vstd::arithmetic::mul::lemma_mul_inequality(
            start_bits as int,
            end_bits as int,
            0x1000int,
        );
        vstd::arithmetic::mul::lemma_mul_inequality(end_bits as int, 0x10_0000_0000, 0x1000int);
    }
    (start_bits << 12u64, end_bits << 12u64)
}

/// One worker's sweep: runs the filter tree on every 4096-aligned prefix of
/// its range, sending a progress event after every chunk. A failed send means
/// the consumer dropped the receiver; the worker then returns within the
/// current chunk boundary.
pub fn run_shard<S: Sender>(checks: &Layer<S>, start_bits: u64, end_bits: u64, sender: &S)
    requires
        checks.wf_shape(),
        checks.level_of() == 12,
        start_bits <= end_bits <= TWO48,
        start_bits % 0x1000 == 0,
        end_bits % 0x1000 == 0,
{
    let mut start_bits = start_bits;
    while start_bits < end_bits
        invariant
            checks.wf_shape(),
            checks.level_of() == 12,
            start_bits <= end_bits <= TWO48,
            start_bits % 0x1000 == 0,
            end_bits % 0x1000 == 0,
        decreases end_bits - start_bits,
    {
        let chunk_end = if end_bits - start_bits < CHUNK_SIZE {
            end_bits
        } else {
            start_bits + CHUNK_SIZE
        };
        let mut upper_bits = start_bits;
        while upper_bits < chunk_end
            invariant
                checks.wf_shape(),
                checks.level_of() == 12,
                upper_bits <= chunk_end <= TWO48,
                upper_bits % 0x1000 == 0,
                chunk_end % 0x1000 == 0,
            decreases chunk_end - upper_bits,
        {
            proof {
                assert(upper_bits % 0x1000 == 0 && upper_bits < 0x1_0000_0000_0000
                    ==> upper_bits <= MASK48 && upper_bits & 0xFFFu64 == 0 && upper_bits + 0x1000
                    <= 0x1_0000_0000_0000 && (upper_bits + 0x1000) % 0x1000 == 0) by (bit_vector);
                assert(1u64 << 12u64 == 0x1000u64) by (bit_vector);
                assert(crate::block_data::low_mask(12) == 0xFFFu64);
            }
            checks.run_checks(upper_bits);
            upper_bits = upper_bits + 0x1000;
        }
        //dropping the receiver stops the workers
        if !sender.send(CrackProgress::Progress(chunk_end - start_bits)) {
            return ;
        }
        start_bits = chunk_end;
    }
}

} // verus!
