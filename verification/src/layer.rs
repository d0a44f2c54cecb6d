//! The layered prefix filter: a chain of check layers that refines candidate
//! prefixes from 36 bits of precision down to full 48-bit states, ending in a
//! cross-surface comparison that reports surviving seeds.

use vstd::prelude::*;

use crate::block::{valid_observation_y, Block};
use crate::block_data::{
    check_eval, check_spec, filter_power_spec, from_block_spec, get_filter_power, low_mask,
    spans_range, BlockFilter, CheckObject,
};
use crate::modes::{CrackerMode, OutputMode};
use crate::rng::{java_next_long_spec, next_long, reverse_next_long};
use crate::sender::Sender;
use crate::{CrackProgress, FLOOR_HASH, LCG_MULT, MASK48, ROOF_HASH};

verus! {

/// A state that a check list accepts: no check fires on it.
pub open spec fn passes_all(checks: Seq<CheckObject>, s: u64) -> bool {
    forall|j: int| 0 <= j < checks.len() ==> !check_eval(#[trigger] checks[j], s)
}

/// A check either is a filler or was compiled from one of the source filters
/// at refinement level `k`.
pub open spec fn check_from_filters(c: CheckObject, srcs: Seq<BlockFilter>, k: int) -> bool {
    ||| c == (CheckObject { pos_hash: 0u64, condition: 0u64, offset: 0u64 })
    ||| exists|j: int|
        0 <= j < srcs.len() && c.wf_for(
            (#[trigger] srcs[j]).pos_hash,
            srcs[j].lower_bound,
            srcs[j].upper_bound,
            k as u64,
        )
}

/// What follows a layer: a finer layer, the cross-surface comparison, or
/// (only while the chain is being wired) nothing yet.
pub enum NextOperation<S: Sender> {
    Layer(Box<Layer<S>>),
    CrossComparison(CrossComparison<S>),
    Unset,
}

/// The terminal of the filter tree: re-checks every survivor against the
/// opposite surface's observations and emits the seeds that remain.
pub struct CrossComparison<S: Sender> {
    pub sender: S,
    pub checks: Vec<CheckObject>,
    pub primary_hash: u64,
    pub secondary_hash: u64,
    pub output: OutputMode,
}

impl<S: Sender> CrossComparison<S> {
    /// The checks come from the secondary surface's filters, compiled at full
    /// precision, and the two hashes are the two surface constants in some
    /// order.
    pub open spec fn sourced(self, sec: Seq<BlockFilter>) -> bool {
        &&& forall|i: int|
            0 <= i < self.checks@.len() ==> check_from_filters(#[trigger] self.checks@[i], sec, 0)
        &&& ((self.primary_hash == FLOOR_HASH && self.secondary_hash == ROOF_HASH) || (
        self.primary_hash == ROOF_HASH && self.secondary_hash == FLOOR_HASH))
    }
}

/// One level of the filter tree: an ordered, padded list of checks for one
/// refinement level, and the operation run on surviving prefixes.
pub struct Layer<S: Sender> {
    pub checks: Vec<CheckObject>,
    pub split: u64,
    pub next_operation: NextOperation<S>,
}

impl<S: Sender> Layer<S> {
    /// How many layers follow this one: the refinement level `k` of this
    /// layer's checks.
    pub open spec fn level_of(self) -> nat
        decreases self,
    {
        match self.next_operation {
            NextOperation::Layer(l) => 1 + (*l).level_of(),
            _ => 0,
        }
    }

    /// Structurally well-formed: padded non-empty check lists, the split that
    /// seeds the next high bit, at most thirteen levels, and a chain that
    /// ends in the cross-surface comparison.
    pub open spec fn wf_shape(self) -> bool
        decreases self,
    {
        &&& self.checks@.len() > 0
        &&& self.checks@.len() % 8 == 0
        &&& self.level_of() <= 12
        &&& self.split == (1u64 << (if self.level_of() == 0 {
            0u64
        } else {
            (self.level_of() - 1) as u64
        }))
        &&& match self.next_operation {
            NextOperation::Layer(l) => (*l).wf_shape(),
            NextOperation::CrossComparison(_) => true,
            NextOperation::Unset => false,
        }
    }

    /// Every check in the chain was compiled from a primary-surface filter at
    /// the layer's own level, and the terminal comparison from the secondary
    /// surface.
    pub open spec fn sourced(self, prim: Seq<BlockFilter>, sec: Seq<BlockFilter>) -> bool
        decreases self,
    {
        &&& forall|i: int|
            0 <= i < self.checks@.len() ==> check_from_filters(
                #[trigger] self.checks@[i],
                prim,
                self.level_of() as int,
            )
        &&& match self.next_operation {
            NextOperation::Layer(l) => (*l).sourced(prim, sec),
            NextOperation::CrossComparison(cc) => cc.sourced(sec),
            NextOperation::Unset => false,
        }
    }

    /// The check list of the layer at level `k` of this chain.
    pub open spec fn checks_at_level(self, k: int) -> Seq<CheckObject>
        decreases self,
    {
        if self.level_of() == k {
            self.checks@
        } else {
            match self.next_operation {
                NextOperation::Layer(l) => (*l).checks_at_level(k),
                _ => Seq::empty(),
            }
        }
    }

    /// The terminal comparison of the chain.
    pub open spec fn terminal(self) -> Option<CrossComparison<S>>
        decreases self,
    {
        match self.next_operation {
            NextOperation::Layer(l) => (*l).terminal(),
            NextOperation::CrossComparison(cc) => Some(cc),
            NextOperation::Unset => None,
        }
    }

    /// Runs this layer's checks on a candidate prefix; if none rejects it,
    /// recurses into both completions of the next bit, down to the terminal
    /// comparison on full 48-bit states.
    pub fn run_checks(&self, upper_bits: u64)
        requires
            self.wf_shape(),
            upper_bits <= MASK48,
            upper_bits & low_mask(self.level_of() as u64) == 0,
        decreases *self,
    {
        let n = self.checks.len();
        let mut i: usize = 0;
        while i < n
            invariant
                0 <= i <= n,
                n == self.checks@.len(),
            decreases n - i,
        {
            if self.checks[i].check(upper_bits) {
                return ;
            }
            i = i + 1;
        }
        match &self.next_operation {
            NextOperation::Layer(layer) => {
                proof {
                    assert(self.level_of() == 1 + (**layer).level_of());
                    lemma_prefix_step(upper_bits, self.split, self.level_of() as u64);
                }
                layer.run_checks(upper_bits);
                layer.run_checks(upper_bits + self.split);
            },
            NextOperation::CrossComparison(checks) => {
                checks.run(upper_bits);
            },
            NextOperation::Unset => {
                proof {
                    assert(false);
                }
            },
        }
    }
}

/// Stepping from level `k` to `k - 1`: both completions of the next bit stay
/// in the 48-bit space and have their low `k - 1` bits clear.
proof fn lemma_prefix_step(p: u64, split: u64, k: u64)
    requires
        1 <= k <= 12,
        p <= MASK48,
        p & low_mask(k) == 0,
        split == (1u64 << ((k - 1) as u64)),
    ensures
        p + split <= MASK48,
        ((p + split) as u64) & low_mask((k - 1) as u64) == 0,
        p & low_mask((k - 1) as u64) == 0,
{
    assert(1 <= k <= 12 ==> 1u64 <= (1u64 << ((k - 1) as u64)) && (1u64 << ((k - 1) as u64))
        <= 0x800 && 1u64 <= (1u64 << k)) by (bit_vector);
    let m: u64 = ((1u64 << k) - 1) as u64;
    let mc: u64 = ((1u64 << ((k - 1) as u64)) - 1) as u64;
    assert(low_mask(k) == m && low_mask((k - 1) as u64) == mc);
    assert((p & m == 0 && p <= MASK48 && split == (1u64 << ((k - 1) as u64)) && 1 <= k <= 12
        ==> p + split <= MASK48 && (vstd::wrapping::u64_specs::wrapping_add(p, split) & mc == 0)
        && (p & mc == 0))) by (bit_vector)
        requires
            m == (1u64 << k) - 1,
            mc == (1u64 << ((k - 1) as u64)) - 1,
    ;
}

impl<S: Sender> CrossComparison<S> {
    /// Whether every secondary-surface check passes on a candidate state.
    pub fn check(&self, seed: u64) -> (r: bool)
        ensures
            r == passes_all(self.checks@, seed),
    {
        let n = self.checks.len();
        let mut i: usize = 0;
        while i < n
            invariant
                0 <= i <= n,
                n == self.checks@.len(),
                forall|j: int| 0 <= j < i ==> !check_eval(#[trigger] self.checks@[j], seed),
            decreases n - i,
        {
            if self.checks[i].check(seed) {
                return false;
            }
            i = i + 1;
        }
        true
    }

    /// Re-checks one surviving primary-surface seed against the secondary
    /// surface and sends every seed it leads to.
    pub fn run(&self, seed: u64) {
        let outs = self.surviving_outputs(seed);
        let mut i: usize = 0;
        while i < outs.len()
            decreases outs.len() - i,
        {
            self.sender.send(CrackProgress::Seed(outs[i]));
            i = i + 1;
        }
    }

    /// The common seeds behind `seed` on the primary surface that the
    /// secondary surface's checks accept.
    fn accepted_bedrocks(&self, seed: u64) -> (r: Vec<u64>)
        ensures
            forall|b: u64| r@.contains(b) <==> self.accepts_bedrock(b, seed),
    {
        let qs = reverse_next_long(seed);
        let mut out: Vec<u64> = Vec::new();
        let mut i: usize = 0;
        while i < qs.len()
            invariant
                0 <= i <= qs.len(),
                forall|q: u64|
                    qs@.contains(q) <==> crate::rng::inverts_to(q ^ LCG_MULT, seed),
                forall|b: u64|
                    out@.contains(b) <==> exists|j: int|
                        0 <= j < i && #[trigger] qs@[j] ^ self.primary_hash == b
                            && self.accepts_bedrock(b, seed),
            decreases qs.len() - i,
        {
            let q = qs[i];
            let bedrock = q ^ self.primary_hash;
            let secondary_seed = next_long(bedrock ^ self.secondary_hash);
            proof {
                let ph: u64 = self.primary_hash;
                assert((q ^ ph) ^ ph == q) by (bit_vector);
                assert(qs@.contains(qs@[i as int]));
            }
            let ghost old_out = out@;
            if self.check(secondary_seed) {
                out.push(bedrock);
            }
            proof {
                assert forall|b: u64| out@.contains(b) implies exists|j: int|
                    0 <= j < i + 1 && #[trigger] qs@[j] ^ self.primary_hash == b
                        && self.accepts_bedrock(b, seed) by {
                    if old_out.contains(b) {
                        let j = choose|j: int|
                            0 <= j < i && #[trigger] qs@[j] ^ self.primary_hash == b
                                && self.accepts_bedrock(b, seed);
                        assert(0 <= j < i + 1 && qs@[j] ^ self.primary_hash == b
                            && self.accepts_bedrock(b, seed));
                    } else {
                        let n = choose|n: int| 0 <= n < out@.len() && out@[n] == b;
                        assert(b == bedrock);
                        assert(self.accepts_bedrock(b, seed)) by {
                            assert(crate::rng::seed_inverts_to(b ^ self.primary_hash, seed));
                        };
                        assert(qs@[i as int] ^ self.primary_hash == b);
                    }
                };
                assert forall|b: u64|
                    (exists|j: int|
                        0 <= j < i + 1 && #[trigger] qs@[j] ^ self.primary_hash == b
                            && self.accepts_bedrock(b, seed)) implies out@.contains(b) by {
                    let j = choose|j: int|
                        0 <= j < i + 1 && #[trigger] qs@[j] ^ self.primary_hash == b
                            && self.accepts_bedrock(b, seed);
                    if j < i {
                        assert(old_out.contains(b));
                        let n = choose|n: int| 0 <= n < old_out.len() && old_out[n] == b;
                        assert(out@[n] == b);
                    } else {
                        assert(b == bedrock);
                        assert(crate::rng::seed_inverts_to(b ^ self.primary_hash, seed));
                        assert(qs@.contains(q));
                        assert(out@[out@.len() - 1] == b);
                    }
                };
            }
            i = i + 1;
        }
        proof {
            assert forall|b: u64| self.accepts_bedrock(b, seed) implies out@.contains(b) by {
                assert(crate::rng::seed_inverts_to(b ^ self.primary_hash, seed));
                assert(qs@.contains(b ^ self.primary_hash));
                let j = choose|j: int| 0 <= j < qs@.len() && qs@[j] == b ^ self.primary_hash;
                let ph: u64 = self.primary_hash;
                assert((b ^ ph) ^ ph == b) by (bit_vector);
                assert(qs@[j] ^ self.primary_hash == b);
            };
        }
        out
    }

    /// `b` is a common-seed candidate for primary seed `seed` that every
    /// secondary-surface check accepts.
    pub open spec fn accepts_bedrock(self, b: u64, seed: u64) -> bool {
        &&& crate::rng::seed_inverts_to(b ^ self.primary_hash, seed)
        &&& passes_all(self.checks@, secondary_state(b, self.secondary_hash))
    }

    /// The outputs that `run` sends for one surviving primary-surface seed.
    pub fn surviving_outputs(&self, seed: u64) -> (r: Vec<u64>)
        ensures
            self.output == OutputMode::StructureSeed ==> forall|o: u64|
                r@.contains(o) <==> self.emits_structure(o, seed),
            self.output == OutputMode::WorldSeed ==> forall|o: u64|
                r@.contains(o) <==> self.emits_world(o, seed),
    {
        let bedrocks = self.accepted_bedrocks(seed);
        let structures = crate::rng::expand_preimages(&bedrocks, 0);
        proof {
            assert(forall|s: u64| #[trigger] (s ^ 0u64) == s) by (bit_vector);
            assert forall|st: u64| structures@.contains(st) <==> exists|b: u64|
                #[trigger] self.accepts_bedrock(b, seed) && crate::rng::seed_inverts_to(
                st,
                b,
            ) by {
                if structures@.contains(st) {
                    let b = choose|b: u64|
                        #[trigger] bedrocks@.contains(b) && crate::rng::inverts_to(
                            st ^ LCG_MULT,
                            b ^ 0,
                        );
                    assert(self.accepts_bedrock(b, seed) && crate::rng::seed_inverts_to(st, b));
                }
                if exists|b: u64|
                    #[trigger] self.accepts_bedrock(b, seed) && crate::rng::seed_inverts_to(
                        st,
                        b,
                    ) {
                    let b = choose|b: u64|
                        #[trigger] self.accepts_bedrock(b, seed) && crate::rng::seed_inverts_to(
                            st,
                            b,
                        );
                    assert(bedrocks@.contains(b) && crate::rng::inverts_to(st ^ LCG_MULT, b ^ 0));
                }
            };
        }
        if self.output_is_structure() {
            return structures;
        }
        let prevs = crate::rng::expand_preimages(&structures, 0);
        let mut out: Vec<u64> = Vec::new();
        let mut i: usize = 0;
        while i < prevs.len()
            invariant
                0 <= i <= prevs.len(),
                out@.len() == i,
                forall|j: int|
                    0 <= j < i ==> out@[j] == java_next_long_spec(#[trigger] prevs@[j] ^ LCG_MULT),
            decreases prevs.len() - i,
        {
            let w = next_long(prevs[i]);
            out.push(w);
            i = i + 1;
        }
        proof {
            assert(forall|s: u64| #[trigger] (s ^ 0u64) == s) by (bit_vector);
            assert forall|o: u64| out@.contains(o) implies self.emits_world(o, seed) by {
                let n = choose|n: int| 0 <= n < out@.len() && out@[n] == o;
                let q = prevs@[n];
                assert(prevs@.contains(q));
                let st = choose|s: u64|
                    #[trigger] structures@.contains(s) && crate::rng::inverts_to(
                        q ^ LCG_MULT,
                        s ^ 0,
                    );
                assert(crate::rng::seed_inverts_to(q, st) && o == java_next_long_spec(
                    q ^ LCG_MULT,
                ));
                assert(self.lifts_to_world(st, o));
                let b = choose|b: u64|
                    #[trigger] self.accepts_bedrock(b, seed) && crate::rng::seed_inverts_to(st, b);
            };
            assert forall|o: u64| self.emits_world(o, seed) implies out@.contains(o) by {
                let b = choose|b: u64|
                    #[trigger] self.accepts_bedrock(b, seed) && exists|st: u64|
                        #[trigger] crate::rng::seed_inverts_to(st, b) && self.lifts_to_world(st, o);
                let st = choose|st: u64|
                    #[trigger] crate::rng::seed_inverts_to(st, b) && self.lifts_to_world(st, o);
                let q = choose|q: u64|
                    #[trigger] crate::rng::seed_inverts_to(q, st) && o == java_next_long_spec(
                        q ^ LCG_MULT,
                    );
                assert(structures@.contains(st));
                assert(crate::rng::inverts_to(q ^ LCG_MULT, st ^ 0));
                assert(prevs@.contains(q));
                let j = choose|j: int| 0 <= j < prevs@.len() && prevs@[j] == q;
                assert(out@[j] == o);
            };
        }
        out
    }

    /// Whether the comparison reports structure seeds rather than world seeds.
    fn output_is_structure(&self) -> (r: bool)
        ensures
            r == (self.output == OutputMode::StructureSeed),
    {
        match self.output {
            OutputMode::StructureSeed => true,
            OutputMode::WorldSeed => false,
        }
    }

    /// `o` is a structure seed reported for primary seed `seed`.
    pub open spec fn emits_structure(self, o: u64, seed: u64) -> bool {
        exists|b: u64|
            #[trigger] self.accepts_bedrock(b, seed) && crate::rng::seed_inverts_to(o, b)
    }

    /// A structure seed lifts to the 64-bit world seed `o` through one more
    /// inverse step and a forward `nextLong`.
    pub open spec fn lifts_to_world(self, st: u64, o: u64) -> bool {
        exists|q: u64|
            #[trigger] crate::rng::seed_inverts_to(q, st) && o == java_next_long_spec(q ^ LCG_MULT)
    }

    /// `o` is a world seed reported for primary seed `seed`.
    pub open spec fn emits_world(self, o: u64, seed: u64) -> bool {
        exists|b: u64|
            #[trigger] self.accepts_bedrock(b, seed) && exists|st: u64|
                #[trigger] crate::rng::seed_inverts_to(st, b) && self.lifts_to_world(st, o)
    }
}

/// The secondary-surface state drawn from a common-seed candidate: XOR with
/// the secondary surface's hash, then one scrambled `nextLong`.
pub open spec fn secondary_state(bedrock: u64, secondary_hash: u64) -> u64 {
    java_next_long_spec((bedrock ^ secondary_hash) ^ LCG_MULT)
}

/// A hidden state is consistent with a filter when the draw at its position
/// lands inside the acceptance window, clearing its lower end by the
/// generator addend.
pub open spec fn filter_consistent_with(f: BlockFilter, s: u64) -> bool {
    f.lower_bound + crate::LCG_ADD <= crate::block_data::draw_spec(f.pos_hash, s)
        < f.upper_bound
}

/// Every layer of the chain accepts the projection of `s` at its own level.
pub open spec fn chain_accepts<S: Sender>(l: Layer<S>, s: u64) -> bool
    decreases l,
{
    &&& forall|i: int|
        0 <= i < l.checks@.len() ==> !check_eval(
            #[trigger] l.checks@[i],
            s & (MASK48 ^ low_mask(l.level_of() as u64)),
        )
    &&& match l.next_operation {
        NextOperation::Layer(next) => chain_accepts(*next, s),
        _ => true,
    }
}

/// A state that is consistent with every primary-surface filter is never
/// rejected by any check of any layer of the tree built from them: each
/// refinement level evaluates its checks on the state's projection, and every
/// one returns false.
pub proof fn lemma_consistent_state_survives<S: Sender>(
    l: Layer<S>,
    prim: Seq<BlockFilter>,
    sec: Seq<BlockFilter>,
    s: u64,
)
    requires
        l.wf_shape(),
        l.sourced(prim, sec),
        s <= MASK48,
        forall|j: int| 0 <= j < prim.len() ==> filter_consistent_with(#[trigger] prim[j], s),
    ensures
        chain_accepts(l, s),
    decreases l,
{
    let k = l.level_of() as u64;
    assert forall|i: int| 0 <= i < l.checks@.len() implies !check_eval(
        #[trigger] l.checks@[i],
        s & (MASK48 ^ low_mask(k)),
    ) by {
        let c = l.checks@[i];
        if c == (CheckObject { pos_hash: 0u64, condition: 0u64, offset: 0u64 }) {
            CheckObject::lemma_filler_never_rejects(s & (MASK48 ^ low_mask(k)));
        } else {
            let j = choose|j: int|
                0 <= j < prim.len() && c.wf_for(
                    (#[trigger] prim[j]).pos_hash,
                    prim[j].lower_bound,
                    prim[j].upper_bound,
                    k,
                );
            crate::block_data::lemma_check_sound(
                prim[j].pos_hash,
                prim[j].lower_bound,
                prim[j].upper_bound,
                k,
                s,
            );
        }
    };
    match l.next_operation {
        NextOperation::Layer(next) => {
            lemma_consistent_state_survives(*next, prim, sec, s);
        },
        _ => {},
    }
}

/// The filters of the floor-surface observations, in input order.
pub open spec fn floor_filters(blocks: Seq<Block>) -> Seq<BlockFilter>
    decreases blocks.len(),
{
    if blocks.len() == 0 {
        Seq::empty()
    } else {
        let rec = floor_filters(blocks.drop_last());
        if blocks.last().y < 64 {
            rec.push(from_block_spec(blocks.last()))
        } else {
            rec
        }
    }
}

/// The filters of the ceiling-surface observations, in input order.
pub open spec fn roof_filters(blocks: Seq<Block>) -> Seq<BlockFilter>
    decreases blocks.len(),
{
    if blocks.len() == 0 {
        Seq::empty()
    } else {
        let rec = roof_filters(blocks.drop_last());
        if blocks.last().y >= 64 {
            rec.push(from_block_spec(blocks.last()))
        } else {
            rec
        }
    }
}

/// A freshly compiled filter: full range, window strictly inside it.
pub open spec fn fresh_filter(f: BlockFilter) -> bool {
    &&& f.wf()
    &&& f.possible_range == MASK48
    &&& f.upper_bound - f.lower_bound < MASK48
}

/// Splits the observations into floor-surface and ceiling-surface filters.
fn split_floor_roof(blocks: &[Block], mode: CrackerMode) -> (r: (Vec<BlockFilter>, Vec<
    BlockFilter,
>))
    requires
        forall|i: int|
            0 <= i < blocks@.len() ==> valid_observation_y(#[trigger] blocks@[i].y as int),
    ensures
        r.0@ == floor_filters(blocks@),
        r.1@ == roof_filters(blocks@),
        forall|i: int| 0 <= i < r.0@.len() ==> fresh_filter(#[trigger] r.0@[i]),
        forall|i: int| 0 <= i < r.1@.len() ==> fresh_filter(#[trigger] r.1@[i]),
{
    let mut floor_blocks: Vec<BlockFilter> = Vec::new();
    let mut roof_blocks: Vec<BlockFilter> = Vec::new();
    let mut i: usize = 0;
    while i < blocks.len()
        invariant
            0 <= i <= blocks@.len(),
            forall|j: int|
                0 <= j < blocks@.len() ==> valid_observation_y(#[trigger] blocks@[j].y as int),
            floor_blocks@ == floor_filters(blocks@.subrange(0, i as int)),
            roof_blocks@ == roof_filters(blocks@.subrange(0, i as int)),
            forall|j: int| 0 <= j < floor_blocks@.len() ==> fresh_filter(#[trigger] floor_blocks@[j]),
            forall|j: int| 0 <= j < roof_blocks@.len() ==> fresh_filter(#[trigger] roof_blocks@[j]),
        decreases blocks@.len() - i,
    {
        let block = &blocks[i];
        let filter = BlockFilter::from(block, mode);
        proof {
            crate::block_data::lemma_bounds_spec_wf(block.y, block.block_type);
            assert(blocks@.subrange(0, i as int + 1).drop_last() =~= blocks@.subrange(0, i as int));
            assert(blocks@.subrange(0, i as int + 1).last() == blocks@[i as int]);
        }
        if block.y < 64 {
            floor_blocks.push(filter);
        } else {
            roof_blocks.push(filter);
        }
        i = i + 1;
    }
    proof {
        assert(blocks@.subrange(0, blocks@.len() as int) =~= blocks@);
    }
    (floor_blocks, roof_blocks)
}

/// Whether `a` discards at most as many completions as `b` at this
/// refinement: the exact cross-multiplied comparison of the two rational
/// discarded-seed estimates, ascending order's "less or equal".
fn discards_no_more(a: &BlockFilter, b: &BlockFilter, lower_bits: u64) -> (r: bool)
    requires
        a.wf(),
        b.wf(),
        lower_bits <= 12,
    ensures
        r == discards_le(*a, *b, lower_bits),
{
    proof {
        assert(lower_bits <= 12 ==> 1u64 <= (1u64 << lower_bits) && (1u64 << lower_bits)
            <= 0x1000) by (bit_vector);
    }
    let mask = (1u64 << lower_bits) - 1;
    let sa = (a.upper_bound - a.lower_bound) + mask * LCG_MULT;
    let sb = (b.upper_bound - b.lower_bound) + mask * LCG_MULT;
    proof {
        vstd::arithmetic::mul::lemma_mul_upper_bound(
            sa as int,
            0x4_0000_0000_0000,
            b.possible_range as int,
            MASK48 as int,
        );
        vstd::arithmetic::mul::lemma_mul_upper_bound(
            sb as int,
            0x4_0000_0000_0000,
            a.possible_range as int,
            MASK48 as int,
        );
    }
    (sa as u128) * (b.possible_range as u128) >= (sb as u128) * (a.possible_range as u128)
}

impl<S: Sender> Layer<S> {
    /// Packages one level's compiled checks: pads the list with fillers to a
    /// non-empty multiple of eight and records the split that will seed the
    /// next high bit. The chain link is wired afterwards.
    #[verifier::rlimit(50)]
    fn new(lower_bits: u64, checks: Vec<CheckObject>) -> (r: Layer<S>)
        requires
            lower_bits <= 12,
        ensures
            r.split == (1u64 << (if lower_bits == 0 {
                0u64
            } else {
                (lower_bits - 1) as u64
            })),
            r.next_operation is Unset,
            r.checks@ == pad8(checks@),
            r.checks@.len() > 0,
            r.checks@.len() % 8 == 0,
            r.checks@.len() >= checks@.len(),
            forall|i: int|
                #![trigger r.checks@[i]]
                0 <= i < checks@.len() ==> r.checks@[i] == checks@[i],
            forall|i: int|
                #![trigger r.checks@[i]]
                checks@.len() <= i < r.checks@.len() ==> r.checks@[i] == (CheckObject {
                    pos_hash: 0u64,
                    condition: 0u64,
                    offset: 0u64,
                }),
    {
        let shift: u64 = if lower_bits == 0 {
            0
        } else {
            lower_bits - 1
        };
        let split: u64 = 1u64 << shift;
        let ghost orig = checks@;
        let mut checks = checks;
        let len = checks.len();
        let need: usize = if len == 0 {
            8
        } else {
            (8 - len % 8) % 8
        };
        let mut t: usize = 0;
        while t < need
            invariant
                0 <= t <= need,
                checks@.len() == orig.len() + t,
                forall|i: int|
                    #![trigger checks@[i]]
                    0 <= i < orig.len() ==> checks@[i] == orig[i],
                forall|i: int|
                    #![trigger checks@[i]]
                    orig.len() <= i < checks@.len() ==> checks@[i] == (CheckObject {
                        pos_hash: 0u64,
                        condition: 0u64,
                        offset: 0u64,
                    }),
            decreases need - t,
        {
            checks.push(CheckObject::filler());
            t = t + 1;
        }
        proof {
            assert(checks@ =~= pad8(orig));
        }
        Layer { checks, split, next_operation: NextOperation::Unset }
    }
}

/// The filters compiled into checks at one refinement level, in order.
pub open spec fn compiled_at(fs: Seq<BlockFilter>, k: u64) -> Seq<CheckObject> {
    fs.map_values(
        |f: BlockFilter| check_spec(f.pos_hash, f.lower_bound, f.upper_bound, low_mask(k)),
    )
}

impl<S: Sender> CrossComparison<S> {
    /// Compiles the secondary surface's filters at full precision, in input
    /// order, and fixes which surface hash belongs to the primary channel.
    pub fn new(blocks: Vec<BlockFilter>, sender: S, is_floor_primary_filter: bool, output:
        OutputMode) -> (r: CrossComparison<S>)
        requires
            forall|i: int| 0 <= i < blocks@.len() ==> fresh_filter(#[trigger] blocks@[i]),
        ensures
            r.checks@ == compiled_at(blocks@, 0),
            r.sourced(blocks@),
            r.sender == sender,
            r.output == output,
            is_floor_primary_filter ==> r.primary_hash == FLOOR_HASH && r.secondary_hash
                == ROOF_HASH,
            !is_floor_primary_filter ==> r.primary_hash == ROOF_HASH && r.secondary_hash
                == FLOOR_HASH,
    {
        proof {
            assert((1u64 << 0u64) == 1) by (bit_vector);
            assert(low_mask(0) == 0);
            assert(compiled_at(blocks@.subrange(0, 0), 0) =~= Seq::<CheckObject>::empty());
        }
        let mut checks: Vec<CheckObject> = Vec::new();
        let mut i: usize = 0;
        while i < blocks.len()
            invariant
                0 <= i <= blocks@.len(),
                forall|j: int| 0 <= j < blocks@.len() ==> fresh_filter(#[trigger] blocks@[j]),
                forall|a: int|
                    0 <= a < checks@.len() ==> check_from_filters(#[trigger] checks@[a], blocks@, 0),
                checks@ =~= compiled_at(blocks@.subrange(0, i as int), 0),
            decreases blocks@.len() - i,
        {
            let mut f = blocks[i];
            proof {
                assert((1u64 << 0u64) == 1) by (bit_vector);
                assert(low_mask(0) == 0);
                assert(spans_range(f, 0u64) == f.upper_bound - f.lower_bound);
            }
            let c = f.create_check(0);
            checks.push(c);
            proof {
                assert(c.wf_for(
                    blocks@[i as int].pos_hash,
                    blocks@[i as int].lower_bound,
                    blocks@[i as int].upper_bound,
                    0,
                ));
                assert(check_from_filters(c, blocks@, 0));
                assert(checks@ =~= compiled_at(blocks@.subrange(0, i as int + 1), 0));
            }
            i = i + 1;
        }
        proof {
            assert(blocks@.subrange(0, blocks@.len() as int) =~= blocks@);
        }
        let (primary_hash, secondary_hash) = if is_floor_primary_filter {
            (FLOOR_HASH, ROOF_HASH)
        } else {
            (ROOF_HASH, FLOOR_HASH)
        };
        CrossComparison { sender, checks, primary_hash, secondary_hash, output }
    }
}


/// Whether `a` discards no more completions than `b` at this level: the
/// exact cross-multiplied comparison of the two rational discarded-seed
/// estimates, the "at most as strong" of the ascending layer order.
pub open spec fn discards_le(a: BlockFilter, b: BlockFilter, k: u64) -> bool {
    spans_range(a, low_mask(k)) * (b.possible_range as int) >= spans_range(b, low_mask(k)) * (
    a.possible_range as int)
}

/// One level's refinement: every filter that still discards candidates at
/// level `k` has its range tightened to the arc the level leaves open.
pub open spec fn refine_level(fs: Seq<BlockFilter>, k: u64) -> Seq<BlockFilter> {
    fs.map_values(
        |f: BlockFilter|
            if spans_range(f, low_mask(k)) < f.possible_range {
                BlockFilter { possible_range: spans_range(f, low_mask(k)) as u64, ..f }
            } else {
                f
            },
    )
}

/// The filters' state when level `k` starts: every level above it, from
/// twelve down, has refined the ranges.
pub open spec fn filters_at(prim: Seq<BlockFilter>, k: int) -> Seq<BlockFilter>
    decreases 12 - k when k <= 12
{
    if k >= 12 {
        prim
    } else {
        refine_level(filters_at(prim, k + 1), ((k + 1) as u64))
    }
}

/// Where a stable ascending insertion places filter `j` among the already
/// ordered indices: after every entry that discards no more than it.
pub open spec fn insert_pos(order: Seq<int>, fs: Seq<BlockFilter>, j: int, k: u64) -> int
    decreases order.len(),
{
    if order.len() == 0 {
        0
    } else if !discards_le(fs[order[0]], fs[j], k) {
        0
    } else {
        1 + insert_pos(order.drop_first(), fs, j, k)
    }
}

/// The indices, among the first `upto` filters, of those that still discard
/// candidates at level `k`, in ascending discarded-seed order (stable).
pub open spec fn level_order(fs: Seq<BlockFilter>, k: u64, upto: int) -> Seq<int>
    decreases upto,
{
    if upto <= 0 {
        Seq::empty()
    } else {
        let rest = level_order(fs, k, upto - 1);
        let j = upto - 1;
        if spans_range(fs[j], low_mask(k)) < fs[j].possible_range {
            rest.insert(insert_pos(rest, fs, j, k), j)
        } else {
            rest
        }
    }
}

/// A check list padded with fillers to a non-empty multiple of eight.
pub open spec fn pad8(s: Seq<CheckObject>) -> Seq<CheckObject> {
    if s.len() == 0 {
        Seq::new(8, |i: int| CheckObject { pos_hash: 0u64, condition: 0u64, offset: 0u64 })
    } else {
        s + Seq::new(
            ((8 - s.len() % 8) % 8) as nat,
            |i: int| CheckObject { pos_hash: 0u64, condition: 0u64, offset: 0u64 },
        )
    }
}

/// The check list of level `k`: the filters still discarding candidates at
/// that level, weakest first, each compiled at `k`, padded with fillers.
pub open spec fn layer_checks_spec(prim: Seq<BlockFilter>, k: int) -> Seq<CheckObject> {
    let fs = filters_at(prim, k);
    pad8(
        level_order(fs, k as u64, fs.len() as int).map_values(
            |j: int| check_spec(fs[j].pos_hash, fs[j].lower_bound, fs[j].upper_bound, low_mask(k as u64)),
        ),
    )
}

/// A layer that has been compiled for level `k` but not yet wired into the
/// chain: padded checks from the primary filters, split for `k`, link unset.
pub open spec fn layer_pending<S: Sender>(l: Layer<S>, prim: Seq<BlockFilter>, k: int) -> bool {
    &&& l.checks@.len() > 0
    &&& l.checks@.len() % 8 == 0
    &&& l.split == (1u64 << (if k == 0 {
        0u64
    } else {
        (k - 1) as u64
    }))
    &&& forall|i: int|
        0 <= i < l.checks@.len() ==> check_from_filters(#[trigger] l.checks@[i], prim, k)
    &&& l.next_operation is Unset
}

/// The filters stay tied to their sources: the hash and window fields never
/// change, only `possible_range` is refined.
pub open spec fn filters_track(cur: Seq<BlockFilter>, orig: Seq<BlockFilter>) -> bool {
    &&& cur.len() == orig.len()
    &&& forall|j: int|
        #![trigger cur[j]]
        0 <= j < cur.len() ==> cur[j].pos_hash == orig[j].pos_hash && cur[j].lower_bound
            == orig[j].lower_bound && cur[j].upper_bound == orig[j].upper_bound && cur[j].wf()
}

/// Whether the order entry at `pos` discards no more than the candidate
/// filter: the loop guard of the stable insertion that keeps each layer's
/// checks in ascending discarded-seed order.
fn order_entry_no_stronger(
    order: &Vec<usize>,
    primary: &Vec<BlockFilter>,
    pos: usize,
    fj: &BlockFilter,
    bits: u64,
) -> (r: bool)
    requires
        pos < order@.len(),
        forall|a: int| 0 <= a < order@.len() ==> (#[trigger] order@[a] as int) < primary@.len(),
        forall|j: int| 0 <= j < primary@.len() ==> (#[trigger] primary@[j]).wf(),
        fj.wf(),
        bits <= 12,
    ensures
        r == discards_le(primary@[order@[pos as int] as int], *fj, bits),
{
    let oidx = order[pos];
    let fe = primary[oidx];
    discards_no_more(&fe, fj, bits)
}

/// The stable insertion point is the first position whose entry discards
/// more: establishing that prefix shape pins `insert_pos`.
proof fn lemma_insert_pos_at(order: Seq<int>, fs: Seq<BlockFilter>, j: int, k: u64, pos: int)
    requires
        0 <= pos <= order.len(),
        forall|a: int| 0 <= a < pos ==> discards_le(fs[#[trigger] order[a]], fs[j], k),
        pos == order.len() || !discards_le(fs[order[pos]], fs[j], k),
    ensures
        insert_pos(order, fs, j, k) == pos,
    decreases order.len(),
{
    if order.len() > 0 {
        if pos == 0 {
        } else {
            assert(discards_le(fs[order[0]], fs[j], k));
            let tail = order.drop_first();
            assert forall|a: int| 0 <= a < pos - 1 implies discards_le(
                fs[#[trigger] tail[a]],
                fs[j],
                k,
            ) by {
                assert(tail[a] == order[a + 1]);
            };
            if pos - 1 < tail.len() {
                assert(tail[pos - 1] == order[pos]);
            }
            lemma_insert_pos_at(tail, fs, j, k, pos - 1);
        }
    }
}

/// The insertion point lies within the ordered list.
proof fn lemma_insert_pos_bounds(order: Seq<int>, fs: Seq<BlockFilter>, j: int, k: u64)
    ensures
        0 <= insert_pos(order, fs, j, k) <= order.len(),
    decreases order.len(),
{
    if order.len() > 0 && discards_le(fs[order[0]], fs[j], k) {
        lemma_insert_pos_bounds(order.drop_first(), fs, j, k);
    }
}

/// The level order holds exactly the indices, below `upto`, of the filters
/// that still discard candidates at level `k`.
proof fn lemma_level_order_membership(fs: Seq<BlockFilter>, k: u64, upto: int)
    requires
        upto <= fs.len(),
    ensures
        forall|jj: int|
            #[trigger] level_order(fs, k, upto).contains(jj) <==> (0 <= jj < upto && spans_range(
                fs[jj],
                low_mask(k),
            ) < fs[jj].possible_range),
    decreases upto,
{
    if upto > 0 {
        lemma_level_order_membership(fs, k, upto - 1);
        let rest = level_order(fs, k, upto - 1);
        let j = upto - 1;
        let cur = level_order(fs, k, upto);
        if spans_range(fs[j], low_mask(k)) < fs[j].possible_range {
            let p = insert_pos(rest, fs, j, k);
            lemma_insert_pos_bounds(rest, fs, j, k);
            rest.insert_ensures(p, j);
            assert forall|jj: int| cur.contains(jj) implies (0 <= jj < upto && spans_range(
                fs[jj],
                low_mask(k),
            ) < fs[jj].possible_range) by {
                let a = choose|a: int| 0 <= a < cur.len() && cur[a] == jj;
                if a < p {
                    assert(rest.contains(rest[a]));
                } else if a > p {
                    assert(cur[a] == rest[a - 1]);
                    assert(rest.contains(rest[a - 1]));
                }
            };
            assert forall|jj: int|
                (0 <= jj < upto && spans_range(fs[jj], low_mask(k))
                    < fs[jj].possible_range) implies cur.contains(jj) by {
                if jj == j {
                    assert(cur[p] == jj);
                } else {
                    assert(rest.contains(jj));
                    let a = choose|a: int| 0 <= a < rest.len() && rest[a] == jj;
                    if a < p {
                        assert(cur[a] == jj);
                    } else {
                        assert(cur[a + 1] == jj);
                    }
                }
            };
        } else {
            assert forall|jj: int|
                (0 <= jj < upto && spans_range(fs[jj], low_mask(k))
                    < fs[jj].possible_range) implies cur.contains(jj) by {
                assert(jj != j);
            };
        }
    }
}

/// Builds the filter tree: splits the observations by surface, makes the
/// stronger surface primary, compiles one layer per refinement level from
/// twelve unknown bits down to zero (each layer holding, weakest first, the
/// filters that still discard candidates at that level), and terminates the
/// chain with the cross-surface comparison over the secondary filters.
///
/// An empty observation set carries no information and would sweep the whole
/// state space reporting every seed; the caller must refuse it before
/// building a tree.
pub fn create_filter_tree<S: Sender>(
    blocks: &[Block],
    mode: CrackerMode,
    output: OutputMode,
    tx: S,
) -> (r: Layer<S>)
    requires
        blocks@.len() > 0,
        forall|i: int|
            0 <= i < blocks@.len() ==> valid_observation_y(#[trigger] blocks@[i].y as int),
    ensures
        r.wf_shape(),
        r.level_of() == 12,
        r.sourced(
            if filter_power_spec(floor_filters(blocks@)) < filter_power_spec(roof_filters(blocks@)) {
                floor_filters(blocks@)
            } else {
                roof_filters(blocks@)
            },
            if filter_power_spec(floor_filters(blocks@)) < filter_power_spec(roof_filters(blocks@)) {
                roof_filters(blocks@)
            } else {
                floor_filters(blocks@)
            },
        ),
        ({
            let is_floor = filter_power_spec(floor_filters(blocks@)) < filter_power_spec(
                roof_filters(blocks@),
            );
            let prim = if is_floor {
                floor_filters(blocks@)
            } else {
                roof_filters(blocks@)
            };
            let sec = if is_floor {
                roof_filters(blocks@)
            } else {
                floor_filters(blocks@)
            };
            &&& forall|k: int| 0 <= k <= 12 ==> #[trigger] r.checks_at_level(k)
                == layer_checks_spec(prim, k)
            &&& r.terminal() is Some
            &&& r.terminal().unwrap().checks@ == compiled_at(sec, 0)
            &&& r.terminal().unwrap().output == output
            &&& r.terminal().unwrap().sender == tx
            &&& (is_floor ==> r.terminal().unwrap().primary_hash == FLOOR_HASH && r.terminal(
            ).unwrap().secondary_hash == ROOF_HASH)
            &&& (!is_floor ==> r.terminal().unwrap().primary_hash == ROOF_HASH && r.terminal(
            ).unwrap().secondary_hash == FLOOR_HASH)
        }),
{
    let (floor_blocks, roof_blocks) = split_floor_roof(blocks, mode);
    let floor_resulting_seeds = get_filter_power(floor_blocks.as_slice());
    let roof_resulting_seeds = get_filter_power(roof_blocks.as_slice());
    let is_floor_primary_filter = floor_resulting_seeds < roof_resulting_seeds;
    let (mut primary_filter, secondary_filter) = if is_floor_primary_filter {
        (floor_blocks, roof_blocks)
    } else {
        (roof_blocks, floor_blocks)
    };
    let ghost prim0 = primary_filter@;
    let ghost sec0 = secondary_filter@;
    let mut layers: Vec<Layer<S>> = Vec::new();
    let mut step: usize = 0;
    while step <= 12
        invariant
            0 <= step <= 13,
            layers@.len() == step,
            filters_track(primary_filter@, prim0),
            primary_filter@ == filters_at(prim0, 12 - step),
            forall|t: int|
                0 <= t < step ==> layer_pending(#[trigger] layers@[t], prim0, 12 - t),
            forall|t: int|
                0 <= t < step ==> (#[trigger] layers@[t]).checks@ == layer_checks_spec(
                    prim0,
                    12 - t,
                ),
        decreases 13 - step,
    {
        let bits: u64 = (12 - step) as u64;
        let ghost fs = primary_filter@;
        let mut order: Vec<usize> = Vec::new();
        let mut j: usize = 0;
        while j < primary_filter.len()
            invariant
                0 <= j <= primary_filter@.len(),
                filters_track(primary_filter@, prim0),
                primary_filter@ == fs,
                bits <= 12,
                order@.map_values(|u: usize| u as int) == level_order(fs, bits, j as int),
                forall|a: int|
                    #![trigger order@[a]]
                    0 <= a < order@.len() ==> (order@[a] as int) < j && spans_range(
                        primary_filter@[order@[a] as int],
                        low_mask(bits),
                    ) < primary_filter@[order@[a] as int].possible_range,
                forall|a: int, b: int|
                    0 <= a < b < order@.len() ==> order@[a] != order@[b],
            decreases primary_filter@.len() - j,
        {
            let fj = primary_filter[j];
            let ghost spec_order = order@.map_values(|u: usize| u as int);
            if fj.discards_seeds(bits) {
                let mut pos: usize = 0;
                while pos < order.len() && order_entry_no_stronger(
                    &order,
                    &primary_filter,
                    pos,
                    &fj,
                    bits,
                )
                    invariant
                        0 <= pos <= order@.len(),
                        bits <= 12,
                        filters_track(primary_filter@, prim0),
                        primary_filter@ == fs,
                        j < primary_filter@.len(),
                        fj == fs[j as int],
                        fj.wf(),
                        forall|a: int|
                            #![trigger order@[a]]
                            0 <= a < pos ==> discards_le(
                                primary_filter@[order@[a] as int],
                                fj,
                                bits,
                            ),
                        forall|a: int|
                            #![trigger order@[a]]
                            0 <= a < order@.len() ==> (order@[a] as int) < j,
                        forall|a: int|
                            #![trigger order@[a]]
                            0 <= a < order@.len() ==> (order@[a] as int) < primary_filter@.len(),
                        forall|jj: int|
                            0 <= jj < primary_filter@.len() ==> (
                            #[trigger] primary_filter@[jj]).wf(),
                    decreases order@.len() - pos,
                {
                    pos = pos + 1;
                }
                proof {
                    assert forall|a: int| 0 <= a < pos implies discards_le(
                        fs[#[trigger] spec_order[a]],
                        fs[j as int],
                        bits,
                    ) by {
                        assert(spec_order[a] == order@[a] as int);
                    };
                    if (pos as int) < spec_order.len() {
                        assert(spec_order[pos as int] == order@[pos as int] as int);
                    }
                    lemma_insert_pos_at(spec_order, fs, j as int, bits, pos as int);
                }
                let ghost pre_order = order@;
                order.insert(pos, j);
                proof {
                    assert forall|a: int|
                        0 <= a < order@.len() implies (#[trigger] order@[a] as int) < j + 1
                            && spans_range(
                            primary_filter@[order@[a] as int],
                            low_mask(bits),
                        ) < primary_filter@[order@[a] as int].possible_range by {
                        if a < pos {
                            assert(order@[a] == pre_order[a]);
                        } else if a == pos {
                            assert(order@[a] == j);
                        } else {
                            assert(order@[a] == pre_order[a - 1]);
                        }
                    };
                    assert forall|a: int, b: int|
                        0 <= a < b < order@.len() implies order@[a] != order@[b] by {
                        if b < pos {
                        } else if a == pos || b == pos {
                            assert(forall|c: int|
                                0 <= c < pre_order.len() ==> (#[trigger] pre_order[c] as int) < j);
                        } else if a < pos {
                            assert(order@[a] == pre_order[a] && order@[b] == pre_order[b - 1]);
                        } else {
                            assert(order@[a] == pre_order[a - 1] && order@[b] == pre_order[b - 1]);
                        }
                    };
                    assert(order@.map_values(|u: usize| u as int) =~= spec_order.insert(
                        pos as int,
                        j as int,
                    ));
                    assert(order@.map_values(|u: usize| u as int) == level_order(
                        fs,
                        bits,
                        j + 1,
                    ));
                }
            } else {
                proof {
                    assert(forall|a: int|
                        0 <= a < order@.len() ==> (#[trigger] order@[a] as int) < j + 1);
                    assert(level_order(fs, bits, j + 1) == level_order(fs, bits, j as int));
                }
            }
            j = j + 1;
        }
        let ghost ord = level_order(fs, bits, fs.len() as int);
        let mut checks: Vec<CheckObject> = Vec::new();
        let mut t: usize = 0;
        while t < order.len()
            invariant
                0 <= t <= order@.len(),
                bits <= 12,
                filters_track(primary_filter@, prim0),
                primary_filter@.len() == fs.len(),
                order@.map_values(|u: usize| u as int) == ord,
                ord == level_order(fs, bits, fs.len() as int),
                forall|a: int|
                    #![trigger order@[a]]
                    0 <= a < order@.len() ==> (order@[a] as int) < primary_filter@.len(),
                forall|a: int, b: int|
                    0 <= a < b < order@.len() ==> order@[a] != order@[b],
                forall|jj: int|
                    #![trigger primary_filter@[jj]]
                    0 <= jj < fs.len() ==> primary_filter@[jj] == (if ord.subrange(
                        0,
                        t as int,
                    ).contains(jj) {
                        BlockFilter {
                            possible_range: spans_range(fs[jj], low_mask(bits)) as u64,
                            ..fs[jj]
                        }
                    } else {
                        fs[jj]
                    }),
                forall|a: int|
                    #![trigger order@[a]]
                    t <= a < order@.len() ==> spans_range(
                        primary_filter@[order@[a] as int],
                        low_mask(bits),
                    ) < primary_filter@[order@[a] as int].possible_range,
                checks@ =~= ord.subrange(0, t as int).map_values(
                    |jj: int| check_spec(
                        fs[jj].pos_hash,
                        fs[jj].lower_bound,
                        fs[jj].upper_bound,
                        low_mask(bits),
                    ),
                ),
                forall|a: int|
                    0 <= a < checks@.len() ==> check_from_filters(
                        #[trigger] checks@[a],
                        prim0,
                        bits as int,
                    ),
            decreases order@.len() - t,
        {
            let idx = order[t];
            let mut f = primary_filter[idx];
            let c = f.create_check(bits);
            let ghost pre = primary_filter@;
            primary_filter[idx] = f;
            checks.push(c);
            proof {
                assert(ord[t as int] == idx as int);
                assert(!ord.subrange(0, t as int).contains(idx as int));
                assert(pre[idx as int] == fs[idx as int]);
                assert(c.wf_for(
                    prim0[idx as int].pos_hash,
                    prim0[idx as int].lower_bound,
                    prim0[idx as int].upper_bound,
                    bits,
                ));
                assert(check_from_filters(c, prim0, bits as int));
                assert(ord.subrange(0, t as int + 1) =~= ord.subrange(0, t as int).push(
                    ord[t as int],
                ));
                assert forall|jj: int|
                    0 <= jj < fs.len() implies #[trigger] primary_filter@[jj] == (if ord.subrange(
                    0,
                    t as int + 1,
                ).contains(jj) {
                    BlockFilter {
                        possible_range: spans_range(fs[jj], low_mask(bits)) as u64,
                        ..fs[jj]
                    }
                } else {
                    fs[jj]
                }) by {
                    if jj == idx as int {
                        assert(ord.subrange(0, t as int + 1).contains(idx as int)) by {
                            assert(ord.subrange(0, t as int + 1).last() == idx as int);
                        };
                        assert(primary_filter@[jj] == f);
                        assert(f.possible_range as int == spans_range(fs[jj], low_mask(bits)));
                        assert(f == (BlockFilter {
                            possible_range: spans_range(fs[jj], low_mask(bits)) as u64,
                            ..fs[jj]
                        }));
                    } else {
                        assert(primary_filter@[jj] == pre[jj]);
                        assert(ord.subrange(0, t as int + 1).contains(jj) <==> ord.subrange(
                            0,
                            t as int,
                        ).contains(jj));
                    }
                };
                assert(checks@ =~= ord.subrange(0, t as int + 1).map_values(
                    |jj: int| check_spec(
                        fs[jj].pos_hash,
                        fs[jj].lower_bound,
                        fs[jj].upper_bound,
                        low_mask(bits),
                    ),
                ));
                assert forall|a: int|
                    t + 1 <= a < order@.len() implies spans_range(
                    primary_filter@[#[trigger] order@[a] as int],
                    low_mask(bits),
                ) < primary_filter@[order@[a] as int].possible_range by {
                    assert(order@[a] != order@[t as int]);
                    assert(primary_filter@[order@[a] as int] == pre[order@[a] as int]);
                };
            }
            t = t + 1;
        }
        proof {
            lemma_level_order_membership(fs, bits, fs.len() as int);
            assert(ord.subrange(0, ord.len() as int) =~= ord);
            assert forall|jj: int| 0 <= jj < fs.len() implies #[trigger] primary_filter@[jj]
                == refine_level(fs, bits)[jj] by {
                assert(ord.contains(jj) <==> spans_range(fs[jj], low_mask(bits))
                    < fs[jj].possible_range);
            };
            assert(primary_filter@ =~= refine_level(fs, bits));
            assert(filters_at(prim0, 12 - step - 1) == refine_level(fs, bits));
        }
        let layer = Layer::<S>::new(bits, checks);
        layers.push(layer);
        proof {
            assert(layer_pending(layers@[step as int], prim0, 12 - step));
            assert(layers@[step as int].checks@ == layer_checks_spec(prim0, 12 - step));
        }
        step = step + 1;
    }
    let final_check = CrossComparison::new(secondary_filter, tx, is_floor_primary_filter, output);
    let ghost cc0 = final_check;
    let node_opt = layers.pop();
    let mut node = node_opt.unwrap();
    node.next_operation = NextOperation::CrossComparison(final_check);
    proof {
        assert(node.level_of() == 0);
        assert(layer_pending(node, prim0, 0) ==> node.wf_shape() && node.sourced(prim0, sec0));
        assert(node.terminal() == Some(cc0));
        assert(node.checks_at_level(0) == layer_checks_spec(prim0, 0));
    }
    while layers.len() > 0
        invariant
            node.wf_shape(),
            node.level_of() == 12 - layers@.len(),
            node.sourced(prim0, sec0),
            node.terminal() == Some(cc0),
            forall|k: int|
                0 <= k <= node.level_of() ==> #[trigger] node.checks_at_level(k)
                    == layer_checks_spec(prim0, k),
            layers@.len() <= 12,
            forall|t: int|
                0 <= t < layers@.len() ==> layer_pending(#[trigger] layers@[t], prim0, 12 - t),
            forall|t: int|
                0 <= t < layers@.len() ==> (#[trigger] layers@[t]).checks@ == layer_checks_spec(
                    prim0,
                    12 - t,
                ),
        decreases layers@.len(),
    {
        let parent_opt = layers.pop();
        let mut parent = parent_opt.unwrap();
        let ghost child = node;
        parent.next_operation = NextOperation::Layer(Box::new(node));
        proof {
            assert(parent.level_of() == 1 + child.level_of());
            assert(parent.terminal() == child.terminal());
            assert forall|k: int|
                0 <= k <= parent.level_of() implies #[trigger] parent.checks_at_level(k)
                == layer_checks_spec(prim0, k) by {
                if k == parent.level_of() {
                    assert(parent.checks_at_level(k) == parent.checks@);
                } else {
                    assert(parent.checks_at_level(k) == child.checks_at_level(k));
                }
            };
        }
        node = parent;
    }
    node
}

} // verus!
