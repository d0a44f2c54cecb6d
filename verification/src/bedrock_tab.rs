//! The observation-entry tab: editable rows, duplicate/conflict validation,
//! and the running result estimate.

use vstd::prelude::*;

use crate::block::{valid_observation_y, Block as BlockInfo};
use crate::block_data::{filter_power_spec, from_block_spec};
use crate::block_entry::{entry_core, entry_pos_spec, line_entry_core, Block, BlockMessage};
use crate::block_type::BlockType;
use crate::estimate_result_amount;
use crate::modes::{CrackerMode, OutputMode};

verus! {

/// The order conflict the historical variant rejects: a second observation in
/// the same column whose outcome cannot sit on that side of the first.
pub open spec fn paper_conflict(block: BlockInfo, other: BlockInfo) -> bool {
    ||| block.block_type == other.block_type
    ||| (if (other.y > 5) != (block.block_type == BlockType::OTHER) {
        block.y <= other.y
    } else {
        other.y <= block.y
    })
}

/// Whether `block` conflicts with an already-accepted observation: same
/// column and surface, and either the same layer or (in the historical
/// variant) a redundant or impossible placement.
pub open spec fn invalid_with(block: BlockInfo, other: BlockInfo, mode: CrackerMode) -> bool {
    &&& block.x == other.x
    &&& block.z == other.z
    &&& ((block.y > 5) == (other.y > 5))
    &&& (block.y == other.y || (mode == CrackerMode::Paper1_18 && paper_conflict(block, other)))
}

/// Whether `block` conflicts with any already-accepted observation.
pub open spec fn check_invalid_spec(block: BlockInfo, vb: Seq<BlockInfo>, mode: CrackerMode) -> bool {
    exists|i: int| 0 <= i < vb.len() && invalid_with(block, #[trigger] vb[i], mode)
}

/// The observations the rows denote, keeping only valid, non-conflicting
/// entries, in row order.
pub open spec fn collect_valid(entries: Seq<Block>, mode: CrackerMode, acc: Seq<BlockInfo>) -> Seq<
    BlockInfo,
>
    decreases entries.len(),
{
    if entries.len() == 0 {
        acc
    } else {
        let rest = entries.subrange(1, entries.len() as int);
        match entry_pos_spec(entries[0]) {
            Some(b) => if check_invalid_spec(b, acc, mode) {
                collect_valid(rest, mode, acc)
            } else {
                collect_valid(rest, mode, acc.push(b))
            },
            None => collect_valid(rest, mode, acc),
        }
    }
}

/// The configuration text of a list of observations: one line per entry.
pub open spec fn config_text(blocks: Seq<BlockInfo>) -> Seq<char>
    decreases blocks.len(),
{
    if blocks.len() == 0 {
        Seq::empty()
    } else {
        config_text(blocks.drop_last()) + crate::block::block_line_spec(blocks.last())
            + seq!['\n']
    }
}

/// Splitting the rows splits the collection: validating a concatenation is
/// validating the second part against what the first part accepted.
proof fn lemma_collect_valid_append(
    s: Seq<Block>,
    t: Seq<Block>,
    mode: CrackerMode,
    acc: Seq<BlockInfo>,
)
    ensures
        collect_valid(s + t, mode, acc) == collect_valid(t, mode, collect_valid(s, mode, acc)),
    decreases s.len(),
{
    if s.len() == 0 {
        assert(s + t =~= t);
    } else {
        let rest = s.subrange(1, s.len() as int);
        assert((s + t)[0] == s[0]);
        assert((s + t).subrange(1, (s + t).len() as int) =~= rest + t);
        match entry_pos_spec(s[0]) {
            Some(b) => {
                if check_invalid_spec(b, acc, mode) {
                    lemma_collect_valid_append(rest, t, mode, acc);
                } else {
                    lemma_collect_valid_append(rest, t, mode, acc.push(b));
                }
            },
            None => {
                lemma_collect_valid_append(rest, t, mode, acc);
            },
        }
    }
}

/// The collection reads only which observation each row denotes: rows that
/// denote the same observations collect the same list.
proof fn lemma_collect_valid_pointwise(
    s1: Seq<Block>,
    s2: Seq<Block>,
    mode: CrackerMode,
    acc: Seq<BlockInfo>,
)
    requires
        s1.len() == s2.len(),
        forall|i: int|
            0 <= i < s1.len() ==> entry_pos_spec(#[trigger] s1[i]) == entry_pos_spec(s2[i]),
    ensures
        collect_valid(s1, mode, acc) == collect_valid(s2, mode, acc),
    decreases s1.len(),
{
    if s1.len() > 0 {
        let r1 = s1.subrange(1, s1.len() as int);
        let r2 = s2.subrange(1, s2.len() as int);
        assert(forall|i: int|
            0 <= i < r1.len() ==> entry_pos_spec(#[trigger] r1[i]) == entry_pos_spec(r2[i]));
        match entry_pos_spec(s1[0]) {
            Some(b) => {
                if check_invalid_spec(b, acc, mode) {
                    lemma_collect_valid_pointwise(r1, r2, mode, acc);
                } else {
                    lemma_collect_valid_pointwise(r1, r2, mode, acc.push(b));
                }
            },
            None => {
                lemma_collect_valid_pointwise(r1, r2, mode, acc);
            },
        }
    }
}

/// The conflict flags carry the validator's verdicts: a row that denotes an
/// observation is flagged exactly when it conflicts with the observations
/// the rows before it contributed; a row that denotes none keeps the flag it
/// had in `prev` (or none, where `prev` has no such row).
pub open spec fn flags_set(rows: Seq<Block>, mode: CrackerMode, prev: Seq<Block>) -> bool {
    forall|i: int|
        0 <= i < rows.len() ==> (#[trigger] rows[i]).duplicate == (match entry_pos_spec(rows[i]) {
            Some(b) => check_invalid_spec(
                b,
                collect_valid(rows.subrange(0, i), mode, Seq::empty()),
                mode,
            ),
            None => if 0 <= i < prev.len() {
                prev[i].duplicate
            } else {
                false
            },
        })
}

/// The observation-entry tab.
#[derive(Debug)]
pub struct BdrkTab {
    pub estimated_seeds: u64,
    pub blocks: Vec<Block>,
    pub valid_blocks: Vec<BlockInfo>,
    pub mode: CrackerMode,
    pub output_mode: OutputMode,
}

/// An edit to the tab: a row edit, or a change of variant or output form.
#[derive(Debug, Clone)]
pub enum BdrkMessage {
    Block(usize, BlockMessage),
    CrackerMode(CrackerMode),
    OutputMode(OutputMode),
}

impl BdrkTab {
    /// Every row tracks its text, and every accepted observation sits on a
    /// valid layer.
    pub open spec fn wf(self) -> bool {
        &&& forall|j: int| 0 <= j < self.blocks@.len() ==> (#[trigger] self.blocks@[j]).wf()
        &&& forall|j: int|
            0 <= j < self.valid_blocks@.len() ==> valid_observation_y(
                (#[trigger] self.valid_blocks@[j]).y as int,
            )
    }

    pub fn new() -> (r: BdrkTab)
        ensures
            r.wf(),
            r.estimated_seeds == 0x1_0000_0000_0000u64,
            r.blocks@.len() == 1,
            r.valid_blocks@.len() == 0,
            r.mode == CrackerMode::Normal,
            r.output_mode == OutputMode::WorldSeed,
    {
        let mut blocks: Vec<Block> = Vec::new();
        blocks.push(Block::new());
        BdrkTab {
            estimated_seeds: 0x1_0000_0000_0000,
            blocks,
            valid_blocks: Vec::new(),
            mode: CrackerMode::Normal,
            output_mode: OutputMode::WorldSeed,
        }
    }

    /// Applies one edit and revalidates the rows. Deleting a row requires the
    /// row to exist; every other edit out of range is ignored.
    pub fn update(&mut self, message: BdrkMessage)
        requires
            old(self).wf(),
            match message {
                BdrkMessage::Block(index, BlockMessage::Deleted) => index < old(
                    self,
                ).blocks@.len(),
                _ => true,
            },
        ensures
            final(self).wf(),
            message matches BdrkMessage::OutputMode(m) ==> *final(self) == (BdrkTab {
                output_mode: m,
                ..*old(self)
            }),
            message matches BdrkMessage::CrackerMode(m) ==> final(self).mode == m,
            (match message {
                BdrkMessage::CrackerMode(_) => true,
                BdrkMessage::Block(index, _) => index < old(self).blocks@.len(),
                _ => false,
            }) ==> final(self).estimated_seeds as int == filter_power_spec(
                final(self).valid_blocks@.map_values(|b: BlockInfo| from_block_spec(b)),
            ) && final(self).valid_blocks@ == collect_valid(
                final(self).blocks@,
                final(self).mode,
                Seq::empty(),
            ),
            message matches BdrkMessage::CrackerMode(m) ==> flags_set(
                final(self).blocks@,
                m,
                old(self).blocks@,
            ),
            message matches BdrkMessage::Block(index, BlockMessage::Deleted) ==> flags_set(
                final(self).blocks@,
                old(self).mode,
                old(self).blocks@.remove(index as int),
            ) && final(self).mode == old(self).mode,
            (match message {
                BdrkMessage::Block(_, BlockMessage::Deleted) => true,
                BdrkMessage::Block(index, _) => index >= old(self).blocks@.len() || (flags_set(
                    final(self).blocks@,
                    old(self).mode,
                    old(self).blocks@,
                ) && final(self).mode == old(self).mode),
                _ => true,
            }),
    {
        match message {
            BdrkMessage::Block(index, BlockMessage::Deleted) => {
                self.blocks.remove(index);
                self.update_blocks();
            },
            BdrkMessage::Block(index, message) => {
                if index < self.blocks.len() {
                    let ghost pre = self.blocks@;
                    self.blocks[index].update(message);
                    let ghost edited = self.blocks@;
                    self.update_blocks();
                    proof {
                        assert(flags_set(self.blocks@, self.mode, edited));
                        assert forall|i: int|
                            0 <= i < edited.len() implies (#[trigger] edited[i]).duplicate == old(
                            self,
                        ).blocks@[i].duplicate by {
                            if i != index {
                                assert(edited[i] == pre[i]);
                            }
                        };
                        assert(flags_set(self.blocks@, self.mode, old(self).blocks@));
                    }
                }
            },
            BdrkMessage::CrackerMode(mode) => {
                self.mode = mode;
                self.update_blocks();
            },
            BdrkMessage::OutputMode(mode) => {
                self.output_mode = mode;
            },
        }
    }

    /// Revalidates the rows and refreshes the estimate; keeps one blank row
    /// at the end for further input.
    fn update_blocks(&mut self)
        requires
            old(self).wf(),
        ensures
            final(self).wf(),
            final(self).mode == old(self).mode,
            final(self).output_mode == old(self).output_mode,
            final(self).estimated_seeds as int == filter_power_spec(
                final(self).valid_blocks@.map_values(|b: BlockInfo| from_block_spec(b)),
            ),
            old(self).blocks@.len() <= final(self).blocks@.len() <= old(self).blocks@.len() + 1,
            forall|j: int|
                0 <= j < old(self).blocks@.len() ==> entry_core(
                    #[trigger] final(self).blocks@[j],
                ) == entry_core(old(self).blocks@[j]),
            final(self).valid_blocks@ == collect_valid(
                final(self).blocks@,
                old(self).mode,
                Seq::empty(),
            ),
            flags_set(final(self).blocks@, old(self).mode, old(self).blocks@),
    {
        self.add_entry();
        let ghost mid = self.blocks@;
        self.update_invalid_states();
        proof {
            assert forall|i: int|
                0 <= i < self.blocks@.len() implies (#[trigger] self.blocks@[i]).duplicate == (
            match entry_pos_spec(self.blocks@[i]) {
                Some(b) => check_invalid_spec(
                    b,
                    collect_valid(self.blocks@.subrange(0, i), old(self).mode, Seq::empty()),
                    old(self).mode,
                ),
                None => if 0 <= i < old(self).blocks@.len() {
                    old(self).blocks@[i].duplicate
                } else {
                    false
                },
            }) by {
                assert(flags_set(self.blocks@, old(self).mode, mid));
                if entry_pos_spec(self.blocks@[i]) is None {
                    if i < old(self).blocks@.len() {
                        assert(mid[i] == old(self).blocks@[i]);
                    } else {
                        assert(mid[i] == mid.last());
                    }
                }
            };
        }
        self.estimated_seeds = estimate_result_amount(self.valid_blocks.as_slice());
    }

    /// Keeps exactly one blank row at the end of the form.
    fn add_entry(&mut self)
        requires
            old(self).wf(),
        ensures
            final(self).wf(),
            final(self).mode == old(self).mode,
            final(self).output_mode == old(self).output_mode,
            final(self).valid_blocks == old(self).valid_blocks,
            final(self).estimated_seeds == old(self).estimated_seeds,
            old(self).blocks@.len() <= final(self).blocks@.len() <= old(self).blocks@.len() + 1,
            forall|j: int|
                0 <= j < old(self).blocks@.len() ==> #[trigger] final(self).blocks@[j] == old(
                    self,
                ).blocks@[j],
            final(self).blocks@.len() > old(self).blocks@.len()
                ==> !final(self).blocks@.last().duplicate
                && entry_pos_spec(final(self).blocks@.last()) is None,
    {
        if self.blocks.len() == 0 {
            self.blocks.push(Block::new());
        } else {
            let last = self.blocks.len() - 1;
            if !self.blocks[last].is_empty() {
                self.blocks.push(Block::new());
            }
        }
    }

    /// Recomputes which rows denote accepted observations, marking the
    /// conflicting rows, and stores the accepted observations in row order.
    fn update_invalid_states(&mut self)
        requires
            old(self).wf(),
        ensures
            final(self).wf(),
            final(self).mode == old(self).mode,
            final(self).output_mode == old(self).output_mode,
            final(self).estimated_seeds == old(self).estimated_seeds,
            final(self).valid_blocks@ == collect_valid(
                old(self).blocks@,
                old(self).mode,
                Seq::empty(),
            ),
            final(self).valid_blocks@ == collect_valid(
                final(self).blocks@,
                old(self).mode,
                Seq::empty(),
            ),
            flags_set(final(self).blocks@, old(self).mode, old(self).blocks@),
            final(self).blocks@.len() == old(self).blocks@.len(),
            forall|j: int|
                0 <= j < old(self).blocks@.len() ==> entry_core(
                    #[trigger] final(self).blocks@[j],
                ) == entry_core(old(self).blocks@[j]),
    {
        let mut valid_blocks: Vec<BlockInfo> = Vec::new();
        let n = self.blocks.len();
        let mut i: usize = 0;
        let ghost entries0 = self.blocks@;
        let ghost mode0 = self.mode;
        proof {
            assert(entries0.subrange(0, entries0.len() as int) =~= entries0);
        }
        while i < n
            invariant
                0 <= i <= n,
                n == self.blocks@.len(),
                self.blocks@.len() == entries0.len(),
                self.mode == mode0,
                self.output_mode == old(self).output_mode,
                self.estimated_seeds == old(self).estimated_seeds,
                self.valid_blocks == old(self).valid_blocks,
                old(self).wf(),
                forall|j: int|
                    0 <= j < entries0.len() ==> (#[trigger] entries0[j]).wf(),
                forall|j: int|
                    i <= j < entries0.len() ==> #[trigger] self.blocks@[j] == entries0[j],
                forall|j: int|
                    0 <= j < i ==> (#[trigger] self.blocks@[j]).wf() && entry_pos_spec(
                        self.blocks@[j],
                    ) == entry_pos_spec(entries0[j]) && entry_core(self.blocks@[j]) == entry_core(
                        entries0[j],
                    ),
                forall|j: int|
                    0 <= j < valid_blocks@.len() ==> valid_observation_y(
                        (#[trigger] valid_blocks@[j]).y as int,
                    ),
                collect_valid(entries0, mode0, Seq::empty()) == collect_valid(
                    entries0.subrange(i as int, entries0.len() as int),
                    mode0,
                    valid_blocks@,
                ),
                valid_blocks@ == collect_valid(
                    entries0.subrange(0, i as int),
                    mode0,
                    Seq::empty(),
                ),
                forall|j: int|
                    0 <= j < i ==> (#[trigger] self.blocks@[j]).duplicate == (
                    match entry_pos_spec(entries0[j]) {
                        Some(b) => check_invalid_spec(
                            b,
                            collect_valid(entries0.subrange(0, j), mode0, Seq::empty()),
                            mode0,
                        ),
                        None => entries0[j].duplicate,
                    }),
            decreases n - i,
        {
            let ghost rest = entries0.subrange(i as int, entries0.len() as int);
            proof {
                assert(rest[0] == entries0[i as int]);
                assert(rest.subrange(1, rest.len() as int) =~= entries0.subrange(
                    i as int + 1,
                    entries0.len() as int,
                ));
                assert(entries0.subrange(0, i as int + 1) =~= entries0.subrange(0, i as int)
                    + entries0.subrange(i as int, i as int + 1));
                lemma_collect_valid_append(
                    entries0.subrange(0, i as int),
                    entries0.subrange(i as int, i as int + 1),
                    mode0,
                    Seq::empty(),
                );
                assert(entries0.subrange(i as int, i as int + 1)[0] == entries0[i as int]);
                assert(entries0.subrange(i as int, i as int + 1).subrange(1, 1)
                    =~= Seq::<Block>::empty());
            }
            let ghost acc0 = valid_blocks@;
            let ghost single = entries0.subrange(i as int, i as int + 1);
            let pos = self.blocks[i].get_pos();
            match pos {
                Some(block) => {
                    let invalid = Self::check_invalid(&block, valid_blocks.as_slice(), self.mode);
                    if !invalid {
                        valid_blocks.push(block);
                    }
                    self.blocks[i].set_duplicate(invalid);
                },
                None => {},
            }
            proof {
                assert(single.len() == 1 && single[0] == entries0[i as int]);
                assert(collect_valid(single.subrange(1, 1), mode0, acc0) == acc0);
                assert(collect_valid(single.subrange(1, 1), mode0, acc0.push(
                    entry_pos_spec(entries0[i as int]).unwrap(),
                )) == acc0.push(entry_pos_spec(entries0[i as int]).unwrap()));
                assert(valid_blocks@ == collect_valid(single, mode0, acc0));
                assert(valid_blocks@ == collect_valid(
                    entries0.subrange(0, i as int + 1),
                    mode0,
                    Seq::empty(),
                ));
            }
            i = i + 1;
        }
        proof {
            assert(entries0.subrange(entries0.len() as int, entries0.len() as int)
                =~= Seq::<Block>::empty());
            assert(entries0.subrange(0, entries0.len() as int) =~= entries0);
            lemma_collect_valid_pointwise(self.blocks@, entries0, mode0, Seq::empty());
            assert forall|j: int|
                0 <= j < entries0.len() implies collect_valid(
                self.blocks@.subrange(0, j),
                mode0,
                Seq::empty(),
            ) == collect_valid(entries0.subrange(0, j), mode0, Seq::empty()) by {
                lemma_collect_valid_pointwise(
                    self.blocks@.subrange(0, j),
                    entries0.subrange(0, j),
                    mode0,
                    Seq::empty(),
                );
            };
            assert(flags_set(self.blocks@, mode0, entries0));
        }
        self.valid_blocks = valid_blocks;
    }

    /// Replaces the form with the rows of a configuration file, one row per
    /// line, reading at most two hundred lines, and revalidates everything.
    pub fn load_config(&mut self, file: String)
        requires
            old(self).wf(),
        ensures
            final(self).wf(),
            final(self).mode == old(self).mode,
            final(self).output_mode == old(self).output_mode,
            final(self).estimated_seeds as int == filter_power_spec(
                final(self).valid_blocks@.map_values(|b: BlockInfo| from_block_spec(b)),
            ),
            ({
                let ls = crate::text::lines_spec(file@);
                let n: int = if ls.len() <= 200 {
                    ls.len() as int
                } else {
                    200
                };
                &&& n <= final(self).blocks@.len() <= n + 1
                &&& forall|j: int|
                    0 <= j < n ==> entry_core(#[trigger] final(self).blocks@[j])
                        == line_entry_core(ls[j])
            }),
    {
        let ls = crate::text::split_lines(file.as_str());
        proof {
            assert(forall|j: int|
                0 <= j < ls@.len() ==> (#[trigger] ls@[j])@ == crate::text::lines_spec(file@)[j]);
        }
        let limit: usize = if ls.len() < 200 {
            ls.len()
        } else {
            200
        };
        let mut blocks: Vec<Block> = Vec::new();
        let mut i: usize = 0;
        while i < limit
            invariant
                0 <= i <= limit,
                limit <= ls@.len(),
                blocks@.len() == i,
                forall|j: int|
                    0 <= j < ls@.len() ==> (#[trigger] ls@[j])@ == crate::text::lines_spec(
                        file@,
                    )[j],
                forall|j: int| 0 <= j < i ==> (#[trigger] blocks@[j]).wf(),
                forall|j: int|
                    0 <= j < i ==> entry_core(#[trigger] blocks@[j]) == line_entry_core(
                        crate::text::lines_spec(file@)[j],
                    ),
            decreases limit - i,
        {
            let block = Block::from_line(ls[i].as_str());
            blocks.push(block);
            i = i + 1;
        }
        self.blocks = blocks;
        self.update_blocks();
    }

    /// Writes the accepted observations back out, one line each.
    pub fn save_config(&self) -> (r: String)
        ensures
            r@ == config_text(self.valid_blocks@),
    {
        let mut content = String::new();
        let n = self.valid_blocks.len();
        let mut i: usize = 0;
        proof {
            assert(self.valid_blocks@.subrange(0, 0) =~= Seq::<BlockInfo>::empty());
            reveal_strlit("\n");
        }
        while i < n
            invariant
                0 <= i <= n,
                n == self.valid_blocks@.len(),
                content@ == config_text(self.valid_blocks@.subrange(0, i as int)),
            decreases n - i,
        {
            let line = self.valid_blocks[i].to_line();
            content.append(line.as_str());
            proof {
                reveal_strlit("\n");
                assert("\n"@ =~= seq!['\n']);
            }
            content.append("\n");
            proof {
                let pre = self.valid_blocks@.subrange(0, i as int);
                let ext = self.valid_blocks@.subrange(0, i as int + 1);
                assert(ext.drop_last() =~= pre);
                assert(content@ =~= config_text(ext));
            }
            i = i + 1;
        }
        proof {
            assert(self.valid_blocks@.subrange(0, n as int) =~= self.valid_blocks@);
        }
        content
    }

    /// Whether an observation conflicts with one already accepted: the same
    /// column and surface with the same layer is always redundant; the
    /// historical variant additionally rejects same-outcome repeats and
    /// impossible orderings within a column.
    pub fn check_invalid(block: &BlockInfo, valid_blocks: &[BlockInfo], mode: CrackerMode) -> (r:
        bool)
        ensures
            r == check_invalid_spec(*block, valid_blocks@, mode),
    {
        let n = valid_blocks.len();
        let mut i: usize = 0;
        while i < n
            invariant
                0 <= i <= n,
                n == valid_blocks@.len(),
                forall|j: int| 0 <= j < i ==> !invalid_with(*block, #[trigger] valid_blocks@[j], mode),
            decreases n - i,
        {
            let valid_block = &valid_blocks[i];
            if block.x == valid_block.x && block.z == valid_block.z && ((block.y > 5) == (
            valid_block.y > 5)) {
                if block.y == valid_block.y {
                    return true;
                }
                if matches!(mode, CrackerMode::Paper1_18) {
                    if block.block_type == valid_block.block_type {
                        return true;
                    }
                    let mut y1 = valid_block.y;
                    let mut y2 = block.y;
                    if (y1 > 5) != (matches!(block.block_type, BlockType::OTHER)) {
                        let tmp = y1;
                        y1 = y2;
                        y2 = tmp;
                    }
                    if y1 <= y2 {
                        return true;
                    }
                }
            }
            i = i + 1;
        }
        false
    }
}

} // verus!
