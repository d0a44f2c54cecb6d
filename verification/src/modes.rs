//! Search configuration: generator variant and output form.

use vstd::prelude::*;

verus! {

/// Which generator variant the observations come from. The search kernel is
/// identical for both; the variants differ only in which observation sets the
/// input validator accepts.
#[derive(Debug, Clone, Copy, Default, PartialEq, Eq, Structural)]
pub enum CrackerMode {
    #[default]
    Normal,
    Paper1_18,
}

/// Whether survivors are reported as 48-bit structure seeds or lifted to full
/// 64-bit world seeds.
#[derive(Debug, Clone, Copy, Default, PartialEq, Eq, Structural)]
pub enum OutputMode {
    #[default]
    WorldSeed,
    StructureSeed,
}

} // verus!
