//! The two observable outcomes at a position.

use vstd::prelude::*;

verus! {

/// Outcome recorded for one position: the generator placed bedrock there, or
/// it placed something else.
#[derive(Debug, Clone, Copy, Eq, PartialEq, Hash, Structural)]
pub enum BlockType {
    BEDROCK,
    OTHER,
}

impl BlockType {
    /// The word naming this outcome, as the configuration format writes it.
    pub fn label(&self) -> (r: String)
        ensures
            r@ == match self {
                BlockType::BEDROCK => "Bedrock"@,
                BlockType::OTHER => "Other"@,
            },
    {
        match self {
            BlockType::BEDROCK => "Bedrock".to_owned(),
            BlockType::OTHER => "Other".to_owned(),
        }
    }
}

} // verus!
