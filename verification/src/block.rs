//! One observation: a position and the outcome seen there.

use vstd::prelude::*;

use crate::block_type::BlockType;

verus! {

/// Layers on which an observation carries information: the four bottom
/// (floor) layers and the four top (ceiling) layers.
pub open spec fn valid_observation_y(y: int) -> bool {
    (1 <= y <= 4) || (123 <= y <= 126)
}

/// An immutable observation: integer coordinates and the outcome.
#[derive(Debug, Clone, PartialEq, Eq, Hash, Structural)]
pub struct Block {
    pub x: i32,
    pub y: i32,
    pub z: i32,
    pub block_type: BlockType,
}

/// The configuration line of one observation: the three coordinates and the
/// outcome word, space separated.
pub open spec fn block_line_spec(b: Block) -> Seq<char> {
    crate::text::dec_of_i32(b.x as int) + seq![' '] + crate::text::dec_of_i32(b.y as int)
        + seq![' '] + crate::text::dec_of_i32(b.z as int) + seq![' '] + match b.block_type {
        BlockType::BEDROCK => "Bedrock"@,
        BlockType::OTHER => "Other"@,
    }
}

impl Block {
    pub fn new(x: i32, y: i32, z: i32, block_type: BlockType) -> (r: Block)
        ensures
            r == (Block { x, y, z, block_type }),
    {
        Block { x, y, z, block_type }
    }

    /// Writes this observation as one configuration line.
    pub fn to_line(&self) -> (r: String)
        ensures
            r@ == block_line_spec(*self),
    {
        let mut out = String::new();
        proof {
            reveal_strlit(" ");
            assert(" "@ =~= seq![' ']);
        }
        crate::text::push_dec_i32(&mut out, self.x);
        out.append(" ");
        crate::text::push_dec_i32(&mut out, self.y);
        out.append(" ");
        crate::text::push_dec_i32(&mut out, self.z);
        out.append(" ");
        let label = self.block_type.label();
        out.append(label.as_str());
        proof {
            assert(out@ =~= block_line_spec(*self));
        }
        out
    }
}

} // verus!
