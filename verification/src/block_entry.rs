//! One editable observation row: three coordinate fields and an outcome.

use vstd::prelude::*;

use crate::block::{valid_observation_y, Block as BlockInfo};
use crate::block_type::BlockType;
use crate::text::{parse_i32, parse_i32_spec, tokenize, tokens_spec};

verus! {

/// Which validity window a coordinate field uses.
#[derive(Debug, Clone, Copy, PartialEq, Eq, Structural)]
pub enum CoordType {
    XZ,
    Y,
}

impl CoordType {
    /// The window a parsed coordinate must lie in.
    pub open spec fn check_valid_spec(self, coord: int) -> bool {
        match self {
            CoordType::XZ => -30000000 <= coord <= 30000000,
            CoordType::Y => (1 <= coord <= 4) || (123 <= coord <= 126),
        }
    }

    fn check_valid(&self, coord: i32) -> (r: bool)
        ensures
            r == self.check_valid_spec(coord as int),
    {
        match self {
            CoordType::XZ => -30000000 <= coord && coord <= 30000000,
            CoordType::Y => (1 <= coord && coord <= 4) || (123 <= coord && coord <= 126),
        }
    }
}

/// The number a coordinate field holds: its text parsed as an `i32`, kept
/// only when it lies in the field's window.
pub open spec fn coord_num_spec(text: Seq<char>, coord_type: CoordType) -> Option<i32> {
    match parse_i32_spec(text) {
        Some(n) => if coord_type.check_valid_spec(n as int) {
            Some(n)
        } else {
            None
        },
        None => None,
    }
}

/// One coordinate field: the raw text, its parsed and validated value, and
/// the window it validates against.
#[derive(Debug, Clone)]
pub struct Coord {
    pub text: String,
    pub num: Option<i32>,
    pub coord_type: CoordType,
}

impl Coord {
    /// The field's value always reflects its text.
    pub open spec fn wf(self) -> bool {
        self.num == coord_num_spec(self.text@, self.coord_type)
    }

    fn new(coord_type: CoordType) -> (r: Coord)
        ensures
            r.text@.len() == 0,
            r.num is None,
            r.coord_type == coord_type,
            r.wf(),
    {
        Coord { text: String::new(), num: None, coord_type }
    }

    fn update(&mut self, text: String)
        ensures
            final(self).text == text,
            final(self).coord_type == old(self).coord_type,
            final(self).wf(),
    {
        self.num = match parse_i32(text.as_str()) {
            Some(num) => if self.coord_type.check_valid(num) {
                Some(num)
            } else {
                None
            },
            None => None,
        };
        self.text = text;
    }
}

/// An edit to one observation row.
#[derive(Debug, Clone)]
pub enum BlockMessage {
    EditedX(String),
    EditedY(String),
    EditedZ(String),
    EditedType(BlockType),
    Deleted,
}

/// One observation row of the input form.
#[derive(Debug, Clone)]
pub struct Block {
    pub x: Coord,
    pub y: Coord,
    pub z: Coord,
    pub block_type: BlockType,
    pub duplicate: bool,
}

/// The observation a row denotes, once all three coordinates are valid.
pub open spec fn entry_pos_spec(b: Block) -> Option<BlockInfo> {
    match (b.x.num, b.y.num, b.z.num) {
        (Some(x), Some(y), Some(z)) => Some(
            BlockInfo { x, y, z, block_type: b.block_type },
        ),
        _ => None,
    }
}

impl Block {
    /// All three fields track their text against the right windows.
    pub open spec fn wf(self) -> bool {
        &&& self.x.wf()
        &&& self.y.wf()
        &&& self.z.wf()
        &&& self.x.coord_type == CoordType::XZ
        &&& self.y.coord_type == CoordType::Y
        &&& self.z.coord_type == CoordType::XZ
    }

    pub fn new() -> (r: Block)
        ensures
            r.wf(),
            r.x.text@.len() == 0 && r.y.text@.len() == 0 && r.z.text@.len() == 0,
            r.block_type == BlockType::BEDROCK,
            !r.duplicate,
            entry_pos_spec(r) is None,
    {
        Block {
            x: Coord::new(CoordType::XZ),
            y: Coord::new(CoordType::Y),
            z: Coord::new(CoordType::XZ),
            block_type: BlockType::BEDROCK,
            duplicate: false,
        }
    }

    /// Applies one edit. Deletion is handled by the row's owner, never here.
    pub fn update(&mut self, message: BlockMessage)
        requires
            old(self).wf(),
            !(message is Deleted),
        ensures
            final(self).wf(),
            final(self).duplicate == old(self).duplicate,
            match message {
                BlockMessage::EditedX(x) => final(self).x.text == x
                    && final(self).y == old(self).y
                    && final(self).z == old(self).z
                    && final(self).block_type == old(self).block_type,
                BlockMessage::EditedY(y) => final(self).y.text == y
                    && final(self).x == old(self).x
                    && final(self).z == old(self).z
                    && final(self).block_type == old(self).block_type,
                BlockMessage::EditedZ(z) => final(self).z.text == z
                    && final(self).x == old(self).x
                    && final(self).y == old(self).y
                    && final(self).block_type == old(self).block_type,
                BlockMessage::EditedType(block_type) => final(self).block_type == block_type
                    && final(self).x == old(self).x
                    && final(self).y == old(self).y
                    && final(self).z == old(self).z,
                BlockMessage::Deleted => false,
            },
    {
        match message {
            BlockMessage::EditedX(x) => self.x.update(x),
            BlockMessage::EditedY(y) => self.y.update(y),
            BlockMessage::EditedZ(z) => self.z.update(z),
            BlockMessage::EditedType(block_type) => {
                self.block_type = block_type;
            },
            BlockMessage::Deleted => {
                proof {
                    assert(false);
                }
            },
        }
    }

    /// Whether all three coordinate fields are still blank.
    pub fn is_empty(&self) -> (r: bool)
        ensures
            r == (self.x.text@.len() == 0 && self.y.text@.len() == 0 && self.z.text@.len() == 0),
    {
        self.x.text.as_str().is_empty() && self.y.text.as_str().is_empty()
            && self.z.text.as_str().is_empty()
    }

    /// The observation this row denotes, if every field is valid.
    pub fn get_pos(&self) -> (r: Option<BlockInfo>)
        ensures
            r == entry_pos_spec(*self),
            r is Some && self.wf() ==> valid_observation_y(r.unwrap().y as int),
    {
        match (self.x.num, self.y.num, self.z.num) {
            (Some(x), Some(y), Some(z)) => Some(
                BlockInfo { x, y, z, block_type: self.block_type },
            ),
            _ => None,
        }
    }

    pub fn set_duplicate(&mut self, duplicate: bool)
        ensures
            *final(self) == (Block { duplicate, ..*old(self) }),
    {
        self.duplicate = duplicate;
    }

    /// Reads one row from a configuration line: the first three tokens fill
    /// the coordinate fields, and a fourth token naming the other outcome
    /// (in any letter case) flips the outcome; everything else stays bedrock.
    pub fn from_line(line: &str) -> (r: Block)
        ensures
            r.wf(),
            !r.duplicate,
            r.x.text@ == token_or_empty(tokens_spec(line@), 0),
            r.y.text@ == token_or_empty(tokens_spec(line@), 1),
            r.z.text@ == token_or_empty(tokens_spec(line@), 2),
            r.block_type == (if is_other_word(token_or_empty(tokens_spec(line@), 3)) {
                BlockType::OTHER
            } else {
                BlockType::BEDROCK
            }),
    {
        let toks = tokenize(line);
        proof {
            assert(forall|j: int|
                0 <= j < toks@.len() ==> (#[trigger] toks@[j])@ == tokens_spec(line@)[j]);
        }
        let mut block = Block::new();
        let x = if toks.len() > 0 {
            toks[0].clone()
        } else {
            String::new()
        };
        block.update(BlockMessage::EditedX(x));
        let y = if toks.len() > 1 {
            toks[1].clone()
        } else {
            String::new()
        };
        block.update(BlockMessage::EditedY(y));
        let z = if toks.len() > 2 {
            toks[2].clone()
        } else {
            String::new()
        };
        block.update(BlockMessage::EditedZ(z));
        if toks.len() > 3 {
            if is_other_token(toks[3].as_str()) {
                block.update(BlockMessage::EditedType(BlockType::OTHER));
            }
        }
        block
    }
}

/// The text content of a row: everything but its conflict flag and parse
/// results.
pub open spec fn entry_core(e: Block) -> (Seq<char>, Seq<char>, Seq<char>, BlockType) {
    (e.x.text@, e.y.text@, e.z.text@, e.block_type)
}

/// The row a configuration line denotes.
pub open spec fn line_entry_core(line: Seq<char>) -> (Seq<char>, Seq<char>, Seq<char>, BlockType) {
    (
        token_or_empty(tokens_spec(line), 0),
        token_or_empty(tokens_spec(line), 1),
        token_or_empty(tokens_spec(line), 2),
        if is_other_word(token_or_empty(tokens_spec(line), 3)) {
            BlockType::OTHER
        } else {
            BlockType::BEDROCK
        },
    )
}

/// The token at `idx`, or nothing when the line is shorter.
pub open spec fn token_or_empty(toks: Seq<Seq<char>>, idx: int) -> Seq<char> {
    if 0 <= idx < toks.len() {
        toks[idx]
    } else {
        Seq::empty()
    }
}

/// The code point of an ASCII letter folded to lower case; all else as is.
pub open spec fn lower_code(c: char) -> int {
    if 65 <= c as int <= 90 {
        c as int + 32
    } else {
        c as int
    }
}

/// The word naming the non-bedrock outcome, in any ASCII letter case.
pub open spec fn is_other_word(t: Seq<char>) -> bool {
    &&& t.len() == 5
    &&& lower_code(t[0]) == 'o' as int
    &&& lower_code(t[1]) == 't' as int
    &&& lower_code(t[2]) == 'h' as int
    &&& lower_code(t[3]) == 'e' as int
    &&& lower_code(t[4]) == 'r' as int
}

/// Case-insensitive comparison of a token against the other-outcome word.
fn is_other_token(t: &str) -> (r: bool)
    ensures
        r == is_other_word(t@),
{
    if t.unicode_len() != 5 {
        return false;
    }
    let expected: [u32; 5] = [111, 116, 104, 101, 114];
    let mut k: usize = 0;
    proof {
        assert('o' as int == 111 && 't' as int == 116 && 'h' as int == 104 && 'e' as int == 101
            && 'r' as int == 114);
    }
    while k < 5
        invariant
            0 <= k <= 5,
            t@.len() == 5,
            expected@ =~= seq![111u32, 116u32, 104u32, 101u32, 114u32],
            forall|j: int| 0 <= j < k ==> lower_code(#[trigger] t@[j]) == expected@[j] as int,
        decreases 5 - k,
    {
        let c = t.get_char(k);
        let cv = c as u32;
        let folded = if 65 <= cv && cv <= 90 {
            cv + 32
        } else {
            cv
        };
        proof {
            assert(lower_code(t@[k as int]) == folded as int);
        }
        if folded != expected[k] {
            return false;
        }
        k = k + 1;
    }
    proof {
        assert('o' as int == 111 && 't' as int == 116 && 'h' as int == 104 && 'e' as int == 101
            && 'r' as int == 114);
        assert(expected@[0] as int == 111 && expected@[1] as int == 116 && expected@[2] as int
            == 104 && expected@[3] as int == 101 && expected@[4] as int == 114);
    }
    true
}

} // verus!
