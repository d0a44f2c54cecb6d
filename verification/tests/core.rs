use std::sync::mpsc;

use bedrock_cracker::block::Block;
use bedrock_cracker::block_data::{BlockFilter, CheckObject};
use bedrock_cracker::block_type::BlockType;
use bedrock_cracker::layer::create_filter_tree;
use bedrock_cracker::modes::{CrackerMode, OutputMode};
use bedrock_cracker::rng::{next_long, reverse_next_long, world_seeds_from_bedrock_seed};
use bedrock_cracker::sender::Sender;
use bedrock_cracker::{
    estimate_result_amount, run_shard, shard_bounds, CrackProgress, FLOOR_HASH, LCG_MULT, MASK48,
    ROOF_HASH,
};

const WORLD_SEED: u64 = 765906787396911863;
const ROOF_SEED: u64 = 191924403737289;
const FLOOR_SEED: u64 = 18240473916414;

#[derive(Clone)]
struct TestSender(mpsc::Sender<CrackProgress>);

impl Sender for TestSender {
    fn send(&self, progress: CrackProgress) -> bool {
        self.0.send(progress).is_ok()
    }
}

fn blocks() -> Vec<Block> {
    vec![
        Block::new(18, 123, -117, BlockType::OTHER),
        Block::new(18, 123, -118, BlockType::OTHER),
        Block::new(18, 123, -119, BlockType::OTHER),
        Block::new(33, 126, -99, BlockType::OTHER),
        Block::new(35, 126, -99, BlockType::OTHER),
        Block::new(38, 126, -99, BlockType::OTHER),
        Block::new(19, 123, -117, BlockType::BEDROCK),
        Block::new(19, 123, -118, BlockType::BEDROCK),
        Block::new(19, 123, -119, BlockType::BEDROCK),
        Block::new(25, 126, -112, BlockType::BEDROCK),
        Block::new(25, 126, -113, BlockType::BEDROCK),
        Block::new(25, 126, -114, BlockType::BEDROCK),
        Block::new(11, 1, -111, BlockType::OTHER),
        Block::new(11, 1, -110, BlockType::OTHER),
        Block::new(11, 1, -109, BlockType::OTHER),
        Block::new(14, 4, -97, BlockType::OTHER),
        Block::new(14, 4, -96, BlockType::OTHER),
        Block::new(14, 4, -94, BlockType::OTHER),
        Block::new(10, 1, -111, BlockType::BEDROCK),
        Block::new(10, 1, -110, BlockType::BEDROCK),
        Block::new(10, 1, -109, BlockType::BEDROCK),
        Block::new(11, 4, -97, BlockType::BEDROCK),
        Block::new(11, 4, -96, BlockType::BEDROCK),
        Block::new(11, 4, -94, BlockType::BEDROCK),
    ]
}

#[test]
fn block_data_test_hashcode() {
    let block = BlockFilter::new(-98, 4, -469, BlockType::BEDROCK);
    assert_eq!(block.pos_hash, 99261249361405 ^ LCG_MULT)
}

#[test]
fn lib_test_hashcode() {
    let block = BlockFilter::new(-98, 4, -469, BlockType::BEDROCK);
    assert_eq!(block.pos_hash, 99261249361405 ^ LCG_MULT)
}

#[test]
fn layer_test_world_seed_to_roof() {
    let rand = next_long(WORLD_SEED);
    let roof = next_long(rand ^ ROOF_HASH) & MASK48;
    let floor = next_long(rand ^ FLOOR_HASH) & MASK48;

    assert_eq!(ROOF_SEED, roof);
    assert_eq!(FLOOR_SEED, floor);
}

#[test]
fn lib_test_world_seed_to_roof() {
    let seed = 5354280283422356689u64 & MASK48;
    let roof_seed = 1442567685227760047u64 & MASK48;

    let mut lon = next_long(seed) & MASK48;
    lon = lon ^ 343340730;
    lon = next_long(lon) & MASK48;

    assert_eq!(lon, roof_seed);
}

#[test]
fn test_next_long_reverse() {
    for x in 1..10u64 {
        let y = next_long(x);
        assert!(reverse_next_long(y).contains(&x));
    }
}

#[test]
fn test_preimages_map_forward() {
    // Every seed the inverse step returns must actually map onto the target;
    // a preimage list that merely echoed its argument would fail this.
    for target in [ROOF_SEED, FLOOR_SEED, 12345u64, MASK48] {
        for q in reverse_next_long(target) {
            assert_eq!(next_long(q) & MASK48, target & MASK48);
        }
    }
}

#[test]
fn test_seed_conversion() {
    let roof_seed = 1442567685227760047u64 & MASK48;
    let seed = 5354280283422356689i64;
    assert!(world_seeds_from_bedrock_seed(roof_seed, false).contains(&seed));
}

#[test]
fn test_world_seed_roundtrip_floor() {
    // The floor-surface seed derived from the world seed leads back to it.
    let seeds = world_seeds_from_bedrock_seed(FLOOR_SEED, true);
    assert!(seeds.contains(&(WORLD_SEED as i64)));
}

#[test]
fn test_checks() {
    for block in blocks().iter().filter(|block| block.y > 5) {
        let check = BlockFilter::from(block, CrackerMode::Normal).create_check(10);
        assert!(
            !check.check(ROOF_SEED & 0xFFFF_FFFF_FC00),
            "roof bedrock failed: {:#?}",
            check
        );
    }
    for block in blocks().iter().filter(|block| block.y < 5) {
        let check = BlockFilter::from(block, CrackerMode::Normal).create_check(10);
        assert!(
            !check.check(FLOOR_SEED & 0xFFFF_FFFF_FC00),
            "floor bedrock failed: {:#?}",
            check
        );
    }
}

#[test]
fn test_filter_tree() {
    let (sender, receiver) = mpsc::channel();

    let layers = create_filter_tree(
        &blocks(),
        CrackerMode::Normal,
        OutputMode::WorldSeed,
        TestSender(sender),
    );

    // the cracker uses roof data as the primary filter if it has equal info
    // from floor and roof
    layers.run_checks(ROOF_SEED & 0xFFFF_FFFF_F000);

    drop(layers);

    if let Ok(CrackProgress::Seed(seed)) = receiver.recv() {
        assert_eq!(seed, WORLD_SEED);
    } else {
        panic!("No seed found")
    }
}

#[test]
fn test_bedrock_matches() {
    let mut seed = 9210758467792927021u64 & MASK48;
    seed = seed & 0xFFFF_FFFF_F000;
    let coords: [(i32, i32); 28] = [
        (-98, -469),
        (-101, -465),
        (-101, -463),
        (-101, -457),
        (-101, -453),
        (-100, -456),
        (-100, -449),
        (-99, -464),
        (-99, -459),
        (-99, -455),
        (-98, -461),
        (-98, -460),
        (-96, -467),
        (-96, -465),
        (-96, -464),
        (-96, -452),
        (-95, -465),
        (-95, -458),
        (-95, -449),
        (-94, -462),
        (-94, -459),
        (-94, -454),
        (-93, -467),
        (-93, -465),
        (-93, -463),
        (-93, -455),
        (-92, -468),
        (-92, -467),
    ];
    for (x, z) in coords {
        let mut filter = BlockFilter::new(x, 4, z, BlockType::BEDROCK);
        let check = filter.create_check(12);
        assert!(!check.check(seed), "check failed: {:#?}", check);
    }
}

#[test]
fn test_estimate_fixture() {
    assert_eq!(estimate_result_amount(&blocks()), 79228);
}

#[test]
fn test_estimate_empty() {
    let empty: Vec<Block> = Vec::new();
    assert_eq!(estimate_result_amount(&empty), 1u64 << 48);
}

#[test]
fn test_bounds_exact() {
    // Floor: a bedrock observation caps the window from above, anything else
    // raises its lower end; ceiling observations mirror that.
    let f = BlockFilter::new(0, 1, 0, BlockType::BEDROCK);
    assert_eq!((f.lower_bound, f.upper_bound), (0, 225179981368524));
    let f = BlockFilter::new(0, 1, 0, BlockType::OTHER);
    assert_eq!((f.lower_bound, f.upper_bound), (225179981368524, MASK48));
    let f = BlockFilter::new(0, 123, 0, BlockType::BEDROCK);
    assert_eq!((f.lower_bound, f.upper_bound), (225179981368524, MASK48));
    let f = BlockFilter::new(0, 126, 0, BlockType::OTHER);
    assert_eq!((f.lower_bound, f.upper_bound), (0, 56294995342131));
    assert_eq!(f.possible_range, MASK48);
}

#[test]
fn test_filler_never_rejects() {
    let filler = CheckObject::filler();
    for p in [0u64, 1, 0xFFF0_0000_0000, MASK48, u64::MAX] {
        assert!(!filler.check(p));
    }
}

#[test]
fn test_shard_bounds_cover() {
    let t = 5u64;
    let (first, _) = shard_bounds(0, t);
    assert_eq!(first, 0);
    let mut prev_end = 0u64;
    for i in 0..t {
        let (start, end) = shard_bounds(i, t);
        assert_eq!(start, prev_end);
        assert!(start <= end);
        assert_eq!(start % 0x1000, 0);
        prev_end = end;
    }
    assert_eq!(prev_end, 1u64 << 48);
}

#[test]
fn test_run_shard_cancelled() {
    // With the receiver gone, the worker's first failed send ends the sweep.
    let (sender, receiver) = mpsc::channel();
    let tree = create_filter_tree(
        &blocks(),
        CrackerMode::Normal,
        OutputMode::WorldSeed,
        TestSender(sender.clone()),
    );
    drop(receiver);
    run_shard(&tree, 0, 0x2000, &TestSender(sender));
}
