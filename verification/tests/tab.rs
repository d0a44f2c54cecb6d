use bedrock_cracker::bedrock_tab::{BdrkMessage, BdrkTab};
use bedrock_cracker::block::Block as BlockInfo;
use bedrock_cracker::block_entry::{Block, BlockMessage};
use bedrock_cracker::block_type::BlockType;
use bedrock_cracker::modes::CrackerMode;
use bedrock_cracker::text::parse_i32;

#[test]
fn test_from_line() {
    let b = Block::from_line("-98 4 -469 Other");
    assert_eq!(b.get_pos(), Some(BlockInfo::new(-98, 4, -469, BlockType::OTHER)));

    let b = Block::from_line("1 123 2");
    assert_eq!(b.get_pos(), Some(BlockInfo::new(1, 123, 2, BlockType::BEDROCK)));

    // extra whitespace and any letter case are accepted
    let b = Block::from_line("  7\t4  9   oThEr ");
    assert_eq!(b.get_pos(), Some(BlockInfo::new(7, 4, 9, BlockType::OTHER)));

    // an unknown kind word defaults to bedrock
    let b = Block::from_line("7 4 9 gravel");
    assert_eq!(b.get_pos(), Some(BlockInfo::new(7, 4, 9, BlockType::BEDROCK)));

    let b = Block::from_line("");
    assert!(b.is_empty());
    assert!(b.get_pos().is_none());

    // a layer outside both surfaces yields no observation
    let b = Block::from_line("1 64 2");
    assert!(b.get_pos().is_none());
}

#[test]
fn test_to_line() {
    let line = BlockInfo::new(-5, 1, 3, BlockType::OTHER).to_line();
    assert_eq!(line, "-5 1 3 Other");
    let line = BlockInfo::new(30000000, 126, -30000000, BlockType::BEDROCK).to_line();
    assert_eq!(line, "30000000 126 -30000000 Bedrock");
}

#[test]
fn test_config_round_trip() {
    let mut tab = BdrkTab::new();
    tab.load_config("-98 4 -469\n10 1 -111 Bedrock\n18 123 -117 Other\n".to_string());
    assert_eq!(tab.valid_blocks.len(), 3);
    assert_eq!(tab.valid_blocks[2], BlockInfo::new(18, 123, -117, BlockType::OTHER));

    let saved = tab.save_config();
    assert_eq!(saved, "-98 4 -469 Bedrock\n10 1 -111 Bedrock\n18 123 -117 Other\n");

    let mut tab2 = BdrkTab::new();
    tab2.load_config(saved);
    assert_eq!(tab2.valid_blocks, tab.valid_blocks);
}

#[test]
fn test_check_invalid() {
    let block = BlockInfo::new(1, 1, 1, BlockType::BEDROCK);
    let mut valid_blocks = vec![
        BlockInfo::new(1, 2, 1, BlockType::BEDROCK),
        BlockInfo::new(1, 3, 1, BlockType::BEDROCK),
    ];
    //no duplicates -> block is valid
    assert!(!BdrkTab::check_invalid(
        &block,
        &valid_blocks,
        CrackerMode::Normal
    ));

    //duplicates -> block is invalid
    valid_blocks.push(block.clone());
    assert!(BdrkTab::check_invalid(
        &block,
        &valid_blocks,
        CrackerMode::Normal
    ));
}

#[test]
fn test_check_invalid_paper() {
    let mut block = BlockInfo::new(1, 1, 1, BlockType::BEDROCK);
    let valid_blocks = vec![BlockInfo::new(1, 2, 1, BlockType::OTHER)];
    //valid position
    assert!(!BdrkTab::check_invalid(
        &block,
        &valid_blocks,
        CrackerMode::Paper1_18
    ));

    //bedrock ont op of other is an invalid placement
    block.y = 3;
    assert!(BdrkTab::check_invalid(
        &block,
        &valid_blocks,
        CrackerMode::Paper1_18
    ));

    //Two of the same type in the same column is redundant
    block.block_type = BlockType::OTHER;
    assert!(BdrkTab::check_invalid(
        &block,
        &valid_blocks,
        CrackerMode::Paper1_18
    ));

    //valid on opposite sites
    block.y = 123;
    assert!(!BdrkTab::check_invalid(
        &block,
        &valid_blocks,
        CrackerMode::Paper1_18
    ));
}

#[test]
fn test_parse_i32_cases() {
    assert_eq!(parse_i32("123"), Some(123));
    assert_eq!(parse_i32("+7"), Some(7));
    assert_eq!(parse_i32("-98"), Some(-98));
    assert_eq!(parse_i32("0"), Some(0));
    assert_eq!(parse_i32("-2147483648"), Some(i32::MIN));
    assert_eq!(parse_i32("2147483647"), Some(i32::MAX));
    assert_eq!(parse_i32("2147483648"), None);
    assert_eq!(parse_i32("-2147483649"), None);
    assert_eq!(parse_i32(""), None);
    assert_eq!(parse_i32("-"), None);
    assert_eq!(parse_i32("+"), None);
    assert_eq!(parse_i32("12a"), None);
    assert_eq!(parse_i32(" 12"), None);
    assert_eq!(parse_i32("99999999999999999999"), None);
}

#[test]
fn test_block_entry_flow() {
    let mut entry = Block::new();
    assert!(entry.is_empty());
    assert!(entry.get_pos().is_none());

    entry.update(BlockMessage::EditedX("-98".to_string()));
    entry.update(BlockMessage::EditedY("4".to_string()));
    entry.update(BlockMessage::EditedZ("-469".to_string()));
    assert!(!entry.is_empty());
    let pos = entry.get_pos().expect("all three coordinates are valid");
    assert_eq!((pos.x, pos.y, pos.z), (-98, 4, -469));
    assert_eq!(pos.block_type, BlockType::BEDROCK);

    // a layer outside both surfaces never yields an observation
    entry.update(BlockMessage::EditedY("64".to_string()));
    assert!(entry.get_pos().is_none());

    // coordinates beyond the world border are rejected
    entry.update(BlockMessage::EditedY("4".to_string()));
    entry.update(BlockMessage::EditedX("30000001".to_string()));
    assert!(entry.get_pos().is_none());

    entry.update(BlockMessage::EditedX("30000000".to_string()));
    entry.update(BlockMessage::EditedType(BlockType::OTHER));
    let pos = entry.get_pos().expect("back in range");
    assert_eq!(pos.x, 30000000);
    assert_eq!(pos.block_type, BlockType::OTHER);

    entry.set_duplicate(true);
    assert!(entry.duplicate);
}

#[test]
fn test_bdrk_tab_update() {
    let mut tab = BdrkTab::new();
    assert_eq!(tab.estimated_seeds, 1u64 << 48);
    assert_eq!(tab.blocks.len(), 1);

    tab.update(BdrkMessage::Block(0, BlockMessage::EditedX("-98".to_string())));
    tab.update(BdrkMessage::Block(0, BlockMessage::EditedY("4".to_string())));
    tab.update(BdrkMessage::Block(0, BlockMessage::EditedZ("-469".to_string())));

    // the completed row is accepted and a fresh blank row is appended
    assert_eq!(tab.valid_blocks.len(), 1);
    assert_eq!(tab.blocks.len(), 2);
    assert_eq!(tab.valid_blocks[0], BlockInfo::new(-98, 4, -469, BlockType::BEDROCK));
    // a bedrock observation at the highest floor layer keeps a fifth of the space
    assert_eq!(tab.estimated_seeds, (1u64 << 48) / 5);

    // a duplicate in the same column is rejected and flagged
    tab.update(BdrkMessage::Block(1, BlockMessage::EditedX("-98".to_string())));
    tab.update(BdrkMessage::Block(1, BlockMessage::EditedY("4".to_string())));
    tab.update(BdrkMessage::Block(1, BlockMessage::EditedZ("-469".to_string())));
    assert_eq!(tab.valid_blocks.len(), 1);
    assert!(tab.blocks[1].duplicate);

    // deleting the duplicate row restores the form
    tab.update(BdrkMessage::Block(1, BlockMessage::Deleted));
    assert_eq!(tab.valid_blocks.len(), 1);
    assert_eq!(tab.blocks.len(), 2);
}
