//! Tests for the level aggregate: importing and exporting grids with
//! the darkness and background flags folded in and out.

use sks::BackgroundType;
use sks::Block;
use sks::LEVEL_SIZE;
use sks::Level;
use sks::decode_lbl;
use sks::decode_as3;
use sks::encode_as3;
use sks::encode_lbl;

#[test]
fn a_new_level_is_empty_and_bright() {
    let level = Level::new();
    assert_eq!(level.get_level_data().len(), LEVEL_SIZE);
    assert!(level.get_level_data().iter().all(|b| *b == Block::Empty));
    assert!(!level.is_dark());
    assert_eq!(level.get_background(), BackgroundType::Cobble);
}

#[test]
fn add_block_writes_in_range() {
    let mut level = Level::new();
    assert_eq!(level.add_block(7, Block::Key), None);
    assert_eq!(level.get_level_data()[7], Block::Key);
}

#[test]
fn add_block_returns_the_block_out_of_range() {
    let mut level = Level::new();
    assert_eq!(level.add_block(LEVEL_SIZE, Block::Key), Some(Block::Key));
    assert!(level.get_level_data().iter().all(|b| *b == Block::Empty));
}

#[test]
fn import_rejects_a_wrong_length() {
    assert!(Level::from_block_array(&vec![Block::Empty; LEVEL_SIZE - 1]).is_none());
    assert!(Level::from_block_array(&vec![Block::Empty; LEVEL_SIZE + 1]).is_none());
}

#[test]
fn import_folds_markers_into_flags() {
    let mut cells = vec![Block::Empty; LEVEL_SIZE];
    cells[3] = Block::Dark;
    cells[10] = Block::Background { background_type: BackgroundType::Skullfall };
    cells[20] = Block::Exit;
    let level = Level::from_block_array(&cells).expect("right length");
    assert!(level.is_dark());
    assert_eq!(level.get_background(), BackgroundType::Skullfall);
    assert_eq!(level.get_level_data()[3], Block::Empty);
    assert_eq!(level.get_level_data()[10], Block::Empty);
    assert_eq!(level.get_level_data()[20], Block::Exit);
}

#[test]
fn import_lets_the_last_background_marker_win() {
    let mut cells = vec![Block::Empty; LEVEL_SIZE];
    cells[2] = Block::Background { background_type: BackgroundType::Waterfall };
    cells[9] = Block::Background { background_type: BackgroundType::Concrete };
    let level = Level::from_block_array(&cells).expect("right length");
    assert_eq!(level.get_background(), BackgroundType::Concrete);
}

#[test]
fn export_of_a_plain_level_copies_the_grid() {
    let mut level = Level::new();
    level.add_block(11, Block::Lock);
    let cells = level.export_block_array().expect("nothing pending");
    assert_eq!(cells.len(), LEVEL_SIZE);
    assert_eq!(cells[11], Block::Lock);
    assert_eq!(cells[0], Block::Empty);
}

#[test]
fn export_places_the_dark_marker_into_the_first_empty_slot() {
    let mut level = Level::new();
    level.set_dark(true);
    let cells = level.export_block_array().expect("room for the marker");
    assert_eq!(cells.len(), LEVEL_SIZE);
    assert_eq!(cells[0], Block::Dark);
    assert!(cells[1..].iter().all(|b| *b == Block::Empty));
    let back = Level::from_block_array(&cells).expect("right length");
    assert!(back.is_dark());
    assert!(back.get_level_data().iter().all(|b| *b == Block::Empty));
}

#[test]
fn export_places_background_before_dark() {
    let mut level = Level::new();
    level.set_dark(true);
    level.set_background(BackgroundType::Waterfall);
    let cells = level.export_block_array().expect("room for both markers");
    assert_eq!(
        cells[0],
        Block::Background { background_type: BackgroundType::Waterfall },
    );
    assert_eq!(cells[1], Block::Dark);
    assert!(cells[2..].iter().all(|b| *b == Block::Empty));
}

#[test]
fn export_skips_occupied_slots() {
    let mut level = Level::new();
    level.set_dark(true);
    level.add_block(0, Block::Block);
    level.add_block(1, Block::Torch);
    let cells = level.export_block_array().expect("a spare slot remains");
    assert_eq!(cells[0], Block::Block);
    assert_eq!(cells[1], Block::Torch);
    assert_eq!(cells[2], Block::Dark);
}

#[test]
fn export_of_a_full_dark_grid_is_unrepresentable() {
    let mut level = Level::new();
    for i in 0..LEVEL_SIZE {
        level.add_block(i, Block::Block);
    }
    level.set_dark(true);
    assert_eq!(level.export_block_array(), None);
}

#[test]
fn export_fails_when_markers_outnumber_spare_slots() {
    let mut level = Level::new();
    for i in 1..LEVEL_SIZE {
        level.add_block(i, Block::Scaffold);
    }
    level.set_dark(true);
    level.set_background(BackgroundType::Concrete);
    // One spare slot, two pending markers.
    assert_eq!(level.export_block_array(), None);
}

#[test]
fn level_round_trip_through_the_line_format() {
    let mut level = Level::new();
    level.set_dark(true);
    level.add_block(40, Block::Player);
    level.add_block(41, Block::Note { text: String::from("jump here") });
    let exported = level.export_block_array().expect("room for the marker");
    let text = encode_lbl(&exported);
    let decoded = decode_lbl(&text).expect("it just encoded");
    assert_eq!(decoded, exported);
    let back = Level::from_block_array(&decoded).expect("right length");
    assert!(back.is_dark());
    assert_eq!(back.get_level_data(), level.get_level_data());
}

#[test]
fn level_round_trip_through_the_script_format() {
    let mut level = Level::new();
    level.set_background(BackgroundType::Waterfall);
    level.add_block(100, Block::SecretExit);
    let exported = level.export_block_array().expect("room for the marker");
    let text = encode_as3("x", &exported);
    let decoded = decode_as3(&text).expect("it just encoded");
    assert_eq!(decoded, exported);
    let back = Level::from_block_array(&decoded).expect("right length");
    assert_eq!(back.get_background(), BackgroundType::Waterfall);
    assert_eq!(back.get_level_data(), level.get_level_data());
}
