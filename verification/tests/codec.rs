//! Tests for the opcode table, the line format, and format detection.

use sks::BackgroundType;
use sks::Block;
use sks::Direction;
use sks::FileFormat;
use sks::LEVEL_SIZE;
use sks::decode_any;
use sks::decode_lbl;
use sks::encode_lbl;
use sks::guess_format;
use sks::is_directional;
use sks::strip_block;

fn opcode_table() -> Vec<(&'static str, Block)> {
    vec![
        ("00", Block::Empty),
        ("A0", Block::Dark),
        ("B0", Block::Block),
        ("BK", Block::Lock),
        ("CI", Block::PipeIn),
        ("CO", Block::PipeOut),
        ("CP", Block::PipePhase),
        ("CS", Block::PipeSolid),
        ("D0", Block::Scaffold),
        ("D1", Block::Torch),
        ("E0", Block::Exit),
        ("E1", Block::SecretExit),
        ("IK", Block::Key),
        ("M0", Block::Background { background_type: BackgroundType::Cobble }),
        ("M1", Block::Background { background_type: BackgroundType::Waterfall }),
        ("M2", Block::Background { background_type: BackgroundType::Skullfall }),
        ("M3", Block::Background { background_type: BackgroundType::Concrete }),
        ("M4", Block::Background { background_type: BackgroundType::Reserved1 }),
        ("M5", Block::Background { background_type: BackgroundType::Reserved2 }),
        ("M6", Block::Background { background_type: BackgroundType::Reserved3 }),
        ("OD", Block::OneWayWall { direction: Direction::Down }),
        ("OL", Block::OneWayWall { direction: Direction::Left }),
        ("OR", Block::OneWayWall { direction: Direction::Right }),
        ("OU", Block::OneWayWall { direction: Direction::Up }),
        ("P0", Block::PowerUpBurrow),
        ("P1", Block::PowerUpRecall),
        ("S0", Block::Switch),
        ("S1", Block::SwitchCeiling),
        ("T0", Block::ToggleBlock { solid: true }),
        ("T1", Block::ToggleBlock { solid: false }),
        ("X0", Block::Player),
        ("WR", Block::Wire),
    ]
}

#[test]
fn every_opcode_is_a_bijection() {
    let table = opcode_table();
    assert_eq!(table.len(), 32);
    for (code, block) in table {
        assert_eq!(Block::from_lbl(code), Some(block.clone()), "decode of {}", code);
        assert_eq!(block.as_lbl(), code, "encode of {}", code);
    }
}

#[test]
fn every_block_round_trips_through_its_opcode() {
    let mut blocks: Vec<Block> = opcode_table().into_iter().map(|(_, b)| b).collect();
    blocks.push(Block::Note { text: String::new() });
    blocks.push(Block::Note { text: String::from("with spaces, and [brackets]") });
    for block in blocks {
        assert_eq!(Block::from_lbl(&block.as_lbl()), Some(block.clone()));
    }
}

#[test]
fn note_round_trip() {
    assert_eq!(
        Block::Note { text: String::from("hello world") }.as_lbl(),
        "Note:hello world",
    );
    assert_eq!(
        Block::from_lbl("Note:hello world"),
        Some(Block::Note { text: String::from("hello world") }),
    );
}

#[test]
fn unknown_opcodes_decode_to_nothing() {
    assert_eq!(Block::from_lbl(""), None);
    assert_eq!(Block::from_lbl("ZZ"), None);
    assert_eq!(Block::from_lbl("000"), None);
    assert_eq!(Block::from_lbl("Not"), None);
    assert_eq!(Block::from_lbl("note:x"), None);
}

#[test]
fn strip_block_clears_note_text_only() {
    let note = Block::Note { text: String::from("secret") };
    assert_eq!(strip_block(&note), Block::Note { text: String::new() });
    assert_eq!(strip_block(&Block::Torch), Block::Torch);
}

#[test]
fn is_directional_marks_one_way_walls() {
    assert!(is_directional(&Block::OneWayWall { direction: Direction::Up }));
    assert!(!is_directional(&Block::Player));
}

#[test]
fn lbl_round_trip_of_a_full_grid() {
    let mut cells = vec![Block::Empty; LEVEL_SIZE];
    cells[0] = Block::Block;
    cells[33] = Block::Note { text: String::from("hi there") };
    cells[575] = Block::Player;
    let text = encode_lbl(&cells);
    assert_eq!(decode_lbl(&text), Some(cells));
}

#[test]
fn lbl_decode_rejects_one_line_short() {
    let text = "00\n".repeat(LEVEL_SIZE - 1);
    assert_eq!(decode_lbl(&text), None);
}

#[test]
fn lbl_decode_rejects_one_line_long() {
    let text = "00\n".repeat(LEVEL_SIZE + 1);
    assert_eq!(decode_lbl(&text), None);
}

#[test]
fn lbl_decode_accepts_exactly_one_grid() {
    let text = "00\n".repeat(LEVEL_SIZE);
    let cells = decode_lbl(&text).expect("full grid of empty cells");
    assert_eq!(cells.len(), LEVEL_SIZE);
    assert!(cells.iter().all(|b| *b == Block::Empty));
}

#[test]
fn lbl_decode_rejects_a_bad_line() {
    let mut text = "00\n".repeat(LEVEL_SIZE - 1);
    text.push_str("??\n");
    assert_eq!(decode_lbl(&text), None);
}

#[test]
fn lbl_decode_accepts_crlf_line_endings() {
    let text = "B0\r\n".repeat(LEVEL_SIZE);
    let cells = decode_lbl(&text).expect("full grid of walls");
    assert!(cells.iter().all(|b| *b == Block::Block));
}

#[test]
fn guess_format_spots_the_line_format() {
    assert_eq!(guess_format("00\nB0\n"), Some(FileFormat::LBL));
    assert_eq!(guess_format("  \n\nNote:first cell is a note\n00\n"), Some(FileFormat::LBL));
}

#[test]
fn guess_format_spots_the_script_format() {
    assert_eq!(guess_format("lvlArray[x][0] = [00];\n"), Some(FileFormat::AS3));
    assert_eq!(guess_format("\n  lvlArrayStuff"), Some(FileFormat::AS3));
}

#[test]
fn guess_format_rejects_everything_else() {
    assert_eq!(guess_format(""), None);
    assert_eq!(guess_format("   \n  \n"), None);
    assert_eq!(guess_format("hello world\n00\n"), None);
}

#[test]
fn guess_format_trims_surrounding_whitespace() {
    assert_eq!(guess_format("  00  "), Some(FileFormat::LBL));
}

#[test]
fn decode_any_follows_the_detected_format() {
    let lbl = "00\n".repeat(LEVEL_SIZE);
    assert_eq!(decode_any(&lbl).map(|v| v.len()), Some(LEVEL_SIZE));
    assert_eq!(decode_any("no format here"), None);
    // Detected as script format, but the document is not a whole grid.
    assert_eq!(decode_any("lvlArray[x][0] = [00];\n"), None);
}
