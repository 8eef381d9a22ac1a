//! Tests for the embedded-script format.

use sks::As3Error;
use sks::BackgroundType;
use sks::Block;
use sks::LEVEL_HEIGHT;
use sks::LEVEL_SIZE;
use sks::LEVEL_WIDTH;
use sks::decode_any;
use sks::decode_as3;
use sks::encode_as3;

fn row_text(id: &str, row: usize, elems: &[&str]) -> String {
    let mut line = format!("lvlArray[{}][{}] = [", id, row);
    for (i, e) in elems.iter().enumerate() {
        if i > 0 {
            line.push_str(", ");
        }
        line.push_str(e);
    }
    line.push_str("];\n");
    line
}

fn empty_rows_from(first: usize) -> String {
    let elems = vec!["00"; LEVEL_WIDTH];
    let mut doc = String::new();
    for row in first..LEVEL_HEIGHT {
        doc.push_str(&row_text("x", row, &elems));
    }
    doc
}

#[test]
fn as3_round_trip_of_a_full_grid() {
    let mut cells = vec![Block::Empty; LEVEL_SIZE];
    cells[0] = Block::Scaffold;
    cells[31] = Block::Note { text: String::from("a note, with [brackets]; and more") };
    cells[100] = Block::ToggleBlock { solid: false };
    cells[575] = Block::Wire;
    let text = encode_as3("x", &cells);
    assert_eq!(decode_as3(&text), Ok(cells));
}

#[test]
fn as3_encodes_the_exact_statement_shape() {
    let mut cells = vec![Block::Empty; LEVEL_SIZE];
    cells[1] = Block::Block;
    cells[3] = Block::Note { text: String::from("hey") };
    let text = encode_as3("level9", &cells);
    let first_line = text.lines().next().unwrap();
    let mut elems = vec!["00"; LEVEL_WIDTH];
    elems[1] = "B0";
    elems[3] = "\"Note:hey\"";
    let expected = row_text("level9", 0, &elems);
    assert_eq!(format!("{}\n", first_line), expected);
    assert_eq!(text.lines().count(), LEVEL_HEIGHT);
}

#[test]
fn as3_decode_ignores_unrelated_lines() {
    let mut doc = String::from("// a level file\nvar something = 3;\n\n");
    doc.push_str(&empty_rows_from(0));
    doc.push_str("trailing text that is not a statement\n");
    let cells = decode_as3(&doc).expect("grid with unrelated lines around it");
    assert_eq!(cells.len(), LEVEL_SIZE);
    assert!(cells.iter().all(|b| *b == Block::Empty));
}

#[test]
fn as3_decode_accepts_extra_whitespace() {
    let mut elems = vec!["00"; LEVEL_WIDTH];
    elems[0] = "B0";
    let mut doc = format!("lvlArray[x][ 0 ]  =  [ {} ];\n", elems.join(" , "));
    doc.push_str(&empty_rows_from(1));
    let cells = decode_as3(&doc).expect("whitespace-tolerant row");
    assert_eq!(cells[0], Block::Block);
}

#[test]
fn as3_decode_rejects_out_of_order_rows() {
    let elems = vec!["00"; LEVEL_WIDTH];
    let mut doc = String::new();
    for row in [0usize, 2, 1].iter() {
        doc.push_str(&row_text("x", *row, &elems));
    }
    for row in 3..LEVEL_HEIGHT {
        doc.push_str(&row_text("x", row, &elems));
    }
    assert_eq!(decode_as3(&doc), Err(As3Error::InvalidLeftExpression));
}

#[test]
fn as3_decode_rejects_a_short_row() {
    let elems = vec!["00"; LEVEL_WIDTH - 1];
    let doc = row_text("x", 0, &elems);
    assert_eq!(decode_as3(&doc), Err(As3Error::InvalidLevelSize));
}

#[test]
fn as3_decode_rejects_a_long_row() {
    let elems = vec!["00"; LEVEL_WIDTH + 1];
    let doc = row_text("x", 0, &elems);
    assert_eq!(decode_as3(&doc), Err(As3Error::InvalidLevelSize));
}

#[test]
fn as3_decode_rejects_a_missing_row() {
    let doc = empty_rows_from(1);
    assert_eq!(decode_as3(&doc), Err(As3Error::InvalidLeftExpression));
}

#[test]
fn as3_decode_rejects_a_truncated_document() {
    let elems = vec!["00"; LEVEL_WIDTH];
    let mut doc = String::new();
    for row in 0..LEVEL_HEIGHT - 1 {
        doc.push_str(&row_text("x", row, &elems));
    }
    assert_eq!(decode_as3(&doc), Err(As3Error::InvalidLevelSize));
}

#[test]
fn as3_decode_names_an_unknown_opcode() {
    let mut elems = vec!["00"; LEVEL_WIDTH];
    elems[5] = "QQ";
    let doc = row_text("x", 0, &elems);
    assert_eq!(decode_as3(&doc), Err(As3Error::InvalidLBL(String::from("QQ"))));
}

#[test]
fn as3_decode_rejects_a_malformed_left_side() {
    let doc = "lvlArray = [00];\n";
    assert_eq!(decode_as3(doc), Err(As3Error::InvalidLeftExpression));
    let doc2 = "lvlArray[x] = [00];\n";
    assert_eq!(decode_as3(doc2), Err(As3Error::InvalidLeftExpression));
    let doc3 = "lvlArray[x][zero] = [00];\n";
    assert_eq!(decode_as3(doc3), Err(As3Error::InvalidLeftExpression));
}

#[test]
fn as3_decode_rejects_a_right_side_that_is_no_array() {
    let doc = "lvlArray[x][0] = 5;\n";
    assert_eq!(decode_as3(doc), Err(As3Error::InvalidExpressionType));
    let doc2 = "lvlArray[x][0];\n";
    assert_eq!(decode_as3(doc2), Err(As3Error::InvalidExpressionType));
}

#[test]
fn as3_decode_rejects_trailing_content_after_the_statement() {
    let elems = vec!["00"; LEVEL_WIDTH];
    let line = row_text("x", 0, &elems);
    let doc = line.replace("];", "] extra;");
    assert_eq!(decode_as3(&doc), Err(As3Error::InvalidExpressionType));
}

#[test]
fn as3_decode_rejects_a_bad_element_shape() {
    let doc = "lvlArray[x][0] = [\"Note:unterminated;\n";
    assert_eq!(decode_as3(doc), Err(As3Error::UnknownLevelSpecifier));
    let doc2 = "lvlArray[x][0] = [, 00];\n";
    assert_eq!(decode_as3(doc2), Err(As3Error::UnknownLevelSpecifier));
}

#[test]
fn as3_decode_reads_quoted_and_numeric_tokens() {
    let mut elems = vec!["00"; LEVEL_WIDTH];
    elems[0] = "\"B0\"";
    elems[1] = "\"Note:quoted, note\"";
    let mut doc = row_text("lvl", 0, &elems);
    doc.push_str(&empty_rows_from(1));
    let cells = decode_as3(&doc).expect("quoted tokens");
    assert_eq!(cells[0], Block::Block);
    assert_eq!(cells[1], Block::Note { text: String::from("quoted, note") });
}

#[test]
fn as3_marker_cells_travel_through_the_format() {
    let mut cells = vec![Block::Empty; LEVEL_SIZE];
    cells[0] = Block::Dark;
    cells[1] = Block::Background { background_type: BackgroundType::Concrete };
    let text = encode_as3("x", &cells);
    assert_eq!(decode_as3(&text), Ok(cells));
}

#[test]
fn decode_any_reads_the_script_format() {
    let doc = empty_rows_from(0);
    let cells = decode_any(&doc).expect("detected and decoded");
    assert_eq!(cells.len(), LEVEL_SIZE);
}

#[test]
fn decode_any_round_trips_both_formats() {
    let mut cells = vec![Block::Empty; LEVEL_SIZE];
    cells[17] = Block::Switch;
    cells[200] = Block::Note { text: String::from("both ways") };
    assert_eq!(decode_any(&sks::encode_lbl(&cells)), Some(cells.clone()));
    assert_eq!(decode_any(&encode_as3("7", &cells)), Some(cells));
}

#[test]
fn as3_element_errors_come_before_row_size_errors() {
    // A row that is both too long and holds a bad opcode: the scan
    // reports the bad element it reaches first.
    let mut elems = vec!["00"; LEVEL_WIDTH + 1];
    elems[2] = "ZZ";
    let doc = row_text("x", 0, &elems);
    assert_eq!(decode_as3(&doc), Err(As3Error::InvalidLBL(String::from("ZZ"))));
}
