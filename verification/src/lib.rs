//! Codec for fixed-size puzzle-game level grids.
//!
//! A level is a row-major grid of [`Block`] cells, `LEVEL_WIDTH` by
//! `LEVEL_HEIGHT`. Two textual formats carry such a grid: the line
//! format, one opcode per line, and the embedded-script format, which
//! stores each row as an array-literal assignment to a doubly-indexed
//! `lvlArray` identifier. The [`Level`] aggregate folds the two
//! level-wide flags (darkness, background texture) into and out of the
//! grid as marker cells.

pub mod as3;
pub mod block;
pub mod level;
pub mod text;

use vstd::prelude::*;

pub use crate::as3::As3Error;
pub use crate::as3::As3Result;
pub use crate::as3::decode_as3;
pub use crate::as3::encode_as3;
pub use crate::block::BackgroundType;
pub use crate::block::Block;
pub use crate::block::BlockView;
pub use crate::block::Direction;
pub use crate::block::is_directional;
pub use crate::block::strip_block;
pub use crate::level::Level;

use crate::block::BlockView as Bv;
use crate::block::spec_as_lbl;
use crate::block::spec_from_lbl;
use crate::text::spec_lines;
use crate::text::spec_trim;
use crate::text::spec_trim_start;
use vstd::string::StringExecFns;

verus! {

/// Number of cells in one grid row.
pub const LEVEL_WIDTH: usize = 32;

/// Number of rows in a grid.
pub const LEVEL_HEIGHT: usize = 18;

/// Number of cells in a whole grid.
pub const LEVEL_SIZE: usize = 576;

/// Decoding a sequence of lines cell by cell: every line must be a
/// valid opcode, and the cells appear in line order.
pub open spec fn spec_decode_lines(ls: Seq<Seq<char>>) -> Option<Seq<BlockView>>
    decreases ls.len(),
{
    if ls.len() == 0 {
        Some(Seq::empty())
    } else {
        match spec_from_lbl(ls[0]) {
            Some(b) => match spec_decode_lines(ls.skip(1)) {
                Some(bs) => Some(seq![b] + bs),
                None => None,
            },
            None => None,
        }
    }
}

/// What decoding a line-format document yields: the document must hold
/// exactly one line per grid cell, each a valid opcode; otherwise the
/// whole decode fails.
pub open spec fn spec_decode_lbl(s: Seq<char>) -> Option<Seq<BlockView>> {
    let ls = spec_lines(s);
    if ls.len() != LEVEL_SIZE {
        None
    } else {
        spec_decode_lines(ls)
    }
}

/// The line-format encoding of a cell sequence: each cell's opcode on
/// a line of its own, newline-terminated, in grid order.
pub open spec fn spec_encode_lbl(cells: Seq<BlockView>) -> Seq<char>
    decreases cells.len(),
{
    if cells.len() == 0 {
        Seq::empty()
    } else {
        spec_as_lbl(cells[0]) + seq!['\n'] + spec_encode_lbl(cells.skip(1))
    }
}

/// Decodes a line-format document into its cells. Fails (yielding
/// nothing) when the line count is not exactly the grid size or any
/// line is not a valid opcode.
pub fn decode_lbl(data: &str) -> (r: Option<Vec<Block>>)
    ensures
        r.deep_view() == spec_decode_lbl(data@),
{
    let ls = crate::text::split_lines(data);
    let ghost ls0 = ls.deep_view();
    if ls.len() != LEVEL_SIZE {
        return None;
    }
    let mut out: Vec<Block> = Vec::new();
    let mut i: usize = 0;
    proof {
        assert(ls0.skip(0) =~= ls0);
        if spec_decode_lines(ls0) is Some {
            assert(out.deep_view() + spec_decode_lines(ls0).unwrap() =~= spec_decode_lines(
                ls0,
            ).unwrap());
        }
    }
    while i < ls.len()
        invariant
            i <= ls.len(),
            ls.deep_view() == ls0,
            ls0 == spec_lines(data@),
            ls0.len() == LEVEL_SIZE,
            spec_decode_lines(ls0) == (match spec_decode_lines(ls0.skip(i as int)) {
                Some(bs) => Some(out.deep_view() + bs),
                None => None::<Seq<BlockView>>,
            }),
        decreases ls.len() - i,
    {
        let ghost rest = ls0.skip(i as int);
        proof {
            assert(rest[0] == ls0[i as int]);
            assert(ls0[i as int] == ls@[i as int].deep_view());
            assert(rest.skip(1) =~= ls0.skip(i as int + 1));
        }
        match Block::from_lbl(ls[i].as_str()) {
            Some(b) => {
                let ghost dv0 = out.deep_view();
                out.push(b);
                proof {
                    assert(out.deep_view() =~= dv0 + seq![b@]);
                    if spec_decode_lines(ls0.skip(i as int + 1)) is Some {
                        let bs = spec_decode_lines(ls0.skip(i as int + 1)).unwrap();
                        assert((dv0 + seq![b@]) + bs =~= dv0 + (seq![b@] + bs));
                    }
                }
            },
            None => {
                return None;
            },
        }
        i += 1;
    }
    proof {
        assert(ls0.skip(i as int).len() == 0);
        assert(out.deep_view() + Seq::<Bv>::empty() =~= out.deep_view());
    }
    Some(out)
}

/// Encodes a cell sequence in the line format: one opcode per line, in
/// order, each line newline-terminated.
pub fn encode_lbl(data: &[Block]) -> (r: String)
    ensures
        r@ == spec_encode_lbl(data.deep_view()),
{
    let ghost cells = data.deep_view();
    let mut out = String::new();
    let mut i: usize = 0;
    proof {
        assert(cells.skip(0) =~= cells);
        assert(out@ + spec_encode_lbl(cells) =~= spec_encode_lbl(cells));
    }
    while i < data.len()
        invariant
            i <= data@.len(),
            cells == data.deep_view(),
            spec_encode_lbl(cells) == out@ + spec_encode_lbl(cells.skip(i as int)),
        decreases data@.len() - i,
    {
        let tok = data[i].as_lbl();
        let ghost out0 = out@;
        out.append(tok.as_str());
        out.append("\n");
        proof {
            reveal_strlit("\n");
            assert("\n"@ =~= seq!['\n']);
            assert(cells[i as int] == data@[i as int]@);
            assert(cells.skip(i as int)[0] == cells[i as int]);
            assert(cells.skip(i as int).skip(1) =~= cells.skip(i as int + 1));
            assert(out@ =~= out0 + spec_as_lbl(cells[i as int]) + seq!['\n']);
            assert(out@ + spec_encode_lbl(cells.skip(i as int + 1)) =~= out0 + (spec_as_lbl(
                cells[i as int],
            ) + seq!['\n'] + spec_encode_lbl(cells.skip(i as int + 1))));
        }
        i += 1;
    }
    proof {
        assert(cells.skip(i as int).len() == 0);
        assert(out@ + Seq::<char>::empty() =~= out@);
    }
    out
}

/// The textual formats a level can be stored in.
#[derive(Debug, Clone, Copy, PartialEq, Eq, Structural)]
pub enum FileFormat {
    LBL,
    AS3,
}

/// The fixed identifier that anchors every row statement of the
/// embedded-script format.
pub open spec fn spec_lvl_array_ident() -> Seq<char> {
    seq!['l', 'v', 'l', 'A', 'r', 'r', 'a', 'y']
}

/// What format detection yields: after trimming surrounding
/// whitespace, a first line that is by itself a valid opcode means the
/// line format; otherwise a first line starting with the script
/// identifier means the script format; otherwise no format is
/// recognised.
pub open spec fn spec_guess_format(s: Seq<char>) -> Option<FileFormat> {
    let ls = spec_lines(spec_trim(s));
    if ls.len() == 0 {
        None
    } else if spec_from_lbl(ls[0]) is Some {
        Some(FileFormat::LBL)
    } else if crate::text::spec_starts_with(ls[0], spec_lvl_array_ident()) {
        Some(FileFormat::AS3)
    } else {
        None
    }
}

/// Guesses the format of a level document from its first non-blank
/// line, without decoding it.
pub fn guess_format(data: &str) -> (r: Option<FileFormat>)
    ensures
        r == spec_guess_format(data@),
{
    let t = crate::text::trim(data);
    let ls = crate::text::split_lines(t);
    if ls.len() == 0 {
        return None;
    }
    proof {
        assert(ls.deep_view()[0] == ls@[0]@);
    }
    if Block::from_lbl(ls[0].as_str()).is_some() {
        return Some(FileFormat::LBL);
    }
    proof {
        reveal_strlit("lvlArray");
        assert("lvlArray"@ =~= spec_lvl_array_ident());
    }
    if crate::text::starts_with(ls[0].as_str(), "lvlArray") {
        return Some(FileFormat::AS3);
    }
    None
}

/// Whether a cell survives the line format unharmed: a note must not
/// contain a line feed (the format cannot escape one) and must not end
/// in a carriage return (line splitting would strip it); every other
/// cell is unconditionally safe.
pub open spec fn spec_lbl_line_safe(b: BlockView) -> bool {
    match b {
        BlockView::Note { text } => (forall|j: int| 0 <= j < text.len() ==> text[j] != '\n')
            && (text.len() > 0 ==> text.last() != '\r'),
        _ => true,
    }
}

/// The opcode line of a safe cell is non-empty, free of line feeds,
/// and does not end in a carriage return.
pub proof fn lemma_as_lbl_line_safe(b: BlockView)
    requires
        spec_lbl_line_safe(b),
    ensures
        spec_as_lbl(b).len() > 0,
        forall|j: int| 0 <= j < spec_as_lbl(b).len() ==> #[trigger] spec_as_lbl(b)[j] != '\n',
        spec_as_lbl(b).last() != '\r',
{
    let l = spec_as_lbl(b);
    match b {
        BlockView::Note { text } => {
            assert forall|j: int| 0 <= j < l.len() implies #[trigger] l[j] != '\n' by {
                if j >= 5 {
                    assert(l[j] == text[j - 5]);
                }
            }
            if text.len() > 0 {
                assert(l.last() == text.last());
            }
        },
        _ => {
            assert(l.len() == 2);
            assert forall|j: int| 0 <= j < l.len() implies #[trigger] l[j] != '\n' by {
                assert(j == 0 || j == 1);
            }
        },
    }
}

/// Encoding a sequence of safe cells in the line format and splitting
/// the result back into lines yields one decodable line per cell.
proof fn lemma_lbl_encode_parses(cells: Seq<BlockView>)
    requires
        forall|i: int| 0 <= i < cells.len() ==> spec_lbl_line_safe(#[trigger] cells[i]),
    ensures
        spec_lines(spec_encode_lbl(cells)).len() == cells.len(),
        spec_decode_lines(spec_lines(spec_encode_lbl(cells))) == Some(cells),
    decreases cells.len(),
{
    if cells.len() == 0 {
        assert(spec_lines(spec_encode_lbl(cells)) =~= Seq::<Seq<char>>::empty());
        assert(cells =~= Seq::<Bv>::empty());
    } else {
        let b = cells[0];
        let l = spec_as_lbl(b);
        let rest = spec_encode_lbl(cells.skip(1));
        lemma_as_lbl_line_safe(b);
        crate::text::lemma_lines_prepend(l, rest);
        assert(forall|i: int| 0 <= i < cells.skip(1).len() ==> spec_lbl_line_safe(
            #[trigger] cells.skip(1)[i],
        ));
        lemma_lbl_encode_parses(cells.skip(1));
        crate::block::lemma_as_lbl_then_from_lbl(b);
        let ls = seq![l] + spec_lines(rest);
        assert(ls[0] == l);
        assert(ls.skip(1) =~= spec_lines(rest));
        assert(seq![b] + cells.skip(1) =~= cells);
    }
}

/// Round trip through the line format: any full grid of safe cells,
/// encoded and decoded again, comes back unchanged.
pub proof fn lemma_lbl_round_trip(cells: Seq<BlockView>)
    requires
        cells.len() == LEVEL_SIZE,
        forall|i: int| 0 <= i < cells.len() ==> spec_lbl_line_safe(#[trigger] cells[i]),
    ensures
        spec_decode_lbl(spec_encode_lbl(cells)) == Some(cells),
{
    lemma_lbl_encode_parses(cells);
}

/// What decoding under format detection yields: the decoder the
/// detected format selects, or nothing when no format is recognised;
/// a script-format failure is folded into absence.
pub open spec fn spec_decode_any(s: Seq<char>) -> Option<Seq<BlockView>> {
    match spec_guess_format(s) {
        None => None,
        Some(FileFormat::LBL) => spec_decode_lbl(s),
        Some(FileFormat::AS3) => match crate::as3::spec_decode_as3(s) {
            Ok(cells) => Some(cells),
            Err(_) => None,
        },
    }
}

/// A line-format encoding of at least two safe cells is detected as
/// the line format: after trimming, its first line is the first
/// cell's opcode, which is valid by construction.
proof fn lemma_guess_encode_lbl(cells: Seq<BlockView>)
    requires
        cells.len() >= 2,
        spec_lbl_line_safe(cells[0]),
    ensures
        spec_guess_format(spec_encode_lbl(cells)) == Some(FileFormat::LBL),
{
    let line0 = spec_as_lbl(cells[0]);
    let rest = spec_encode_lbl(cells.skip(1));
    let s = spec_encode_lbl(cells);
    assert(s == line0 + seq!['\n'] + rest);
    crate::block::lemma_as_lbl_head(cells[0]);
    lemma_as_lbl_line_safe(cells[0]);
    assert(s[0] == line0[0]);
    crate::text::lemma_ws_prefix_unique(s, 0);
    assert(cells.skip(1).len() >= 1);
    crate::block::lemma_as_lbl_head(cells.skip(1)[0]);
    assert(rest == spec_as_lbl(cells.skip(1)[0]) + seq!['\n'] + spec_encode_lbl(
        cells.skip(1).skip(1),
    ));
    assert(rest[0] == spec_as_lbl(cells.skip(1)[0])[0]);
    let p = line0.len() + 1;
    assert(s[p as int] == rest[0]);
    assert(!crate::text::spec_is_ws(s[p as int]));
    crate::text::lemma_ws_suffix(s);
    let suf = crate::text::spec_ws_suffix_len(s);
    let q = s.len() - suf;
    if q <= p {
        assert(crate::text::spec_is_ws(s[p as int]));
    }
    assert(q > p);
    assert(spec_trim_start(s) == s.skip(0));
    assert(s.skip(0) =~= s);
    assert(spec_trim(s) == s.take(q as int));
    assert(s.take(q as int) =~= line0 + seq!['\n'] + rest.take(q - p));
    crate::text::lemma_lines_prepend(line0, rest.take(q - p));
    let ls = spec_lines(spec_trim(s));
    assert(ls == seq![line0] + spec_lines(rest.take(q - p)));
    assert(ls[0] == line0);
    crate::block::lemma_as_lbl_then_from_lbl(cells[0]);
}

/// Round trip through the line format under format detection: any
/// full grid of safe cells, encoded, is detected as the line format
/// and decodes back unchanged.
pub proof fn lemma_decode_any_lbl_round_trip(cells: Seq<BlockView>)
    requires
        cells.len() == LEVEL_SIZE,
        forall|i: int| 0 <= i < cells.len() ==> spec_lbl_line_safe(#[trigger] cells[i]),
    ensures
        spec_decode_any(spec_encode_lbl(cells)) == Some(cells),
{
    lemma_guess_encode_lbl(cells);
    lemma_lbl_round_trip(cells);
}

/// Detects the format of a level document and decodes it with the
/// detected format's decoder.
pub fn decode_any(data: &str) -> (r: Option<Vec<Block>>)
    ensures
        r.deep_view() == spec_decode_any(data@),
{
    match guess_format(data) {
        None => None,
        Some(FileFormat::LBL) => decode_lbl(data),
        Some(FileFormat::AS3) => match crate::as3::decode_as3(data) {
            Ok(cells) => Some(cells),
            Err(_) => None,
        },
    }
}

} // verus!
