//! The cell model: every entity that can occupy one grid slot, together
//! with the bidirectional mapping between cells and their textual
//! opcodes. Every opcode is two characters, except notes, whose opcode
//! is the prefix `Note:` followed by the note text verbatim. Because no
//! escaping is applied, a note text that contains a line break cannot
//! survive the line-oriented format; that limitation is inherited from
//! the file formats themselves.

use vstd::prelude::*;
use vstd::string::StrSliceExecFns;
use vstd::string::StringExecFns;

verus! {

/// The directions something could face.
#[derive(Debug, Clone, Copy, PartialEq, Eq, Hash, Structural)]
pub enum Direction {
    Up,
    Down,
    Left,
    Right,
}

/// The background textures a level can select.
#[derive(Debug, Clone, Copy, PartialEq, Eq, Hash, Structural)]
pub enum BackgroundType {
    Cobble,
    Waterfall,
    Skullfall,
    Concrete,
    Reserved1,
    Reserved2,
    Reserved3,
}

/// An entity that occupies a space in the line-format representation.
/// Also the internal representation of a block in this library.
///
/// `Dark` and `Background` are marker cells: they stand for level-wide
/// flags and are folded out of the grid on import and back into spare
/// `Empty` slots on export.
#[derive(Debug, PartialEq, Eq, Hash)]
pub enum Block {
    Background { background_type: BackgroundType },
    Block,
    Dark,
    Empty,
    Exit,
    Key,
    Lock,
    Note { text: String },
    Scaffold,
    SecretExit,
    Switch,
    SwitchCeiling,
    OneWayWall { direction: Direction },
    PipeIn,
    PipeOut,
    PipePhase,
    PipeSolid,
    Player,
    PowerUpBurrow,
    PowerUpRecall,
    ToggleBlock { solid: bool },
    Torch,
    Wire,
}

/// The mathematical value of a [`Block`]: identical to it except that
/// the note text is a sequence of characters. Contracts and lemmas
/// speak of this type.
pub enum BlockView {
    Background { background_type: BackgroundType },
    Block,
    Dark,
    Empty,
    Exit,
    Key,
    Lock,
    Note { text: Seq<char> },
    Scaffold,
    SecretExit,
    Switch,
    SwitchCeiling,
    OneWayWall { direction: Direction },
    PipeIn,
    PipeOut,
    PipePhase,
    PipeSolid,
    Player,
    PowerUpBurrow,
    PowerUpRecall,
    ToggleBlock { solid: bool },
    Torch,
    Wire,
}

impl View for Block {
    type V = BlockView;

    open spec fn view(&self) -> BlockView {
        match self {
            Block::Background { background_type } => BlockView::Background {
                background_type: *background_type,
            },
            Block::Block => BlockView::Block,
            Block::Dark => BlockView::Dark,
            Block::Empty => BlockView::Empty,
            Block::Exit => BlockView::Exit,
            Block::Key => BlockView::Key,
            Block::Lock => BlockView::Lock,
            Block::Note { text } => BlockView::Note { text: text@ },
            Block::Scaffold => BlockView::Scaffold,
            Block::SecretExit => BlockView::SecretExit,
            Block::Switch => BlockView::Switch,
            Block::SwitchCeiling => BlockView::SwitchCeiling,
            Block::OneWayWall { direction } => BlockView::OneWayWall { direction: *direction },
            Block::PipeIn => BlockView::PipeIn,
            Block::PipeOut => BlockView::PipeOut,
            Block::PipePhase => BlockView::PipePhase,
            Block::PipeSolid => BlockView::PipeSolid,
            Block::Player => BlockView::Player,
            Block::PowerUpBurrow => BlockView::PowerUpBurrow,
            Block::PowerUpRecall => BlockView::PowerUpRecall,
            Block::ToggleBlock { solid } => BlockView::ToggleBlock { solid: *solid },
            Block::Torch => BlockView::Torch,
            Block::Wire => BlockView::Wire,
        }
    }
}

impl DeepView for Block {
    type V = BlockView;

    open spec fn deep_view(&self) -> BlockView {
        self.view()
    }
}

impl Clone for Block {
    /// Clones the block; the clone has the same mathematical value.
    fn clone(&self) -> (res: Self)
        ensures
            res@ == self@,
    {
        match self {
            Block::Background { background_type } => Block::Background {
                background_type: *background_type,
            },
            Block::Block => Block::Block,
            Block::Dark => Block::Dark,
            Block::Empty => Block::Empty,
            Block::Exit => Block::Exit,
            Block::Key => Block::Key,
            Block::Lock => Block::Lock,
            Block::Note { text } => Block::Note { text: text.clone() },
            Block::Scaffold => Block::Scaffold,
            Block::SecretExit => Block::SecretExit,
            Block::Switch => Block::Switch,
            Block::SwitchCeiling => Block::SwitchCeiling,
            Block::OneWayWall { direction } => Block::OneWayWall { direction: *direction },
            Block::PipeIn => Block::PipeIn,
            Block::PipeOut => Block::PipeOut,
            Block::PipePhase => Block::PipePhase,
            Block::PipeSolid => Block::PipeSolid,
            Block::Player => Block::Player,
            Block::PowerUpBurrow => Block::PowerUpBurrow,
            Block::PowerUpRecall => Block::PowerUpRecall,
            Block::ToggleBlock { solid } => Block::ToggleBlock { solid: *solid },
            Block::Torch => Block::Torch,
            Block::Wire => Block::Wire,
        }
    }
}

impl Default for Block {
    /// The default block is the empty cell.
    fn default() -> (res: Self)
        ensures
            res@ == BlockView::Empty,
    {
        Block::Empty
    }
}

/// The two-character opcode table. Maps a pair of characters to the
/// block it denotes, or to nothing when the pair is not an opcode.
pub open spec fn spec_opcode(c0: char, c1: char) -> Option<BlockView> {
    if c0 == '0' && c1 == '0' {
        Some(BlockView::Empty)
    } else if c0 == 'A' && c1 == '0' {
        Some(BlockView::Dark)
    } else if c0 == 'B' && c1 == '0' {
        Some(BlockView::Block)
    } else if c0 == 'B' && c1 == 'K' {
        Some(BlockView::Lock)
    } else if c0 == 'C' && c1 == 'I' {
        Some(BlockView::PipeIn)
    } else if c0 == 'C' && c1 == 'O' {
        Some(BlockView::PipeOut)
    } else if c0 == 'C' && c1 == 'P' {
        Some(BlockView::PipePhase)
    } else if c0 == 'C' && c1 == 'S' {
        Some(BlockView::PipeSolid)
    } else if c0 == 'D' && c1 == '0' {
        Some(BlockView::Scaffold)
    } else if c0 == 'D' && c1 == '1' {
        Some(BlockView::Torch)
    } else if c0 == 'E' && c1 == '0' {
        Some(BlockView::Exit)
    } else if c0 == 'E' && c1 == '1' {
        Some(BlockView::SecretExit)
    } else if c0 == 'I' && c1 == 'K' {
        Some(BlockView::Key)
    } else if c0 == 'M' && c1 == '0' {
        Some(BlockView::Background { background_type: BackgroundType::Cobble })
    } else if c0 == 'M' && c1 == '1' {
        Some(BlockView::Background { background_type: BackgroundType::Waterfall })
    } else if c0 == 'M' && c1 == '2' {
        Some(BlockView::Background { background_type: BackgroundType::Skullfall })
    } else if c0 == 'M' && c1 == '3' {
        Some(BlockView::Background { background_type: BackgroundType::Concrete })
    } else if c0 == 'M' && c1 == '4' {
        Some(BlockView::Background { background_type: BackgroundType::Reserved1 })
    } else if c0 == 'M' && c1 == '5' {
        Some(BlockView::Background { background_type: BackgroundType::Reserved2 })
    } else if c0 == 'M' && c1 == '6' {
        Some(BlockView::Background { background_type: BackgroundType::Reserved3 })
    } else if c0 == 'O' && c1 == 'D' {
        Some(BlockView::OneWayWall { direction: Direction::Down })
    } else if c0 == 'O' && c1 == 'L' {
        Some(BlockView::OneWayWall { direction: Direction::Left })
    } else if c0 == 'O' && c1 == 'R' {
        Some(BlockView::OneWayWall { direction: Direction::Right })
    } else if c0 == 'O' && c1 == 'U' {
        Some(BlockView::OneWayWall { direction: Direction::Up })
    } else if c0 == 'P' && c1 == '0' {
        Some(BlockView::PowerUpBurrow)
    } else if c0 == 'P' && c1 == '1' {
        Some(BlockView::PowerUpRecall)
    } else if c0 == 'S' && c1 == '0' {
        Some(BlockView::Switch)
    } else if c0 == 'S' && c1 == '1' {
        Some(BlockView::SwitchCeiling)
    } else if c0 == 'T' && c1 == '0' {
        Some(BlockView::ToggleBlock { solid: true })
    } else if c0 == 'T' && c1 == '1' {
        Some(BlockView::ToggleBlock { solid: false })
    } else if c0 == 'X' && c1 == '0' {
        Some(BlockView::Player)
    } else if c0 == 'W' && c1 == 'R' {
        Some(BlockView::Wire)
    } else {
        None
    }
}

/// The note prefix `Note:` as a character sequence.
pub open spec fn spec_note_prefix() -> Seq<char> {
    seq!['N', 'o', 't', 'e', ':']
}

/// Whether `s` begins with the note prefix.
pub open spec fn spec_is_note(s: Seq<char>) -> bool {
    s.len() >= 5 && s.subrange(0, 5) == spec_note_prefix()
}

/// What decoding an opcode string yields: a two-character string is
/// looked up in the opcode table; a string beginning with `Note:` is a
/// note carrying the rest of the string; everything else is invalid.
pub open spec fn spec_from_lbl(s: Seq<char>) -> Option<BlockView> {
    if s.len() == 2 {
        spec_opcode(s[0], s[1])
    } else if spec_is_note(s) {
        Some(BlockView::Note { text: s.skip(5) })
    } else {
        None
    }
}

/// The opcode string a block encodes to: the inverse of the opcode
/// table, with `Note:` + text for notes.
pub open spec fn spec_as_lbl(b: BlockView) -> Seq<char> {
    match b {
        BlockView::Background { background_type } => match background_type {
            BackgroundType::Cobble => seq!['M', '0'],
            BackgroundType::Waterfall => seq!['M', '1'],
            BackgroundType::Skullfall => seq!['M', '2'],
            BackgroundType::Concrete => seq!['M', '3'],
            BackgroundType::Reserved1 => seq!['M', '4'],
            BackgroundType::Reserved2 => seq!['M', '5'],
            BackgroundType::Reserved3 => seq!['M', '6'],
        },
        BlockView::Block => seq!['B', '0'],
        BlockView::Dark => seq!['A', '0'],
        BlockView::Empty => seq!['0', '0'],
        BlockView::Exit => seq!['E', '0'],
        BlockView::Key => seq!['I', 'K'],
        BlockView::Lock => seq!['B', 'K'],
        BlockView::Note { text } => spec_note_prefix() + text,
        BlockView::OneWayWall { direction } => match direction {
            Direction::Down => seq!['O', 'D'],
            Direction::Up => seq!['O', 'U'],
            Direction::Left => seq!['O', 'L'],
            Direction::Right => seq!['O', 'R'],
        },
        BlockView::PipeIn => seq!['C', 'I'],
        BlockView::PipeOut => seq!['C', 'O'],
        BlockView::PipePhase => seq!['C', 'P'],
        BlockView::PipeSolid => seq!['C', 'S'],
        BlockView::Player => seq!['X', '0'],
        BlockView::PowerUpBurrow => seq!['P', '0'],
        BlockView::PowerUpRecall => seq!['P', '1'],
        BlockView::SecretExit => seq!['E', '1'],
        BlockView::Scaffold => seq!['D', '0'],
        BlockView::Switch => seq!['S', '0'],
        BlockView::SwitchCeiling => seq!['S', '1'],
        BlockView::ToggleBlock { solid } => if solid {
            seq!['T', '0']
        } else {
            seq!['T', '1']
        },
        BlockView::Torch => seq!['D', '1'],
        BlockView::Wire => seq!['W', 'R'],
    }
}

impl Block {
    /// Decodes an opcode string to a block, if valid.
    pub fn from_lbl(data: &str) -> (r: Option<Block>)
        ensures
            match r {
                Some(b) => spec_from_lbl(data@) == Some(b@),
                None => spec_from_lbl(data@) is None,
            },
    {
        let n = data.unicode_len();
        if n == 2 {
            let c0 = data.get_char(0);
            let c1 = data.get_char(1);
            match (c0, c1) {
                ('0', '0') => Some(Block::Empty),
                ('A', '0') => Some(Block::Dark),
                ('B', '0') => Some(Block::Block),
                ('B', 'K') => Some(Block::Lock),
                ('C', 'I') => Some(Block::PipeIn),
                ('C', 'O') => Some(Block::PipeOut),
                ('C', 'P') => Some(Block::PipePhase),
                ('C', 'S') => Some(Block::PipeSolid),
                ('D', '0') => Some(Block::Scaffold),
                ('D', '1') => Some(Block::Torch),
                ('E', '0') => Some(Block::Exit),
                ('E', '1') => Some(Block::SecretExit),
                ('I', 'K') => Some(Block::Key),
                ('M', '0') => Some(Block::Background { background_type: BackgroundType::Cobble }),
                ('M', '1') => Some(
                    Block::Background { background_type: BackgroundType::Waterfall },
                ),
                ('M', '2') => Some(
                    Block::Background { background_type: BackgroundType::Skullfall },
                ),
                ('M', '3') => Some(Block::Background { background_type: BackgroundType::Concrete }),
                ('M', '4') => Some(
                    Block::Background { background_type: BackgroundType::Reserved1 },
                ),
                ('M', '5') => Some(
                    Block::Background { background_type: BackgroundType::Reserved2 },
                ),
                ('M', '6') => Some(
                    Block::Background { background_type: BackgroundType::Reserved3 },
                ),
                ('O', 'D') => Some(Block::OneWayWall { direction: Direction::Down }),
                ('O', 'L') => Some(Block::OneWayWall { direction: Direction::Left }),
                ('O', 'R') => Some(Block::OneWayWall { direction: Direction::Right }),
                ('O', 'U') => Some(Block::OneWayWall { direction: Direction::Up }),
                ('P', '0') => Some(Block::PowerUpBurrow),
                ('P', '1') => Some(Block::PowerUpRecall),
                ('S', '0') => Some(Block::Switch),
                ('S', '1') => Some(Block::SwitchCeiling),
                ('T', '0') => Some(Block::ToggleBlock { solid: true }),
                ('T', '1') => Some(Block::ToggleBlock { solid: false }),
                ('X', '0') => Some(Block::Player),
                ('W', 'R') => Some(Block::Wire),
                _ => None,
            }
        } else if n >= 5 && data.get_char(0) == 'N' && data.get_char(1) == 'o' && data.get_char(2)
            == 't' && data.get_char(3) == 'e' && data.get_char(4) == ':' {
            let text = data.substring_char(5, n);
            proof {
                assert(data@.subrange(0, 5) =~= spec_note_prefix());
                assert(text@ =~= data@.skip(5));
            }
            Some(Block::Note { text: text.to_owned() })
        } else {
            proof {
                if spec_is_note(data@) {
                    assert(data@.subrange(0, 5)[0] == data@[0]);
                    assert(data@.subrange(0, 5)[1] == data@[1]);
                    assert(data@.subrange(0, 5)[2] == data@[2]);
                    assert(data@.subrange(0, 5)[3] == data@[3]);
                    assert(data@.subrange(0, 5)[4] == data@[4]);
                }
            }
            None
        }
    }

    /// Produces the opcode encoding of a given block.
    pub fn as_lbl(&self) -> (r: String)
        ensures
            r@ == spec_as_lbl(self@),
    {
        proof {
            reveal_strlit("M0");
            reveal_strlit("M1");
            reveal_strlit("M2");
            reveal_strlit("M3");
            reveal_strlit("M4");
            reveal_strlit("M5");
            reveal_strlit("M6");
            reveal_strlit("B0");
            reveal_strlit("A0");
            reveal_strlit("00");
            reveal_strlit("E0");
            reveal_strlit("E1");
            reveal_strlit("IK");
            reveal_strlit("BK");
            reveal_strlit("OD");
            reveal_strlit("OU");
            reveal_strlit("OL");
            reveal_strlit("OR");
            reveal_strlit("CI");
            reveal_strlit("CO");
            reveal_strlit("CP");
            reveal_strlit("CS");
            reveal_strlit("X0");
            reveal_strlit("P0");
            reveal_strlit("P1");
            reveal_strlit("D0");
            reveal_strlit("D1");
            reveal_strlit("S0");
            reveal_strlit("S1");
            reveal_strlit("T0");
            reveal_strlit("T1");
            reveal_strlit("WR");
            assert("M0"@ =~= seq!['M', '0']);
            assert("M1"@ =~= seq!['M', '1']);
            assert("M2"@ =~= seq!['M', '2']);
            assert("M3"@ =~= seq!['M', '3']);
            assert("M4"@ =~= seq!['M', '4']);
            assert("M5"@ =~= seq!['M', '5']);
            assert("M6"@ =~= seq!['M', '6']);
            assert("B0"@ =~= seq!['B', '0']);
            assert("A0"@ =~= seq!['A', '0']);
            assert("00"@ =~= seq!['0', '0']);
            assert("E0"@ =~= seq!['E', '0']);
            assert("E1"@ =~= seq!['E', '1']);
            assert("IK"@ =~= seq!['I', 'K']);
            assert("BK"@ =~= seq!['B', 'K']);
            assert("OD"@ =~= seq!['O', 'D']);
            assert("OU"@ =~= seq!['O', 'U']);
            assert("OL"@ =~= seq!['O', 'L']);
            assert("OR"@ =~= seq!['O', 'R']);
            assert("CI"@ =~= seq!['C', 'I']);
            assert("CO"@ =~= seq!['C', 'O']);
            assert("CP"@ =~= seq!['C', 'P']);
            assert("CS"@ =~= seq!['C', 'S']);
            assert("X0"@ =~= seq!['X', '0']);
            assert("P0"@ =~= seq!['P', '0']);
            assert("P1"@ =~= seq!['P', '1']);
            assert("D0"@ =~= seq!['D', '0']);
            assert("D1"@ =~= seq!['D', '1']);
            assert("S0"@ =~= seq!['S', '0']);
            assert("S1"@ =~= seq!['S', '1']);
            assert("T0"@ =~= seq!['T', '0']);
            assert("T1"@ =~= seq!['T', '1']);
            assert("WR"@ =~= seq!['W', 'R']);
        }
        match self {
            Block::Background { background_type: BackgroundType::Cobble } => lit2("M0", 'M', '0'),
            Block::Background { background_type: BackgroundType::Waterfall } => lit2(
                "M1",
                'M',
                '1',
            ),
            Block::Background { background_type: BackgroundType::Skullfall } => lit2(
                "M2",
                'M',
                '2',
            ),
            Block::Background { background_type: BackgroundType::Concrete } => lit2("M3", 'M', '3'),
            Block::Background { background_type: BackgroundType::Reserved1 } => lit2(
                "M4",
                'M',
                '4',
            ),
            Block::Background { background_type: BackgroundType::Reserved2 } => lit2(
                "M5",
                'M',
                '5',
            ),
            Block::Background { background_type: BackgroundType::Reserved3 } => lit2(
                "M6",
                'M',
                '6',
            ),
            Block::Block => lit2("B0", 'B', '0'),
            Block::Dark => lit2("A0", 'A', '0'),
            Block::Empty => lit2("00", '0', '0'),
            Block::Exit => lit2("E0", 'E', '0'),
            Block::Key => lit2("IK", 'I', 'K'),
            Block::Lock => lit2("BK", 'B', 'K'),
            Block::Note { text } => {
                proof {
                    reveal_strlit("Note:");
                    assert("Note:"@ =~= spec_note_prefix());
                }
                let mut out = String::from_str("Note:");
                out.append(text.as_str());
                out
            },
            Block::OneWayWall { direction: Direction::Down } => lit2("OD", 'O', 'D'),
            Block::OneWayWall { direction: Direction::Up } => lit2("OU", 'O', 'U'),
            Block::OneWayWall { direction: Direction::Left } => lit2("OL", 'O', 'L'),
            Block::OneWayWall { direction: Direction::Right } => lit2("OR", 'O', 'R'),
            Block::PipeIn => lit2("CI", 'C', 'I'),
            Block::PipeOut => lit2("CO", 'C', 'O'),
            Block::PipePhase => lit2("CP", 'C', 'P'),
            Block::PipeSolid => lit2("CS", 'C', 'S'),
            Block::Player => lit2("X0", 'X', '0'),
            Block::PowerUpBurrow => lit2("P0", 'P', '0'),
            Block::PowerUpRecall => lit2("P1", 'P', '1'),
            Block::SecretExit => lit2("E1", 'E', '1'),
            Block::Scaffold => lit2("D0", 'D', '0'),
            Block::Switch => lit2("S0", 'S', '0'),
            Block::SwitchCeiling => lit2("S1", 'S', '1'),
            Block::ToggleBlock { solid: true } => lit2("T0", 'T', '0'),
            Block::ToggleBlock { solid: false } => lit2("T1", 'T', '1'),
            Block::Torch => lit2("D1", 'D', '1'),
            Block::Wire => lit2("WR", 'W', 'R'),
        }
    }
}

/// Turns a two-character string literal into an owned string whose
/// view is the sequence of the two given characters; the caller passes
/// the literal's characters so that the contract can name them.
fn lit2(s: &str, c0: char, c1: char) -> (r: String)
    requires
        s@ == seq![c0, c1],
    ensures
        r@ == seq![c0, c1],
{
    String::from_str(s)
}

/// Whether the block is a one-way wall, i.e. carries a facing
/// direction.
pub fn is_directional(block: &Block) -> (r: bool)
    ensures
        r == (block@ is OneWayWall),
{
    matches!(block, Block::OneWayWall { .. })
}

/// The given block with any note text removed: notes become empty
/// notes, every other block is returned unchanged.
pub fn strip_block(block: &Block) -> (r: Block)
    ensures
        r@ == (if block@ is Note {
            BlockView::Note { text: Seq::empty() }
        } else {
            block@
        }),
{
    match block {
        Block::Note { .. } => Block::Note { text: String::new() },
        b => b.clone(),
    }
}

/// Every opcode string is non-empty and opens with a character that
/// is not whitespace.
pub proof fn lemma_as_lbl_head(b: BlockView)
    ensures
        spec_as_lbl(b).len() > 0,
        !crate::text::spec_is_ws(spec_as_lbl(b)[0]),
{
    match b {
        BlockView::Note { text } => {
            assert(spec_as_lbl(b)[0] == 'N');
        },
        _ => {
        },
    }
}

/// Every opcode string decodes to a block that encodes back to the
/// same string: the opcode table is injective.
pub proof fn lemma_from_lbl_then_as_lbl(s: Seq<char>)
    requires
        spec_from_lbl(s) is Some,
    ensures
        spec_as_lbl(spec_from_lbl(s).unwrap()) == s,
{
    if s.len() == 2 {
        assert(spec_as_lbl(spec_from_lbl(s).unwrap()) =~= s);
    } else {
        assert(spec_as_lbl(spec_from_lbl(s).unwrap()) =~= s);
    }
}

/// Every block encodes to a string that decodes back to the same
/// block: the opcode table is total and collision-free, and note text
/// survives verbatim.
pub proof fn lemma_as_lbl_then_from_lbl(b: BlockView)
    ensures
        spec_from_lbl(spec_as_lbl(b)) == Some(b),
{
    let s = spec_as_lbl(b);
    match b {
        BlockView::Note { text } => {
            assert(s.len() >= 5);
            assert(s.subrange(0, 5) =~= spec_note_prefix());
            assert(s.skip(5) =~= text);
        },
        _ => {
            assert(s.len() == 2);
        },
    }
}

} // verus!
