//! The level aggregate: a full grid of cells plus the two level-wide
//! flags, darkness and background texture. The flags never sit in the
//! grid itself; they are folded out of an imported cell sequence
//! (markers become `Empty`) and folded back in on export (markers are
//! substituted for spare `Empty` cells, in scan order). That packing is
//! a file-compatibility requirement of the textual formats, so its
//! exact scan order is part of the contract.

use crate::LEVEL_SIZE;
use crate::block::BackgroundType;
use crate::block::Block;
use crate::block::BlockView;
use vstd::prelude::*;

verus! {

/// The mathematical value of a [`Level`]: the grid as a sequence of
/// cell values, and the two flags.
pub struct LevelView {
    pub grid: Seq<BlockView>,
    pub is_dark: bool,
    pub background: BackgroundType,
}

/// A game level.
#[derive(Debug, PartialEq, Eq, Hash)]
pub struct Level {
    level_data: Vec<Block>,
    is_dark: bool,
    background: BackgroundType,
}

impl View for Level {
    type V = LevelView;

    closed spec fn view(&self) -> LevelView {
        LevelView {
            grid: self.level_data.deep_view(),
            is_dark: self.is_dark,
            background: self.background,
        }
    }
}

/// A marker cell replaced by `Empty`; every other cell unchanged.
pub open spec fn spec_strip_cell(b: BlockView) -> BlockView {
    if b is Dark || b is Background {
        BlockView::Empty
    } else {
        b
    }
}

/// The grid that importing a cell sequence produces: markers erased,
/// everything else copied in place.
pub open spec fn spec_unpack_grid(cells: Seq<BlockView>) -> Seq<BlockView> {
    Seq::new(cells.len(), |i: int| spec_strip_cell(cells[i]))
}

/// Whether a cell sequence contains a darkness marker anywhere.
pub open spec fn spec_any_dark(cells: Seq<BlockView>) -> bool {
    exists|i: int| 0 <= i < cells.len() && cells[i] is Dark
}

/// The background texture an imported cell sequence selects: that of
/// its last background marker, every earlier one being overwritten
/// (last seen wins), or the default when there is none.
pub open spec fn spec_unpack_background(cells: Seq<BlockView>) -> BackgroundType
    decreases cells.len(),
{
    if cells.len() == 0 {
        BackgroundType::Cobble
    } else {
        match cells.last() {
            BlockView::Background { background_type } => background_type,
            _ => spec_unpack_background(cells.drop_last()),
        }
    }
}

/// The markers waiting to be packed into the grid on export, as a
/// stack popped from the back: the darkness marker is pushed first and
/// the background marker second, so the background marker is placed
/// into the earliest spare slot.
pub open spec fn spec_pending(is_dark: bool, background: BackgroundType) -> Seq<BlockView> {
    let dark_part: Seq<BlockView> = if is_dark {
        seq![BlockView::Dark]
    } else {
        Seq::empty()
    };
    if background != BackgroundType::Cobble {
        dark_part + seq![BlockView::Background { background_type: background }]
    } else {
        dark_part
    }
}

/// Packing pending markers into a grid: walk the grid in order;
/// whenever the current cell is `Empty` and markers remain, substitute
/// the top marker for it. Yields the packed grid and the markers left
/// over.
pub open spec fn spec_pack(grid: Seq<BlockView>, pending: Seq<BlockView>) -> (Seq<BlockView>, Seq<
    BlockView,
>)
    decreases grid.len(),
{
    if grid.len() == 0 {
        (Seq::empty(), pending)
    } else {
        let step: (BlockView, Seq<BlockView>) = if grid[0] is Empty && pending.len() > 0 {
            (pending.last(), pending.drop_last())
        } else {
            (grid[0], pending)
        };
        let r = spec_pack(grid.skip(1), step.1);
        (seq![step.0] + r.0, r.1)
    }
}

impl Level {
    /// The grid always holds exactly one cell per slot.
    pub open spec fn wf(&self) -> bool {
        self@.grid.len() == LEVEL_SIZE
    }

    /// Creates a new, empty game level: every cell `Empty`, darkness
    /// off, default background.
    pub fn new() -> (r: Level)
        ensures
            r.wf(),
            forall|i: int| 0 <= i < r@.grid.len() ==> r@.grid[i] == BlockView::Empty,
            !r@.is_dark,
            r@.background == BackgroundType::Cobble,
    {
        let mut grid: Vec<Block> = Vec::new();
        let mut i: usize = 0;
        while i < LEVEL_SIZE
            invariant
                i <= LEVEL_SIZE,
                grid@.len() == i,
                forall|j: int| 0 <= j < i ==> grid.deep_view()[j] == BlockView::Empty,
            decreases LEVEL_SIZE - i,
        {
            let ghost dv0 = grid.deep_view();
            grid.push(Block::Empty);
            proof {
                assert(grid.deep_view() =~= dv0 + seq![BlockView::Empty]);
            }
            i += 1;
        }
        Level { level_data: grid, is_dark: false, background: BackgroundType::Cobble }
    }

    /// The raw grid. After an import it contains no marker cells; the
    /// flags live beside it.
    pub fn get_level_data(&self) -> (r: &[Block])
        ensures
            r.deep_view() == self@.grid,
    {
        let r = self.level_data.as_slice();
        proof {
            assert(r.deep_view() =~= self@.grid);
        }
        r
    }

    /// Tries to insert a block at the index. Returns the block back if
    /// the index is out of range, leaving the level untouched.
    pub fn add_block(&mut self, i: usize, block: Block) -> (r: Option<Block>)
        ensures
            i < old(self)@.grid.len() ==> r is None && final(self)@.grid == old(
                self,
            )@.grid.update(i as int, block@) && final(self)@.is_dark == old(self)@.is_dark
                && final(self)@.background == old(self)@.background,
            i >= old(self)@.grid.len() ==> final(self)@ == old(self)@ && r is Some
                && r.unwrap()@ == block@,
            old(self).wf() ==> final(self).wf(),
    {
        if i < self.level_data.len() {
            let ghost b = block@;
            self.level_data[i] = block;
            proof {
                assert(final(self)@.grid =~= old(self)@.grid.update(i as int, b));
            }
            None
        } else {
            Some(block)
        }
    }

    /// Sets whether the level is dark.
    pub fn set_dark(&mut self, is_dark: bool)
        ensures
            final(self)@.is_dark == is_dark,
            final(self)@.grid == old(self)@.grid,
            final(self)@.background == old(self)@.background,
    {
        self.is_dark = is_dark;
    }

    /// Checks whether the level is dark.
    pub fn is_dark(&self) -> (r: bool)
        ensures
            r == self@.is_dark,
    {
        self.is_dark
    }

    /// Sets the background texture of the level.
    pub fn set_background(&mut self, background: BackgroundType)
        ensures
            final(self)@.background == background,
            final(self)@.grid == old(self)@.grid,
            final(self)@.is_dark == old(self)@.is_dark,
    {
        self.background = background;
    }

    /// The background texture of the level.
    pub fn get_background(&self) -> (r: BackgroundType)
        ensures
            r == self@.background,
    {
        self.background
    }

    /// Tries to import a level from a block array. Fails when the
    /// array is not exactly one cell per grid slot; otherwise every
    /// marker cell is folded into the matching flag (the last
    /// background marker wins) and erased from the grid.
    pub fn from_block_array(blocks: &[Block]) -> (r: Option<Level>)
        ensures
            match r {
                Some(lv) => blocks@.len() == LEVEL_SIZE && lv.wf() && lv@.grid == spec_unpack_grid(
                    blocks.deep_view(),
                ) && lv@.is_dark == spec_any_dark(blocks.deep_view()) && lv@.background
                    == spec_unpack_background(blocks.deep_view()),
                None => blocks@.len() != LEVEL_SIZE,
            },
    {
        if blocks.len() != LEVEL_SIZE {
            return None;
        }
        let ghost dv = blocks.deep_view();
        let mut grid: Vec<Block> = Vec::new();
        let mut is_dark: bool = false;
        let mut background: BackgroundType = BackgroundType::Cobble;
        let mut i: usize = 0;
        proof {
            assert(dv.take(0) =~= Seq::<BlockView>::empty());
            assert(grid.deep_view() =~= spec_unpack_grid(dv.take(0)));
        }
        while i < blocks.len()
            invariant
                i <= blocks@.len(),
                dv == blocks.deep_view(),
                grid@.len() == i,
                grid.deep_view() == spec_unpack_grid(dv.take(i as int)),
                is_dark == spec_any_dark(dv.take(i as int)),
                background == spec_unpack_background(dv.take(i as int)),
            decreases blocks@.len() - i,
        {
            let ghost pre = dv.take(i as int);
            let ghost dv0 = grid.deep_view();
            match &blocks[i] {
                Block::Background { background_type } => {
                    background = *background_type;
                    grid.push(Block::Empty);
                },
                Block::Dark => {
                    is_dark = true;
                    grid.push(Block::Empty);
                },
                b => {
                    grid.push(b.clone());
                },
            }
            proof {
                assert(dv[i as int] == blocks@[i as int]@);
                assert(dv.take(i as int + 1).drop_last() =~= pre);
                assert(dv.take(i as int + 1).last() == dv[i as int]);
                assert(grid.deep_view() =~= dv0 + seq![spec_strip_cell(dv[i as int])]);
                assert(grid.deep_view() =~= spec_unpack_grid(dv.take(i as int + 1)));
                if spec_any_dark(pre) {
                    let w = choose|w: int| 0 <= w < pre.len() && pre[w] is Dark;
                    assert(dv.take(i as int + 1)[w] is Dark);
                }
                if spec_any_dark(dv.take(i as int + 1)) {
                    let nxt = dv.take(i as int + 1);
                    let w = choose|w: int| 0 <= w < nxt.len() && #[trigger] nxt[w] is Dark;
                    if w < i {
                        assert(pre[w] is Dark);
                    }
                }
            }
            i += 1;
        }
        proof {
            assert(dv.take(i as int) =~= dv);
        }
        Some(Level { level_data: grid, is_dark, background })
    }

    /// Tries to export the grid with the flags folded in as marker
    /// cells. Walks the grid in order, substituting each pending
    /// marker for the next spare `Empty` cell; fails (the level is
    /// unrepresentable) when spare cells run out before the markers
    /// do.
    pub fn export_block_array(&self) -> (r: Option<Vec<Block>>)
        ensures
            match r {
                Some(v) => spec_pack(
                    self@.grid,
                    spec_pending(self@.is_dark, self@.background),
                ).1.len() == 0 && v.deep_view() == spec_pack(
                    self@.grid,
                    spec_pending(self@.is_dark, self@.background),
                ).0,
                None => spec_pack(self@.grid, spec_pending(self@.is_dark, self@.background)).1.len()
                    != 0,
            },
    {
        let ghost grid0 = self@.grid;
        let ghost pending0 = spec_pending(self@.is_dark, self@.background);
        let mut to_insert: Vec<Block> = Vec::new();
        if self.is_dark {
            to_insert.push(Block::Dark);
        }
        if !matches!(self.background, BackgroundType::Cobble) {
            to_insert.push(Block::Background { background_type: self.background });
        }
        proof {
            assert(to_insert.deep_view() =~= pending0);
        }
        let mut out: Vec<Block> = Vec::new();
        let mut i: usize = 0;
        proof {
            assert(grid0.skip(0) =~= grid0);
            assert(out.deep_view() + spec_pack(grid0, pending0).0 =~= spec_pack(
                grid0,
                pending0,
            ).0);
        }
        while i < self.level_data.len()
            invariant
                i <= self.level_data@.len(),
                grid0 == self@.grid,
                spec_pack(grid0, pending0).0 == out.deep_view() + spec_pack(
                    grid0.skip(i as int),
                    to_insert.deep_view(),
                ).0,
                spec_pack(grid0, pending0).1 == spec_pack(
                    grid0.skip(i as int),
                    to_insert.deep_view(),
                ).1,
            decreases self.level_data@.len() - i,
        {
            let ghost rest = grid0.skip(i as int);
            let ghost ti0 = to_insert.deep_view();
            let ghost dv0 = out.deep_view();
            proof {
                assert(rest[0] == grid0[i as int]);
                assert(rest.skip(1) =~= grid0.skip(i as int + 1));
            }
            let cell = &self.level_data[i];
            let is_empty_cell = matches!(cell, Block::Empty);
            if is_empty_cell && to_insert.len() > 0 {
                let marker = to_insert.pop().unwrap();
                let ghost m = marker@;
                out.push(marker);
                proof {
                    assert(to_insert.deep_view() =~= ti0.drop_last());
                    assert(m == ti0.last());
                    assert(out.deep_view() =~= dv0 + seq![m]);
                    assert(dv0 + (seq![m] + spec_pack(grid0.skip(i as int + 1),
                    ti0.drop_last()).0) =~= (dv0 + seq![m]) + spec_pack(
                        grid0.skip(i as int + 1),
                        ti0.drop_last(),
                    ).0);
                }
            } else {
                let copied = cell.clone();
                let ghost c = copied@;
                out.push(copied);
                proof {
                    assert(c == grid0[i as int]);
                    assert(out.deep_view() =~= dv0 + seq![c]);
                    assert(dv0 + (seq![c] + spec_pack(grid0.skip(i as int + 1), ti0).0) =~= (dv0
                        + seq![c]) + spec_pack(grid0.skip(i as int + 1), ti0).0);
                }
            }
            i += 1;
        }
        proof {
            assert(grid0.skip(i as int).len() == 0);
            assert(out.deep_view() + Seq::<BlockView>::empty() =~= out.deep_view());
        }
        if to_insert.is_empty() {
            Some(out)
        } else {
            None
        }
    }
}

impl Default for Level {
    /// The default level is the newly created empty level.
    fn default() -> (r: Self)
        ensures
            r.wf(),
            forall|i: int| 0 <= i < r@.grid.len() ==> r@.grid[i] == BlockView::Empty,
            !r@.is_dark,
            r@.background == BackgroundType::Cobble,
    {
        Level::new()
    }
}

/// An imported grid holds no marker cells: every darkness or
/// background marker has been folded into a flag and replaced by
/// `Empty`.
pub proof fn lemma_unpack_grid_has_no_markers(cells: Seq<BlockView>)
    ensures
        forall|i: int|
            0 <= i < spec_unpack_grid(cells).len() ==> !(#[trigger] spec_unpack_grid(
                cells,
            )[i] is Dark) && !(spec_unpack_grid(cells)[i] is Background),
{
}

/// Packing markers into a grid with no `Empty` cell changes nothing:
/// the grid passes through and every marker is left over.
pub proof fn lemma_pack_no_empty(grid: Seq<BlockView>, pending: Seq<BlockView>)
    requires
        forall|i: int| 0 <= i < grid.len() ==> !(#[trigger] grid[i] is Empty),
    ensures
        spec_pack(grid, pending).0 == grid,
        spec_pack(grid, pending).1 == pending,
    decreases grid.len(),
{
    if grid.len() == 0 {
        assert(spec_pack(grid, pending).0 =~= grid);
    } else {
        assert(forall|i: int| 0 <= i < grid.skip(1).len() ==> !(#[trigger] grid.skip(
            1,
        )[i] is Empty));
        lemma_pack_no_empty(grid.skip(1), pending);
        assert(seq![grid[0]] + grid.skip(1) =~= grid);
    }
}

/// A fully occupied dark level cannot be exported: with no `Empty`
/// cell to host it, the darkness marker is always left over.
pub proof fn lemma_export_full_dark_unrepresentable(lv: LevelView)
    requires
        lv.is_dark,
        forall|i: int| 0 <= i < lv.grid.len() ==> !(#[trigger] lv.grid[i] is Empty),
    ensures
        spec_pack(lv.grid, spec_pending(lv.is_dark, lv.background)).1.len() > 0,
{
    lemma_pack_no_empty(lv.grid, spec_pending(lv.is_dark, lv.background));
}

} // verus!
