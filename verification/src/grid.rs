use vstd::prelude::*;
use crate::rng::RandomSource;

verus! {

/// One cell of the 8x8 dungeon board.
#[derive(Clone, Copy, Debug, PartialEq, Eq, Structural)]
pub enum Space {
    Empty,
    Chest,
    Monster,
    Wall,
    Unassigned,
}

impl Space {
    /// The cells the search may rewrite. `Chest` and `Monster` are fixed for
    /// the whole run; `Unassigned` only exists before the first randomization.
    pub open spec fn spec_can_change(self) -> bool {
        self == Space::Empty || self == Space::Wall || self == Space::Unassigned
    }

    /// What the one-cell perturbation writes over this cell: a wall becomes
    /// empty, anything else becomes a wall.
    pub open spec fn spec_flip(self) -> Space {
        if self == Space::Wall {
            Space::Empty
        } else {
            Space::Wall
        }
    }

    pub fn can_change(&self) -> (r: bool)
        ensures
            r == self.spec_can_change(),
    {
        match self {
            Space::Empty | Space::Wall | Space::Unassigned => true,
            Space::Chest | Space::Monster => false,
        }
    }

    /// The character the caller prints for this cell.
    pub fn to_str(&self) -> (r: &'static str)
        ensures
            *self == Space::Empty || *self == Space::Unassigned ==> r@ == " "@,
            *self == Space::Chest ==> r@ == "0"@,
            *self == Space::Monster ==> r@ == "!"@,
            *self == Space::Wall ==> r@ == "#"@,
    {
        match self {
            Space::Empty => " ",
            Space::Chest => "0",
            Space::Monster => "!",
            Space::Wall => "#",
            Space::Unassigned => " ",
        }
    }
}

/// Flipping a changeable cell always produces a different cell state.
pub proof fn lemma_flip_changes(s: Space)
    requires
        s.spec_can_change(),
    ensures
        s.spec_flip() != s,
        s.spec_flip().spec_can_change(),
{
}

/// The 8x8 board: a cell per position plus the target number of walls for
/// each row and each column. The targets are fixed input data; the search
/// only rewrites changeable cells.
pub struct Board {
    cells: Vec<Space>,
    row_walls: Vec<u8>,
    col_walls: Vec<u8>,
}

impl Board {
    #[verifier::type_invariant]
    spec fn wf(self) -> bool {
        self.cells@.len() == 64 && self.row_walls@.len() == 8 && self.col_walls@.len() == 8
    }

    /// The stored cell at an in-range position, row-major.
    pub closed spec fn cell_raw(self, r: int, c: int) -> Space {
        self.cells@[r * 8 + c]
    }

    /// The single boundary rule of the board: any coordinate outside the 8x8
    /// range reads as `Wall`, as if the board sat inside an infinite wall
    /// border. Every spatial computation reads cells through this function.
    pub open spec fn cell(self, r: int, c: int) -> Space {
        if 0 <= r < 8 && 0 <= c < 8 {
            self.cell_raw(r, c)
        } else {
            Space::Wall
        }
    }

    /// The prescribed number of walls of row `r`.
    pub closed spec fn row_target(self, r: int) -> int {
        self.row_walls@[r] as int
    }

    /// The prescribed number of walls of column `c`.
    pub closed spec fn col_target(self, c: int) -> int {
        self.col_walls@[c] as int
    }

    pub open spec fn same_targets(self, other: Board) -> bool {
        forall|i: int| #![auto]
            0 <= i < 8 ==> self.row_target(i) == other.row_target(i) && self.col_target(i)
                == other.col_target(i)
    }

    pub open spec fn same_cells(self, other: Board) -> bool {
        forall|r: int, c: int| self.cell(r, c) == other.cell(r, c)
    }

    /// Two boards the cost function cannot tell apart: same cells everywhere
    /// and the same targets.
    pub open spec fn agrees(self, other: Board) -> bool {
        self.same_cells(other) && self.same_targets(other)
    }

    /// Some cell of the board may be rewritten by the search.
    pub open spec fn has_changeable(self) -> bool {
        exists|r: int, c: int|
            0 <= r < 8 && 0 <= c < 8 && (#[trigger] self.cell(r, c)).spec_can_change()
    }

    /// An all-empty board with zero targets; the caller fills in the puzzle.
    pub fn new() -> (b: Board)
        ensures
            forall|r: int, c: int| #![auto] b.cell(r, c) == if 0 <= r < 8 && 0 <= c < 8 {
                Space::Empty
            } else {
                Space::Wall
            },
            forall|i: int| #![auto] 0 <= i < 8 ==> b.row_target(i) == 0 && b.col_target(i) == 0,
    {
        let mut cells: Vec<Space> = Vec::new();
        let mut k: usize = 0;
        while k < 64
            invariant
                k <= 64,
                cells@.len() == k,
                forall|m: int| 0 <= m < k ==> cells@[m] == Space::Empty,
            decreases 64 - k,
        {
            cells.push(Space::Empty);
            k += 1;
        }
        let mut row_walls: Vec<u8> = Vec::new();
        let mut col_walls: Vec<u8> = Vec::new();
        let mut i: usize = 0;
        while i < 8
            invariant
                i <= 8,
                row_walls@.len() == i,
                col_walls@.len() == i,
                forall|m: int| 0 <= m < i ==> row_walls@[m] == 0 && col_walls@[m] == 0,
            decreases 8 - i,
        {
            row_walls.push(0);
            col_walls.push(0);
            i += 1;
        }
        Board { cells, row_walls, col_walls }
    }

    /// Read a cell with the virtual-wall boundary: out-of-range coordinates,
    /// negative ones included, return `Wall`.
    pub fn get(&self, r: i32, c: i32) -> (s: Space)
        ensures
            s == self.cell(r as int, c as int),
    {
        if r >= 8 || r < 0 || c >= 8 || c < 0 {
            Space::Wall
        } else {
            proof {
                use_type_invariant(self);
            }
            self.cells[(r as usize) * 8 + (c as usize)]
        }
    }

    /// Overwrite one in-range cell, leaving every other cell and the targets
    /// unchanged.
    pub fn set_cell(&mut self, r: usize, c: usize, s: Space)
        requires
            r < 8,
            c < 8,
        ensures
            final(self).cell(r as int, c as int) == s,
            forall|i: int, j: int|
                !(i == r as int && j == c as int) ==> final(self).cell(i, j) == old(self).cell(
                    i,
                    j,
                ),
            final(self).same_targets(*old(self)),
    {
        proof {
            use_type_invariant(&*self);
        }
        self.cells[r * 8 + c] = s;
    }

    pub fn set_row_target(&mut self, i: usize, t: u8)
        requires
            i < 8,
        ensures
            final(self).row_target(i as int) == t as int,
            forall|j: int|
                0 <= j < 8 && j != i as int ==> final(self).row_target(j) == old(self).row_target(
                    j,
                ),
            forall|j: int| 0 <= j < 8 ==> final(self).col_target(j) == old(self).col_target(j),
            final(self).same_cells(*old(self)),
    {
        proof {
            use_type_invariant(&*self);
        }
        self.row_walls[i] = t;
    }

    pub fn set_col_target(&mut self, i: usize, t: u8)
        requires
            i < 8,
        ensures
            final(self).col_target(i as int) == t as int,
            forall|j: int|
                0 <= j < 8 && j != i as int ==> final(self).col_target(j) == old(self).col_target(
                    j,
                ),
            forall|j: int| 0 <= j < 8 ==> final(self).row_target(j) == old(self).row_target(j),
            final(self).same_cells(*old(self)),
    {
        proof {
            use_type_invariant(&*self);
        }
        self.col_walls[i] = t;
    }

    pub fn get_row_target(&self, i: usize) -> (t: u8)
        requires
            i < 8,
        ensures
            t as int == self.row_target(i as int),
    {
        proof {
            use_type_invariant(self);
        }
        self.row_walls[i]
    }

    pub fn get_col_target(&self, i: usize) -> (t: u8)
        requires
            i < 8,
        ensures
            t as int == self.col_target(i as int),
    {
        proof {
            use_type_invariant(self);
        }
        self.col_walls[i]
    }

    /// An independent copy: the search scores candidates without touching the
    /// accepted board.
    pub fn duplicate(&self) -> (b: Board)
        ensures
            b.agrees(*self),
    {
        proof {
            use_type_invariant(self);
        }
        let mut cells: Vec<Space> = Vec::new();
        let mut k: usize = 0;
        while k < 64
            invariant
                k <= 64,
                cells@.len() == k,
                self.cells@.len() == 64,
                forall|m: int| 0 <= m < k ==> cells@[m] == self.cells@[m],
            decreases 64 - k,
        {
            cells.push(self.cells[k]);
            k += 1;
        }
        let mut row_walls: Vec<u8> = Vec::new();
        let mut col_walls: Vec<u8> = Vec::new();
        let mut i: usize = 0;
        while i < 8
            invariant
                i <= 8,
                row_walls@.len() == i,
                col_walls@.len() == i,
                self.row_walls@.len() == 8,
                self.col_walls@.len() == 8,
                forall|m: int| #![auto]
                    0 <= m < i ==> row_walls@[m] == self.row_walls@[m] && col_walls@[m]
                        == self.col_walls@[m],
            decreases 8 - i,
        {
            row_walls.push(self.row_walls[i]);
            col_walls.push(self.col_walls[i]);
            i += 1;
        }
        let b = Board { cells, row_walls, col_walls };
        proof {
            assert forall|r: int, c: int| b.cell(r, c) == self.cell(r, c) by {
                if 0 <= r < 8 && 0 <= c < 8 {
                    assert(0 <= r * 8 + c < 64);
                }
            }
        }
        b
    }

    /// What one randomization step guarantees: every changeable cell of `pre`
    /// now holds `Wall` or `Empty`, every fixed cell and every target is
    /// untouched. Which of the two values a changeable cell got is up to the
    /// random source.
    pub open spec fn randomized_from(post: Board, pre: Board) -> bool {
        &&& post.same_targets(pre)
        &&& forall|r: int, c: int| #![auto]
            0 <= r < 8 && 0 <= c < 8 ==> if pre.cell(r, c).spec_can_change() {
                post.cell(r, c) == Space::Wall || post.cell(r, c) == Space::Empty
            } else {
                post.cell(r, c) == pre.cell(r, c)
            }
    }

    /// Redraw every changeable cell as `Wall` or `Empty`, one independent
    /// draw per cell. Fixed cells are untouched.
    pub fn initialize(&mut self, rng: &mut RandomSource)
        ensures
            Board::randomized_from(*final(self), *old(self)),
    {
        proof {
            use_type_invariant(&*self);
        }
        let mut k: usize = 0;
        while k < 64
            invariant
                k <= 64,
                self.cells@.len() == 64,
                self.row_walls@.len() == 8,
                self.col_walls@.len() == 8,
                self.row_walls@ == old(self).row_walls@,
                self.col_walls@ == old(self).col_walls@,
                old(self).cells@.len() == 64,
                forall|m: int| k <= m < 64 ==> self.cells@[m] == old(self).cells@[m],
                forall|m: int| #![auto]
                    0 <= m < k ==> if old(self).cells@[m].spec_can_change() {
                        self.cells@[m] == Space::Wall || self.cells@[m] == Space::Empty
                    } else {
                        self.cells@[m] == old(self).cells@[m]
                    },
            decreases 64 - k,
        {
            let draw = rng.next_bool();
            let cur = self.cells[k];
            if cur.can_change() {
                if draw {
                    self.cells[k] = Space::Wall;
                } else {
                    self.cells[k] = Space::Empty;
                }
            }
            k += 1;
        }
        proof {
            assert forall|r: int, c: int| #![auto]
                0 <= r < 8 && 0 <= c < 8 implies (if old(self).cell(r, c).spec_can_change() {
                self.cell(r, c) == Space::Wall || self.cell(r, c) == Space::Empty
            } else {
                self.cell(r, c) == old(self).cell(r, c)
            }) by {
                assert(0 <= r * 8 + c < 64);
            }
        }
    }

    /// The one cell `post` differs from `pre` in, together with what happened
    /// there: a changeable cell was replaced by its flip.
    pub open spec fn flipped_at(pre: Board, post: Board, r: int, c: int) -> bool {
        &&& 0 <= r < 8
        &&& 0 <= c < 8
        &&& pre.cell(r, c).spec_can_change()
        &&& post.cell(r, c) == pre.cell(r, c).spec_flip()
        &&& forall|i: int, j: int| !(i == r && j == c) ==> post.cell(i, j) == pre.cell(i, j)
    }

    /// What one perturbation guarantees: same targets, and exactly one
    /// changeable cell flipped. A `Chest` or `Monster` cell is never the one.
    pub open spec fn one_flip(pre: Board, post: Board) -> bool {
        &&& post.same_targets(pre)
        &&& exists|r: int, c: int| #[trigger] Board::flipped_at(pre, post, r, c)
    }

    /// Produce a copy of the board with one changeable cell flipped, the cell
    /// picked uniformly among the changeable ones by the random source.
    pub fn step(&self, rng: &mut RandomSource) -> (b: Board)
        requires
            self.has_changeable(),
        ensures
            Board::one_flip(*self, b),
    {
        proof {
            use_type_invariant(self);
        }
        let mut idxs: Vec<usize> = Vec::new();
        let mut k: usize = 0;
        while k < 64
            invariant
                k <= 64,
                self.cells@.len() == 64,
                forall|m: int| #![auto]
                    0 <= m < idxs@.len() ==> idxs@[m] < 64
                        && self.cells@[idxs@[m] as int].spec_can_change(),
                (exists|m: int| 0 <= m < k && (#[trigger] self.cells@[m]).spec_can_change())
                    ==> idxs@.len() > 0,
            decreases 64 - k,
        {
            let cur = self.cells[k];
            if cur.can_change() {
                idxs.push(k);
            }
            k += 1;
        }
        proof {
            let (r, c) = choose|r: int, c: int|
                0 <= r < 8 && 0 <= c < 8 && (#[trigger] self.cell(r, c)).spec_can_change();
            assert(0 <= r * 8 + c < 64);
            assert(self.cells@[r * 8 + c].spec_can_change());
        }
        let n: usize = idxs.len();
        let pick_raw: u64 = rng.next_u64();
        let pick: usize = (pick_raw % (n as u64)) as usize;
        let idx: usize = idxs[pick];
        let r: usize = idx / 8;
        let c: usize = idx % 8;
        let cur = self.get(r as i32, c as i32);
        let flipped = if matches!(cur, Space::Wall) {
            Space::Empty
        } else {
            Space::Wall
        };
        let mut nb = self.duplicate();
        nb.set_cell(r, c, flipped);
        proof {
            assert(self.cell(r as int, c as int) == self.cells@[idx as int]);
            assert(Board::flipped_at(*self, nb, r as int, c as int));
        }
        nb
    }

    /// A perturbed board really differs from its parent, in exactly the one
    /// flipped cell, and that cell was changeable: never a chest or monster.
    pub proof fn lemma_one_flip_differs(pre: Board, post: Board)
        requires
            Board::one_flip(pre, post),
        ensures
            exists|r: int, c: int|
                #[trigger] Board::flipped_at(pre, post, r, c) && post.cell(r, c) != pre.cell(r, c),
    {
        let (r, c) = choose|r: int, c: int| #[trigger] Board::flipped_at(pre, post, r, c);
        lemma_flip_changes(pre.cell(r, c));
        assert(Board::flipped_at(pre, post, r, c) && post.cell(r, c) != pre.cell(r, c));
    }

    /// Whether some cell may still be rewritten; the caller must check this
    /// before starting a search.
    pub fn has_changeable_cell(&self) -> (r: bool)
        ensures
            r == self.has_changeable(),
    {
        proof {
            use_type_invariant(self);
        }
        let mut k: usize = 0;
        let mut found: bool = false;
        while k < 64
            invariant
                k <= 64,
                self.cells@.len() == 64,
                found == exists|m: int|
                    0 <= m < k && (#[trigger] self.cells@[m]).spec_can_change(),
            decreases 64 - k,
        {
            let cur = self.cells[k];
            if cur.can_change() {
                found = true;
            }
            k += 1;
        }
        proof {
            if found {
                let m = choose|m: int|
                    0 <= m < 64 && (#[trigger] self.cells@[m]).spec_can_change();
                assert(self.cell(m / 8, m % 8) == self.cells@[m]);
            }
            if self.has_changeable() {
                let (r, c) = choose|r: int, c: int|
                    0 <= r < 8 && 0 <= c < 8 && (#[trigger] self.cell(r, c)).spec_can_change();
                assert(0 <= r * 8 + c < 64);
                assert(self.cells@[r * 8 + c].spec_can_change());
            }
        }
        found
    }
}

} // verus!
