//! The board: a rectangular grid of occupied cells, row 0 at the bottom.
use vstd::prelude::*;
use crate::piece::{Placement, Point, pt_int, rel_cell, kick, base_cell, lemma_kick_small};

verus! {

/// Largest width or height: coordinates, with kick probes around them, stay within `i8`.
pub const MAX_DIM: usize = 100;

#[derive(Clone, Debug, PartialEq, Eq)]
pub struct Board {
    pub arr: Vec<Vec<bool>>,
    pub width: usize,
    pub height: usize,
}

/// A row of `n` empty cells.
pub open spec fn empty_row(n: int) -> Seq<bool> {
    Seq::new(n as nat, |i: int| false)
}

/// A board as a grid of cells with its size.
pub struct BoardModel {
    pub grid: Seq<Seq<bool>>,
    pub width: int,
    pub height: int,
}

impl View for Board {
    type V = BoardModel;

    open spec fn view(&self) -> BoardModel {
        BoardModel { grid: self.grid(), width: self.width as int, height: self.height as int }
    }
}

impl BoardModel {
    /// `height` rows of `width` cells each, within the coordinate range.
    pub open spec fn wf(self) -> bool {
        &&& self.grid.len() == self.height
        &&& forall|r: int| 0 <= r < self.height ==> (#[trigger] self.grid[r]).len() == self.width
        &&& 0 <= self.width <= MAX_DIM
        &&& 0 <= self.height <= MAX_DIM
    }

    /// The cell at `(r, c)` lies on the board and is occupied.
    pub open spec fn occupied(self, r: int, c: int) -> bool {
        0 <= r < self.height && 0 <= c < self.width && self.grid[r][c]
    }

    pub open spec fn inside(self, r: int, c: int) -> bool {
        0 <= r < self.height && 0 <= c < self.width
    }

    /// Every cell of row `r` is occupied.
    pub open spec fn row_full(self, r: int) -> bool {
        forall|c: int| 0 <= c < self.width ==> #[trigger] self.grid[r][c]
    }

    /// Cell `k` of `p`, moved by `(dy, dx)`, lies on the board.
    pub open spec fn cell_inside(self, p: Placement, k: int, dy: int, dx: int) -> bool {
        self.inside(p.cell(k).0 + dy, p.cell(k).1 + dx)
    }

    pub open spec fn cell_occupied(self, p: Placement, k: int, dy: int, dx: int) -> bool {
        self.occupied(p.cell(k).0 + dy, p.cell(k).1 + dx)
    }

    /// All four cells of `p`, moved by `(dy, dx)`, lie on the board.
    pub open spec fn in_bounds_at(self, p: Placement, dy: int, dx: int) -> bool {
        &&& self.cell_inside(p, 0, dy, dx)
        &&& self.cell_inside(p, 1, dy, dx)
        &&& self.cell_inside(p, 2, dy, dx)
        &&& self.cell_inside(p, 3, dy, dx)
    }

    /// Some cell of `p`, moved by `(dy, dx)`, is occupied.
    pub open spec fn collides_at(self, p: Placement, dy: int, dx: int) -> bool {
        ||| self.cell_occupied(p, 0, dy, dx)
        ||| self.cell_occupied(p, 1, dy, dx)
        ||| self.cell_occupied(p, 2, dy, dx)
        ||| self.cell_occupied(p, 3, dy, dx)
    }

    /// `p`, moved by `(dy, dx)`, lies on the board over empty cells.
    pub open spec fn fits_at(self, p: Placement, dy: int, dx: int) -> bool {
        self.in_bounds_at(p, dy, dx) && !self.collides_at(p, dy, dx)
    }

    pub open spec fn valid_location(self, p: Placement) -> bool {
        self.fits_at(p, 0, 0)
    }

    /// `p` cannot fall one row further.
    pub open spec fn grounded(self, p: Placement) -> bool {
        !self.fits_at(p, -1, 0)
    }

    /// `p` is a legal resting state.
    pub open spec fn valid_placement(self, p: Placement) -> bool {
        self.valid_location(p) && self.grounded(p)
    }

    /// `p` moved by `(dy, dx)`, if it fits there.
    pub open spec fn moved(self, p: Placement, dy: int, dx: int) -> Option<Placement> {
        if self.fits_at(p, dy, dx) {
            Some(p.shifted(dy, dx))
        } else {
            None
        }
    }

    /// The first kick candidate, from `j` on, under which `q` fits; 6 if none.
    pub open spec fn first_kick(self, q: Placement, dir: int, j: int) -> int
        decreases 6 - j,
    {
        if j >= 6 {
            6
        } else if self.fits_at(
            q,
            -kick(q.piece_type as int, q.rotation_state as int, dir, j).0,
            -kick(q.piece_type as int, q.rotation_state as int, dir, j).1,
        ) {
            j
        } else {
            self.first_kick(q, dir, j + 1)
        }
    }

    pub proof fn lemma_first_kick(self, q: Placement, dir: int, j: int)
        requires
            0 <= j <= 6,
        ensures
            j <= self.first_kick(q, dir, j) <= 6,
            self.first_kick(q, dir, j) < 6 ==> self.fits_at(
                q,
                -kick(q.piece_type as int, q.rotation_state as int, dir, self.first_kick(q, dir, j)).0,
                -kick(q.piece_type as int, q.rotation_state as int, dir, self.first_kick(q, dir, j)).1,
            ),
            forall|i: int| j <= i < self.first_kick(q, dir, j) ==> !self.fits_at(
                q,
                -kick(q.piece_type as int, q.rotation_state as int, dir, i).0,
                -kick(q.piece_type as int, q.rotation_state as int, dir, i).1,
            ),
        decreases 6 - j,
    {
        if j < 6 && !self.fits_at(
            q,
            -kick(q.piece_type as int, q.rotation_state as int, dir, j).0,
            -kick(q.piece_type as int, q.rotation_state as int, dir, j).1,
        ) {
            self.lemma_first_kick(q, dir, j + 1);
        }
    }

    /// `p` turned by `dir` quarter turns with the first kick that fits, if any fits.
    pub open spec fn rotated(self, p: Placement, dir: int) -> Option<Placement> {
        let q = Placement { rotation_state: ((p.rotation_state + dir) % 4) as usize, ..p };
        let j = self.first_kick(q, dir, 0);
        let o = kick(q.piece_type as int, q.rotation_state as int, dir, j);
        if j < 6 {
            Some(q.shifted(-o.0, -o.1))
        } else {
            None
        }
    }

    /// How far `p` falls, counting from `d` rows already fallen.
    pub open spec fn drop_distance(self, p: Placement, d: nat) -> nat
        decreases 256 - d,
    {
        if d < 256 && self.fits_at(p, -(d + 1), 0) {
            self.drop_distance(p, d + 1)
        } else {
            d
        }
    }

    /// `p` after falling as far as it can.
    pub open spec fn dropped(self, p: Placement) -> Placement {
        p.shifted(-(self.drop_distance(p, 0) as int), 0)
    }

    /// A piece falls zero rows, or falls to a place where it fits.
    pub proof fn lemma_drop_fits(self, p: Placement, d: nat)
        requires
            d <= 256,
            d == 0 || self.fits_at(p, -d, 0),
        ensures
            self.drop_distance(p, d) >= d,
            self.drop_distance(p, d) == 0 || self.fits_at(p, -(self.drop_distance(p, d) as int), 0),
        decreases 256 - d,
    {
        if d < 256 && self.fits_at(p, -(d + 1), 0) {
            self.lemma_drop_fits(p, d + 1);
        }
    }

    /// A piece on the board stays on it when dropped; a resting piece does not move.
    pub proof fn lemma_dropped(self, p: Placement)
        requires
            p.wf(),
        ensures
            self.in_bounds_at(p, 0, 0) ==> self.in_bounds_at(self.dropped(p), 0, 0),
            self.valid_location(p) ==> self.valid_location(self.dropped(p)),
            self.valid_placement(p) ==> self.dropped(p) == p,
    {
        let dd = self.drop_distance(p, 0);
        self.lemma_drop_fits(p, 0);
        if dd > 0 {
            self.lemma_fits_pivot(p, -dd, 0);
            self.lemma_fits_shifted(p, -dd, 0, 0, 0);
        } else {
            assert(p.shifted(0, 0) == p);
        }
    }

    /// A placement that fits on the board has its pivot on the board.
    pub proof fn lemma_fits_pivot(self, p: Placement, dy: int, dx: int)
        requires
            p.wf(),
            self.in_bounds_at(p, dy, dx),
        ensures
            0 <= p.row + dy < self.height,
            0 <= p.col + dx < self.width,
    {
        lemma_pivot(p);
        let k = pivot_index(p.piece_type as int);
        assert(self.cell_inside(p, k, dy, dx));
    }

    pub proof fn lemma_fits_shifted(self, p: Placement, a: int, b: int, dy: int, dx: int)
        requires
            i8::MIN <= p.row + a <= i8::MAX,
            i8::MIN <= p.col + b <= i8::MAX,
        ensures
            self.fits_at(p.shifted(a, b), dy, dx) == self.fits_at(p, a + dy, b + dx),
    {
        lemma_shifted_cells(p, a, b, 0);
        lemma_shifted_cells(p, a, b, 1);
        lemma_shifted_cells(p, a, b, 2);
        lemma_shifted_cells(p, a, b, 3);
    }

}

impl Board {
    /// The rows as sequences of cells.
    pub open spec fn grid(self) -> Seq<Seq<bool>> {
        self.arr@.map_values(|r: Vec<bool>| r@)
    }

    /// `height` rows of `width` cells each, within the coordinate range.
    pub open spec fn wf(self) -> bool {
        &&& self.arr@.len() == self.height
        &&& forall|r: int| 0 <= r < self.height ==> (#[trigger] self.arr@[r])@.len() == self.width
        &&& self.width <= MAX_DIM
        &&& self.height <= MAX_DIM
    }

    pub proof fn lemma_wf_model(&self)
        requires
            self.wf(),
        ensures
            self@.wf(),
    {
        assert forall|r: int| 0 <= r < self.height implies (#[trigger] self@.grid[r]).len() == self.width by {
            assert(self@.grid[r] == self.arr@[r]@);
        }
    }

    /// A board made of the given rows; its width is that of the first row.
    pub fn from_vec(arr: Vec<Vec<bool>>) -> (r: Self)
        requires
            arr@.len() > 0,
        ensures
            r.arr == arr,
            r.height == arr@.len(),
            r.width == arr@[0]@.len(),
    {
        let height = arr.len();
        let width = arr[0].len();
        Self { arr, width, height }
    }

    /// An empty board.
    pub fn new(width: usize, height: usize) -> (r: Self)
        requires
            width <= MAX_DIM,
            height <= MAX_DIM,
        ensures
            r.wf(),
            r.width == width,
            r.height == height,
            r.grid() == Seq::new(height as nat, |i: int| empty_row(width as int)),
    {
        let mut arr: Vec<Vec<bool>> = Vec::new();
        let mut i: usize = 0;
        while i < height
            invariant
                i <= height,
                arr@.len() == i,
                forall|j: int| 0 <= j < i ==> (#[trigger] arr@[j])@ == empty_row(width as int),
            decreases height - i,
        {
            arr.push(new_row(width));
            i = i + 1;
        }
        let r = Self { arr, width, height };
        assert(r.grid() =~= Seq::new(height as nat, |i: int| empty_row(width as int)));
        r
    }

    /// Occupies each of the given cells.
    pub fn bulk_add(&mut self, points: Vec<(usize, usize)>)
        requires
            old(self).wf(),
            forall|i: int| 0 <= i < points@.len() ==> old(self)@.inside(
                (#[trigger] points@[i]).0 as int,
                points@[i].1 as int,
            ),
        ensures
            final(self).wf(),
            final(self).width == old(self).width,
            final(self).height == old(self).height,
            forall|r: int, c: int|
                #[trigger] final(self)@.occupied(r, c) <==> (old(self)@.occupied(r, c) || exists|i: int|
                    0 <= i < points@.len() && points@[i].0 == r && points@[i].1 == c),
    {
        let mut i: usize = 0;
        while i < points.len()
            invariant
                i <= points@.len(),
                self.wf(),
                self.width == old(self).width,
                self.height == old(self).height,
                forall|j: int| 0 <= j < points@.len() ==> old(self)@.inside(
                    (#[trigger] points@[j]).0 as int,
                    points@[j].1 as int,
                ),
                forall|r: int, c: int|
                    #[trigger] self@.occupied(r, c) <==> (old(self)@.occupied(r, c) || exists|j: int|
                        0 <= j < i && points@[j].0 == r && points@[j].1 == c),
            decreases points@.len() - i,
        {
            let (row, col) = points[i];
            let ghost prev = *self;
            self.add(row, col);
            assert forall|r: int, c: int|
                #[trigger] self@.occupied(r, c) <==> (prev@.occupied(r, c) || (r == row && c == col)) by {
                if r == row && c == col {
                } else if 0 <= r < self.height && 0 <= c < self.width {
                    assert(self.grid()[r][c] == prev.grid()[r][c]);
                }
            }
            i = i + 1;
            assert forall|r: int, c: int|
                #[trigger] self@.occupied(r, c) <==> (old(self)@.occupied(r, c) || exists|j: int|
                    0 <= j < i && points@[j].0 == r && points@[j].1 == c) by {
                if r == row && c == col {
                    assert(points@[i - 1].0 == r && points@[i - 1].1 == c);
                }
                if exists|j: int| 0 <= j < i && points@[j].0 == r && points@[j].1 == c {
                    let j = choose|j: int| 0 <= j < i && points@[j].0 == r && points@[j].1 == c;
                    if j < i - 1 {
                        assert(prev@.occupied(r, c));
                    }
                }
            }
        }
    }

    /// Whether `(row, col)` is occupied; cells off the board read as empty.
    pub fn get(&self, row: usize, col: usize) -> (r: bool)
        requires
            self.wf(),
        ensures
            r == self@.occupied(row as int, col as int),
    {
        if row >= self.height || col >= self.width {
            false
        } else {
            self.arr[row][col]
        }
    }

    /// Occupies `(row, col)`.
    pub fn add(&mut self, row: usize, col: usize)
        requires
            old(self).wf(),
            old(self)@.inside(row as int, col as int),
        ensures
            final(self).wf(),
            final(self).width == old(self).width,
            final(self).height == old(self).height,
            final(self).grid() == old(self).grid().update(
                row as int,
                old(self).grid()[row as int].update(col as int, true),
            ),
    {
        self.set_cell(row, col, true);
    }

    /// Empties `(row, col)`.
    pub fn remove(&mut self, row: usize, col: usize)
        requires
            old(self).wf(),
            old(self)@.inside(row as int, col as int),
        ensures
            final(self).wf(),
            final(self).width == old(self).width,
            final(self).height == old(self).height,
            final(self).grid() == old(self).grid().update(
                row as int,
                old(self).grid()[row as int].update(col as int, false),
            ),
    {
        self.set_cell(row, col, false);
    }

    fn set_cell(&mut self, row: usize, col: usize, v: bool)
        requires
            old(self).wf(),
            old(self)@.inside(row as int, col as int),
        ensures
            final(self).wf(),
            final(self).width == old(self).width,
            final(self).height == old(self).height,
            final(self).grid() == old(self).grid().update(
                row as int,
                old(self).grid()[row as int].update(col as int, v),
            ),
    {
        let mut line = self.arr.remove(row);
        line.set(col, v);
        self.arr.insert(row, line);
        assert(self.arr@ =~= old(self).arr@.update(row as int, self.arr@[row as int]));
        assert(self.grid() =~= old(self).grid().update(
            row as int,
            old(self).grid()[row as int].update(col as int, v),
        ));
    }

    fn row_is_full(&self, row: usize) -> (r: bool)
        requires
            self.wf(),
            row < self.height,
        ensures
            r == self@.row_full(row as int),
    {
        let line = &self.arr[row];
        let mut c: usize = 0;
        while c < self.width
            invariant
                self.wf(),
                row < self.height,
                line@ == self.grid()[row as int],
                c <= self.width,
                forall|j: int| 0 <= j < c ==> #[trigger] self.grid()[row as int][j],
            decreases self.width - c,
        {
            if !line[c] {
                assert(!self@.grid[row as int][c as int]);
                return false;
            }
            c = c + 1;
        }
        true
    }

    /// Removes row `row` if it is full, returning its cells and adding an empty row on top.
    pub fn line_clear(&mut self, row: usize) -> (r: Option<Vec<bool>>)
        requires
            old(self).wf(),
            row < old(self).height,
        ensures
            final(self).wf(),
            final(self).width == old(self).width,
            final(self).height == old(self).height,
            old(self)@.row_full(row as int) ==> r.is_some() && r.unwrap()@ == old(self).grid()[row as int]
                && final(self).grid() == old(self).grid().remove(row as int).push(empty_row(old(self).width as int)),
            !old(self)@.row_full(row as int) ==> r.is_none() && *final(self) == *old(self),
    {
        if self.row_is_full(row) {
            let line = self.arr.remove(row);
            self.arr.push(new_row(self.width));
            proof {
                assert forall|r: int| 0 <= r < self.height implies (#[trigger] self.arr@[r])@.len() == self.width by {
                    if r < row {
                        assert(self.arr@[r] == old(self).arr@[r]);
                    } else if r < self.height - 1 {
                        assert(self.arr@[r] == old(self).arr@[r + 1]);
                    }
                }
                assert(self.grid() =~= old(self).grid().remove(row as int).push(empty_row(old(self).width as int)));
            }
            Some(line)
        } else {
            None
        }
    }

    /// Takes away the top row and puts `row` back at index `index`.
    pub fn restore_line(&mut self, index: usize, row: Vec<bool>)
        requires
            old(self).wf(),
            old(self).height > 0,
            index < old(self).height,
            row@.len() == old(self).width,
        ensures
            final(self).wf(),
            final(self).width == old(self).width,
            final(self).height == old(self).height,
            final(self)@.grid == old(self)@.grid.drop_last().insert(index as int, row@),
    {
        let _ = self.arr.pop();
        self.arr.insert(index, row);
        proof {
            assert forall|r: int| 0 <= r < self.height implies (#[trigger] self.arr@[r])@.len() == self.width by {
                if r < index {
                    assert(self.arr@[r] == old(self).arr@[r]);
                } else if r > index {
                    assert(self.arr@[r] == old(self).arr@[r - 1]);
                }
            }
            assert(self@.grid =~= old(self)@.grid.drop_last().insert(index as int, row@));
        }
    }

    /// Whether some cell of `p`, moved by `(dy, dx)`, is occupied.
    fn collision_at(&self, piece: &Placement, dy: i8, dx: i8) -> (r: bool)
        requires
            self.wf(),
            piece.wf(),
        ensures
            r == self@.collides_at(*piece, dy as int, dx as int),
    {
        let locations = piece.rel_locations();
        let mut k: usize = 0;
        while k < 4
            invariant
                self.wf(),
                piece.wf(),
                k <= 4,
                forall|j: int|
                    0 <= j < 4 ==> pt_int(#[trigger] locations[j]) == rel_cell(
                        piece.piece_type as int,
                        piece.rotation_state as int,
                        j,
                    ),
                forall|j: int| 0 <= j < 4 ==> -2 <= (#[trigger] locations[j]).0 <= 2 && -2 <= locations[j].1 <= 2,
                forall|j: int| 0 <= j < k ==> !self@.cell_occupied(*piece, j, dy as int, dx as int),
            decreases 4 - k,
        {
            let (y, x) = self.cell_of(piece, locations[k], dy, dx);
            if y >= 0 && x >= 0 && self.get(y as usize, x as usize) {
                return true;
            }
            k = k + 1;
        }
        false
    }

    /// The absolute coordinates of a relative cell of `piece`, moved by `(dy, dx)`.
    fn cell_of(&self, piece: &Placement, rel: Point, dy: i8, dx: i8) -> (r: (i16, i16))
        requires
            -2 <= rel.0 <= 2,
            -2 <= rel.1 <= 2,
        ensures
            r.0 == piece.row + rel.0 + dy,
            r.1 == piece.col + rel.1 + dx,
    {
        (piece.row as i16 + rel.0 as i16 + dy as i16, piece.col as i16 + rel.1 as i16 + dx as i16)
    }

    /// Whether all cells of `p`, moved by `(dy, dx)`, lie on the board.
    fn in_bounds_at_exec(&self, piece: &Placement, dy: i8, dx: i8) -> (r: bool)
        requires
            self.wf(),
            piece.wf(),
        ensures
            r == self@.in_bounds_at(*piece, dy as int, dx as int),
    {
        let locations = piece.rel_locations();
        let mut k: usize = 0;
        while k < 4
            invariant
                self.wf(),
                piece.wf(),
                k <= 4,
                forall|j: int|
                    0 <= j < 4 ==> pt_int(#[trigger] locations[j]) == rel_cell(
                        piece.piece_type as int,
                        piece.rotation_state as int,
                        j,
                    ),
                forall|j: int| 0 <= j < 4 ==> -2 <= (#[trigger] locations[j]).0 <= 2 && -2 <= locations[j].1 <= 2,
                forall|j: int| 0 <= j < k ==> self@.cell_inside(*piece, j, dy as int, dx as int),
            decreases 4 - k,
        {
            let (y, x) = self.cell_of(piece, locations[k], dy, dx);
            if !(y >= 0 && x >= 0 && (y as usize) < self.height && (x as usize) < self.width) {
                return false;
            }
            k = k + 1;
        }
        true
    }

    /// Whether `p`, moved by `(dy, dx)`, lies on the board over empty cells.
    pub fn fits(&self, piece: &Placement, dy: i8, dx: i8) -> (r: bool)
        requires
            self.wf(),
            piece.wf(),
        ensures
            r == self@.fits_at(*piece, dy as int, dx as int),
    {
        self.in_bounds_at_exec(piece, dy, dx) && !self.collision_at(piece, dy, dx)
    }

    pub fn piece_collision(&self, piece: &Placement) -> (r: bool)
        requires
            self.wf(),
            piece.wf(),
        ensures
            r == self@.collides_at(*piece, 0, 0),
    {
        self.collision_at(piece, 0, 0)
    }

    pub fn piece_in_bounds(&self, piece: &Placement) -> (r: bool)
        requires
            self.wf(),
            piece.wf(),
        ensures
            r == self@.in_bounds_at(*piece, 0, 0),
    {
        self.in_bounds_at_exec(piece, 0, 0)
    }

    pub fn piece_valid_location(&self, piece: &Placement) -> (r: bool)
        requires
            self.wf(),
            piece.wf(),
        ensures
            r == self@.valid_location(*piece),
    {
        self.piece_in_bounds(piece) && !self.piece_collision(piece)
    }

    pub fn piece_grounded(&self, piece: &Placement) -> (r: bool)
        requires
            self.wf(),
            piece.wf(),
        ensures
            r == self@.grounded(*piece),
    {
        !self.fits(piece, -1, 0)
    }

    pub fn piece_valid_placement(&self, piece: &Placement) -> (r: bool)
        requires
            self.wf(),
            piece.wf(),
        ensures
            r == self@.valid_placement(*piece),
    {
        self.piece_valid_location(piece) && self.piece_grounded(piece)
    }

    /// Whether `(row, col)` lies on the board.
    fn in_bounds(&self, row: usize, col: usize) -> (r: bool)
        ensures
            r == self@.inside(row as int, col as int),
    {
        row < self.height && col < self.width
    }
}

/// Cell `pivot_index(t)` of piece type `t` is its pivot `(0, 0)`.
pub open spec fn pivot_index(piece_type: int) -> int {
    if piece_type == 3 {
        3
    } else if piece_type == 4 {
        1
    } else {
        2
    }
}

pub proof fn lemma_pivot(p: Placement)
    requires
        p.wf(),
    ensures
        p.cell(pivot_index(p.piece_type as int)) == (p.row as int, p.col as int),
{
    assert(base_cell(p.piece_type as int, pivot_index(p.piece_type as int)) == (0int, 0int));
}

/// Moving `p` by `(a, b)` and then by `(dy, dx)` is moving it by `(a + dy, b + dx)`.
pub proof fn lemma_shifted_cells(p: Placement, a: int, b: int, k: int)
    requires
        i8::MIN <= p.row + a <= i8::MAX,
        i8::MIN <= p.col + b <= i8::MAX,
    ensures
        p.shifted(a, b).cell(k) == (p.cell(k).0 + a, p.cell(k).1 + b),
{
}

impl Board {
    /// Moves `p` by `(dy, dx)` if it fits there; reports whether it did.
    pub fn try_move(&self, p: &mut Placement, dy: i8, dx: i8) -> (r: bool)
        requires
            self.wf(),
            old(p).wf(),
        ensures
            r == self@.fits_at(*old(p), dy as int, dx as int),
            r ==> Some(*final(p)) == self@.moved(*old(p), dy as int, dx as int),
            !r ==> *final(p) == *old(p),
            final(p).wf(),
    {
        if self.fits(p, dy, dx) {
            proof {
                self@.lemma_fits_pivot(*p, dy as int, dx as int);
            }
            p.shift(dy, dx);
            true
        } else {
            false
        }
    }

    fn first_fitting_kick(&self, q: &Placement, offsets: &[Point; 6], dir: usize) -> (r: usize)
        requires
            self.wf(),
            q.wf(),
            1 <= dir <= 3,
            forall|j: int|
                0 <= j < 6 ==> pt_int(#[trigger] offsets[j]) == kick(
                    q.piece_type as int,
                    q.rotation_state as int,
                    dir as int,
                    j,
                ),
        ensures
            r == self@.first_kick(*q, dir as int, 0),
    {
        let mut j: usize = 0;
        while j < 6
            invariant
                self.wf(),
                q.wf(),
                1 <= dir <= 3,
                j <= 6,
                forall|i: int|
                    0 <= i < 6 ==> pt_int(#[trigger] offsets[i]) == kick(
                        q.piece_type as int,
                        q.rotation_state as int,
                        dir as int,
                        i,
                    ),
                self@.first_kick(*q, dir as int, 0) == self@.first_kick(*q, dir as int, j as int),
            decreases 6 - j,
        {
            let (y, x) = offsets[j];
            proof {
                lemma_kick_small(q.piece_type as int, q.rotation_state as int, dir as int, j as int);
                assert(pt_int(offsets[j as int]) == kick(q.piece_type as int, q.rotation_state as int, dir as int, j as int));
            }
            if self.fits(q, -y, -x) {
                return j;
            }
            j = j + 1;
        }
        6
    }

    /// Turns `p` by `dir` quarter turns, trying the kick candidates in order;
    /// on failure leaves it unchanged. Reports whether it turned.
    pub fn try_rotate(&self, p: &mut Placement, dir: usize) -> (r: bool)
        requires
            self.wf(),
            old(p).wf(),
            1 <= dir <= 3,
        ensures
            r == self@.rotated(*old(p), dir as int).is_some(),
            r ==> Some(*final(p)) == self@.rotated(*old(p), dir as int),
            !r ==> *final(p) == *old(p),
            final(p).wf(),
    {
        let mut q = *p;
        q.rotate(dir);
        let offsets = q.get_offsets(dir);
        let j = self.first_fitting_kick(&q, &offsets, dir);
        proof {
            self@.lemma_first_kick(q, dir as int, 0);
        }
        if j < 6 {
            let (y, x) = offsets[j];
            assert(pt_int(offsets[j as int]) == kick(q.piece_type as int, q.rotation_state as int, dir as int, j as int));
            proof {
                lemma_kick_small(q.piece_type as int, q.rotation_state as int, dir as int, j as int);
            }
            proof {
                self@.lemma_fits_pivot(q, -y as int, -x as int);
            }
            q.shift(-y, -x);
            *p = q;
            true
        } else {
            false
        }
    }

    /// Lets `p` fall as far as it fits; returns how many rows it fell.
    pub fn drop_piece(&self, p: &mut Placement) -> (r: i8)
        requires
            self.wf(),
            old(p).wf(),
        ensures
            r as int == self@.drop_distance(*old(p), 0),
            *final(p) == self@.dropped(*old(p)),
            final(p).wf(),
            r >= 0,
    {
        let ghost p0 = *p;
        let mut d: i8 = 0;
        while self.fits(p, -1, 0)
            invariant
                self.wf(),
                p.wf(),
                p0.wf(),
                0 <= d <= 130,
                d == 0 || p0.row - d >= 0,
                *p == p0.shifted(-(d as int), 0),
                self@.drop_distance(p0, 0) == self@.drop_distance(p0, d as nat),
            decreases p.row + 3,
        {
            proof {
                self@.lemma_fits_shifted(p0, -(d as int), 0, -1, 0);
                self@.lemma_fits_pivot(*p, -1, 0);
            }
            p.shift(-1, 0);
            d = d + 1;
        }
        proof {
            self@.lemma_fits_shifted(p0, -(d as int), 0, -1, 0);
        }
        d
    }
}

/// `p` covers the cell `(r, c)`.
pub open spec fn covers(p: Placement, r: int, c: int) -> bool {
    p.cell(0) == (r, c) || p.cell(1) == (r, c) || p.cell(2) == (r, c) || p.cell(3) == (r, c)
}

/// How cell `(r, c)` is drawn: occupied, under the active piece, or empty.
pub open spec fn glyph(b: BoardModel, p: Placement, r: int, c: int) -> Seq<char> {
    if b.occupied(r, c) {
        seq!['#', ' ']
    } else if covers(p, r, c) {
        seq!['@', ' ']
    } else {
        seq!['.', ' ']
    }
}

/// The first `n` cells of row `r`, drawn.
pub open spec fn render_row(b: BoardModel, p: Placement, r: int, n: nat) -> Seq<char>
    decreases n,
{
    if n == 0 {
        seq![]
    } else {
        render_row(b, p, r, (n - 1) as nat) + glyph(b, p, r, n - 1)
    }
}

/// The top `n` rows drawn, the highest first, each ending in a newline.
pub open spec fn render(b: BoardModel, p: Placement, n: nat) -> Seq<char>
    decreases n,
{
    if n == 0 {
        seq![]
    } else {
        render(b, p, (n - 1) as nat) + render_row(b, p, b.height - n, b.width as nat) + seq!['\n']
    }
}

/// Relies on std's `FromIterator<char>` for `String`: the characters, in order.
#[verifier::external_body]
fn chars_to_string(v: &Vec<char>) -> (r: String)
    ensures
        r@ == v@,
{
    v.iter().collect()
}

fn push_glyph(out: &mut Vec<char>, occupied: bool, active: bool)
    ensures
        final(out)@ == old(out)@ + (if occupied {
            seq!['#', ' ']
        } else if active {
            seq!['@', ' ']
        } else {
            seq!['.', ' ']
        }),
{
    if occupied {
        out.push('#');
    } else if active {
        out.push('@');
    } else {
        out.push('.');
    }
    out.push(' ');
}

impl Board {
    /// Draws the board with `piece` over it, the top row first: `#` for an
    /// occupied cell, `@` for a cell of the piece, `.` for an empty cell.
    pub fn to_string(&self, piece: &Placement) -> (r: String)
        requires
            self.wf(),
            piece.wf(),
        ensures
            r@ == render(self@, *piece, self.height as nat),
    {
        let locations = piece.rel_locations();
        let mut out: Vec<char> = Vec::new();
        let mut n: usize = 0;
        while n < self.height
            invariant
                self.wf(),
                piece.wf(),
                n <= self.height,
                out@ == render(self@, *piece, n as nat),
                forall|j: int|
                    0 <= j < 4 ==> pt_int(#[trigger] locations[j]) == rel_cell(
                        piece.piece_type as int,
                        piece.rotation_state as int,
                        j,
                    ),
            decreases self.height - n,
        {
            let row = self.height - 1 - n;
            let ghost before_row = out@;
            let mut col: usize = 0;
            while col < self.width
                invariant
                    self.wf(),
                    n < self.height,
                    row == self.height - 1 - n,
                    col <= self.width,
                    out@ == before_row + render_row(self@, *piece, row as int, col as nat),
                    forall|j: int|
                        0 <= j < 4 ==> pt_int(#[trigger] locations[j]) == rel_cell(
                            piece.piece_type as int,
                            piece.rotation_state as int,
                            j,
                        ),
                decreases self.width - col,
            {
                let occupied = self.get(row, col);
                let r = row as i16;
                let c = col as i16;
                let pr = piece.row as i16;
                let pc = piece.col as i16;
                let mut active = false;
                let mut k: usize = 0;
                while k < 4
                    invariant
                        k <= 4,
                        active == exists|j: int| 0 <= j < k && piece.cell(j) == (r as int, c as int),
                        forall|j: int|
                            0 <= j < 4 ==> pt_int(#[trigger] locations[j]) == rel_cell(
                                piece.piece_type as int,
                                piece.rotation_state as int,
                                j,
                            ),
                        r == row,
                        c == col,
                        row < 200,
                        col < 200,
                        pr == piece.row,
                        pc == piece.col,
                    decreases 4 - k,
                {
                    let (dy, dx) = locations[k];
                    if dy as i16 + pr == r && dx as i16 + pc == c {
                        active = true;
                    }
                    k = k + 1;
                    assert(active == exists|j: int| 0 <= j < k && piece.cell(j) == (r as int, c as int)) by {
                        assert(pt_int(locations[k - 1]) == rel_cell(piece.piece_type as int, piece.rotation_state as int, k - 1));
                        if active && !(piece.cell(k - 1) == (r as int, c as int)) {
                            let j = choose|j: int| 0 <= j < k && piece.cell(j) == (r as int, c as int);
                        }
                    }
                }
                assert(active == covers(*piece, row as int, col as int)) by {
                    if covers(*piece, row as int, col as int) {
                        if piece.cell(0) == (r as int, c as int) {
                            assert(exists|j: int| 0 <= j < 4 && piece.cell(j) == (r as int, c as int));
                        } else if piece.cell(1) == (r as int, c as int) {
                            assert(exists|j: int| 0 <= j < 4 && piece.cell(j) == (r as int, c as int));
                        } else if piece.cell(2) == (r as int, c as int) {
                            assert(exists|j: int| 0 <= j < 4 && piece.cell(j) == (r as int, c as int));
                        } else {
                            assert(exists|j: int| 0 <= j < 4 && piece.cell(j) == (r as int, c as int));
                        }
                    }
                }
                push_glyph(&mut out, occupied, active);
                col = col + 1;
                assert(out@ =~= before_row + render_row(self@, *piece, row as int, col as nat));
            }
            out.push('\n');
            n = n + 1;
            assert(out@ =~= render(self@, *piece, n as nat));
        }
        chars_to_string(&out)
    }
}

/// A row of `n` empty cells.
pub fn new_row(n: usize) -> (r: Vec<bool>)
    ensures
        r@ == empty_row(n as int),
{
    let mut v: Vec<bool> = Vec::new();
    let mut i: usize = 0;
    while i < n
        invariant
            i <= n,
            v@ == Seq::new(i as nat, |j: int| false),
        decreases n - i,
    {
        v.push(false);
        i = i + 1;
        assert(v@ =~= Seq::new(i as nat, |j: int| false));
    }
    v
}

} // verus!
