//! Piece geometry: placements, rotation shapes and wall-kick tables.
use vstd::prelude::*;

verus! {

/// A cell offset `(row, col)` relative to a piece's pivot.
pub type Point = (i8, i8);

pub const NUM_PIECES: usize = 7;
pub const ROTATION_STATES: usize = 4;
pub const PIECE_SIZE: usize = 4;
pub const NUM_KICKS: usize = 6;

/// The position of the active piece.
#[derive(Clone, Copy, Debug, PartialEq, Eq, Structural, Hash)]
pub struct Placement {
    pub piece_type: usize,
    pub rotation_state: usize,
    pub row: i8,
    pub col: i8,
}

pub open spec fn pt_int(p: Point) -> (int, int) {
    (p.0 as int, p.1 as int)
}

/// The cells of each piece type in rotation state 0 (types Z, L, O, S, I, J, T).
pub open spec fn base_cell(piece_type: int, k: int) -> (int, int) {
    if piece_type == 0 {
        seq![(1int, -1int), (1, 0), (0, 0), (0, 1)][k]
    } else if piece_type == 1 {
        seq![(1int, 1int), (0, -1), (0, 0), (0, 1)][k]
    } else if piece_type == 2 {
        seq![(1int, 0int), (1, 1), (0, 0), (0, 1)][k]
    } else if piece_type == 3 {
        seq![(1int, 0int), (1, 1), (0, -1), (0, 0)][k]
    } else if piece_type == 4 {
        seq![(0int, -1int), (0, 0), (0, 1), (0, 2)][k]
    } else if piece_type == 5 {
        seq![(1int, -1int), (0, -1), (0, 0), (0, 1)][k]
    } else {
        seq![(1int, 0int), (0, -1), (0, 0), (0, 1)][k]
    }
}

/// A quarter turn clockwise about the pivot.
pub open spec fn turn(p: (int, int)) -> (int, int) {
    (-p.1, p.0)
}

pub open spec fn turned(p: (int, int), n: int) -> (int, int) {
    if n == 0 {
        p
    } else if n == 1 {
        turn(p)
    } else if n == 2 {
        turn(turn(p))
    } else {
        turn(turn(turn(p)))
    }
}

/// Cell `k` of a piece in a rotation state: its rotation-0 cell turned that many times.
pub open spec fn rel_cell(piece_type: int, rotation_state: int, k: int) -> (int, int) {
    turned(base_cell(piece_type, k), rotation_state)
}

/// Which kick table a piece type uses: 0 general, 1 square, 2 long.
pub open spec fn kick_table(piece_type: int) -> int {
    if piece_type == 2 {
        1
    } else if piece_type == 4 {
        2
    } else {
        0
    }
}

/// The kick candidates for a piece type, the rotation state reached, and a direction.
#[verifier::opaque]
pub open spec fn kick_row(table: int, rs: int, dir: int) -> Seq<(int, int)> {
    if table == 0 {
        if rs == 0 {
            if dir == 1 { seq![(0int, 0int), (0, -1), (1, -1), (-2, 0), (-2, -1), (-2, -1)] }
            else if dir == 2 { seq![(0int, 0int), (1, 0), (1, 1), (1, -1), (0, 1), (0, -1)] }
            else { seq![(0int, 0int), (0, 1), (1, 1), (-2, 0), (-2, 1), (-2, -1)] }
        } else if rs == 1 {
            if dir == 1 { seq![(0int, 0int), (0, 1), (-1, 1), (2, 0), (2, 1), (2, 1)] }
            else if dir == 2 { seq![(0int, 0int), (0, 1), (2, 1), (1, 1), (2, 0), (-1, 0)] }
            else { seq![(0int, 0int), (0, 1), (-1, 1), (2, 0), (2, 1), (2, 1)] }
        } else if rs == 2 {
            if dir == 1 { seq![(0int, 0int), (0, 1), (1, 1), (-2, 0), (-2, 1), (-2, 1)] }
            else if dir == 2 { seq![(0int, 0int), (-1, 0), (-1, -1), (-1, 1), (0, -1), (0, 1)] }
            else { seq![(0int, 0int), (0, -1), (1, -1), (-2, 0), (-2, -1), (-2, -1)] }
        } else {
            if dir == 1 { seq![(0int, 0int), (0, -1), (-1, -1), (2, 0), (2, -1), (2, -1)] }
            else if dir == 2 { seq![(0int, 0int), (0, -1), (2, -1), (1, -1), (2, 0), (-1, 0)] }
            else { seq![(0int, 0int), (0, -1), (-1, -1), (2, 0), (2, -1), (2, -1)] }
        }
    } else if table == 1 {
        let o = if rs == 0 {
            if dir == 1 { (1int, 0int) } else if dir == 2 { (1, 1) } else { (0, 1) }
        } else if rs == 1 {
            if dir == 1 { (0int, 1int) } else if dir == 2 { (-1, 1) } else { (-1, 0) }
        } else if rs == 2 {
            if dir == 1 { (-1int, 0int) } else if dir == 2 { (-1, -1) } else { (0, -1) }
        } else {
            if dir == 1 { (0int, -1int) } else if dir == 2 { (1, -1) } else { (1, 0) }
        };
        seq![o, o, o, o, o, o]
    } else {
        if rs == 0 {
            if dir == 1 { seq![(0int, 1int), (0, 2), (0, -1), (-1, -1), (2, 2), (2, 2)] }
            else if dir == 2 { seq![(-1int, 1int), (0, 1), (0, 1), (0, 1), (0, 1), (0, 1)] }
            else { seq![(-1int, 0int), (-1, -1), (-1, 2), (-2, 2), (2, -1), (2, -1)] }
        } else if rs == 1 {
            if dir == 1 { seq![(-1int, 0int), (-1, -1), (-1, 2), (1, -1), (-2, 2), (-2, 2)] }
            else if dir == 2 { seq![(-1int, -1int), (-1, 0), (-1, 0), (-1, 0), (-1, 0), (-1, 0)] }
            else { seq![(0int, -1int), (0, -2), (0, 1), (-2, -2), (1, 1), (1, 1)] }
        } else if rs == 2 {
            if dir == 1 { seq![(0int, -1int), (0, 1), (0, -2), (1, 1), (-2, -2), (-2, -2)] }
            else if dir == 2 { seq![(1int, -1int), (0, -1), (0, -1), (0, -1), (0, -1), (0, -1)] }
            else { seq![(1int, 0int), (1, -2), (1, 1), (2, -2), (-1, 1), (-1, 1)] }
        } else {
            if dir == 1 { seq![(1int, 0int), (1, 1), (1, -2), (-1, 1), (2, -2), (2, -2)] }
            else if dir == 2 { seq![(1int, 1int), (1, 0), (1, 0), (1, 0), (1, 0), (1, 0)] }
            else { seq![(0int, 1int), (0, 2), (0, -1), (2, 2), (-1, -1), (-1, -1)] }
        }
    }
}

/// Kick candidate `j` for a piece type, the rotation state reached, and a direction.
pub open spec fn kick(piece_type: int, rs: int, dir: int, j: int) -> (int, int) {
    kick_row(kick_table(piece_type), rs, dir)[j]
}

/// Every kick candidate moves by at most 2 in each direction.
pub proof fn lemma_kick_small(piece_type: int, rs: int, dir: int, j: int)
    requires
        0 <= rs < 4,
        1 <= dir <= 3,
        0 <= j < 6,
    ensures
        -2 <= kick(piece_type, rs, dir, j).0 <= 2,
        -2 <= kick(piece_type, rs, dir, j).1 <= 2,
{
    reveal(kick_row);
}

fn base_locations(piece_type: usize) -> (r: [Point; 4])
    requires
        piece_type < NUM_PIECES,
    ensures
        forall|k: int| 0 <= k < 4 ==> pt_int(#[trigger] r[k]) == base_cell(piece_type as int, k),
{
    if piece_type == 0 {
        [(1, -1), (1, 0), (0, 0), (0, 1)]
    } else if piece_type == 1 {
        [(1, 1), (0, -1), (0, 0), (0, 1)]
    } else if piece_type == 2 {
        [(1, 0), (1, 1), (0, 0), (0, 1)]
    } else if piece_type == 3 {
        [(1, 0), (1, 1), (0, -1), (0, 0)]
    } else if piece_type == 4 {
        [(0, -1), (0, 0), (0, 1), (0, 2)]
    } else if piece_type == 5 {
        [(1, -1), (0, -1), (0, 0), (0, 1)]
    } else {
        [(1, 0), (0, -1), (0, 0), (0, 1)]
    }
}


fn turn_point(p: Point) -> (r: Point)
    requires
        -2 <= p.0 <= 2,
        -2 <= p.1 <= 2,
    ensures
        pt_int(r) == turn(pt_int(p)),
        -2 <= r.0 <= 2,
        -2 <= r.1 <= 2,
{
    (-p.1, p.0)
}

fn kick_row_exec(table: usize, rs: usize, dir: usize) -> (r: [Point; 6])
    requires
        table < 3,
        rs < 4,
        1 <= dir <= 3,
    ensures
        forall|j: int| 0 <= j < 6 ==> pt_int(#[trigger] r[j]) == kick_row(table as int, rs as int, dir as int)[j],
{
    reveal(kick_row);
    if table == 0 {
        if rs == 0 {
            if dir == 1 { [(0, 0), (0, -1), (1, -1), (-2, 0), (-2, -1), (-2, -1)] }
            else if dir == 2 { [(0, 0), (1, 0), (1, 1), (1, -1), (0, 1), (0, -1)] }
            else { [(0, 0), (0, 1), (1, 1), (-2, 0), (-2, 1), (-2, -1)] }
        } else if rs == 1 {
            if dir == 1 { [(0, 0), (0, 1), (-1, 1), (2, 0), (2, 1), (2, 1)] }
            else if dir == 2 { [(0, 0), (0, 1), (2, 1), (1, 1), (2, 0), (-1, 0)] }
            else { [(0, 0), (0, 1), (-1, 1), (2, 0), (2, 1), (2, 1)] }
        } else if rs == 2 {
            if dir == 1 { [(0, 0), (0, 1), (1, 1), (-2, 0), (-2, 1), (-2, 1)] }
            else if dir == 2 { [(0, 0), (-1, 0), (-1, -1), (-1, 1), (0, -1), (0, 1)] }
            else { [(0, 0), (0, -1), (1, -1), (-2, 0), (-2, -1), (-2, -1)] }
        } else {
            if dir == 1 { [(0, 0), (0, -1), (-1, -1), (2, 0), (2, -1), (2, -1)] }
            else if dir == 2 { [(0, 0), (0, -1), (2, -1), (1, -1), (2, 0), (-1, 0)] }
            else { [(0, 0), (0, -1), (-1, -1), (2, 0), (2, -1), (2, -1)] }
        }
    } else if table == 1 {
        let o: Point = if rs == 0 {
            if dir == 1 { (1, 0) } else if dir == 2 { (1, 1) } else { (0, 1) }
        } else if rs == 1 {
            if dir == 1 { (0, 1) } else if dir == 2 { (-1, 1) } else { (-1, 0) }
        } else if rs == 2 {
            if dir == 1 { (-1, 0) } else if dir == 2 { (-1, -1) } else { (0, -1) }
        } else {
            if dir == 1 { (0, -1) } else if dir == 2 { (1, -1) } else { (1, 0) }
        };
        [o, o, o, o, o, o]
    } else {
        if rs == 0 {
            if dir == 1 { [(0, 1), (0, 2), (0, -1), (-1, -1), (2, 2), (2, 2)] }
            else if dir == 2 { [(-1, 1), (0, 1), (0, 1), (0, 1), (0, 1), (0, 1)] }
            else { [(-1, 0), (-1, -1), (-1, 2), (-2, 2), (2, -1), (2, -1)] }
        } else if rs == 1 {
            if dir == 1 { [(-1, 0), (-1, -1), (-1, 2), (1, -1), (-2, 2), (-2, 2)] }
            else if dir == 2 { [(-1, -1), (-1, 0), (-1, 0), (-1, 0), (-1, 0), (-1, 0)] }
            else { [(0, -1), (0, -2), (0, 1), (-2, -2), (1, 1), (1, 1)] }
        } else if rs == 2 {
            if dir == 1 { [(0, -1), (0, 1), (0, -2), (1, 1), (-2, -2), (-2, -2)] }
            else if dir == 2 { [(1, -1), (0, -1), (0, -1), (0, -1), (0, -1), (0, -1)] }
            else { [(1, 0), (1, -2), (1, 1), (2, -2), (-1, 1), (-1, 1)] }
        } else {
            if dir == 1 { [(1, 0), (1, 1), (1, -2), (-1, 1), (2, -2), (2, -2)] }
            else if dir == 2 { [(1, 1), (1, 0), (1, 0), (1, 0), (1, 0), (1, 0)] }
            else { [(0, 1), (0, 2), (0, -1), (2, 2), (-1, -1), (-1, -1)] }
        }
    }
}

impl Placement {
    /// A piece type below 7 and a rotation state below 4.
    pub open spec fn wf(self) -> bool {
        self.piece_type < NUM_PIECES && self.rotation_state < ROTATION_STATES
    }

    /// Absolute cell `k` of the placed piece.
    pub open spec fn cell(self, k: int) -> (int, int) {
        let c = rel_cell(self.piece_type as int, self.rotation_state as int, k);
        (self.row + c.0, self.col + c.1)
    }

    /// The same placement moved by `(dy, dx)`.
    pub open spec fn shifted(self, dy: int, dx: int) -> Placement {
        Placement { row: (self.row + dy) as i8, col: (self.col + dx) as i8, ..self }
    }

    pub fn new(piece_type: usize, rotation_state: usize, row: i8, col: i8) -> (r: Self)
        ensures
            r == (Placement { piece_type, rotation_state, row, col }),
    {
        Self { piece_type, rotation_state, row, col }
    }

    /// The four cells of the piece relative to its pivot.
    pub fn rel_locations(&self) -> (r: [Point; 4])
        requires
            self.wf(),
        ensures
            forall|k: int|
                0 <= k < 4 ==> pt_int(#[trigger] r[k]) == rel_cell(
                    self.piece_type as int,
                    self.rotation_state as int,
                    k,
                ),
            forall|k: int| 0 <= k < 4 ==> -2 <= (#[trigger] r[k]).0 <= 2 && -2 <= r[k].1 <= 2,
    {
        let b = base_locations(self.piece_type);
        let mut out: [Point; 4] = b;
        let mut k: usize = 0;
        while k < 4
            invariant
                k <= 4,
                forall|j: int| 0 <= j < 4 ==> pt_int(#[trigger] b[j]) == base_cell(self.piece_type as int, j),
                forall|j: int| 0 <= j < k ==> pt_int(#[trigger] out[j]) == rel_cell(
                    self.piece_type as int,
                    self.rotation_state as int,
                    j,
                ),
                forall|j: int| k <= j < 4 ==> #[trigger] out[j] == b[j],
                forall|j: int| 0 <= j < 4 ==> -2 <= (#[trigger] out[j]).0 <= 2 && -2 <= out[j].1 <= 2,
                self.wf(),
            decreases 4 - k,
        {
            let mut c = b[k];
            let mut n: usize = 0;
            while n < self.rotation_state
                invariant
                    n <= self.rotation_state,
                    self.wf(),
                    k < 4,
                    pt_int(c) == turned(pt_int(b[k as int]), n as int),
                    -2 <= c.0 <= 2,
                    -2 <= c.1 <= 2,
                decreases self.rotation_state - n,
            {
                c = turn_point(c);
                n = n + 1;
            }
            out[k] = c;
            k = k + 1;
        }
        out
    }

    /// Moves the placement by `y` rows and `x` columns.
    pub fn shift(&mut self, y: i8, x: i8)
        requires
            i8::MIN <= old(self).row + y <= i8::MAX,
            i8::MIN <= old(self).col + x <= i8::MAX,
        ensures
            *final(self) == old(self).shifted(y as int, x as int),
    {
        self.row = self.row + y;
        self.col = self.col + x;
    }

    /// Advances the rotation state by `direction` quarter turns clockwise.
    pub fn rotate(&mut self, direction: usize)
        requires
            old(self).rotation_state < ROTATION_STATES,
            direction < ROTATION_STATES,
        ensures
            *final(self) == (Placement {
                rotation_state: ((old(self).rotation_state + direction) % 4) as usize,
                ..*old(self)
            }),
    {
        self.rotation_state = (self.rotation_state + direction) % 4;
    }

    /// The kick candidates for rotating into the current rotation state in `direction`.
    pub fn get_offsets(&self, direction: usize) -> (r: [Point; 6])
        requires
            self.wf(),
            1 <= direction <= 3,
        ensures
            forall|j: int|
                0 <= j < 6 ==> pt_int(#[trigger] r[j]) == kick(
                    self.piece_type as int,
                    self.rotation_state as int,
                    direction as int,
                    j,
                ),
    {
        let table: usize = if self.piece_type == 2 {
            1
        } else if self.piece_type == 4 {
            2
        } else {
            0
        };
        kick_row_exec(table, self.rotation_state, direction)
    }
}

} // verus!
