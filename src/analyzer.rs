//! Turning a grayscale frame into a board.
use vstd::prelude::*;
use crate::board::Board;

verus! {

/// A pixel brighter than this is an occupied cell.
pub const THRESHOLD: u8 = 125;

/// Cell `(r, c)` of the board read from a `width` by `height` grayscale frame
/// stored row by row from the top: the frame's top row is the board's highest.
pub open spec fn frame_cell(data: Seq<u8>, width: int, height: int, r: int, c: int) -> bool {
    data[(height - 1 - r) * width + c] > THRESHOLD
}

/// The board seen in a grayscale frame of `width` by `height` pixels, stored
/// row by row from the top.
pub fn to_board(width: usize, height: usize, data: &Vec<u8>) -> (r: Board)
    requires
        height >= 1,
        data@.len() == width * height,
    ensures
        r.width == width,
        r.height == height,
        r.arr@.len() == height,
        forall|i: int| 0 <= i < height ==> (#[trigger] r.arr@[i])@.len() == width,
        forall|i: int, j: int|
            0 <= i < height && 0 <= j < width ==> #[trigger] r.arr@[i]@[j] == frame_cell(
                data@,
                width as int,
                height as int,
                i,
                j,
            ),
{
    let total = data.len();
    let mut arr: Vec<Vec<bool>> = Vec::new();
    let mut n: usize = 0;
    while n < height
        invariant
            n <= height,
            data@.len() == width * height,
            total == data@.len(),
            arr@.len() == n,
            forall|i: int| 0 <= i < n ==> (#[trigger] arr@[i])@.len() == width,
            forall|i: int, j: int|
                0 <= i < n && 0 <= j < width ==> #[trigger] arr@[i]@[j] == frame_cell(
                    data@,
                    width as int,
                    height as int,
                    i,
                    j,
                ),
        decreases height - n,
    {
        let h = height - 1 - n;
        assert(h * width + width <= width * height) by (nonlinear_arith)
            requires h < height, h >= 0, width >= 0;
        assert(h * width + width <= total);
        let start = h * width;
        let mut line: Vec<bool> = Vec::new();
        let mut c: usize = 0;
        while c < width
            invariant
                c <= width,
                start == h * width,
                h == height - 1 - n,
                n < height,
                start + width <= data@.len(),
                data@.len() == width * height,
                total == data@.len(),
                line@.len() == c,
                forall|j: int| 0 <= j < c ==> #[trigger] line@[j] == frame_cell(
                    data@,
                    width as int,
                    height as int,
                    n as int,
                    j,
                ),
            decreases width - c,
        {
            line.push(data[start + c] > THRESHOLD);
            c = c + 1;
        }
        arr.push(line);
        n = n + 1;
    }
    Board::from_vec(arr)
}

} // verus!
