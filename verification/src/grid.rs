//! A rectangle of cells, some of which are walls.

use vstd::prelude::*;
use crate::coordinate::Coordinate;

verus! {

/// An obstacle grid of `width` columns and `height` rows.
pub struct Grid {
    width: usize,
    height: usize,
    obstacles: Vec<Vec<bool>>,
}

impl Grid {
    /// The number of columns.
    pub closed spec fn columns(&self) -> int {
        self.width as int
    }

    /// The number of rows.
    pub closed spec fn rows(&self) -> int {
        self.height as int
    }

    /// Whether the grid was given a cell in column `x` of row `y`.
    pub closed spec fn present(&self, x: int, y: int) -> bool {
        0 <= y < self.obstacles@.len() && 0 <= x < self.obstacles@[y]@.len()
    }

    /// Whether the cell in column `x` of row `y` is a wall.
    pub closed spec fn wall(&self, x: int, y: int) -> bool {
        self.obstacles@[y]@[x]
    }

    /// The grid of `width` columns and `height` rows whose cell (x, y) is a
    /// wall where `i[y][x]` is not 0. The rows may be fewer or more than
    /// `height` and of any lengths: a cell that `i` does not hold is not
    /// present.
    pub fn from_int_vecs(width: usize, height: usize, i: Vec<Vec<i64>>) -> (g: Grid)
        ensures
            g.columns() == width,
            g.rows() == height,
            forall|x: int, y: int| #[trigger] g.present(x, y) == (0 <= y < i@.len() && 0 <= x < i@[y]@.len()),
            forall|x: int, y: int| g.present(x, y) ==> #[trigger] g.wall(x, y) == (i@[y]@[x] != 0),
    {
        let mut obstacles: Vec<Vec<bool>> = Vec::new();
        let mut y: usize = 0;
        while y < i.len()
            invariant
                0 <= y <= i@.len(),
                obstacles@.len() == y,
                forall|r: int| 0 <= r < y ==> (#[trigger] obstacles@[r])@.len() == i@[r]@.len(),
                forall|c: int, r: int|
                    0 <= r < y && 0 <= c < i@[r]@.len() ==> obstacles@[r]@[c] == (i@[r]@[c] != 0),
            decreases i@.len() - y,
        {
            let mut row: Vec<bool> = Vec::new();
            let mut x: usize = 0;
            while x < i[y].len()
                invariant
                    0 <= x <= i@[y as int]@.len(),
                    y < i@.len(),
                    row@.len() == x,
                    forall|c: int| 0 <= c < x ==> row@[c] == (i@[y as int]@[c] != 0),
                decreases i@[y as int]@.len() - x,
            {
                row.push(i[y][x] != 0);
                x += 1;
            }
            obstacles.push(row);
            y += 1;
        }
        Grid { width, height, obstacles }
    }

    /// Whether the cell at `at` is a wall, or `None` when `at` is not on
    /// the grid or the cell is not present.
    pub fn wall_at(&self, at: Coordinate) -> (w: Option<bool>)
        ensures
            w == if 0 <= at.x < self.columns() && 0 <= at.y < self.rows() && self.present(
                at.x as int,
                at.y as int,
            ) {
                Some(self.wall(at.x as int, at.y as int))
            } else {
                None
            },
    {
        if at.x < 0 || at.y < 0 {
            return None;
        }
        let x = at.x as u64;
        let y = at.y as u64;
        if x >= self.width as u64 || y >= self.height as u64 {
            return None;
        }
        if y as usize >= self.obstacles.len() {
            return None;
        }
        let row = &self.obstacles[y as usize];
        if x as usize >= row.len() {
            None
        } else {
            Some(row[x as usize])
        }
    }
}

} // verus!
