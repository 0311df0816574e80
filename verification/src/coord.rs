//! Pure cell-coordinate arithmetic: the square neighbourhood of cells around
//! a centre coordinate, enumerated in row-major order with the edges clamped
//! to the grid.

use vstd::prelude::*;
use vstd::arithmetic::div_mod::lemma_fundamental_div_mod;

verus! {

/// A cell coordinate: a pair of cell-resolution axes within the grid square.
#[derive(Copy, Clone, PartialEq, Eq, Structural, Debug)]
pub struct Coord {
    pub x: usize,
    pub y: usize,
}

/// The row of coordinates `min_x <= x <= max_x` at height `y`, left to right.
pub open spec fn coord_row(min_x: int, max_x: int, y: int) -> Seq<Coord> {
    Seq::new((max_x + 1 - min_x) as nat, |i: int| Coord { x: (min_x + i) as usize, y: y as usize })
}

/// All rows from `y` (inclusive) up to `max_y` (exclusive), each running from
/// `min_x` to `max_x` inclusive, in row-major order.
pub open spec fn coord_block(min_x: int, max_x: int, y: int, max_y: int) -> Seq<Coord>
    decreases max_y - y,
{
    if y >= max_y {
        Seq::empty()
    } else {
        coord_row(min_x, max_x, y) + coord_block(min_x, max_x, y + 1, max_y)
    }
}

/// The lower edge of a neighbourhood along one axis: `centre - distance`,
/// clamped to 0.
pub open spec fn clamped_low(centre: int, distance: int) -> int {
    if centre < distance {
        0
    } else {
        centre - distance
    }
}

/// The upper edge of a neighbourhood along one axis: `centre + distance`,
/// clamped to `ceiling`.
pub open spec fn clamped_high(centre: int, distance: int, ceiling: int) -> int {
    if centre + distance > ceiling {
        ceiling
    } else {
        centre + distance
    }
}

impl Coord {
    pub fn new(x: usize, y: usize) -> (c: Coord)
        ensures
            c.x == x,
            c.y == y,
    {
        Coord { x, y }
    }

    /// Enumerates every cell coordinate within `distance` of this coordinate
    /// along both axes, with each axis clamped to `[0, ceiling]`, in
    /// row-major order. The centre must itself lie within the grid, so the
    /// square is never empty.
    pub fn surrounding_coords(&self, distance: usize, ceiling: usize) -> (sc: SurroundingCoords)
        requires
            self.x <= ceiling,
            self.y <= ceiling,
            self.x + distance <= usize::MAX,
            self.y + distance <= usize::MAX,
            ceiling < usize::MAX,
        ensures
            sc.wf(),
            sc.remaining() == coord_block(
                clamped_low(self.x as int, distance as int),
                clamped_high(self.x as int, distance as int, ceiling as int),
                clamped_low(self.y as int, distance as int),
                clamped_high(self.y as int, distance as int, ceiling as int) + 1,
            ),
    {
        let min_x = if self.x < distance {
            0
        } else {
            self.x - distance
        };
        let min_y = if self.y < distance {
            0
        } else {
            self.y - distance
        };
        let max_x = if self.x + distance > ceiling {
            ceiling
        } else {
            self.x + distance
        };
        let max_y_inclusive = if self.y + distance > ceiling {
            ceiling
        } else {
            self.y + distance
        };
        let max_y = max_y_inclusive + 1;
        let sc = SurroundingCoords { min_x, max_x, max_y, x: min_x, y: min_y };
        proof {
            assert(sc.remaining() =~= coord_block(
                min_x as int,
                max_x as int,
                min_y as int,
                max_y as int,
            ));
        }
        sc
    }
}

/// An in-progress row-major enumeration of a clamped square of coordinates.
pub struct SurroundingCoords {
    min_x: usize,
    max_x: usize,
    max_y: usize,
    x: usize,
    y: usize,
}

impl SurroundingCoords {
    pub closed spec fn wf(self) -> bool {
        &&& self.min_x <= self.x <= self.max_x
        &&& self.y <= self.max_y
    }

    /// The coordinates this enumeration has not yet yielded: the rest of the
    /// current row, then every full row below it.
    pub closed spec fn remaining(self) -> Seq<Coord> {
        if self.y >= self.max_y {
            Seq::empty()
        } else {
            coord_row(self.x as int, self.max_x as int, self.y as int) + coord_block(
                self.min_x as int,
                self.max_x as int,
                self.y as int + 1,
                self.max_y as int,
            )
        }
    }

    /// Yields the next coordinate of the square, or `None` once the whole
    /// square has been yielded.
    pub fn next(&mut self) -> (r: Option<Coord>)
        requires
            old(self).wf(),
        ensures
            final(self).wf(),
            r matches Some(c) ==> {
                &&& old(self).remaining().len() > 0
                &&& c == old(self).remaining()[0]
                &&& final(self).remaining() == old(self).remaining().drop_first()
            },
            r is None ==> {
                &&& old(self).remaining().len() == 0
                &&& *final(self) == *old(self)
            },
    {
        if self.y == self.max_y {
            return None;
        }
        let coord = Coord { x: self.x, y: self.y };
        if self.x < self.max_x {
            self.x = self.x + 1;
            proof {
                assert(final(self).remaining() =~= old(self).remaining().drop_first());
            }
            Some(coord)
        } else {
            self.x = self.min_x;
            self.y = self.y + 1;
            proof {
                assert(final(self).remaining() =~= old(self).remaining().drop_first());
            }
            Some(coord)
        }
    }
}

/// The number of coordinates in a block: rows times columns.
pub proof fn lemma_coord_block_len(min_x: int, max_x: int, y: int, max_y: int)
    requires
        min_x <= max_x,
        y <= max_y,
    ensures
        coord_block(min_x, max_x, y, max_y).len() == (max_x + 1 - min_x) * (max_y - y),
    decreases max_y - y,
{
    if y < max_y {
        lemma_coord_block_len(min_x, max_x, y + 1, max_y);
        assert(coord_block(min_x, max_x, y, max_y).len() == (max_x + 1 - min_x) + coord_block(
            min_x,
            max_x,
            y + 1,
            max_y,
        ).len());
        assert((max_x + 1 - min_x) + (max_x + 1 - min_x) * (max_y - (y + 1)) == (max_x + 1 - min_x)
            * (max_y - y)) by (nonlinear_arith);
    } else {
        assert((max_x + 1 - min_x) * (max_y - y) == 0) by (nonlinear_arith)
            requires y == max_y;
    }
}

/// Where each coordinate of a block sits: entry `i` is row `i / width`,
/// column `i % width`, counting from the block's lower corner.
pub proof fn lemma_coord_block_index(min_x: int, max_x: int, y: int, max_y: int, i: int)
    requires
        min_x <= max_x,
        y <= max_y,
        0 <= i < coord_block(min_x, max_x, y, max_y).len(),
    ensures
        coord_block(min_x, max_x, y, max_y)[i] == (Coord {
            x: (min_x + i % (max_x + 1 - min_x)) as usize,
            y: (y + i / (max_x + 1 - min_x)) as usize,
        }),
    decreases max_y - y,
{
    let w = max_x + 1 - min_x;
    lemma_coord_block_len(min_x, max_x, y, max_y);
    if i < w {
        assert(i % w == i && i / w == 0) by (nonlinear_arith)
            requires 0 <= i < w;
        assert(coord_block(min_x, max_x, y, max_y)[i] == coord_row(min_x, max_x, y)[i]);
    } else {
        lemma_coord_block_index(min_x, max_x, y + 1, max_y, i - w);
        assert((i - w) % w == i % w && (i - w) / w == i / w - 1) by (nonlinear_arith)
            requires 0 < w <= i;
        assert(coord_block(min_x, max_x, y, max_y)[i] == coord_block(min_x, max_x, y + 1, max_y)[
            i - w]);
    }
}

/// Every coordinate of a block lies within the block's bounds.
pub proof fn lemma_coord_block_bounds(min_x: int, max_x: int, y: int, max_y: int)
    requires
        0 <= min_x <= max_x <= usize::MAX,
        0 <= y <= max_y <= usize::MAX,
    ensures
        forall|i: int|
            0 <= i < coord_block(min_x, max_x, y, max_y).len() ==> {
                let c = #[trigger] coord_block(min_x, max_x, y, max_y)[i];
                min_x <= c.x <= max_x && y <= c.y < max_y
            },
    decreases max_y - y,
{
    if y < max_y {
        lemma_coord_block_bounds(min_x, max_x, y + 1, max_y);
        let w = max_x + 1 - min_x;
        assert forall|i: int|
            #![trigger coord_block(min_x, max_x, y, max_y)[i]]
            0 <= i < coord_block(min_x, max_x, y, max_y).len() implies {
            let c = coord_block(min_x, max_x, y, max_y)[i];
            min_x <= c.x <= max_x && y <= c.y < max_y
        } by {
            if i < w {
                assert(coord_block(min_x, max_x, y, max_y)[i] == coord_row(min_x, max_x, y)[i]);
            } else {
                assert(coord_block(min_x, max_x, y, max_y)[i] == coord_block(
                    min_x,
                    max_x,
                    y + 1,
                    max_y,
                )[i - w]);
            }
        }
    }
}

/// No coordinate occurs twice in a block.
pub proof fn lemma_coord_block_distinct(min_x: int, max_x: int, y: int, max_y: int)
    requires
        0 <= min_x <= max_x <= usize::MAX,
        0 <= y <= max_y <= usize::MAX,
    ensures
        forall|i: int, j: int|
            #![trigger coord_block(min_x, max_x, y, max_y)[i], coord_block(min_x, max_x, y, max_y)[j]]
            0 <= i < j < coord_block(min_x, max_x, y, max_y).len() ==> coord_block(
                min_x,
                max_x,
                y,
                max_y,
            )[i] != coord_block(min_x, max_x, y, max_y)[j],
{
    let w = max_x + 1 - min_x;
    let h = max_y - y;
    lemma_coord_block_len(min_x, max_x, y, max_y);
    assert forall|i: int, j: int|
        #![trigger coord_block(min_x, max_x, y, max_y)[i], coord_block(min_x, max_x, y, max_y)[j]]
        0 <= i < j < coord_block(min_x, max_x, y, max_y).len() implies coord_block(
        min_x,
        max_x,
        y,
        max_y,
    )[i] != coord_block(min_x, max_x, y, max_y)[j] by {
        lemma_coord_block_index(min_x, max_x, y, max_y, i);
        lemma_coord_block_index(min_x, max_x, y, max_y, j);
        vstd::arithmetic::div_mod::lemma_multiply_divide_lt(i, w, h);
        vstd::arithmetic::div_mod::lemma_multiply_divide_lt(j, w, h);
        if coord_block(min_x, max_x, y, max_y)[i] == coord_block(min_x, max_x, y, max_y)[j] {
            assert(min_x + i % w <= max_x && min_x + j % w <= max_x);
            assert(y + i / w < max_y && y + j / w < max_y);
            assert(i % w == j % w && i / w == j / w);
            lemma_fundamental_div_mod(i, w);
            lemma_fundamental_div_mod(j, w);
        }
    }
}

/// Neighbourhood coverage: the square that `Coord::surrounding_coords`
/// enumerates around a centre holds a coordinate exactly when that
/// coordinate lies within `distance` of the centre on both axes, with each
/// axis clamped to `[0, ceiling]` rather than wrapping past an edge.
pub proof fn lemma_neighbourhood_coverage(centre: Coord, distance: usize, ceiling: usize, c: Coord)
    requires
        centre.x <= ceiling,
        centre.y <= ceiling,
        centre.x + distance <= usize::MAX,
        centre.y + distance <= usize::MAX,
        ceiling < usize::MAX,
    ensures
        ({
            let min_x = clamped_low(centre.x as int, distance as int);
            let max_x = clamped_high(centre.x as int, distance as int, ceiling as int);
            let min_y = clamped_low(centre.y as int, distance as int);
            let max_y = clamped_high(centre.y as int, distance as int, ceiling as int);
            coord_block(min_x, max_x, min_y, max_y + 1).contains(c) <==> (min_x <= c.x <= max_x
                && min_y <= c.y <= max_y)
        }),
{
    let min_x = clamped_low(centre.x as int, distance as int);
    let max_x = clamped_high(centre.x as int, distance as int, ceiling as int);
    let min_y = clamped_low(centre.y as int, distance as int);
    let max_y = clamped_high(centre.y as int, distance as int, ceiling as int);
    let block = coord_block(min_x, max_x, min_y, max_y + 1);
    lemma_coord_block_bounds(min_x, max_x, min_y, max_y + 1);
    if min_x <= c.x <= max_x && min_y <= c.y <= max_y {
        lemma_coord_block_contains(min_x, max_x, min_y, max_y + 1, c);
        assert(block[(c.y - min_y) * (max_x + 1 - min_x) + (c.x - min_x)] == c);
    }
    if block.contains(c) {
        let i = choose|i: int| 0 <= i < block.len() && block[i] == c;
        assert(min_x <= block[i].x <= max_x && min_y <= block[i].y < max_y + 1);
    }
}

/// A coordinate within the bounds of a block occurs in it, at the row-major
/// index computed from its offsets; together with `lemma_coord_block_index`
/// this pins the block down as exactly the bounded square, each coordinate
/// once.
pub proof fn lemma_coord_block_contains(min_x: int, max_x: int, y: int, max_y: int, c: Coord)
    requires
        min_x <= c.x <= max_x,
        y <= c.y < max_y,
    ensures
        0 <= (c.y - y) * (max_x + 1 - min_x) + (c.x - min_x) < coord_block(
            min_x,
            max_x,
            y,
            max_y,
        ).len(),
        coord_block(min_x, max_x, y, max_y)[(c.y - y) * (max_x + 1 - min_x) + (c.x - min_x)] == c,
{
    let w = max_x + 1 - min_x;
    let i = (c.y - y) * w + (c.x - min_x);
    lemma_coord_block_len(min_x, max_x, y, max_y);
    assert(0 <= i < (max_y - y) * w) by (nonlinear_arith)
        requires
            0 <= c.x - min_x < w,
            0 <= c.y - y < max_y - y,
            i == (c.y - y) * w + (c.x - min_x);
    assert((max_x + 1 - min_x) * (max_y - y) == (max_y - y) * w);
    assert(i % w == c.x - min_x && i / w == c.y - y) by (nonlinear_arith)
        requires
            0 <= c.x - min_x < w,
            0 <= c.y - y,
            i == (c.y - y) * w + (c.x - min_x);
    lemma_coord_block_index(min_x, max_x, y, max_y, i);
}

} // verus!
