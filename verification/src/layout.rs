//! The diagram layout engine: a braid word becomes an ordered list of draw
//! primitives on an integer grid.
//!
//! The grid has one column per strand and one row per crossing, plus a final
//! row of bare node markers. Coordinates are measured in thirds of a cell,
//! so that the broken (occluded) connectors, which cover the first and last
//! thirds of their diagonal, have exact endpoints: the node of row `r` and
//! strand `i` is centered at `(3 * i, 3 * r)`. A renderer scales a
//! coordinate `u` to `origin + u * gap / 3` for its cell size `gap`.
use crate::braid::{magnitude, crossing_in_range, Braid, BraidView};
use vstd::prelude::*;

verus! {

/// One draw primitive: a circular node marker centered at `(x, y)`, or a
/// line segment from `(x1, y1)` to `(x2, y2)`, in thirds of a cell.
#[derive(Clone, Copy, Debug, PartialEq, Eq, Structural)]
pub enum Primitive {
    Node { x: u64, y: u64 },
    Segment { x1: u64, y1: u64, x2: u64, y2: u64 },
}

/// The node marker of row `r`, strand `i`.
pub open spec fn node_at(r: int, i: int) -> Primitive {
    Primitive::Node { x: (3 * i) as u64, y: (3 * r) as u64 }
}

/// A segment between two grid points given in thirds of a cell.
pub open spec fn seg(x1: int, y1: int, x2: int, y2: int) -> Primitive {
    Primitive::Segment { x1: x1 as u64, y1: y1 as u64, x2: x2 as u64, y2: y2 as u64 }
}

/// The connector emitted below the node of row `r`, strand `i`, when the row
/// is governed by crossing `g`.
///
/// The strand `|g|` crosses toward column `|g| + 1` and the strand `|g| + 1`
/// toward column `|g|`; every other strand passes straight down. Of the two
/// diagonals, exactly one is drawn as a single continuous segment (the front
/// strand) and the other as its first and last thirds (the strand passing
/// behind), selected by the sign of `g`.
pub open spec fn connector_prims(g: int, r: int, i: int) -> Seq<Primitive> {
    let x = 3 * i;
    let y = 3 * r;
    if magnitude(g) == i {
        if g > 0 {
            seq![seg(x, y, x + 3, y + 3)]
        } else {
            seq![seg(x, y, x + 1, y + 1), seg(x + 2, y + 2, x + 3, y + 3)]
        }
    } else if magnitude(g) == i - 1 {
        if g < 0 {
            seq![seg(x, y, x - 3, y + 3)]
        } else {
            seq![seg(x, y, x - 1, y + 1), seg(x - 2, y + 2, x - 3, y + 3)]
        }
    } else {
        seq![seg(x, y, x, y + 3)]
    }
}

/// Everything emitted for the cell at row `r`, strand `i`: the node marker,
/// then, on every row but the final one, the connector toward row `r + 1`.
pub open spec fn cell_prims(crossings: Seq<i32>, r: int, i: int) -> Seq<Primitive> {
    if 1 <= r <= crossings.len() {
        seq![node_at(r, i)] + connector_prims(crossings[r - 1] as int, r, i)
    } else {
        seq![node_at(r, i)]
    }
}

/// The cells of row `r` for strands `1 ..= i`, in order.
pub open spec fn row_prims(crossings: Seq<i32>, r: int, i: int) -> Seq<Primitive>
    decreases i,
{
    if i <= 0 {
        Seq::empty()
    } else {
        row_prims(crossings, r, i - 1) + cell_prims(crossings, r, i)
    }
}

/// The rows `1 ..= r` of the grid, in order.
pub open spec fn grid_prims(crossings: Seq<i32>, strands: int, r: int) -> Seq<Primitive>
    decreases r,
{
    if r <= 0 {
        Seq::empty()
    } else {
        grid_prims(crossings, strands, r - 1) + row_prims(crossings, r, strands)
    }
}

/// The full layout of a braid word: rows `1 ..= n + 1` over all strands,
/// where `n` is the number of crossings. The final row carries node markers
/// only.
pub open spec fn layout_spec(w: BraidView) -> Seq<Primitive> {
    grid_prims(w.crossings, w.strands as int, w.crossings.len() as int + 1)
}

impl Braid {
    /// Computes the draw primitives of the braid's diagram, row by row and
    /// strand by strand, on the grid described at the module head.
    pub fn layout(&self) -> (out: Vec<Primitive>)
        requires
            3 * (self.crossings@.len() + 1) <= u64::MAX,
        ensures
            out@ == layout_spec(self@),
    {
        let n: usize = self.crossings.len();
        let rows: u64 = n as u64 + 1;
        let cols: u64 = self.strands as u64;
        let mut out: Vec<Primitive> = Vec::new();
        let mut r: u64 = 1;
        proof {
            assert(out@ =~= grid_prims(self.crossings@, cols as int, 0));
        }
        while r <= rows
            invariant
                1 <= r <= rows + 1,
                rows == n + 1,
                n == self.crossings@.len(),
                cols == self.strands,
                out@ == grid_prims(self.crossings@, cols as int, r - 1),
            decreases rows + 1 - r,
        {
            let mut i: u64 = 1;
            proof {
                assert(row_prims(self.crossings@, r as int, 0) =~= Seq::<Primitive>::empty());
                assert(out@ =~= grid_prims(self.crossings@, cols as int, r - 1) + row_prims(
                    self.crossings@,
                    r as int,
                    0,
                ));
            }
            while i <= cols
                invariant
                    1 <= i <= cols + 1,
                    1 <= r <= rows,
                    rows == n + 1,
                    n == self.crossings@.len(),
                    cols == self.strands,
                    out@ == grid_prims(self.crossings@, cols as int, r - 1) + row_prims(
                        self.crossings@,
                        r as int,
                        i - 1,
                    ),
                decreases cols + 1 - i,
            {
                let ghost before = out@;
                let x: u64 = 3 * i;
                let y: u64 = 3 * r;
                out.push(Primitive::Node { x, y });
                if r <= n as u64 {
                    let g: i32 = self.crossings[(r - 1) as usize];
                    let wide: i64 = g as i64;
                    let mag: i64 = if wide < 0 {
                        -wide
                    } else {
                        wide
                    };
                    if mag == i as i64 {
                        if g > 0 {
                            out.push(Primitive::Segment { x1: x, y1: y, x2: x + 3, y2: y + 3 });
                        } else {
                            out.push(Primitive::Segment { x1: x, y1: y, x2: x + 1, y2: y + 1 });
                            out.push(
                                Primitive::Segment { x1: x + 2, y1: y + 2, x2: x + 3, y2: y + 3 },
                            );
                        }
                    } else if mag == i as i64 - 1 {
                        if g < 0 {
                            out.push(Primitive::Segment { x1: x, y1: y, x2: x - 3, y2: y + 3 });
                        } else {
                            out.push(Primitive::Segment { x1: x, y1: y, x2: x - 1, y2: y + 1 });
                            out.push(
                                Primitive::Segment { x1: x - 2, y1: y + 2, x2: x - 3, y2: y + 3 },
                            );
                        }
                    } else {
                        out.push(Primitive::Segment { x1: x, y1: y, x2: x, y2: y + 3 });
                    }
                    proof {
                        assert(mag == magnitude(g as int));
                        assert(out@ =~= before + cell_prims(self.crossings@, r as int, i as int));
                    }
                } else {
                    proof {
                        assert(out@ =~= before + cell_prims(self.crossings@, r as int, i as int));
                    }
                }
                proof {
                    assert(before + cell_prims(self.crossings@, r as int, i as int) =~= grid_prims(
                        self.crossings@,
                        cols as int,
                        r - 1,
                    ) + row_prims(self.crossings@, r as int, i as int));
                }
                i = i + 1;
            }
            proof {
                assert(out@ =~= grid_prims(self.crossings@, cols as int, r as int));
            }
            r = r + 1;
        }
        proof {
            assert(out@ =~= layout_spec(self@));
        }
        out
    }
}

/// In a row governed by an admissible crossing `g`, exactly the two strands
/// `|g|` and `|g| + 1` receive diagonal connectors, swapping their columns;
/// one of the pair is a single continuous segment and the other is broken
/// into its first and last thirds, selected solely by the sign of `g`; and
/// every other strand receives one continuous vertical segment.
pub proof fn lemma_crossing_row_connectors(g: int, r: int, strands: int)
    requires
        2 <= strands,
        crossing_in_range(g, strands),
    ensures
        g > 0 ==> connector_prims(g, r, magnitude(g)) == seq![
            seg(3 * magnitude(g), 3 * r, 3 * magnitude(g) + 3, 3 * r + 3),
        ],
        g > 0 ==> connector_prims(g, r, magnitude(g) + 1) == seq![
            seg(3 * magnitude(g) + 3, 3 * r, 3 * magnitude(g) + 2, 3 * r + 1),
            seg(3 * magnitude(g) + 1, 3 * r + 2, 3 * magnitude(g), 3 * r + 3),
        ],
        g < 0 ==> connector_prims(g, r, magnitude(g)) == seq![
            seg(3 * magnitude(g), 3 * r, 3 * magnitude(g) + 1, 3 * r + 1),
            seg(3 * magnitude(g) + 2, 3 * r + 2, 3 * magnitude(g) + 3, 3 * r + 3),
        ],
        g < 0 ==> connector_prims(g, r, magnitude(g) + 1) == seq![
            seg(3 * magnitude(g) + 3, 3 * r, 3 * magnitude(g), 3 * r + 3),
        ],
        forall|i: int|
            1 <= i <= strands && i != magnitude(g) && i != magnitude(g) + 1
                ==> #[trigger] connector_prims(g, r, i) == seq![seg(3 * i, 3 * r, 3 * i, 3 * r + 3)],
{
    let m = magnitude(g);
    assert(m >= 1);
    if g > 0 {
        assert(connector_prims(g, r, m + 1) =~= seq![
            seg(3 * (m + 1), 3 * r, 3 * (m + 1) - 1, 3 * r + 1),
            seg(3 * (m + 1) - 2, 3 * r + 2, 3 * (m + 1) - 3, 3 * r + 3),
        ]);
    }
}

} // verus!
