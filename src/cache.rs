//! The visibility cache: one projected point per source cell and, per
//! destination pixel, the depth of the last cell that was projected onto it.

use vstd::prelude::*;

verus! {

/// An RGBA color.
pub type Color = [u8; 4];

/// Color of a cell on a contour ridge.
pub const WHITE: Color = [255, 255, 255, 255];

/// Color of every other cell.
pub const BLACK: Color = [0, 0, 0, 255];

/// Number of cells of the source grid (and of pixels of the canvas).
pub const CELLS: usize = 1000000;

/// Whether `(x, y)` lies strictly inside the canvas: row and column 0 are
/// outside, as is everything from 1000 on.
pub open spec fn in_canvas(x: int, y: int) -> bool {
    0 < x < 1000 && 0 < y < 1000
}

/// Row-major index of `(x, y)` on a 1000-wide grid.
pub open spec fn grid_index(x: int, y: int) -> int {
    x + y * 1000
}

/// The grid index of `(x, y)` when it lies strictly inside the canvas; the
/// one place where coordinates become indices.
pub fn canvas_index(x: i32, y: i32) -> (r: Option<usize>)
    ensures
        r == (if in_canvas(x as int, y as int) {
            Some(grid_index(x as int, y as int) as usize)
        } else {
            None::<usize>
        }),
        r matches Some(i) ==> i < CELLS,
{
    if x < 1000 && x > 0 && y < 1000 && y > 0 {
        proof {
            assert(x + y * 1000 < CELLS) by (nonlinear_arith)
                requires 0 < x < 1000, 0 < y < 1000;
        }
        Some((x + y * 1000) as usize)
    } else {
        None
    }
}

/// Source index of the `n`-th cell visited when the grid is walked with `x`
/// in the outer loop and `y` in the inner one.
pub open spec fn visit_cell(n: int) -> int {
    grid_index(n / 1000, n % 1000)
}

/// The ordering key of a depth given by the bit pattern of an IEEE-754
/// single: keys compare as the (non-NaN) numbers do, and both zeros get 0.
pub open spec fn depth_key_spec(bits: u32) -> int {
    if bits >= 0x8000_0000 {
        -(bits - 0x8000_0000)
    } else {
        bits as int
    }
}

/// Ordering key of the depth whose single-precision bit pattern is `bits`.
pub fn depth_from_bits(bits: u32) -> (r: i32)
    ensures
        r == depth_key_spec(bits),
{
    if bits >= 0x8000_0000 {
        -((bits - 0x8000_0000) as i32)
    } else {
        bits as i32
    }
}

/// A source cell projected to the canvas: destination pixel, depth key and
/// the cell's color.
#[derive(Clone, Copy, Debug, PartialEq, Eq)]
pub struct Point {
    pub x: i32,
    pub y: i32,
    pub z: i32,
    pub c: Color,
}

/// The point returned for a query outside the canvas.
pub open spec fn sentinel() -> Point {
    Point { x: -1i32, y: -1i32, z: 0i32, c: [0u8, 0u8, 0u8, 0u8] }
}

/// Banding rule: ridge cells are white, the others black.
pub open spec fn band_color(ridge: bool) -> Color {
    if ridge {
        WHITE
    } else {
        BLACK
    }
}

impl Point {
    /// The projected point of a cell that lands on `(x, y)` with a depth of
    /// single-precision bit pattern `depth_bits`, on a ridge or not.
    pub fn projected(x: i32, y: i32, depth_bits: u32, ridge: bool) -> (r: Point)
        ensures
            r.x == x,
            r.y == y,
            r.z == depth_key_spec(depth_bits),
            r.c == band_color(ridge),
    {
        let c = if ridge {
            WHITE
        } else {
            BLACK
        };
        Point { x, y, z: depth_from_bits(depth_bits), c }
    }
}

/// Linear destination index of a projected point.
pub open spec fn dest_index(p: Point) -> int {
    grid_index(p.x as int, p.y as int)
}

/// Depth stored for destination `d` after the first `n` visited cells of
/// `pts` were projected: the depth of the last of them that lands on `d`,
/// with no comparison, or 0 where none does.
pub open spec fn last_depth(pts: Seq<Point>, n: int, d: int) -> i32
    decreases n,
{
    if n <= 0 {
        0
    } else {
        let p = pts[visit_cell(n - 1)];
        if dest_index(p) == d {
            p.z
        } else {
            last_depth(pts, n - 1, d)
        }
    }
}

/// Whether every point of `pts` lands on a destination index of the grid.
pub open spec fn lands_in_grid(pts: Seq<Point>) -> bool {
    forall|i: int| 0 <= i < pts.len() ==> 0 <= #[trigger] dest_index(pts[i]) < CELLS
}

/// The visibility cache: projected points by source index and depths by
/// destination index. It is built once and never changed.
pub struct Cache {
    buff: Vec<Point>,
    zbuff: Vec<i32>,
}

impl Cache {
    /// Projected points, by source index.
    pub closed spec fn points(&self) -> Seq<Point> {
        self.buff@
    }

    /// Stored depths, by destination index.
    pub closed spec fn depths(&self) -> Seq<i32> {
        self.zbuff@
    }

    /// Both tables cover the whole grid.
    pub open spec fn wf(&self) -> bool {
        &&& self.points().len() == CELLS
        &&& self.depths().len() == CELLS
    }

    /// Whether the cache is the one built from the projected points `pts`.
    pub open spec fn built_from(&self, pts: Seq<Point>) -> bool {
        &&& self.wf()
        &&& self.points() == pts
        &&& forall|d: int| 0 <= d < CELLS ==> #[trigger] self.depths()[d] == last_depth(pts, CELLS as int, d)
    }

    /// What `get_pixel` returns for `(x, y)`.
    pub open spec fn pixel_spec(&self, x: int, y: int) -> Point {
        if in_canvas(x, y) {
            self.points()[grid_index(x, y)]
        } else {
            sentinel()
        }
    }

    /// What `get_z` returns for `(x, y)`.
    pub open spec fn depth_spec(&self, x: int, y: int) -> i32 {
        if in_canvas(x, y) {
            self.depths()[grid_index(x, y)]
        } else {
            0
        }
    }

    /// A cell is visible when its own depth is at least the depth stored at
    /// the pixel it is projected to.
    pub open spec fn visible_spec(&self, x: int, y: int) -> bool {
        let p = self.pixel_spec(x, y);
        p.z >= self.depth_spec(p.x as int, p.y as int)
    }
    /// Builds the cache from the projected point of every source cell,
    /// indexed by source index. Cells are visited with `x` in the outer loop
    /// and `y` in the inner one; each writes its depth at its destination,
    /// overwriting whatever an earlier cell left there.
    pub fn load(pts: Vec<Point>) -> (r: Cache)
        requires
            pts.len() == CELLS,
            lands_in_grid(pts@),
        ensures
            r.built_from(pts@),
    {
        let mut zbuff: Vec<i32> = Vec::new();
        let mut k: usize = 0;
        while k < CELLS
            invariant
                zbuff.len() == k,
                k <= CELLS,
                forall|d: int| 0 <= d < k ==> #[trigger] zbuff@[d] == 0,
            decreases CELLS - k,
        {
            zbuff.push(0);
            k = k + 1;
        }
        let ghost src = pts@;
        let mut x: usize = 0;
        while x < 1000
            invariant
                x <= 1000,
                pts@ == src,
                src.len() == CELLS,
                lands_in_grid(src),
                zbuff.len() == CELLS,
                forall|d: int| 0 <= d < CELLS ==> #[trigger] zbuff@[d] == last_depth(src, x * 1000, d),
            decreases 1000 - x,
        {
            let mut y: usize = 0;
            while y < 1000
                invariant
                    x < 1000,
                    y <= 1000,
                    pts@ == src,
                    src.len() == CELLS,
                    lands_in_grid(src),
                    zbuff.len() == CELLS,
                    forall|d: int| 0 <= d < CELLS ==> #[trigger] zbuff@[d] == last_depth(src, x * 1000 + y, d),
                decreases 1000 - y,
            {
                let ghost n = x * 1000 + y;
                proof {
                    vstd::arithmetic::div_mod::lemma_fundamental_div_mod_converse(n, 1000, x as int, y as int);
                    assert(visit_cell(n) == x + y * 1000);
                    assert(x + y * 1000 < CELLS) by (nonlinear_arith)
                        requires x < 1000, y < 1000;
                }
                let p = pts[x + y * 1000];
                proof {
                    assert(0 <= dest_index(src[x + y * 1000]) < CELLS);
                }
                let d = (p.x as i64 + p.y as i64 * 1000) as usize;
                zbuff.set(d, p.z);
                proof {
                    assert forall|e: int| 0 <= e < CELLS implies #[trigger] zbuff@[e] == last_depth(src, n + 1, e) by {
                        assert(src[visit_cell(n)] == p);
                    }
                }
                y = y + 1;
            }
            proof {
                assert(x * 1000 + 1000 == (x + 1) * 1000) by (nonlinear_arith);
            }
            x = x + 1;
        }
        Cache { buff: pts, zbuff }
    }

    /// The projected point of source cell `(x, y)`, or the sentinel
    /// `{-1, -1, 0, transparent}` when the cell is not strictly inside the
    /// canvas.
    pub fn get_pixel(&self, x: i32, y: i32) -> (r: Point)
        requires
            self.wf(),
        ensures
            r == self.pixel_spec(x as int, y as int),
    {
        match canvas_index(x, y) {
            Some(i) => self.buff[i],
            None => Point { x: -1, y: -1, z: 0, c: [0u8, 0u8, 0u8, 0u8] },
        }
    }

    /// The depth stored for destination pixel `(x, y)`, or 0 when the pixel is
    /// not strictly inside the canvas.
    pub fn get_z(&self, x: i32, y: i32) -> (r: i32)
        requires
            self.wf(),
        ensures
            r == self.depth_spec(x as int, y as int),
    {
        match canvas_index(x, y) {
            Some(i) => self.zbuff[i],
            None => 0,
        }
    }

    /// Whether source cell `(x, y)` is drawn: its own depth is at least the
    /// depth stored at the pixel it is projected to.
    pub fn is_visible(&self, x: i32, y: i32) -> (r: bool)
        requires
            self.wf(),
        ensures
            r == self.visible_spec(x as int, y as int),
    {
        let pt = self.get_pixel(x, y);
        pt.z >= self.get_z(pt.x, pt.y)
    }
}

/// Two caches built from the same projected points hold the same points and
/// the same depths.
pub proof fn load_is_deterministic(pts: Seq<Point>, a: Cache, b: Cache)
    requires
        a.built_from(pts),
        b.built_from(pts),
    ensures
        a.points() == b.points(),
        a.depths() == b.depths(),
{
    assert(a.depths() =~= b.depths());
}

} // verus!
