//! The frame buffer and what is drawn on it: the terrain seen through the
//! cache, square stamps, thick lines and the territory of each team.

use crate::cache::{canvas_index, grid_index, in_canvas, Cache, Color, CELLS};
use crate::towns::{TownR, TownsR, TOWNS};
use vstd::prelude::*;

verus! {

pub const BLUE: Color = [0, 0, 255, 255];

pub const RED: Color = [255, 0, 0, 255];

/// Color of the lines that join each town to its capital.
pub const YELLOW: Color = [255, 255, 0, 255];

/// Bytes in the RGBA frame: four per pixel of the 1000 by 1000 canvas.
pub const FRAME_BYTES: usize = 4000000;

/// Largest distance, on either axis, of a ring sample from its town.
pub const RING_REACH: i32 = 1000;

/// The frame bytes `f` once every pixel `p` with `hit(p)` is painted `c`.
pub open spec fn paint(f: Seq<u8>, hit: spec_fn(int) -> bool, c: Color) -> Seq<u8> {
    Seq::new(f.len(), |j: int| if hit(j / 4) { c@[j % 4] } else { f[j] })
}

/// Whether pixel `p` is the canvas pixel `(x, y)`; pixels on row or column
/// 0 and beyond 999 are never hit.
pub open spec fn pixel_hit(x: int, y: int, p: int) -> bool {
    in_canvas(x, y) && p == grid_index(x, y)
}

/// Whether source cell `(x, y)` is visible and projected to canvas pixel `p`.
pub open spec fn cell_hits(cache: Cache, x: int, y: int, p: int) -> bool {
    let pt = cache.pixel_spec(x, y);
    cache.visible_spec(x, y) && pixel_hit(pt.x as int, pt.y as int, p)
}

/// Whether cell `(cx, cy)` of the `r` by `r` square with corner `(x0, y0)`
/// comes before column `i`, row `j` in the order the square is stamped.
pub open spec fn stamped_before(x0: int, y0: int, r: int, i: int, j: int, cx: int, cy: int) -> bool {
    &&& x0 <= cx
    &&& y0 <= cy < y0 + r
    &&& cx < x0 + i || (cx == x0 + i && cy < y0 + j)
}

/// Whether pixel `p` is painted by the part of the stamp before `(i, j)`.
pub open spec fn stamp_hits_upto(cache: Cache, x0: int, y0: int, r: int, i: int, j: int, p: int) -> bool {
    exists|cx: int, cy: int|
        stamped_before(x0, y0, r, i, j, cx, cy) && #[trigger] cell_hits(cache, cx, cy, p)
}

/// Whether pixel `p` is painted by the `r` by `r` stamp with corner
/// `(x0, y0)`: some cell of the square is visible and projected onto `p`.
pub open spec fn stamp_hits(cache: Cache, x0: int, y0: int, r: int, p: int) -> bool {
    exists|cx: int, cy: int|
        x0 <= cx < x0 + r && y0 <= cy < y0 + r && #[trigger] cell_hits(cache, cx, cy, p)
}

/// Painting two sets of pixels in the same color, one after the other, is
/// painting their union.
proof fn lemma_paint_union(f: Seq<u8>, a: spec_fn(int) -> bool, b: spec_fn(int) -> bool, h: spec_fn(int) -> bool, c: Color)
    requires
        forall|p: int| #[trigger] h(p) == (a(p) || b(p)),
    ensures
        paint(paint(f, a, c), b, c) == paint(f, h, c),
{
    assert(paint(paint(f, a, c), b, c) =~= paint(f, h, c));
}

/// Painting by two predicates that agree everywhere gives the same bytes.
proof fn lemma_paint_same(f: Seq<u8>, a: spec_fn(int) -> bool, b: spec_fn(int) -> bool, c: Color)
    requires
        forall|p: int| #[trigger] a(p) == b(p),
    ensures
        paint(f, a, c) == paint(f, b, c),
{
    assert(paint(f, a, c) =~= paint(f, b, c));
}

/// One more cell of a stamp adds exactly the pixel that cell paints.
proof fn lemma_stamp_step(cache: Cache, x0: int, y0: int, r: int, i: int, j: int, p: int)
    requires
        0 <= i < r,
        0 <= j < r,
    ensures
        stamp_hits_upto(cache, x0, y0, r, i, j + 1, p) == (stamp_hits_upto(cache, x0, y0, r, i, j, p)
            || cell_hits(cache, x0 + i, y0 + j, p)),
{
    if stamp_hits_upto(cache, x0, y0, r, i, j + 1, p) {
        let (cx, cy) = choose|cx: int, cy: int|
            stamped_before(x0, y0, r, i, j + 1, cx, cy) && #[trigger] cell_hits(cache, cx, cy, p);
        if !(cx == x0 + i && cy == y0 + j) {
            assert(stamped_before(x0, y0, r, i, j, cx, cy));
        }
    }
    if cell_hits(cache, x0 + i, y0 + j, p) {
        assert(stamped_before(x0, y0, r, i, j + 1, x0 + i, y0 + j));
    }
    if stamp_hits_upto(cache, x0, y0, r, i, j, p) {
        let (cx, cy) = choose|cx: int, cy: int|
            stamped_before(x0, y0, r, i, j, cx, cy) && #[trigger] cell_hits(cache, cx, cy, p);
        assert(stamped_before(x0, y0, r, i, j + 1, cx, cy));
    }
}

/// A finished column of the stamp is the start of the next one.
proof fn lemma_stamp_column(cache: Cache, x0: int, y0: int, r: int, i: int, p: int)
    ensures
        stamp_hits_upto(cache, x0, y0, r, i, r, p) == stamp_hits_upto(cache, x0, y0, r, i + 1, 0, p),
{
    if stamp_hits_upto(cache, x0, y0, r, i, r, p) {
        let (cx, cy) = choose|cx: int, cy: int|
            stamped_before(x0, y0, r, i, r, cx, cy) && #[trigger] cell_hits(cache, cx, cy, p);
        assert(stamped_before(x0, y0, r, i + 1, 0, cx, cy));
    }
    if stamp_hits_upto(cache, x0, y0, r, i + 1, 0, p) {
        let (cx, cy) = choose|cx: int, cy: int|
            stamped_before(x0, y0, r, i + 1, 0, cx, cy) && #[trigger] cell_hits(cache, cx, cy, p);
        assert(stamped_before(x0, y0, r, i, r, cx, cy));
    }
}

/// The whole stamp, once every column is done.
proof fn lemma_stamp_done(cache: Cache, x0: int, y0: int, r: int, i: int, p: int)
    requires
        i == if r < 0 { 0 } else { r },
    ensures
        stamp_hits_upto(cache, x0, y0, r, i, 0, p) == stamp_hits(cache, x0, y0, r, p),
{
    if stamp_hits_upto(cache, x0, y0, r, i, 0, p) {
        let (cx, cy) = choose|cx: int, cy: int|
            stamped_before(x0, y0, r, i, 0, cx, cy) && #[trigger] cell_hits(cache, cx, cy, p);
        assert(x0 <= cx < x0 + r && y0 <= cy < y0 + r);
    }
    if stamp_hits(cache, x0, y0, r, p) {
        let (cx, cy) = choose|cx: int, cy: int|
            x0 <= cx < x0 + r && y0 <= cy < y0 + r && #[trigger] cell_hits(cache, cx, cy, p);
        assert(stamped_before(x0, y0, r, i, 0, cx, cy));
    }
}

/// Integer division rounded toward zero.
pub open spec fn trunc_div(n: int, d: int) -> int {
    if n >= 0 {
        n / d
    } else {
        -((-n) / d)
    }
}

/// Coordinate of sample `k` of the hundred taken from `a` toward `b`: the
/// offset is `k / 100` of the way, rounded toward zero.
pub open spec fn line_point(a: int, b: int, k: int) -> int {
    a + trunc_div(k * (b - a), 100)
}

/// Whether pixel `p` is painted by one of the first `n` stamps of the line
/// from `(x1, y1)` to `(x2, y2)`.
pub open spec fn line_hits_upto(cache: Cache, x1: int, y1: int, x2: int, y2: int, n: int, p: int) -> bool {
    exists|k: int|
        0 <= k < n && #[trigger] stamp_hits(cache, line_point(x1, x2, k), line_point(y1, y2, k), 7, p)
}

/// Whether pixel `p` is painted by the line from `(x1, y1)` to `(x2, y2)`:
/// by one of its hundred stamps of side 7.
pub open spec fn line_hits(cache: Cache, x1: int, y1: int, x2: int, y2: int, p: int) -> bool {
    line_hits_upto(cache, x1, y1, x2, y2, 100, p)
}

/// A line sample lies between the two ends.
proof fn lemma_line_point_between(a: int, b: int, k: int)
    requires
        0 <= k < 100,
    ensures
        a <= b ==> a <= line_point(a, b, k) <= b,
        b < a ==> b <= line_point(a, b, k) <= a,
{
    let d = b - a;
    if d >= 0 {
        assert(0 <= (k * d) / 100 <= d) by (nonlinear_arith)
            requires 0 <= k < 100, d >= 0;
    } else {
        assert(0 <= (k * (-d)) / 100 <= -d) by (nonlinear_arith)
            requires 0 <= k < 100, d < 0;
        assert(k * d == -(k * (-d))) by (nonlinear_arith);
    }
}

/// One more stamp of a line adds exactly the pixels of that stamp.
proof fn lemma_line_step(cache: Cache, x1: int, y1: int, x2: int, y2: int, t: int, p: int)
    requires
        0 <= t,
    ensures
        line_hits_upto(cache, x1, y1, x2, y2, t + 1, p) == (line_hits_upto(cache, x1, y1, x2, y2, t, p)
            || stamp_hits(cache, line_point(x1, x2, t), line_point(y1, y2, t), 7, p)),
{
    if line_hits_upto(cache, x1, y1, x2, y2, t + 1, p) {
        let k = choose|k: int|
            0 <= k < t + 1 && #[trigger] stamp_hits(cache, line_point(x1, x2, k), line_point(y1, y2, k), 7, p);
        if k < t {
            assert(line_hits_upto(cache, x1, y1, x2, y2, t, p));
        }
    }
    if stamp_hits(cache, line_point(x1, x2, t), line_point(y1, y2, t), 7, p) {
        assert(line_hits_upto(cache, x1, y1, x2, y2, t + 1, p));
    }
}

/// The convex hull that geo computes for a polygon whose exterior is the
/// given points, as the closed list of its exterior vertices.
pub uninterp spec fn hull_of(pts: Seq<(i32, i32)>) -> Seq<(i32, i32)>;

/// Largest coordinate, in absolute value, handed to the hull computation;
/// it keeps geo's integer orientation tests far from overflow.
pub const HULL_REACH: i32 = 10000;

/// Relies on geo's `ConvexHull::convex_hull` for a `Polygon<i32>` built with
/// `Polygon::new` from the points: its exterior ring, as coordinate pairs.
#[verifier::external_body]
fn convex_hull(pts: Vec<(i32, i32)>) -> (r: Vec<(i32, i32)>)
    requires
        forall|i: int|
            0 <= i < pts.len() ==> -HULL_REACH <= (#[trigger] pts@[i]).0 <= HULL_REACH && -HULL_REACH
                <= pts@[i].1 <= HULL_REACH,
    ensures
        r@ == hull_of(pts@),
{
    let poly = geo::Polygon::new(geo::LineString::from(pts), vec![]);
    let hull = geo::ConvexHull::convex_hull(&poly);
    hull.exterior().points().map(|p| (p.x(), p.y())).collect()
}

/// The ring of `t`: its anchor moved by each offset of `ring`.
pub open spec fn ring_around(t: TownR, ring: Seq<(i32, i32)>) -> Seq<(i32, i32)> {
    ring.map_values(|o: (i32, i32)| ((t.x + o.0) as i32, (t.y + o.1) as i32))
}

/// The rings of the towns `towns`, one after the other.
pub open spec fn ring_points(anchors: Seq<TownR>, towns: Seq<usize>, ring: Seq<(i32, i32)>) -> Seq<(i32, i32)>
    decreases towns.len(),
{
    if towns.len() == 0 {
        Seq::empty()
    } else {
        ring_points(anchors, towns.drop_last(), ring) + ring_around(anchors[towns.last() as int], ring)
    }
}

/// Whether pixel `p` is painted by the line from vertex `i - 1` to vertex
/// `i` of `hull`.
pub open spec fn edge_hits(cache: Cache, hull: Seq<(i32, i32)>, i: int, p: int) -> bool {
    line_hits(cache, hull[i - 1].0 as int, hull[i - 1].1 as int, hull[i].0 as int, hull[i].1 as int, p)
}

/// Whether pixel `p` is painted by one of the edges ending at vertices
/// `1..n` of `hull`.
pub open spec fn outline_hits(cache: Cache, hull: Seq<(i32, i32)>, n: int, p: int) -> bool {
    exists|i: int| 1 <= i < n && #[trigger] edge_hits(cache, hull, i, p)
}

/// Whether pixel `p` is painted by the line from town `towns[i]` to the
/// capital `cap`.
pub open spec fn spoke_hits(cache: Cache, anchors: Seq<TownR>, towns: Seq<usize>, cap: int, i: int, p: int) -> bool {
    let t = anchors[towns[i] as int];
    let c = anchors[cap];
    line_hits(cache, t.x as int, t.y as int, c.x as int, c.y as int, p)
}

/// Whether pixel `p` is painted by one of the lines from the first `n`
/// towns of `towns` to the capital.
pub open spec fn spokes_hits(cache: Cache, anchors: Seq<TownR>, towns: Seq<usize>, cap: int, n: int, p: int) -> bool {
    exists|i: int| 0 <= i < n && #[trigger] spoke_hits(cache, anchors, towns, cap, i, p)
}

/// The frame `f` once the territory of `towns` is drawn: the outline of the
/// hull of their rings in `col`, then a yellow line from each town to the
/// capital.
pub open spec fn territory(
    f: Seq<u8>,
    cache: Cache,
    anchors: Seq<TownR>,
    ring: Seq<(i32, i32)>,
    towns: Seq<usize>,
    cap: int,
    col: Color,
) -> Seq<u8> {
    let hull = hull_of(ring_points(anchors, towns, ring));
    paint(
        paint(f, |p: int| outline_hits(cache, hull, hull.len() as int, p), col),
        |p: int| spokes_hits(cache, anchors, towns, cap, towns.len() as int, p),
        YELLOW,
    )
}

/// The frame `f` once the first `n` cells, in the order `x` outer and `y`
/// inner, are drawn: each visible cell paints its own color at the pixel it
/// is projected to.
pub open spec fn terrain(f: Seq<u8>, cache: Cache, n: int) -> Seq<u8>
    decreases n,
{
    if n <= 0 {
        f
    } else {
        let g = terrain(f, cache, n - 1);
        let cx = (n - 1) / 1000;
        let cy = (n - 1) % 1000;
        let pt = cache.pixel_spec(cx, cy);
        if cache.visible_spec(cx, cy) {
            paint(g, |p: int| pixel_hit(pt.x as int, pt.y as int, p), pt.c)
        } else {
            g
        }
    }
}

/// Whether every index of `towns` names a town.
pub open spec fn valid_towns(towns: Seq<usize>) -> bool {
    forall|i: int| 0 <= i < towns.len() ==> #[trigger] towns[i] < TOWNS
}

proof fn lemma_outline_step(cache: Cache, hull: Seq<(i32, i32)>, n: int, p: int)
    requires
        1 <= n,
    ensures
        outline_hits(cache, hull, n + 1, p) == (outline_hits(cache, hull, n, p) || edge_hits(cache, hull, n, p)),
{
    if outline_hits(cache, hull, n + 1, p) {
        let i = choose|i: int| 1 <= i < n + 1 && #[trigger] edge_hits(cache, hull, i, p);
        if i < n {
            assert(outline_hits(cache, hull, n, p));
        }
    }
    if edge_hits(cache, hull, n, p) {
        assert(outline_hits(cache, hull, n + 1, p));
    }
}

proof fn lemma_spokes_step(cache: Cache, anchors: Seq<TownR>, towns: Seq<usize>, cap: int, n: int, p: int)
    requires
        0 <= n,
    ensures
        spokes_hits(cache, anchors, towns, cap, n + 1, p) == (spokes_hits(cache, anchors, towns, cap, n, p)
            || spoke_hits(cache, anchors, towns, cap, n, p)),
{
    if spokes_hits(cache, anchors, towns, cap, n + 1, p) {
        let i = choose|i: int| 0 <= i < n + 1 && #[trigger] spoke_hits(cache, anchors, towns, cap, i, p);
        if i < n {
            assert(spokes_hits(cache, anchors, towns, cap, n, p));
        }
    }
    if spoke_hits(cache, anchors, towns, cap, n, p) {
        assert(spokes_hits(cache, anchors, towns, cap, n + 1, p));
    }
}

/// The renderer: the cache, the town anchors, the ring sampled around each
/// town for its territory, and the RGBA frame.
pub struct Renderer {
    pub cache: Cache,
    pub towns: TownsR,
    pub ring: Vec<(i32, i32)>,
    pub im_buff: Vec<u8>,
}

/// Whether every ring offset is within reach of its town.
pub open spec fn ring_in_reach(ring: Seq<(i32, i32)>) -> bool {
    forall|k: int|
        0 <= k < ring.len() ==> -RING_REACH <= (#[trigger] ring[k]).0 <= RING_REACH && -RING_REACH
            <= ring[k].1 <= RING_REACH
}

impl Renderer {
    /// The cache and anchors are well formed, the ring is within reach and
    /// the frame has four bytes per pixel.
    pub open spec fn wf(&self) -> bool {
        &&& self.cache.wf()
        &&& self.towns.wf()
        &&& ring_in_reach(self.ring@)
        &&& self.im_buff@.len() == FRAME_BYTES
    }

    /// Whether `other` has the same cache, anchors and ring as `self`.
    pub open spec fn same_scene(&self, other: &Renderer) -> bool {
        &&& self.cache == other.cache
        &&& self.towns == other.towns
        &&& self.ring == other.ring
    }

    /// Writes `c` at canvas pixel `(x, y)`, unless the pixel is on row or
    /// column 0 or beyond 999.
    pub fn set_pixel(&mut self, x: i32, y: i32, c: Color)
        requires
            old(self).wf(),
        ensures
            final(self).wf(),
            final(self).same_scene(old(self)),
            final(self).im_buff@ == paint(old(self).im_buff@, |p: int| pixel_hit(x as int, y as int, p), c),
    {
        let ghost f = self.im_buff@;
        if let Some(p) = canvas_index(x, y) {
            let i0 = p * 4;
            self.im_buff.set(i0, c[0]);
            self.im_buff.set(i0 + 1, c[1]);
            self.im_buff.set(i0 + 2, c[2]);
            self.im_buff.set(i0 + 3, c[3]);
            assert(self.im_buff@ =~= paint(f, |p: int| pixel_hit(x as int, y as int, p), c));
        } else {
            assert(self.im_buff@ =~= paint(f, |p: int| pixel_hit(x as int, y as int, p), c));
        }
    }
    /// Stamps the `r` by `r` square whose corner (not center) is `(x0, y0)`:
    /// each visible cell of the square paints the pixel it is projected to.
    pub fn draw_circle(&mut self, x0: i32, y0: i32, r: i32, col: Color)
        requires
            old(self).wf(),
        ensures
            final(self).wf(),
            final(self).same_scene(old(self)),
            final(self).im_buff@ == paint(
                old(self).im_buff@,
                |p: int| stamp_hits(old(self).cache, x0 as int, y0 as int, r as int, p),
                col,
            ),
    {
        let ghost s0 = *self;
        let ghost f = self.im_buff@;
        let ghost cache = self.cache;
        let mut i: i32 = 0;
        proof {
            lemma_paint_same(f, |p: int| false, |p: int| stamp_hits_upto(cache, x0 as int, y0 as int, r as int, 0, 0, p), col);
            assert(paint(f, |p: int| false, col) =~= f);
        }
        while i < r
            invariant
                self.wf(),
                self.same_scene(&s0),
                cache == s0.cache,
                0 <= i,
                r >= 0 ==> i <= r,
                r < 0 ==> i == 0,
                self.im_buff@ == paint(f, |p: int| stamp_hits_upto(cache, x0 as int, y0 as int, r as int, i as int, 0, p), col),
            decreases r - i,
        {
            let mut j: i32 = 0;
            while j < r
                invariant
                    self.wf(),
                    self.same_scene(&s0),
                    cache == s0.cache,
                    0 <= i < r,
                    0 <= j <= r,
                    self.im_buff@ == paint(f, |p: int| stamp_hits_upto(cache, x0 as int, y0 as int, r as int, i as int, j as int, p), col),
                decreases r - j,
            {
                let ghost before = self.im_buff@;
                let cx = x0 as i64 + i as i64;
                let cy = y0 as i64 + j as i64;
                let ghost upto_now = |p: int| stamp_hits_upto(cache, x0 as int, y0 as int, r as int, i as int, j as int, p);
                let ghost upto_next = |p: int| stamp_hits_upto(cache, x0 as int, y0 as int, r as int, i as int, j + 1, p);
                proof {
                    assert forall|p: int| #[trigger] upto_next(p) == (upto_now(p) || cell_hits(cache, cx as int, cy as int, p)) by {
                        lemma_stamp_step(cache, x0 as int, y0 as int, r as int, i as int, j as int, p);
                    }
                }
                if cx >= i32::MIN as i64 && cx <= i32::MAX as i64 && cy >= i32::MIN as i64 && cy <= i32::MAX as i64
                    && self.cache.is_visible(cx as i32, cy as i32) {
                    let pt = self.cache.get_pixel(cx as i32, cy as i32);
                    self.set_pixel(pt.x, pt.y, col);
                    proof {
                        lemma_paint_union(f, upto_now, |p: int| pixel_hit(pt.x as int, pt.y as int, p), upto_next, col);
                    }
                } else {
                    proof {
                        lemma_paint_same(f, upto_now, upto_next, col);
                    }
                }
                j = j + 1;
            }
            proof {
                assert forall|p: int| #[trigger] stamp_hits_upto(cache, x0 as int, y0 as int, r as int, i as int, r as int, p)
                    == stamp_hits_upto(cache, x0 as int, y0 as int, r as int, i + 1, 0, p) by {
                    lemma_stamp_column(cache, x0 as int, y0 as int, r as int, i as int, p);
                }
                lemma_paint_same(
                    f,
                    |p: int| stamp_hits_upto(cache, x0 as int, y0 as int, r as int, i as int, r as int, p),
                    |p: int| stamp_hits_upto(cache, x0 as int, y0 as int, r as int, i + 1, 0, p),
                    col,
                );
            }
            i = i + 1;
        }
        proof {
            assert forall|p: int| #[trigger] stamp_hits_upto(cache, x0 as int, y0 as int, r as int, i as int, 0, p)
                == stamp_hits(cache, x0 as int, y0 as int, r as int, p) by {
                lemma_stamp_done(cache, x0 as int, y0 as int, r as int, i as int, p);
            }
            lemma_paint_same(
                f,
                |p: int| stamp_hits_upto(cache, x0 as int, y0 as int, r as int, i as int, 0, p),
                |p: int| stamp_hits(cache, x0 as int, y0 as int, r as int, p),
                col,
            );
        }
    }
    /// Draws the thick line from `(x1, y1)` to `(x2, y2)` in source
    /// coordinates: a stamp of side 7 at each of a hundred evenly spaced
    /// samples, the end point itself not included.
    pub fn draw_line(&mut self, x1: i32, y1: i32, x2: i32, y2: i32, col: Color)
        requires
            old(self).wf(),
        ensures
            final(self).wf(),
            final(self).same_scene(old(self)),
            final(self).im_buff@ == paint(
                old(self).im_buff@,
                |p: int| line_hits(old(self).cache, x1 as int, y1 as int, x2 as int, y2 as int, p),
                col,
            ),
    {
        let ghost s0 = *self;
        let ghost f = self.im_buff@;
        let ghost cache = self.cache;
        proof {
            lemma_paint_same(f, |p: int| false, |p: int| line_hits_upto(cache, x1 as int, y1 as int, x2 as int, y2 as int, 0, p), col);
            assert(paint(f, |p: int| false, col) =~= f);
        }
        let dx = x2 as i64 - x1 as i64;
        let dy = y2 as i64 - y1 as i64;
        let mut t: i64 = 0;
        while t < 100
            invariant
                self.wf(),
                self.same_scene(&s0),
                cache == s0.cache,
                0 <= t <= 100,
                dx == x2 - x1,
                dy == y2 - y1,
                self.im_buff@ == paint(f, |p: int| line_hits_upto(cache, x1 as int, y1 as int, x2 as int, y2 as int, t as int, p), col),
            decreases 100 - t,
        {
            proof {
                assert(-100 * 0x1_0000_0000 <= t * dx <= 100 * 0x1_0000_0000) by (nonlinear_arith)
                    requires 0 <= t < 100, -0x1_0000_0000 <= dx <= 0x1_0000_0000;
                assert(-100 * 0x1_0000_0000 <= t * dy <= 100 * 0x1_0000_0000) by (nonlinear_arith)
                    requires 0 <= t < 100, -0x1_0000_0000 <= dy <= 0x1_0000_0000;
            }
            let nx = t * dx;
            let ny = t * dy;
            let qx = if nx >= 0 { nx / 100 } else { -((-nx) / 100) };
            let qy = if ny >= 0 { ny / 100 } else { -((-ny) / 100) };
            proof {
                lemma_line_point_between(x1 as int, x2 as int, t as int);
                lemma_line_point_between(y1 as int, y2 as int, t as int);
            }
            let x = (x1 as i64 + qx) as i32;
            let y = (y1 as i64 + qy) as i32;
            assert(x == line_point(x1 as int, x2 as int, t as int));
            assert(y == line_point(y1 as int, y2 as int, t as int));
            let ghost upto_now = |p: int| line_hits_upto(cache, x1 as int, y1 as int, x2 as int, y2 as int, t as int, p);
            let ghost upto_next = |p: int| line_hits_upto(cache, x1 as int, y1 as int, x2 as int, y2 as int, t + 1, p);
            let ghost stamp = |p: int| stamp_hits(cache, x as int, y as int, 7, p);
            self.draw_circle(x, y, 7, col);
            proof {
                assert forall|p: int| #[trigger] upto_next(p) == (upto_now(p) || stamp(p)) by {
                    lemma_line_step(cache, x1 as int, y1 as int, x2 as int, y2 as int, t as int, p);
                }
                lemma_paint_union(f, upto_now, stamp, upto_next, col);
            }
            t = t + 1;
        }
    }
    /// The hull of the rings sampled around the towns `towns`.
    pub fn territory_hull(&self, towns: &Vec<usize>) -> (r: Vec<(i32, i32)>)
        requires
            self.wf(),
            valid_towns(towns@),
        ensures
            r@ == hull_of(ring_points(self.towns.anchors(), towns@, self.ring@)),
    {
        let ghost anchors = self.towns.anchors();
        let ghost ring = self.ring@;
        let mut tmp: Vec<(i32, i32)> = Vec::new();
        let mut n: usize = 0;
        while n < towns.len()
            invariant
                self.wf(),
                anchors == self.towns.anchors(),
                ring == self.ring@,
                valid_towns(towns@),
                n <= towns.len(),
                tmp@ == ring_points(anchors, towns@.take(n as int), ring),
                forall|i: int|
                    0 <= i < tmp.len() ==> -HULL_REACH <= (#[trigger] tmp@[i]).0 <= HULL_REACH && -HULL_REACH
                        <= tmp@[i].1 <= HULL_REACH,
            decreases towns.len() - n,
        {
            let t = self.towns.get_town(towns[n]);
            assert(crate::towns::anchor_in_cell(towns@[n as int] as int, t));
            let ghost start = tmp@;
            let mut a: usize = 0;
            while a < self.ring.len()
                invariant
                    self.wf(),
                    ring == self.ring@,
                    t.x >= 0 && t.x < 1000 && t.y >= 0 && t.y < 1000,
                    a <= ring.len(),
                    tmp@ == start + ring_around(t, ring).take(a as int),
                    forall|i: int|
                        0 <= i < tmp.len() ==> -HULL_REACH <= (#[trigger] tmp@[i]).0 <= HULL_REACH && -HULL_REACH
                            <= tmp@[i].1 <= HULL_REACH,
                decreases ring.len() - a,
            {
                let o = self.ring[a];
                assert(ring_in_reach(ring) && ring[a as int] == o);
                tmp.push((t.x + o.0, t.y + o.1));
                assert(tmp@ =~= start + ring_around(t, ring).take(a + 1));
                a = a + 1;
            }
            assert(ring_around(t, ring).take(a as int) =~= ring_around(t, ring));
            assert(towns@.take(n + 1).drop_last() =~= towns@.take(n as int));
            n = n + 1;
        }
        assert(towns@.take(n as int) =~= towns@);
        convex_hull(tmp)
    }
    /// Draws the territory of `towns` in `col`: the outline of the convex
    /// hull of the rings around the towns, then a yellow line from every
    /// town to the capital `cap`.
    pub fn draw_town(&mut self, towns: Vec<usize>, cap: usize, col: Color)
        requires
            old(self).wf(),
            valid_towns(towns@),
            cap < TOWNS,
        ensures
            final(self).wf(),
            final(self).same_scene(old(self)),
            final(self).im_buff@ == territory(
                old(self).im_buff@,
                old(self).cache,
                old(self).towns.anchors(),
                old(self).ring@,
                towns@,
                cap as int,
                col,
            ),
    {
        let ghost s0 = *self;
        let ghost f = self.im_buff@;
        let ghost cache = self.cache;
        let ghost anchors = self.towns.anchors();
        let hull = self.territory_hull(&towns);
        proof {
            lemma_paint_same(f, |p: int| false, |p: int| outline_hits(cache, hull@, 1, p), col);
            assert(paint(f, |p: int| false, col) =~= f);
        }
        let mut i: usize = 1;
        while i < hull.len()
            invariant
                self.wf(),
                self.same_scene(&s0),
                cache == s0.cache,
                1 <= i,
                i <= hull.len() || (hull.len() == 0 && i == 1),
                self.im_buff@ == paint(f, |p: int| outline_hits(cache, hull@, i as int, p), col),
            decreases hull.len() - i,
        {
            let (ax, ay) = hull[i - 1];
            let (bx, by) = hull[i];
            self.draw_line(ax, ay, bx, by, col);
            proof {
                let now = |p: int| outline_hits(cache, hull@, i as int, p);
                let next = |p: int| outline_hits(cache, hull@, i + 1, p);
                let edge = |p: int| line_hits(cache, ax as int, ay as int, bx as int, by as int, p);
                assert forall|p: int| #[trigger] next(p) == (now(p) || edge(p)) by {
                    lemma_outline_step(cache, hull@, i as int, p);
                }
                lemma_paint_union(f, now, edge, next, col);
            }
            i = i + 1;
        }
        proof {
            if hull.len() == 0 {
                assert forall|p: int| #[trigger] outline_hits(cache, hull@, i as int, p) == outline_hits(cache, hull@, 0, p) by {
                }
            }
            lemma_paint_same(
                f,
                |p: int| outline_hits(cache, hull@, i as int, p),
                |p: int| outline_hits(cache, hull@, hull@.len() as int, p),
                col,
            );
        }
        let ghost g = self.im_buff@;
        proof {
            lemma_paint_same(g, |p: int| false, |p: int| spokes_hits(cache, anchors, towns@, cap as int, 0, p), YELLOW);
            assert(paint(g, |p: int| false, YELLOW) =~= g);
        }
        let c = self.towns.get_town(cap);
        let mut n: usize = 0;
        while n < towns.len()
            invariant
                self.wf(),
                self.same_scene(&s0),
                cache == s0.cache,
                anchors == s0.towns.anchors(),
                valid_towns(towns@),
                cap < TOWNS,
                anchors.len() == TOWNS,
                c == anchors[cap as int],
                n <= towns.len(),
                self.im_buff@ == paint(g, |p: int| spokes_hits(cache, anchors, towns@, cap as int, n as int, p), YELLOW),
            decreases towns.len() - n,
        {
            let t = self.towns.get_town(towns[n]);
            self.draw_line(t.x, t.y, c.x, c.y, YELLOW);
            proof {
                let now = |p: int| spokes_hits(cache, anchors, towns@, cap as int, n as int, p);
                let next = |p: int| spokes_hits(cache, anchors, towns@, cap as int, n + 1, p);
                let spoke = |p: int| line_hits(cache, t.x as int, t.y as int, c.x as int, c.y as int, p);
                assert forall|p: int| #[trigger] next(p) == (now(p) || spoke(p)) by {
                    lemma_spokes_step(cache, anchors, towns@, cap as int, n as int, p);
                }
                lemma_paint_union(g, now, spoke, next, YELLOW);
            }
            n = n + 1;
        }
    }
    /// A renderer over `cache`, `towns` and the territory ring `ring`, with
    /// an all-zero frame.
    pub fn init(cache: Cache, towns: TownsR, ring: Vec<(i32, i32)>) -> (r: Renderer)
        requires
            cache.wf(),
            towns.wf(),
            ring_in_reach(ring@),
        ensures
            r.wf(),
            r.cache == cache,
            r.towns == towns,
            r.ring == ring,
            forall|j: int| 0 <= j < FRAME_BYTES ==> #[trigger] r.im_buff@[j] == 0,
    {
        let mut im_buff: Vec<u8> = Vec::new();
        let mut k: usize = 0;
        while k < FRAME_BYTES
            invariant
                k <= FRAME_BYTES,
                im_buff.len() == k,
                forall|j: int| 0 <= j < k ==> #[trigger] im_buff@[j] == 0,
            decreases FRAME_BYTES - k,
        {
            im_buff.push(0);
            k = k + 1;
        }
        Renderer { cache, towns, ring, im_buff }
    }

    /// Draws a frame: every visible cell paints its color at the pixel it is
    /// projected to, cells taken with `x` outer and `y` inner; then the blue
    /// territory and the red one are drawn over it. Pixels that nothing
    /// paints keep their earlier value.
    pub fn render(&mut self, b_towns: Vec<usize>, b_cap: usize, r_towns: Vec<usize>, r_cap: usize)
        requires
            old(self).wf(),
            valid_towns(b_towns@),
            valid_towns(r_towns@),
            b_cap < TOWNS,
            r_cap < TOWNS,
        ensures
            final(self).wf(),
            final(self).same_scene(old(self)),
            final(self).im_buff@ == territory(
                territory(
                    terrain(old(self).im_buff@, old(self).cache, CELLS as int),
                    old(self).cache,
                    old(self).towns.anchors(),
                    old(self).ring@,
                    b_towns@,
                    b_cap as int,
                    BLUE,
                ),
                old(self).cache,
                old(self).towns.anchors(),
                old(self).ring@,
                r_towns@,
                r_cap as int,
                RED,
            ),
    {
        let ghost s0 = *self;
        let ghost f = self.im_buff@;
        let ghost cache = self.cache;
        let mut x: i32 = 0;
        while x < 1000
            invariant
                self.wf(),
                self.same_scene(&s0),
                cache == s0.cache,
                0 <= x <= 1000,
                self.im_buff@ == terrain(f, cache, x * 1000),
            decreases 1000 - x,
        {
            let mut y: i32 = 0;
            while y < 1000
                invariant
                    self.wf(),
                    self.same_scene(&s0),
                    cache == s0.cache,
                    0 <= x < 1000,
                    0 <= y <= 1000,
                    self.im_buff@ == terrain(f, cache, x * 1000 + y),
                decreases 1000 - y,
            {
                let ghost n = x * 1000 + y;
                proof {
                    vstd::arithmetic::div_mod::lemma_fundamental_div_mod_converse(n, 1000, x as int, y as int);
                }
                if self.cache.is_visible(x, y) {
                    let pt = self.cache.get_pixel(x, y);
                    self.set_pixel(pt.x, pt.y, pt.c);
                }
                y = y + 1;
            }
            proof {
                assert(x * 1000 + 1000 == (x + 1) * 1000) by (nonlinear_arith);
            }
            x = x + 1;
        }
        self.draw_town(b_towns, b_cap, BLUE);
        self.draw_town(r_towns, r_cap, RED);
    }
}

} // verus!

verus! {

/// A stamp of side 0 paints nothing: drawing it leaves the frame as it was.
pub proof fn empty_stamp_paints_nothing(f: Seq<u8>, cache: Cache, x0: int, y0: int, c: Color)
    ensures
        paint(f, |p: int| stamp_hits(cache, x0, y0, 0, p), c) == f,
{
    assert(paint(f, |p: int| stamp_hits(cache, x0, y0, 0, p), c) =~= f);
}

/// A stamp of side 1 paints what its corner cell alone paints: at most one
/// source cell reaches the frame.
pub proof fn unit_stamp_is_one_cell(f: Seq<u8>, cache: Cache, x0: int, y0: int, c: Color)
    ensures
        paint(f, |p: int| stamp_hits(cache, x0, y0, 1, p), c) == paint(f, |p: int| cell_hits(cache, x0, y0, p), c),
{
    assert forall|p: int| #[trigger] stamp_hits(cache, x0, y0, 1, p) == cell_hits(cache, x0, y0, p) by {
        if stamp_hits(cache, x0, y0, 1, p) {
            let (cx, cy) = choose|cx: int, cy: int|
                x0 <= cx < x0 + 1 && y0 <= cy < y0 + 1 && #[trigger] cell_hits(cache, cx, cy, p);
            assert(cx == x0 && cy == y0);
        }
    }
    lemma_paint_same(f, |p: int| stamp_hits(cache, x0, y0, 1, p), |p: int| cell_hits(cache, x0, y0, p), c);
}

/// A line from a point to itself is its hundred stamps at that one point:
/// it paints exactly what a single stamp of side 7 there paints.
pub proof fn degenerate_line_is_one_stamp(f: Seq<u8>, cache: Cache, x: int, y: int, c: Color)
    ensures
        paint(f, |p: int| line_hits(cache, x, y, x, y, p), c) == paint(f, |p: int| stamp_hits(cache, x, y, 7, p), c),
{
    assert forall|p: int| #[trigger] line_hits(cache, x, y, x, y, p) == stamp_hits(cache, x, y, 7, p) by {
        assert(line_point(x, x, 0) == x);
        assert(line_point(y, y, 0) == y);
        if line_hits(cache, x, y, x, y, p) {
            let k = choose|k: int|
                0 <= k < 100 && #[trigger] stamp_hits(cache, line_point(x, x, k), line_point(y, y, k), 7, p);
            assert(k * (x - x) == 0);
            assert(k * (y - y) == 0);
            assert(line_point(x, x, k) == x);
            assert(line_point(y, y, k) == y);
        }
        if stamp_hits(cache, x, y, 7, p) {
            assert(stamp_hits(cache, line_point(x, x, 0), line_point(y, y, 0), 7, p));
        }
    }
    lemma_paint_same(f, |p: int| line_hits(cache, x, y, x, y, p), |p: int| stamp_hits(cache, x, y, 7, p), c);
}

/// A territory of one town that is also its capital has a single connector,
/// from the town to itself, which paints just one stamp of side 7 at the
/// town's anchor.
pub proof fn lone_capital_connector_is_one_stamp(f: Seq<u8>, cache: Cache, anchors: Seq<TownR>, t: usize)
    requires
        anchors.len() == TOWNS,
        t < TOWNS,
    ensures
        paint(f, |p: int| spokes_hits(cache, anchors, seq![t], t as int, 1, p), YELLOW) == paint(
            f,
            |p: int| stamp_hits(cache, anchors[t as int].x as int, anchors[t as int].y as int, 7, p),
            YELLOW,
        ),
{
    let a = anchors[t as int];
    assert forall|p: int| #[trigger] spokes_hits(cache, anchors, seq![t], t as int, 1, p) == line_hits(
        cache,
        a.x as int,
        a.y as int,
        a.x as int,
        a.y as int,
        p,
    ) by {
        assert(seq![t][0] == t);
        if line_hits(cache, a.x as int, a.y as int, a.x as int, a.y as int, p) {
            assert(spoke_hits(cache, anchors, seq![t], t as int, 0, p));
        }
    }
    lemma_paint_same(
        f,
        |p: int| spokes_hits(cache, anchors, seq![t], t as int, 1, p),
        |p: int| line_hits(cache, a.x as int, a.y as int, a.x as int, a.y as int, p),
        YELLOW,
    );
    degenerate_line_is_one_stamp(f, cache, a.x as int, a.y as int, YELLOW);
}

} // verus!
