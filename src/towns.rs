//! Placement of the sixteen town anchors: one per cell of a four-by-four
//! board of 250-pixel cells, at a random offset below 150 past a 50-pixel
//! margin.

use vstd::prelude::*;

verus! {

/// Number of towns on the board.
pub const TOWNS: usize = 16;

/// Anchor of one town, in source pixel coordinates.
#[derive(Clone, Copy, Debug, PartialEq, Eq)]
pub struct TownR {
    pub x: i32,
    pub y: i32,
}

/// Anchor of town `i` placed at offset `(ox, oy)` inside its cell.
pub open spec fn anchor_at(i: int, ox: int, oy: int) -> (int, int) {
    ((i % 4) * 250 + ox + 50, (i / 4) * 250 + oy + 50)
}

/// Whether `t` is a possible anchor of town `i`: inside its cell, past the
/// margin, at an offset below 150 on both axes.
pub open spec fn anchor_in_cell(i: int, t: TownR) -> bool {
    &&& (i % 4) * 250 + 50 <= t.x < (i % 4) * 250 + 200
    &&& (i / 4) * 250 + 50 <= t.y < (i / 4) * 250 + 200
}

/// The anchors of the sixteen towns, fixed for the session.
pub struct TownsR {
    arr: Vec<TownR>,
}

/// Relies on rand's `Rng::gen_range` over the thread-local generator: a
/// uniform draw from the half-open range `0..150`.
#[verifier::external_body]
fn random_offset() -> (r: i32)
    ensures
        0 <= r < 150,
{
    rand::Rng::gen_range(&mut rand::thread_rng(), 0..150i32)
}

impl TownsR {
    /// The anchors, by town index.
    pub closed spec fn anchors(&self) -> Seq<TownR> {
        self.arr@
    }

    /// Sixteen anchors, each inside its own cell.
    pub open spec fn wf(&self) -> bool {
        &&& self.anchors().len() == TOWNS
        &&& forall|i: int| 0 <= i < TOWNS ==> anchor_in_cell(i, #[trigger] self.anchors()[i])
    }

    /// Places town `i` at offset `offsets[i]` inside its cell.
    pub fn place(offsets: &Vec<(i32, i32)>) -> (r: TownsR)
        requires
            offsets.len() == TOWNS,
            forall|i: int|
                0 <= i < TOWNS ==> 0 <= (#[trigger] offsets@[i]).0 < 150 && 0 <= offsets@[i].1 < 150,
        ensures
            r.wf(),
            forall|i: int|
                0 <= i < TOWNS ==> ((#[trigger] r.anchors()[i]).x as int, r.anchors()[i].y as int)
                    == anchor_at(i, offsets@[i].0 as int, offsets@[i].1 as int),
    {
        let mut arr: Vec<TownR> = Vec::new();
        let mut i: usize = 0;
        while i < TOWNS
            invariant
                i <= TOWNS,
                offsets.len() == TOWNS,
                forall|j: int|
                    0 <= j < TOWNS ==> 0 <= (#[trigger] offsets@[j]).0 < 150 && 0 <= offsets@[j].1 < 150,
                arr.len() == i,
                forall|j: int| 0 <= j < i ==> anchor_in_cell(j, #[trigger] arr@[j]),
                forall|j: int|
                    0 <= j < i ==> ((#[trigger] arr@[j]).x as int, arr@[j].y as int)
                        == anchor_at(j, offsets@[j].0 as int, offsets@[j].1 as int),
            decreases TOWNS - i,
        {
            let (ox, oy) = offsets[i];
            let x0 = ((i % 4) * 250) as i32;
            let y0 = ((i / 4) * 250) as i32;
            arr.push(TownR { x: x0 + ox + 50, y: y0 + oy + 50 });
            i = i + 1;
        }
        TownsR { arr }
    }

    /// Draws a fresh random layout.
    pub fn gen() -> (r: TownsR)
        ensures
            r.wf(),
    {
        let mut offsets: Vec<(i32, i32)> = Vec::new();
        let mut i: usize = 0;
        while i < TOWNS
            invariant
                i <= TOWNS,
                offsets.len() == i,
                forall|j: int|
                    0 <= j < i ==> 0 <= (#[trigger] offsets@[j]).0 < 150 && 0 <= offsets@[j].1 < 150,
            decreases TOWNS - i,
        {
            let x = random_offset();
            let y = random_offset();
            offsets.push((x, y));
            i = i + 1;
        }
        TownsR::place(&offsets)
    }

    /// The anchor of town `i`.
    pub fn get_town(&self, i: usize) -> (r: TownR)
        requires
            self.wf(),
            i < TOWNS,
        ensures
            r == self.anchors()[i as int],
    {
        self.arr[i]
    }
}

} // verus!
