//! Tile coordinates on the slippy-map grid, and bounding boxes in
//! microdegrees.
use vstd::prelude::*;
use vstd::arithmetic::power2::pow2;

verus! {

/// A tile of the map grid: column `x`, row `y`, at a zoom level.
/// At zoom `z` the grid is `2^z` by `2^z` tiles.
#[derive(Debug, Clone, Copy, PartialEq, Eq, Structural)]
pub struct TileCoordinate {
    pub x: u32,
    pub y: u32,
    pub zoom: u32,
}

impl TileCoordinate {
    pub fn new(x: u32, y: u32, zoom: u32) -> (r: TileCoordinate)
        ensures
            r.x == x && r.y == y && r.zoom == zoom,
    {
        TileCoordinate { x, y, zoom }
    }

    /// The four tiles one zoom level deeper that partition this tile.
    pub fn get_children(&self) -> (r: [TileCoordinate; 4])
        requires
            self.x < 0x8000_0000,
            self.y < 0x8000_0000,
            self.zoom < u32::MAX,
        ensures
            r@.len() == 4,
            forall|i: int| 0 <= i < 4 ==> (#[trigger] r@[i]).zoom == self.zoom + 1,
            r@[0].x == self.x * 2 && r@[0].y == self.y * 2,
            r@[1].x == self.x * 2 + 1 && r@[1].y == self.y * 2,
            r@[2].x == self.x * 2 && r@[2].y == self.y * 2 + 1,
            r@[3].x == self.x * 2 + 1 && r@[3].y == self.y * 2 + 1,
    {
        [
            TileCoordinate::new(self.x * 2, self.y * 2, self.zoom + 1),
            TileCoordinate::new(self.x * 2 + 1, self.y * 2, self.zoom + 1),
            TileCoordinate::new(self.x * 2, self.y * 2 + 1, self.zoom + 1),
            TileCoordinate::new(self.x * 2 + 1, self.y * 2 + 1, self.zoom + 1),
        ]
    }
}

/// A geographic bounding box in microdegrees (degrees times one million).
/// `west <= east` and `south <= north` for a well-formed box.
#[derive(Debug, Clone, Copy, PartialEq, Eq, Structural)]
pub struct Bbox {
    pub east: i64,
    pub north: i64,
    pub west: i64,
    pub south: i64,
}

impl Bbox {
    /// Whether the point at (`lat`, `long`) microdegrees lies inside the box,
    /// borders included.
    pub open spec fn spec_contains(&self, lat: i64, long: i64) -> bool {
        &&& self.south <= lat <= self.north
        &&& self.west <= long <= self.east
    }

    #[verifier::when_used_as_spec(spec_contains)]
    pub fn contains(&self, lat: i64, long: i64) -> (r: bool)
        ensures
            r == self.spec_contains(lat, long),
    {
        self.south <= lat && lat <= self.north && self.west <= long && long <= self.east
    }
}

/// Whether `b` is the smallest box covering every box of `boxes`: it
/// covers each, and each side is attained by one of them.
pub open spec fn is_union_box(boxes: Seq<Bbox>, b: Bbox) -> bool {
    &&& forall|i: int|
        0 <= i < boxes.len() ==> {
            &&& b.east >= (#[trigger] boxes[i]).east
            &&& b.north >= boxes[i].north
            &&& b.west <= boxes[i].west
            &&& b.south <= boxes[i].south
        }
    &&& exists|i: int| 0 <= i < boxes.len() && b.east == (#[trigger] boxes[i]).east
    &&& exists|i: int| 0 <= i < boxes.len() && b.north == (#[trigger] boxes[i]).north
    &&& exists|i: int| 0 <= i < boxes.len() && b.west == (#[trigger] boxes[i]).west
    &&& exists|i: int| 0 <= i < boxes.len() && b.south == (#[trigger] boxes[i]).south
}

/// The smallest box that covers every box of `boxes`.
pub fn union_bbox(boxes: &Vec<Bbox>) -> (r: Bbox)
    requires
        boxes@.len() > 0,
    ensures
        is_union_box(boxes@, r),
        forall|i: int|
            0 <= i < boxes@.len() ==> {
                &&& r.east >= #[trigger] boxes@[i].east
                &&& r.north >= boxes@[i].north
                &&& r.west <= boxes@[i].west
                &&& r.south <= boxes@[i].south
            },
        exists|i: int| 0 <= i < boxes@.len() && r.east == #[trigger] boxes@[i].east,
        exists|i: int| 0 <= i < boxes@.len() && r.north == #[trigger] boxes@[i].north,
        exists|i: int| 0 <= i < boxes@.len() && r.west == #[trigger] boxes@[i].west,
        exists|i: int| 0 <= i < boxes@.len() && r.south == #[trigger] boxes@[i].south,
{
    let mut r: Bbox = boxes[0];
    proof {
        assert(r.east == boxes@[0].east && r.north == boxes@[0].north && r.west == boxes@[0].west
            && r.south == boxes@[0].south);
    }
    let mut i: usize = 1;
    while i < boxes.len()
        invariant
            1 <= i <= boxes@.len(),
            forall|j: int| 0 <= j < i ==> r.east >= #[trigger] boxes@[j].east,
            forall|j: int| 0 <= j < i ==> r.north >= #[trigger] boxes@[j].north,
            forall|j: int| 0 <= j < i ==> r.west <= #[trigger] boxes@[j].west,
            forall|j: int| 0 <= j < i ==> r.south <= #[trigger] boxes@[j].south,
            exists|j: int| 0 <= j < i && r.east == #[trigger] boxes@[j].east,
            exists|j: int| 0 <= j < i && r.north == #[trigger] boxes@[j].north,
            exists|j: int| 0 <= j < i && r.west == #[trigger] boxes@[j].west,
            exists|j: int| 0 <= j < i && r.south == #[trigger] boxes@[j].south,
        decreases boxes@.len() - i,
    {
        if boxes[i].east > r.east {
            r.east = boxes[i].east;
        }
        if boxes[i].north > r.north {
            r.north = boxes[i].north;
        }
        if boxes[i].west < r.west {
            r.west = boxes[i].west;
        }
        if boxes[i].south < r.south {
            r.south = boxes[i].south;
        }
        proof {
            if r.east == boxes@[i as int].east {
                assert(0 <= i < i + 1 && r.east == boxes@[i as int].east);
            } else {
                let j = choose|j: int| 0 <= j < i && r.east == #[trigger] boxes@[j].east;
                assert(0 <= j < i + 1 && r.east == boxes@[j].east);
            }
            if r.north == boxes@[i as int].north {
                assert(0 <= i < i + 1 && r.north == boxes@[i as int].north);
            } else {
                let j = choose|j: int| 0 <= j < i && r.north == #[trigger] boxes@[j].north;
                assert(0 <= j < i + 1 && r.north == boxes@[j].north);
            }
            if r.west == boxes@[i as int].west {
                assert(0 <= i < i + 1 && r.west == boxes@[i as int].west);
            } else {
                let j = choose|j: int| 0 <= j < i && r.west == #[trigger] boxes@[j].west;
                assert(0 <= j < i + 1 && r.west == boxes@[j].west);
            }
            if r.south == boxes@[i as int].south {
                assert(0 <= i < i + 1 && r.south == boxes@[i as int].south);
            } else {
                let j = choose|j: int| 0 <= j < i && r.south == #[trigger] boxes@[j].south;
                assert(0 <= j < i + 1 && r.south == boxes@[j].south);
            }
        }
        i = i + 1;
    }
    r
}

/// Whether `c` lies on the one-tile-wide ring around the block of
/// `n` by `n` tiles whose top-left tile is (`bx`, `by`), at zoom `zoom`.
pub open spec fn on_ring(c: TileCoordinate, bx: int, by: int, n: int, zoom: int) -> bool {
    &&& c.zoom == zoom
    &&& {
        ||| (c.y == by - 1 && bx - 1 <= c.x <= bx + n)
        ||| (c.y == by + n && bx - 1 <= c.x <= bx + n)
        ||| (c.x == bx - 1 && by <= c.y < by + n)
        ||| (c.x == bx + n && by <= c.y < by + n)
    }
}

/// The tiles at `target_zoom` that surround the footprint of `coord`:
/// `coord` covers an `n` by `n` block of tiles at the deeper zoom
/// (`n = 2^(target_zoom - coord.zoom)`), and the result is the ring of
/// tiles one step outside that block, corners included.
pub fn adjacent_tiles(coord: &TileCoordinate, target_zoom: u32) -> (r: Vec<TileCoordinate>)
    requires
        coord.zoom <= target_zoom,
        target_zoom - coord.zoom < 32,
        coord.x >= 1,
        coord.y >= 1,
        (coord.x + 1) * pow2((target_zoom - coord.zoom) as nat) < u32::MAX,
        (coord.y + 1) * pow2((target_zoom - coord.zoom) as nat) < u32::MAX,
    ensures
        ({
            let n = pow2((target_zoom - coord.zoom) as nat) as int;
            let bx = coord.x * n;
            let by = coord.y * n;
            &&& r@.len() == 4 * n + 4
            &&& forall|i: int|
                0 <= i < r@.len() ==> on_ring(#[trigger] r@[i], bx, by, n, target_zoom as int)
            &&& forall|c: TileCoordinate|
                on_ring(c, bx, by, n, target_zoom as int) ==> r@.contains(c)
        }),
{
    let dz = target_zoom - coord.zoom;
    proof {
        vstd::arithmetic::mul::lemma_mul_inequality(2, (coord.x + 1) as int, pow2(dz as nat) as int);
        vstd::arithmetic::mul::lemma_mul_inequality(
            coord.x as int,
            (coord.x + 1) as int,
            pow2(dz as nat) as int,
        );
        vstd::arithmetic::mul::lemma_mul_inequality(
            coord.y as int,
            (coord.y + 1) as int,
            pow2(dz as nat) as int,
        );
    }
    let n = pow2_u32(dz);
    proof {
        vstd::arithmetic::mul::lemma_mul_inequality(1, coord.x as int, n as int);
        vstd::arithmetic::mul::lemma_mul_inequality(1, coord.y as int, n as int);
    }
    let bx = coord.x * n;
    let by = coord.y * n;
    proof {
        assert((coord.x as int + 1) * (n as int) == coord.x as int * (n as int) + n as int)
            by (nonlinear_arith);
        assert((coord.y as int + 1) * (n as int) == coord.y as int * (n as int) + n as int)
            by (nonlinear_arith);
    }

    let ghost gn = n as int;
    let ghost gbx = bx as int;
    let ghost gby = by as int;
    let ghost gz = target_zoom as int;

    let mut result: Vec<TileCoordinate> = Vec::new();
    let mut x: u32 = bx - 1;
    while x <= bx + n
        invariant
            bx == gbx && by == gby && n == gn && target_zoom == gz,
            gbx - 1 <= x <= gbx + gn + 1,
            bx >= 1,
            by >= 1,
            gbx + gn < u32::MAX,
            gby + gn < u32::MAX,
            result@.len() == 2 * (x - (gbx - 1)),
            forall|i: int|
                0 <= i < result@.len() ==> on_ring(#[trigger] result@[i], gbx, gby, gn, gz),
            forall|c: TileCoordinate|
                (on_ring(c, gbx, gby, gn, gz) && (c.y == gby - 1 || c.y == gby + gn) && c.x < x)
                    ==> result@.contains(c),
        decreases gbx + gn + 1 - x,
    {
        let ghost prev = result@;
        result.push(TileCoordinate::new(x, by - 1, target_zoom));
        result.push(TileCoordinate::new(x, by + n, target_zoom));
        proof {
            assert forall|c: TileCoordinate|
                (on_ring(c, gbx, gby, gn, gz) && (c.y == gby - 1 || c.y == gby + gn) && c.x < x
                    + 1) implies result@.contains(c) by {
                if c.x < x {
                    lemma_contains_prefix(prev, result@, c);
                } else if c.y == gby - 1 {
                    assert(result@[prev.len() as int] == c);
                } else {
                    assert(result@[prev.len() as int + 1] == c);
                }
            }
        }
        x = x + 1;
    }

    let mut y: u32 = by;
    while y < by + n
        invariant
            bx == gbx && by == gby && n == gn && target_zoom == gz,
            gby <= y <= gby + gn,
            bx >= 1,
            by >= 1,
            gbx + gn < u32::MAX,
            gby + gn < u32::MAX,
            result@.len() == 2 * (gn + 2) + 2 * (y - gby),
            forall|i: int|
                0 <= i < result@.len() ==> on_ring(#[trigger] result@[i], gbx, gby, gn, gz),
            forall|c: TileCoordinate|
                (on_ring(c, gbx, gby, gn, gz) && (c.y == gby - 1 || c.y == gby + gn))
                    ==> result@.contains(c),
            forall|c: TileCoordinate|
                (on_ring(c, gbx, gby, gn, gz) && (c.x == gbx - 1 || c.x == gbx + gn) && gby <= c.y
                    < y) ==> result@.contains(c),
        decreases gby + gn - y,
    {
        let ghost prev = result@;
        result.push(TileCoordinate::new(bx - 1, y, target_zoom));
        result.push(TileCoordinate::new(bx + n, y, target_zoom));
        proof {
            assert forall|c: TileCoordinate|
                (on_ring(c, gbx, gby, gn, gz) && (c.y == gby - 1 || c.y == gby
                    + gn)) implies result@.contains(c) by {
                lemma_contains_prefix(prev, result@, c);
            }
            assert forall|c: TileCoordinate|
                (on_ring(c, gbx, gby, gn, gz) && (c.x == gbx - 1 || c.x == gbx + gn) && gby <= c.y
                    < y + 1) implies result@.contains(c) by {
                if c.y < y {
                    lemma_contains_prefix(prev, result@, c);
                } else if c.x == gbx - 1 {
                    assert(result@[prev.len() as int] == c);
                } else {
                    assert(result@[prev.len() as int + 1] == c);
                }
            }
        }
        y = y + 1;
    }

    result
}

proof fn lemma_contains_prefix<T>(s1: Seq<T>, s2: Seq<T>, c: T)
    requires
        s1.len() <= s2.len(),
        forall|i: int| 0 <= i < s1.len() ==> s1[i] == s2[i],
        s1.contains(c),
    ensures
        s2.contains(c),
{
    let i = choose|i: int| 0 <= i < s1.len() && s1[i] == c;
    assert(s2[i] == c);
}

/// `2^dz` as a machine integer.
fn pow2_u32(dz: u32) -> (r: u32)
    requires
        dz < 32,
        pow2(dz as nat) <= u32::MAX,
    ensures
        r == pow2(dz as nat),
        r >= 1,
{
    let mut r: u32 = 1;
    let mut i: u32 = 0;
    proof {
        vstd::arithmetic::power2::lemma2_to64();
    }
    while i < dz
        invariant
            0 <= i <= dz,
            dz < 32,
            r == pow2(i as nat),
            pow2(dz as nat) <= u32::MAX,
        decreases dz - i,
    {
        proof {
            vstd::arithmetic::power2::lemma_pow2_adds(i as nat, 1);
            vstd::arithmetic::power2::lemma2_to64();
            if i + 1 < dz {
                vstd::arithmetic::power2::lemma_pow2_strictly_increases((i + 1) as nat, dz as nat);
            }
        }
        r = r * 2;
        i = i + 1;
    }
    r
}

} // verus!
