//! Axial hex coordinates: distance, neighbours, discs and dense identifiers.

use vstd::prelude::*;

verus! {

/// A hex of the grid in axial coordinates.
#[derive(Debug, Clone, Copy, PartialEq, Eq, Hash, Structural)]
pub struct Hex {
    pub q: i32,
    pub r: i32,
}

/// The mathematical point that a [`Hex`] stands for: a pair of unbounded integers.
pub struct HexPoint {
    pub q: int,
    pub r: int,
}

impl View for Hex {
    type V = HexPoint;

    open spec fn view(&self) -> HexPoint {
        HexPoint { q: self.q as int, r: self.r as int }
    }
}

/// The absolute value of an integer.
pub open spec fn magnitude(x: int) -> int {
    if x < 0 {
        -x
    } else {
        x
    }
}

impl HexPoint {
    /// The centre of the grid.
    pub open spec fn origin() -> HexPoint {
        HexPoint { q: 0, r: 0 }
    }

    /// Cube distance: half the sum of the three coordinate differences.
    pub open spec fn distance(self, other: HexPoint) -> int {
        (magnitude(self.q - other.q) + magnitude(self.r - other.r) + magnitude(
            self.q + self.r - other.q - other.r,
        )) / 2
    }

    /// Whether both coordinates fit a `Hex`.
    pub open spec fn representable(self) -> bool {
        i32::MIN <= self.q <= i32::MAX && i32::MIN <= self.r <= i32::MAX
    }

    /// Distance from the centre of the grid.
    pub open spec fn ring(self) -> int {
        self.distance(HexPoint::origin())
    }

    /// The adjacent point in one of the six directions, counted from east
    /// through northeast, northwest, west and southwest to southeast.
    pub open spec fn neighbor(self, direction: int) -> HexPoint {
        if direction == 0 {
            HexPoint { q: self.q + 1, r: self.r }
        } else if direction == 1 {
            HexPoint { q: self.q + 1, r: self.r - 1 }
        } else if direction == 2 {
            HexPoint { q: self.q, r: self.r - 1 }
        } else if direction == 3 {
            HexPoint { q: self.q - 1, r: self.r }
        } else if direction == 4 {
            HexPoint { q: self.q - 1, r: self.r + 1 }
        } else {
            HexPoint { q: self.q, r: self.r + 1 }
        }
    }

    /// The dense identifier of a point in a grid of `rings` rings: its place,
    /// row by row, in the square of side `2 * rings + 1` around the centre.
    pub open spec fn id(self, rings: int) -> int {
        (self.q + rings) * (2 * rings + 1) + (self.r + rings)
    }

    /// The order in which discs are listed: by `q`, then by `r`.
    pub open spec fn precedes(self, other: HexPoint) -> bool {
        self.q < other.q || (self.q == other.q && self.r < other.r)
    }
}

/// One more than the largest identifier in a grid of `rings` rings.
pub open spec fn id_space(rings: int) -> int {
    (2 * rings + 1) * (2 * rings + 1)
}

/// The number of hexes within `radius` of any hex.
pub open spec fn disk_size(radius: int) -> int {
    if radius < 0 {
        0
    } else {
        3 * radius * radius + 3 * radius + 1
    }
}

/// The number of hexes of a disc that share one `q`, `dq` away from the centre's.
pub open spec fn row_length(radius: int, dq: int) -> int {
    2 * radius + 1 - magnitude(dq)
}

/// The least `r` offset in the row of a disc `dq` away from the centre's.
pub open spec fn row_first(radius: int, dq: int) -> int {
    if dq < 0 {
        -dq - radius
    } else {
        -radius
    }
}

/// The greatest `r` offset in the row of a disc `dq` away from the centre's.
pub open spec fn row_last(radius: int, dq: int) -> int {
    if dq > 0 {
        -dq + radius
    } else {
        radius
    }
}

/// The number of hexes of a disc whose `q` is less than `dq` away from the centre's.
pub open spec fn rows_before(radius: int, dq: int) -> int
    decreases dq + radius,
{
    if dq <= -radius {
        0
    } else {
        rows_before(radius, dq - 1) + row_length(radius, dq - 1)
    }
}

/// A point lies within `radius` of `center` exactly when each of its three
/// cube offsets does.
pub proof fn lemma_disk_bounds(p: HexPoint, center: HexPoint, radius: int)
    ensures
        p.distance(center) <= radius <==> {
            &&& -radius <= p.q - center.q <= radius
            &&& -radius <= p.r - center.r <= radius
            &&& -radius <= (p.q - center.q) + (p.r - center.r) <= radius
        },
        p.distance(center) >= 0,
{
}

proof fn lemma_rows_closed_form(radius: int, dq: int)
    requires
        0 <= radius,
        -radius <= dq <= radius + 1,
    ensures
        dq <= 0 ==> 2 * rows_before(radius, dq) == (dq + radius) * (3 * radius + dq + 1),
        dq >= 0 ==> 2 * rows_before(radius, dq) == radius * (3 * radius + 1) + 2 * dq * (2 * radius
            + 1) - dq * (dq - 1),
    decreases dq + radius,
{
    if dq > -radius {
        lemma_rows_closed_form(radius, dq - 1);
        let prev = rows_before(radius, dq - 1);
        if dq <= 0 {
            assert(2 * (prev + (2 * radius + 1 + (dq - 1))) == (dq + radius) * (3 * radius + dq
                + 1)) by (nonlinear_arith)
                requires
                    2 * prev == (dq - 1 + radius) * (3 * radius + (dq - 1) + 1),
            ;
        } else if dq == 1 {
            assert(2 * (prev + (2 * radius + 1)) == radius * (3 * radius + 1) + 2 * dq * (2
                * radius + 1) - dq * (dq - 1)) by (nonlinear_arith)
                requires
                    dq == 1,
                    2 * prev == radius * (3 * radius + 1),
            ;
            assert(radius * (3 * radius + 0 + 1) == radius * (3 * radius + 1));
        } else {
            assert(2 * (prev + (2 * radius + 1 - (dq - 1))) == radius * (3 * radius + 1) + 2 * dq
                * (2 * radius + 1) - dq * (dq - 1)) by (nonlinear_arith)
                requires
                    2 * prev == radius * (3 * radius + 1) + 2 * (dq - 1) * (2 * radius + 1) - (dq
                        - 1) * (dq - 2),
            ;
        }
    } else {
        assert((dq + radius) * (3 * radius + dq + 1) == 0) by (nonlinear_arith)
            requires
                dq + radius == 0,
        ;
    }
    if dq == 0 {
        assert(radius * (3 * radius + 1) + 2 * dq * (2 * radius + 1) - dq * (dq - 1) == (dq
            + radius) * (3 * radius + dq + 1)) by (nonlinear_arith)
            requires
                dq == 0,
        ;
    }
}

/// All rows of a disc together hold `3 * radius * radius + 3 * radius + 1` hexes.
pub proof fn lemma_rows_total(radius: int)
    requires
        0 <= radius,
    ensures
        rows_before(radius, radius + 1) == disk_size(radius),
{
    lemma_rows_closed_form(radius, radius + 1);
    let dq = radius + 1;
    assert(radius * (3 * radius + 1) + 2 * dq * (2 * radius + 1) - dq * (dq - 1) == 2 * (3
        * radius * radius + 3 * radius + 1)) by (nonlinear_arith)
        requires
            dq == radius + 1,
    ;
}

fn magnitude_of(x: i64) -> (m: i64)
    requires
        x > i64::MIN,
    ensures
        m == magnitude(x as int),
{
    if x < 0 {
        -x
    } else {
        x
    }
}

impl Hex {
    pub fn new(q: i32, r: i32) -> (hex: Hex)
        ensures
            hex.q == q,
            hex.r == r,
    {
        Hex { q, r }
    }

    /// Cube distance between two hexes.
    pub fn distance(&self, other: &Hex) -> (d: u32)
        requires
            self@.distance(other@) <= u32::MAX,
        ensures
            d == self@.distance(other@),
    {
        let dq: i64 = self.q as i64 - other.q as i64;
        let dr: i64 = self.r as i64 - other.r as i64;
        let total: i64 = magnitude_of(dq) + magnitude_of(dr) + magnitude_of(dq + dr);
        (total / 2) as u32
    }

    /// The dense identifier of a hex within `num_rings` of the centre.
    pub fn to_id(&self, num_rings: u32) -> (id: usize)
        requires
            self@.ring() <= num_rings,
            id_space(num_rings as int) <= usize::MAX,
        ensures
            id == self@.id(num_rings as int),
            id < id_space(num_rings as int),
    {
        proof {
            lemma_disk_bounds(self@, HexPoint::origin(), num_rings as int);
            lemma_id_in_range(self@, num_rings as int);
        }
        let rings: i64 = num_rings as i64;
        let side: u64 = (2 * rings + 1) as u64;
        let q_shifted: u64 = (self.q as i64 + rings) as u64;
        let r_shifted: u64 = (self.r as i64 + rings) as u64;
        assert(q_shifted * side <= 2 * rings * side) by (nonlinear_arith)
            requires
                0 <= q_shifted <= 2 * rings,
                side >= 0,
        ;
        assert(2 * rings * side + 2 * rings < id_space(rings as int)) by (nonlinear_arith)
            requires
                side == 2 * rings + 1,
                rings >= 0,
        ;
        (q_shifted * side + r_shifted) as usize
    }

    /// Every hex within `radius` of `center`, listed by `q` and then by `r`.
    pub fn within_radius(center: &Hex, radius: i32) -> (hexes: Vec<Hex>)
        requires
            radius >= 0 ==> i32::MIN <= center.q - radius && center.q + radius <= i32::MAX,
            radius >= 0 ==> i32::MIN <= center.r - radius && center.r + radius <= i32::MAX,
        ensures
            hexes.len() == disk_size(radius as int),
            forall|i: int|
                0 <= i < hexes.len() ==> (#[trigger] hexes[i])@.distance(center@) <= radius,
            forall|p: HexPoint|
                p.distance(center@) <= radius ==> exists|i: int|
                    0 <= i < hexes.len() && (#[trigger] hexes[i])@ == p,
            forall|i: int, j: int|
                0 <= i < j < hexes.len() ==> (#[trigger] hexes[i])@.precedes(
                    (#[trigger] hexes[j])@,
                ),
    {
        let mut results: Vec<Hex> = Vec::new();
        if radius < 0 {
            proof {
                assert forall|p: HexPoint| p.distance(center@) <= radius implies false by {
                    lemma_disk_bounds(p, center@, radius as int);
                }
            }
            return results;
        }
        let reach: i64 = radius as i64;
        let mut dq: i64 = -reach;
        while dq <= reach
            invariant
                0 <= reach == radius,
                -reach <= dq <= reach + 1,
                i32::MIN <= center.q - radius && center.q + radius <= i32::MAX,
                i32::MIN <= center.r - radius && center.r + radius <= i32::MAX,
                results.len() == rows_before(reach as int, dq as int),
                forall|i: int|
                    0 <= i < results.len() ==> {
                        &&& (#[trigger] results[i])@.distance(center@) <= radius
                        &&& results[i].q - center.q < dq
                    },
                forall|p: HexPoint|
                    p.distance(center@) <= radius && p.q - center.q < dq ==> exists|i: int|
                        0 <= i < results.len() && (#[trigger] results[i])@ == p,
                forall|i: int, j: int|
                    0 <= i < j < results.len() ==> (#[trigger] results[i])@.precedes(
                        (#[trigger] results[j])@,
                    ),
            decreases reach + 1 - dq,
        {
            let first: i64 = if -dq - reach > -reach {
                -dq - reach
            } else {
                -reach
            };
            let last: i64 = if -dq + reach < reach {
                -dq + reach
            } else {
                reach
            };
            let mut dr: i64 = first;
            while dr <= last
                invariant
                    0 <= reach == radius,
                    -reach <= dq <= reach,
                    first == row_first(reach as int, dq as int),
                    last == row_last(reach as int, dq as int),
                    first <= dr <= last + 1,
                    i32::MIN <= center.q - radius && center.q + radius <= i32::MAX,
                    i32::MIN <= center.r - radius && center.r + radius <= i32::MAX,
                    results.len() == rows_before(reach as int, dq as int) + (dr - first),
                    forall|i: int|
                        0 <= i < results.len() ==> {
                            &&& (#[trigger] results[i])@.distance(center@) <= radius
                            &&& (results[i].q - center.q < dq || (results[i].q - center.q == dq
                                && results[i].r - center.r < dr))
                        },
                    forall|p: HexPoint|
                        p.distance(center@) <= radius && (p.q - center.q < dq || (p.q - center.q
                            == dq && p.r - center.r < dr)) ==> exists|i: int|
                            0 <= i < results.len() && (#[trigger] results[i])@ == p,
                    forall|i: int, j: int|
                        0 <= i < j < results.len() ==> (#[trigger] results[i])@.precedes(
                            (#[trigger] results[j])@,
                        ),
                decreases last + 1 - dr,
            {
                let hex = Hex::new((center.q as i64 + dq) as i32, (center.r as i64 + dr) as i32);
                let ghost before = results@;
                results.push(hex);
                proof {
                    lemma_disk_bounds(hex@, center@, radius as int);
                    assert forall|p: HexPoint|
                        p.distance(center@) <= radius && (p.q - center.q < dq || (p.q - center.q
                            == dq && p.r - center.r < dr + 1)) implies exists|i: int|
                        0 <= i < results.len() && (#[trigger] results[i])@ == p by {
                        if p.q - center.q == dq && p.r - center.r == dr {
                            assert(results[before.len() as int]@ == p);
                        } else {
                            let i = choose|i: int| 0 <= i < before.len() && (#[trigger] before[i])@ == p;
                            assert(results[i]@ == p);
                        }
                    }
                }
                dr += 1;
            }
            proof {
                assert forall|p: HexPoint|
                    p.distance(center@) <= radius && p.q - center.q < dq + 1 implies exists|i: int|
                    0 <= i < results.len() && (#[trigger] results[i])@ == p by {
                    lemma_disk_bounds(p, center@, radius as int);
                }
            }
            dq += 1;
        }
        proof {
            lemma_rows_total(reach as int);
        }
        results
    }

    /// Whether the hex lies within `num_rings` of the centre.
    pub fn in_grid(&self, num_rings: u32) -> (inside: bool)
        ensures
            inside == (self@.ring() <= num_rings),
    {
        proof {
            lemma_disk_bounds(self@, HexPoint::origin(), num_rings as int);
        }
        let reach: i64 = num_rings as i64;
        let q: i64 = self.q as i64;
        let r: i64 = self.r as i64;
        -reach <= q && q <= reach && -reach <= r && r <= reach && -reach <= q + r && q + r
            <= reach
    }

    /// The adjacent hex in direction `direction % 6`, if it lies within
    /// `num_rings` of the centre.
    pub fn neighbor_within(&self, direction: usize, num_rings: u32) -> (next: Option<Hex>)
        requires
            num_rings <= i32::MAX,
        ensures
            next is Some == (self@.neighbor((direction % 6) as int).ring() <= num_rings),
            next is Some ==> next->0@ == self@.neighbor((direction % 6) as int),
    {
        let turn = direction % 6;
        let (dq, dr): (i64, i64) = if turn == 0 {
            (1, 0)
        } else if turn == 1 {
            (1, -1)
        } else if turn == 2 {
            (0, -1)
        } else if turn == 3 {
            (-1, 0)
        } else if turn == 4 {
            (-1, 1)
        } else {
            (0, 1)
        };
        let q: i64 = self.q as i64 + dq;
        let r: i64 = self.r as i64 + dr;
        let reach: i64 = num_rings as i64;
        proof {
            lemma_disk_bounds(
                self@.neighbor(turn as int),
                HexPoint::origin(),
                num_rings as int,
            );
        }
        if -reach <= q && q <= reach && -reach <= r && r <= reach && -reach <= q + r && q + r
            <= reach {
            Some(Hex::new(q as i32, r as i32))
        } else {
            None
        }
    }

    /// The adjacent hex in direction `direction % 6`.
    pub fn neighbor(&self, direction: usize) -> (next: Hex)
        requires
            self@.neighbor((direction % 6) as int).representable(),
        ensures
            next@ == self@.neighbor((direction % 6) as int),
    {
        let turn = direction % 6;
        if turn == 0 {
            Hex::new(self.q + 1, self.r)
        } else if turn == 1 {
            Hex::new(self.q + 1, self.r - 1)
        } else if turn == 2 {
            Hex::new(self.q, self.r - 1)
        } else if turn == 3 {
            Hex::new(self.q - 1, self.r)
        } else if turn == 4 {
            Hex::new(self.q - 1, self.r + 1)
        } else {
            Hex::new(self.q, self.r + 1)
        }
    }
}

/// Identifiers of points within `rings` of the centre lie in `0 .. id_space(rings)`.
pub proof fn lemma_id_in_range(p: HexPoint, rings: int)
    requires
        p.ring() <= rings,
    ensures
        0 <= p.id(rings) < id_space(rings),
{
    lemma_disk_bounds(p, HexPoint::origin(), rings);
    let side = 2 * rings + 1;
    let qs = p.q + rings;
    assert(0 <= qs * side <= 2 * rings * side) by (nonlinear_arith)
        requires
            0 <= qs <= 2 * rings,
            side >= 0,
    ;
    assert(2 * rings * side + 2 * rings < side * side) by (nonlinear_arith)
        requires
            side == 2 * rings + 1,
            rings >= 0,
    ;
}

/// The distance from `a` to `b` is the distance from `b` to `a`.
pub proof fn lemma_distance_symmetric(a: HexPoint, b: HexPoint)
    ensures
        a.distance(b) == b.distance(a),
{
}

/// Distances are never negative, and only a point itself lies at distance
/// zero from it.
pub proof fn lemma_distance_zero(a: HexPoint, b: HexPoint)
    ensures
        a.distance(b) >= 0,
        a.distance(b) == 0 <==> a == b,
{
}

/// Going from `a` to `c` by way of `b` is no shorter than going straight.
pub proof fn lemma_distance_triangle(a: HexPoint, b: HexPoint, c: HexPoint)
    ensures
        a.distance(c) <= a.distance(b) + b.distance(c),
{
    lemma_distance_is_largest_offset(a, b);
    lemma_distance_is_largest_offset(b, c);
    lemma_distance_is_largest_offset(a, c);
}

/// The distance between two points is the largest of their three cube
/// offsets.
pub proof fn lemma_distance_is_largest_offset(a: HexPoint, b: HexPoint)
    ensures
        a.distance(b) >= magnitude(a.q - b.q),
        a.distance(b) >= magnitude(a.r - b.r),
        a.distance(b) >= magnitude(a.q + a.r - b.q - b.r),
        a.distance(b) == magnitude(a.q - b.q) || a.distance(b) == magnitude(a.r - b.r)
            || a.distance(b) == magnitude(a.q + a.r - b.q - b.r),
{
}

/// Each of the six neighbours of a point lies at distance 1 from it.
pub proof fn lemma_neighbor_is_adjacent(p: HexPoint, direction: int)
    requires
        0 <= direction < 6,
    ensures
        p.distance(p.neighbor(direction)) == 1,
        p.neighbor(direction).distance(p) == 1,
{
}

/// The direction that leads back from the neighbour in direction
/// `direction`.
pub open spec fn opposite(direction: int) -> int {
    (direction + 3) % 6
}

/// Stepping to a neighbour and then in the opposite direction leads back.
pub proof fn lemma_neighbor_and_back(p: HexPoint, direction: int)
    requires
        0 <= direction < 6,
    ensures
        0 <= opposite(direction) < 6,
        p.neighbor(direction).neighbor(opposite(direction)) == p,
{
}

/// Every point but the centre has a neighbour one ring further in.
pub proof fn lemma_neighbor_further_in(p: HexPoint) -> (direction: int)
    requires
        p.ring() >= 1,
    ensures
        0 <= direction < 6,
        p.neighbor(direction).ring() == p.ring() - 1,
{
    let s = p.q + p.r;
    if p.q > 0 && p.r >= 0 {
        3
    } else if p.q > 0 && s > 0 {
        3
    } else if p.q > 0 {
        4
    } else if p.q == 0 && p.r > 0 {
        2
    } else if p.q == 0 {
        5
    } else if p.r <= 0 {
        0
    } else if s < 0 {
        0
    } else {
        1
    }
}

/// A grid whose identifiers fit the machine has at most `i32::MAX` rings.
pub proof fn lemma_rings_fit(rings: int)
    requires
        0 <= rings,
        id_space(rings) <= usize::MAX,
    ensures
        rings <= i32::MAX,
{
    assert(rings <= 0x7FFF_FFFF) by (nonlinear_arith)
        requires
            0 <= rings,
            (2 * rings + 1) * (2 * rings + 1) <= 0xFFFF_FFFF_FFFF_FFFF,
    ;
}

/// Two points within `rings` of the centre that share an identifier are the
/// same point.
pub proof fn lemma_id_injective(a: HexPoint, b: HexPoint, rings: int)
    requires
        a.ring() <= rings,
        b.ring() <= rings,
        a.id(rings) == b.id(rings),
    ensures
        a == b,
{
    lemma_disk_bounds(a, HexPoint::origin(), rings);
    lemma_disk_bounds(b, HexPoint::origin(), rings);
    let side = 2 * rings + 1;
    let dq = a.q - b.q;
    assert((a.q + rings) * side - (b.q + rings) * side == dq * side) by (nonlinear_arith)
        requires
            dq == a.q - b.q,
    ;
    if dq > 0 {
        assert(dq * side >= side) by (nonlinear_arith)
            requires
                dq >= 1,
                side >= 0,
        ;
    } else if dq < 0 {
        assert(dq * side <= -side) by (nonlinear_arith)
            requires
                dq <= -1,
                side >= 0,
        ;
    }
}

} // verus!
