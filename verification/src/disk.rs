//! Discs and rings of hexes as sets, and how many hexes they hold.

use vstd::prelude::*;
use vstd::set_lib::{lemma_int_range, lemma_map_size, lemma_set_disjoint_lens, set_int_range};
use vstd::relations::injective_on;
use crate::hex::{
    disk_size, lemma_disk_bounds, lemma_rows_total, row_first, row_last, row_length, rows_before,
    HexPoint,
};

verus! {

/// The points within `radius` of `center`.
pub open spec fn disk(center: HexPoint, radius: int) -> Set<HexPoint> {
    Set::new(|p: HexPoint| p.distance(center) <= radius)
}

/// The points at distance `radius` from `center`.
pub open spec fn ring_around(center: HexPoint, radius: int) -> Set<HexPoint> {
    Set::new(|p: HexPoint| p.distance(center) == radius)
}

/// The points of a disc whose `q` is `dq` away from the centre's.
pub open spec fn disk_row(center: HexPoint, radius: int, dq: int) -> Set<HexPoint> {
    Set::new(|p: HexPoint| p.q - center.q == dq && p.distance(center) <= radius)
}

/// The points of a disc whose `q` is less than `dq` away from the centre's.
pub open spec fn disk_rows(center: HexPoint, radius: int, dq: int) -> Set<HexPoint> {
    Set::new(|p: HexPoint| p.q - center.q < dq && p.distance(center) <= radius)
}

/// A row of a disc holds as many points as its length says.
pub proof fn lemma_row_size(center: HexPoint, radius: int, dq: int)
    requires
        0 <= radius,
        -radius <= dq <= radius,
    ensures
        disk_row(center, radius, dq).finite(),
        disk_row(center, radius, dq).len() == row_length(radius, dq),
{
    let lo = row_first(radius, dq);
    let hi = row_last(radius, dq) + 1;
    let offsets = set_int_range(lo, hi);
    let row = disk_row(center, radius, dq);
    let place = |dr: int| HexPoint { q: center.q + dq, r: center.r + dr };
    lemma_int_range(lo, hi);
    assert(injective_on(place, offsets)) by {
        assert forall|a: int, b: int|
            offsets.contains(a) && offsets.contains(b) && #[trigger] place(a) == #[trigger] place(
                b,
            ) implies a == b by {
            assert(place(a).r == place(b).r);
        }
    }
    assert(offsets.map(place) =~= row) by {
        assert forall|p: HexPoint| offsets.map(place).contains(p) == row.contains(p) by {
            lemma_disk_bounds(p, center, radius);
            if row.contains(p) {
                let dr = p.r - center.r;
                assert(offsets.contains(dr));
                assert(place(dr) == p);
            }
            if offsets.map(place).contains(p) {
                let dr = choose|dr: int| offsets.contains(dr) && p == place(dr);
                assert(p.r - center.r == dr);
            }
        }
    }
    lemma_map_size(offsets, row, place);
}

/// The rows of a disc before the one `dq` away from the centre hold as
/// many points as their lengths add up to.
pub proof fn lemma_rows_size(center: HexPoint, radius: int, dq: int)
    requires
        0 <= radius,
        -radius <= dq <= radius + 1,
    ensures
        disk_rows(center, radius, dq).finite(),
        disk_rows(center, radius, dq).len() == rows_before(radius, dq),
    decreases dq + radius,
{
    let rows = disk_rows(center, radius, dq);
    if dq == -radius {
        assert(rows =~= Set::<HexPoint>::empty()) by {
            assert forall|p: HexPoint| !rows.contains(p) by {
                lemma_disk_bounds(p, center, radius);
            }
        }
    } else {
        let before = disk_rows(center, radius, dq - 1);
        let last = disk_row(center, radius, dq - 1);
        lemma_rows_size(center, radius, dq - 1);
        lemma_row_size(center, radius, dq - 1);
        assert(before + last =~= rows);
        assert(before.disjoint(last));
        lemma_set_disjoint_lens(before, last);
    }
}

/// A disc of radius `radius` holds `3 * radius * radius + 3 * radius + 1`
/// points, and none where the radius is negative.
pub proof fn lemma_disk_size(center: HexPoint, radius: int)
    ensures
        disk(center, radius).finite(),
        disk(center, radius).len() == disk_size(radius),
{
    let all = disk(center, radius);
    if radius < 0 {
        assert(all =~= Set::<HexPoint>::empty()) by {
            assert forall|p: HexPoint| !all.contains(p) by {
                lemma_disk_bounds(p, center, radius);
            }
        }
    } else {
        lemma_rows_size(center, radius, radius + 1);
        lemma_rows_total(radius);
        assert(all =~= disk_rows(center, radius, radius + 1)) by {
            assert forall|p: HexPoint| all.contains(p) == disk_rows(
                center,
                radius,
                radius + 1,
            ).contains(p) by {
                lemma_disk_bounds(p, center, radius);
            }
        }
    }
}

/// A ring of radius `radius`, at least 1, holds `6 * radius` points.
pub proof fn lemma_ring_size(center: HexPoint, radius: int)
    requires
        1 <= radius,
    ensures
        ring_around(center, radius).finite(),
        ring_around(center, radius).len() == 6 * radius,
{
    let outer = disk(center, radius);
    let inner = disk(center, radius - 1);
    let rim = ring_around(center, radius);
    lemma_disk_size(center, radius);
    lemma_disk_size(center, radius - 1);
    assert(inner + rim =~= outer);
    assert(inner.disjoint(rim));
    assert(rim =~= outer.difference(inner));
    vstd::set_lib::lemma_len_difference(outer, inner);
    vstd::set_lib::lemma_len_subset(rim, outer);
    lemma_set_disjoint_lens(inner, rim);
    assert(disk_size(radius) - disk_size(radius - 1) == 6 * radius) by (nonlinear_arith)
        requires
            1 <= radius,
            disk_size(radius) == 3 * radius * radius + 3 * radius + 1,
            disk_size(radius - 1) == 3 * (radius - 1) * (radius - 1) + 3 * (radius - 1) + 1,
    ;
}

} // verus!
