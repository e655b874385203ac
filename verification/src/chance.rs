//! Random choices, drawn from a seedable generator that the caller hands in.

use vstd::prelude::*;
use rand::rngs::StdRng;
use rand::seq::SliceRandom;
use rand::Rng;
use crate::lane::LaneType;

verus! {

/// `rand::rngs::StdRng`, a generator that can be seeded; nothing is known
/// of what it will hand out.
#[verifier::external_type_specification]
#[verifier::external_body]
pub struct ExStdRng(StdRng);

/// `Rng::gen_range` on `0..bound`: some number below `bound`. The call
/// panics on an empty range, which `requires` leaves out.
#[verifier::external_body]
pub(crate) fn draw_below(rng: &mut StdRng, bound: u32) -> (drawn: u32)
    requires
        bound > 0,
    ensures
        drawn < bound,
{
    rng.gen_range(0..bound)
}

/// `SliceRandom::shuffle`: the same items in some order.
#[verifier::external_body]
pub(crate) fn shuffle_ids(ids: &mut Vec<usize>, rng: &mut StdRng)
    ensures
        final(ids)@.to_multiset() == old(ids)@.to_multiset(),
{
    ids.shuffle(rng);
}

/// The lane class that a draw stands for: 0 is major, 1 is minor, and
/// anything else is restricted.
pub open spec fn lane_type_of_draw(drawn: u32) -> LaneType {
    if drawn == 0 {
        LaneType::Major
    } else if drawn == 1 {
        LaneType::Minor
    } else {
        LaneType::Restricted
    }
}

/// Turns a draw into a lane class.
pub fn lane_type_for(drawn: u32) -> (lane_type: LaneType)
    ensures
        lane_type == lane_type_of_draw(drawn),
{
    if drawn == 0 {
        LaneType::Major
    } else if drawn == 1 {
        LaneType::Minor
    } else {
        LaneType::Restricted
    }
}

/// Draws one of the three lane classes, each as likely as the others.
pub fn random_lane_type(rng: &mut StdRng) -> (lane_type: LaneType)
    ensures
        exists|drawn: u32| drawn < 3 && lane_type == #[trigger] lane_type_of_draw(drawn),
{
    let drawn = draw_below(rng, 3);
    lane_type_for(drawn)
}

} // verus!
