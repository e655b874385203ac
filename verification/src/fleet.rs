//! Fleets and the lanes they can use.

use vstd::prelude::*;
use crate::lane::LaneType;
use crate::ship::{Ship, ShipType};

verus! {

/// Ships that travel together.
#[derive(Debug, Clone)]
pub struct Fleet {
    pub ships: Vec<Ship>,
}

impl View for Fleet {
    type V = Seq<Ship>;

    open spec fn view(&self) -> Seq<Ship> {
        self.ships@
    }
}

/// Whether every ship of `ships` can cross a restricted lane.
pub open spec fn all_cross_restricted(ships: Seq<Ship>) -> bool {
    forall|i: int| 0 <= i < ships.len() ==> (#[trigger] ships[i]).crosses_restricted()
}

/// Whether ships travelling together can use a lane of class `lane_type`:
/// major and minor lanes are open to all, a restricted lane only to a group
/// in which every ship can cross it.
pub open spec fn fleet_traverses(ships: Seq<Ship>, lane_type: LaneType) -> bool {
    lane_type != LaneType::Restricted || all_cross_restricted(ships)
}

impl Fleet {
    pub fn can_traverse(&self, lane_type: LaneType) -> (able: bool)
        ensures
            able == fleet_traverses(self@, lane_type),
    {
        match lane_type {
            LaneType::Restricted => {
                let mut i: usize = 0;
                while i < self.ships.len()
                    invariant
                        lane_type == LaneType::Restricted,
                        i <= self.ships.len(),
                        forall|k: int| 0 <= k < i ==> (#[trigger] self.ships@[k]).crosses_restricted(),
                    decreases self.ships.len() - i,
                {
                    if !self.ships[i].can_cross_restricted_lane() {
                        return false;
                    }
                    i += 1;
                }
                true
            },
            _ => true,
        }
    }
}

/// A fleet of military ships, none of them crippled, can use every lane.
pub proof fn lemma_sound_military_fleet_goes_anywhere(ships: Seq<Ship>, lane_type: LaneType)
    requires
        forall|i: int|
            0 <= i < ships.len() ==> (#[trigger] ships[i]).ship_type == ShipType::Military
                && !ships[i].is_crippled,
    ensures
        fleet_traverses(ships, lane_type),
{
}

/// One spacelift ship, or one crippled ship, keeps its fleet off restricted
/// lanes; major and minor lanes stay open to it.
pub proof fn lemma_hindered_fleet_is_restricted(ships: Seq<Ship>, i: int)
    requires
        0 <= i < ships.len(),
        ships[i].ship_type == ShipType::Spacelift || ships[i].is_crippled,
    ensures
        !fleet_traverses(ships, LaneType::Restricted),
        fleet_traverses(ships, LaneType::Major),
        fleet_traverses(ships, LaneType::Minor),
{
    assert(!ships[i].crosses_restricted());
}

} // verus!
