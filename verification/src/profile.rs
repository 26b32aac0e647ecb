//! Vehicle profiles: which roads a vehicle may take and how fast it goes there.

use vstd::prelude::*;
use crate::graph::HighwayType;

verus! {

#[derive(Debug, Clone, Copy, PartialEq, Eq, Structural)]
pub enum VehicleType {
    Scooter50,
    Voiturette,
}

/// Routing profile of a vehicle. Speeds are in km/h.
pub struct Profile {
    pub name: String,
    pub max_speed_kmh: u32,
    pub block_motorway: bool,
    pub block_motorroad: bool,
}

/// Typical speed in km/h that a vehicle reaches on a road class, once
/// traffic and lights are accounted for; `None` on motorways. `fast` tells a
/// vehicle whose top speed is above 50 km/h.
pub open spec fn class_speed(h: HighwayType, fast: bool) -> Option<u32> {
    match h {
        HighwayType::Motorway | HighwayType::MotorwayLink => None,
        HighwayType::Trunk | HighwayType::TrunkLink => Some(if fast { 35 } else { 25 }),
        HighwayType::Primary | HighwayType::PrimaryLink => Some(if fast { 22 } else { 18 }),
        HighwayType::Secondary | HighwayType::SecondaryLink => Some(if fast { 22 } else { 18 }),
        HighwayType::Tertiary | HighwayType::TertiaryLink => Some(if fast { 18 } else { 15 }),
        HighwayType::Residential => Some(if fast { 16 } else { 14 }),
        HighwayType::LivingStreet => Some(10),
        HighwayType::Service => Some(if fast { 14 } else { 12 }),
        HighwayType::Unclassified | HighwayType::Road => Some(if fast { 16 } else { 14 }),
        HighwayType::Other => Some(if fast { 16 } else { 14 }),
    }
}

pub open spec fn min_u32(a: u32, b: u32) -> u32 {
    if a <= b { a } else { b }
}

impl Profile {
    pub open spec fn spec_is_road_blocked(&self, highway: HighwayType, motorroad: bool) -> bool {
        (self.block_motorway && highway.spec_is_motorway()) || (self.block_motorroad && motorroad)
    }

    /// The speed used on a road: the class speed, capped by the vehicle's top
    /// speed and by the road's own speed when that is positive.
    pub open spec fn spec_allowed_speed(&self, highway: HighwayType, road_speed: u32) -> Option<u32> {
        match class_speed(highway, self.max_speed_kmh > 50) {
            None => None,
            Some(base) => {
                let limit = min_u32(base, self.max_speed_kmh);
                if road_speed > 0 {
                    Some(min_u32(limit, road_speed))
                } else {
                    Some(limit)
                }
            },
        }
    }

    pub fn for_vehicle(v: VehicleType) -> (p: Profile)
        ensures
            p.name@ == (match v {
                VehicleType::Scooter50 => "scooter"@,
                VehicleType::Voiturette => "voiturette"@,
            }),
            p.max_speed_kmh == (match v {
                VehicleType::Scooter50 => 45u32,
                VehicleType::Voiturette => 70u32,
            }),
            p.block_motorway,
            p.block_motorroad,
    {
        match v {
            VehicleType::Scooter50 => Profile {
                name: String::from_str("scooter"),
                max_speed_kmh: 45,
                block_motorway: true,
                block_motorroad: true,
            },
            VehicleType::Voiturette => Profile {
                name: String::from_str("voiturette"),
                max_speed_kmh: 70,
                block_motorway: true,
                block_motorroad: true,
            },
        }
    }

    /// Is this road closed to the vehicle? Motorways when the profile blocks
    /// them, and any road flagged as a motorroad when the profile blocks those.
    pub fn is_road_blocked(&self, highway: &HighwayType, motorroad: bool) -> (b: bool)
        ensures
            b == self.spec_is_road_blocked(*highway, motorroad),
    {
        if self.block_motorway && highway.is_motorway() {
            return true;
        }
        if self.block_motorroad && motorroad {
            return true;
        }
        false
    }

    /// Speed in km/h used on a road of this class whose own speed is
    /// `road_speed` (0 when unknown); `None` when the class is not usable.
    pub fn allowed_speed(&self, highway: &HighwayType, road_speed: u32) -> (r: Option<u32>)
        ensures
            r == self.spec_allowed_speed(*highway, road_speed),
    {
        let fast = self.max_speed_kmh > 50;
        let base: u32 = match highway {
            HighwayType::Motorway | HighwayType::MotorwayLink => return None,
            HighwayType::Trunk | HighwayType::TrunkLink => if fast { 35 } else { 25 },
            HighwayType::Primary | HighwayType::PrimaryLink => if fast { 22 } else { 18 },
            HighwayType::Secondary | HighwayType::SecondaryLink => if fast { 22 } else { 18 },
            HighwayType::Tertiary | HighwayType::TertiaryLink => if fast { 18 } else { 15 },
            HighwayType::Residential => if fast { 16 } else { 14 },
            HighwayType::LivingStreet => 10,
            HighwayType::Service => if fast { 14 } else { 12 },
            HighwayType::Unclassified | HighwayType::Road => if fast { 16 } else { 14 },
            HighwayType::Other => if fast { 16 } else { 14 },
        };
        let limit = if base <= self.max_speed_kmh { base } else { self.max_speed_kmh };
        if road_speed > 0 {
            Some(if limit <= road_speed { limit } else { road_speed })
        } else {
            Some(limit)
        }
    }
}

} // verus!
