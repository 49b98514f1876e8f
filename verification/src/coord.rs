//! Fixed-point coordinates in decimicro-degrees (1e-7 degree).

use vstd::prelude::*;

verus! {

/// Largest latitude magnitude, in decimicro-degrees (90 degrees).
pub const LAT_LIMIT: i32 = 900_000_000;

/// Largest longitude magnitude, in decimicro-degrees (180 degrees).
pub const LON_LIMIT: i32 = 1_800_000_000;

/// Whether `lat` lies within the latitude range of the globe.
pub open spec fn lat_in_range(lat: int) -> bool {
    -900_000_000 <= lat <= 900_000_000
}

/// Whether `lon` lies within the longitude range of the globe.
pub open spec fn lon_in_range(lon: int) -> bool {
    -1_800_000_000 <= lon <= 1_800_000_000
}

/// Latitude in decimicro-degrees.
#[derive(Debug, Clone, Copy, PartialEq, Eq, Structural)]
pub struct DecimicroLatitude(pub i32);

/// Longitude in decimicro-degrees.
#[derive(Debug, Clone, Copy, PartialEq, Eq, Structural)]
pub struct DecimicroLongitude(pub i32);

impl DecimicroLatitude {
    /// Whether the value is a latitude that exists on the globe.
    pub open spec fn in_range(self) -> bool {
        lat_in_range(self.0 as int)
    }

    /// Tests whether the value is a latitude that exists on the globe.
    pub fn is_valid(&self) -> (r: bool)
        ensures
            r == self.in_range(),
    {
        -LAT_LIMIT <= self.0 && self.0 <= LAT_LIMIT
    }
}

impl DecimicroLongitude {
    /// Whether the value is a longitude that exists on the globe.
    pub open spec fn in_range(self) -> bool {
        lon_in_range(self.0 as int)
    }

    /// Tests whether the value is a longitude that exists on the globe.
    pub fn is_valid(&self) -> (r: bool)
        ensures
            r == self.in_range(),
    {
        -LON_LIMIT <= self.0 && self.0 <= LON_LIMIT
    }
}

impl From<i32> for DecimicroLatitude {
    fn from(value: i32) -> (r: DecimicroLatitude) {
        DecimicroLatitude(value)
    }
}

impl vstd::std_specs::convert::FromSpecImpl<i32> for DecimicroLatitude {
    open spec fn obeys_from_spec() -> bool {
        true
    }

    open spec fn from_spec(value: i32) -> DecimicroLatitude {
        DecimicroLatitude(value)
    }
}

impl From<i32> for DecimicroLongitude {
    fn from(value: i32) -> (r: DecimicroLongitude) {
        DecimicroLongitude(value)
    }
}

impl vstd::std_specs::convert::FromSpecImpl<i32> for DecimicroLongitude {
    open spec fn obeys_from_spec() -> bool {
        true
    }

    open spec fn from_spec(value: i32) -> DecimicroLongitude {
        DecimicroLongitude(value)
    }
}

} // verus!
