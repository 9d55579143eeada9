//! Fixed locations of the profile documents, and the error types of the
//! tile and profile readers. Reading, writing and path assembly are the
//! callers' concern.
pub mod profile;
pub mod tiles;

use vstd::prelude::*;

verus! {

/// Where the car profile document lives.
pub fn get_car_profile_path() -> (r: &'static str)
    ensures
        r@ == "./car.jsonld"@,
{
    "./car.jsonld"
}

/// Where the pedestrian profile document lives.
pub fn get_pedestrian_profile_path() -> (r: &'static str)
    ensures
        r@ == "./pedestrian.jsonld"@,
{
    "./pedestrian.jsonld"
}

/// Where the bicycle profile document lives.
pub fn get_bicycle_profile_path() -> (r: &'static str)
    ensures
        r@ == "./bicycle.jsonld"@,
{
    "./bicycle.jsonld"
}

} // verus!
