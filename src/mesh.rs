//! Zoning rules of the spherical polar mesh.
use vstd::prelude::*;

verus! {

/// The fewest polar zones of a two-dimensional mesh.
pub const MIN_POLAR_ZONES_2D: usize = 16;

/// A zoning choice that the mesh refuses.
#[derive(Clone, Copy, Debug, PartialEq, Eq, Structural)]
pub enum ZoningError {
    /// A block holds fewer than 2 radial zones.
    TooFewZonesPerBlock,
    /// The polar direction has neither 1 zone nor at least 16.
    TooFewPolarZones,
    /// A one-dimensional mesh gives no radial zone count; the default makes
    /// zones square, which needs a polar spacing.
    MissingRadialZones,
}

/// Check the integer zoning of a mesh, in this order: at least 2 radial zones
/// per block; 1 polar zone or at least 16; a radial zone count whenever there
/// is a single polar zone.
pub fn validate_zoning(
    num_radial_zones: Option<usize>,
    num_polar_zones: usize,
    block_size: usize,
) -> (r: Result<(), ZoningError>)
    ensures
        block_size < 2 ==> r == Err::<(), ZoningError>(ZoningError::TooFewZonesPerBlock),
        block_size >= 2 && num_polar_zones != 1 && num_polar_zones < MIN_POLAR_ZONES_2D ==> r
            == Err::<(), ZoningError>(ZoningError::TooFewPolarZones),
        block_size >= 2 && num_polar_zones == 1 && num_radial_zones is None ==> r == Err::<
            (),
            ZoningError,
        >(ZoningError::MissingRadialZones),
        r is Ok <==> block_size >= 2 && (num_polar_zones == 1 || num_polar_zones
            >= MIN_POLAR_ZONES_2D) && (num_polar_zones == 1 ==> num_radial_zones is Some),
{
    if block_size < 2 {
        return Err(ZoningError::TooFewZonesPerBlock);
    }
    if num_polar_zones != 1 && num_polar_zones < MIN_POLAR_ZONES_2D {
        return Err(ZoningError::TooFewPolarZones);
    }
    if num_polar_zones == 1 && num_radial_zones.is_none() {
        return Err(ZoningError::MissingRadialZones);
    }
    Ok(())
}

impl ZoningError {
    /// A one-line description of the refused choice.
    pub fn message(&self) -> (r: &'static str) {
        match self {
            ZoningError::TooFewZonesPerBlock => "must have at least 2 radial zones per block",
            ZoningError::TooFewPolarZones => "must have either 1 or at least 16 polar zones",
            ZoningError::MissingRadialZones => "num_radial_zones is not optional when num_polar_zones=1",
        }
    }
}

} // verus!
