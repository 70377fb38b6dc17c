use kilonova::io::{directory_or_current, parent_directory};
use kilonova::mesh::{validate_zoning, ZoningError};
use kilonova::models::{jet_in_cloud, jet_in_star};
use kilonova::physics::{Direction, RiemannSolver};

#[test]
fn parent_directory_of_nested_file() {
    assert_eq!(parent_directory("data/run1/chkpt.0001.cbor"), "data/run1");
}

#[test]
fn parent_directory_of_bare_file_is_current() {
    assert_eq!(parent_directory("chkpt.0001.cbor"), ".");
    assert_eq!(parent_directory(""), ".");
}

#[test]
fn parent_directory_of_rooted_file() {
    assert_eq!(parent_directory("/chkpt.cbor"), "/");
    assert_eq!(parent_directory("/"), ".");
}

#[test]
fn directory_of_a_parent() {
    assert_eq!(directory_or_current(None), ".");
    assert_eq!(directory_or_current(Some(String::new())), ".");
    assert_eq!(directory_or_current(Some("out".to_string())), "out");
}

#[test]
fn zoning_accepts_legal_choices() {
    assert_eq!(validate_zoning(Some(100), 1, 2), Ok(()));
    assert_eq!(validate_zoning(None, 16, 64), Ok(()));
    assert_eq!(validate_zoning(Some(50), 256, 8), Ok(()));
}

#[test]
fn zoning_refuses_small_blocks() {
    assert_eq!(validate_zoning(Some(100), 1, 1), Err(ZoningError::TooFewZonesPerBlock));
    assert_eq!(validate_zoning(None, 3, 0), Err(ZoningError::TooFewZonesPerBlock));
}

#[test]
fn zoning_refuses_few_polar_zones() {
    assert_eq!(validate_zoning(Some(100), 15, 8), Err(ZoningError::TooFewPolarZones));
    assert_eq!(validate_zoning(Some(100), 0, 8), Err(ZoningError::TooFewPolarZones));
    assert_eq!(validate_zoning(Some(100), 2, 8), Err(ZoningError::TooFewPolarZones));
}

#[test]
fn zoning_needs_radial_zones_in_one_dimension() {
    assert_eq!(validate_zoning(None, 1, 8), Err(ZoningError::MissingRadialZones));
    assert_eq!(
        ZoningError::MissingRadialZones.message(),
        "num_radial_zones is not optional when num_polar_zones=1"
    );
}

#[test]
fn jet_in_cloud_zone_precedence() {
    assert_eq!(jet_in_cloud::select_zone(true, true), jet_in_cloud::Zone::Jet);
    assert_eq!(jet_in_cloud::select_zone(true, false), jet_in_cloud::Zone::Jet);
    assert_eq!(jet_in_cloud::select_zone(false, true), jet_in_cloud::Zone::Envelop);
    assert_eq!(jet_in_cloud::select_zone(false, false), jet_in_cloud::Zone::Cloud);
}

#[test]
fn jet_in_star_zone_precedence() {
    assert_eq!(jet_in_star::select_zone(true, true), jet_in_star::Zone::Jet);
    assert_eq!(jet_in_star::select_zone(false, true), jet_in_star::Zone::Core);
    assert_eq!(jet_in_star::select_zone(false, false), jet_in_star::Zone::Wind);
}

#[test]
fn enums_compare_by_variant() {
    assert!(Direction::Radial != Direction::Polar);
    assert!(RiemannSolver::HLLC != RiemannSolver::HLLE);
}
