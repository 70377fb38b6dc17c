//! Zones of a jet launched into an expanding cloud.
use vstd::prelude::*;

verus! {

/// Different space-time zones in the setup.
#[derive(Clone, Copy, Debug, PartialEq, Eq, Structural)]
pub enum Zone {
    Envelop,
    Cloud,
    Jet,
}

/// Pick the zone of an event. `inside_jet`: the event lies in the nozzle,
/// between the jet tail and the jet head; `beyond_cloud`: it lies outside the
/// cloud-envelope interface. The jet takes precedence over the envelope, the
/// envelope over the cloud.
pub fn select_zone(inside_jet: bool, beyond_cloud: bool) -> (r: Zone)
    ensures
        r == (if inside_jet {
            Zone::Jet
        } else if beyond_cloud {
            Zone::Envelop
        } else {
            Zone::Cloud
        }),
{
    if inside_jet {
        Zone::Jet
    } else if beyond_cloud {
        Zone::Envelop
    } else {
        Zone::Cloud
    }
}

} // verus!
