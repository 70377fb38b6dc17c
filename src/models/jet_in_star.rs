//! Zones of a jet launched through a stellar core and its wind.
use vstd::prelude::*;

verus! {

/// Different space-time zones in the setup.
#[derive(Clone, Copy, Debug, PartialEq, Eq, Structural)]
pub enum Zone {
    Core,
    Envelop,
    Wind,
    Jet,
}

/// Pick the zone of an event. `inside_jet`: the event lies in the nozzle,
/// inside the jet head; `inside_core`: it lies inside the stellar core. The
/// jet takes precedence over the core; all else is wind.
pub fn select_zone(inside_jet: bool, inside_core: bool) -> (r: Zone)
    ensures
        r == (if inside_jet {
            Zone::Jet
        } else if inside_core {
            Zone::Core
        } else {
            Zone::Wind
        }),
{
    if inside_jet {
        Zone::Jet
    } else if inside_core {
        Zone::Core
    } else {
        Zone::Wind
    }
}

} // verus!
