//! Runtime configuration consumed by the control loop.

use vstd::prelude::*;

verus! {

/// The default response curve: (temperature in degrees, fan speed percent).
pub open spec fn default_curve() -> Seq<(u32, u32)> {
    seq![(30u32, 0u32), (50u32, 30u32), (70u32, 60u32), (85u32, 100u32)]
}

/// Fan curve points plus the polling cadence of the control loop.
#[derive(Clone, Debug)]
pub struct Config {
    /// Fan curve points: (temperature in degrees, fan speed percent).
    pub curve: Vec<(u32, u32)>,
    /// Control loop interval in milliseconds.
    pub interval_ms: u64,
}

impl Default for Config {
    fn default() -> (c: Config)
        ensures
            c.curve@ == default_curve(),
            c.interval_ms == 2000,
    {
        let mut curve: Vec<(u32, u32)> = Vec::new();
        curve.push((30, 0));
        curve.push((50, 30));
        curve.push((70, 60));
        curve.push((85, 100));
        proof {
            assert(curve@ =~= default_curve());
        }
        Config { curve, interval_ms: 2000 }
    }
}

} // verus!
