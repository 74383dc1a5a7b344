//! Read-only cross-venue prediction-market spread radar.
use vstd::prelude::*;

pub mod board;
pub mod config;
pub mod laws;
pub mod live;
pub mod map;
pub mod spread;
pub mod table;
pub mod text;

verus! {

/// The program's command-line name.
pub fn cli_name() -> (name: &'static str)
    ensures
        name@ == "oddsradar"@,
{
    "oddsradar"
}

} // verus!
