//! Window state of the explorer that holds no measurements.

use vstd::prelude::*;

verus! {

/// Closable window states.
#[derive(Clone, Debug, PartialEq)]
pub struct WindowState {
    pub show_controls: bool,
    pub show_measure_axis_angle: bool,
    pub show_gap_console: bool,
}

impl Default for WindowState {
    /// Only the GAP console is open at first.
    fn default() -> (r: Self)
        ensures
            !r.show_controls,
            !r.show_measure_axis_angle,
            r.show_gap_console,
    {
        Self { show_controls: false, show_measure_axis_angle: false, show_gap_console: true }
    }
}

/// The two axes whose angle the measure window shows.
#[derive(Clone, Debug, PartialEq, Default)]
pub struct MeasureAxisAngleWindowState {
    pub axis_a: String,
    pub axis_b: String,
}

} // verus!
