//! The configuration record consumed by the optimizer: one independent
//! toggle per rewrite pass, plus the debug-timing switch.

use vstd::prelude::*;

verus! {

#[derive(Debug, PartialEq, Eq, Structural, Clone, Copy)]
pub struct Cli {
    pub debug: bool,
    pub f_no_optimize_scan: bool,
    pub f_no_optimize_clear: bool,
    pub f_no_optimize_loops: bool,
}

impl Default for Cli {
    /// Every optimization enabled, debug timing disabled.
    fn default() -> (r: Cli)
        ensures
            r == (Cli {
                debug: false,
                f_no_optimize_scan: false,
                f_no_optimize_clear: false,
                f_no_optimize_loops: false,
            }),
    {
        Cli {
            debug: false,
            f_no_optimize_scan: false,
            f_no_optimize_clear: false,
            f_no_optimize_loops: false,
        }
    }
}

} // verus!
