//! Logging options and the level they select.
use vstd::prelude::*;

verus! {

/// The verbosity levels the command line can select.
#[derive(Clone, Copy, Debug, PartialEq, Eq, Structural)]
pub enum LevelFilter {
    Off,
    Trace,
    Debug,
    Info,
}

/// Logging flags.  `quiet` wins over everything, `trace` over `debug`.
#[derive(Clone, Copy, Debug)]
pub struct Opts {
    pub debug: bool,
    pub trace: bool,
    pub quiet: bool,
}

impl Opts {
    /// The most verbose level these flags allow.
    pub fn level_filter(self) -> (r: LevelFilter)
        ensures
            r == if self.quiet {
                LevelFilter::Off
            } else if self.trace {
                LevelFilter::Trace
            } else if self.debug {
                LevelFilter::Debug
            } else {
                LevelFilter::Info
            },
    {
        if self.quiet {
            LevelFilter::Off
        } else if self.trace {
            LevelFilter::Trace
        } else if self.debug {
            LevelFilter::Debug
        } else {
            LevelFilter::Info
        }
    }
}

} // verus!
