use vstd::prelude::*;

verus! {

/// Which dependency declarations are admitted when the graph is built. Every
/// option defaults to "include".
#[derive(Clone, Copy, PartialEq, Eq, Structural, Debug)]
pub struct Config {
    /// Include normal dependencies.
    pub normal_deps: bool,
    /// Include build-time dependencies.
    pub build_deps: bool,
    /// Include development dependencies.
    pub dev_deps: bool,
    /// Include target-specific dependencies.
    pub target_deps: bool,
}

impl Default for Config {
    /// The default configuration includes every dependency kind.
    fn default() -> (c: Config)
        ensures
            c == (Config { normal_deps: true, build_deps: true, dev_deps: true, target_deps: true }),
    {
        Config { normal_deps: true, build_deps: true, dev_deps: true, target_deps: true }
    }
}

} // verus!
