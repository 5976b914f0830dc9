use vstd::prelude::*;

verus! {

/// The window settings an application starts with.
#[derive(Clone, Copy, Debug, PartialEq, Eq, Structural)]
pub struct Config {
    pub width: u32,
    pub height: u32,
    pub fullscreen: bool,
}

impl Config {
    /// An 800 by 600 window, not fullscreen.
    pub fn default() -> (r: Config)
        ensures
            r.width == 800,
            r.height == 600,
            !r.fullscreen,
    {
        Config { width: 800, height: 600, fullscreen: false }
    }
}

} // verus!
