//! User configuration values the library consumes.

use vstd::prelude::*;

verus! {

/// Configuration: where wallpaper images are looked up.
pub struct Config {
    pub wallpaper_dir: String,
}

impl Config {
    /// Wrap a wallpaper directory as a configuration.
    pub fn new(wallpaper_dir: String) -> (c: Config)
        ensures
            c.wallpaper_dir == wallpaper_dir,
    {
        Config { wallpaper_dir }
    }
}

} // verus!
