//! What a run of the program is told.

use vstd::prelude::*;

verus! {

/// The configuration of a run: the path of the map file.
pub struct AppConfig {
    path: String,
}

impl View for AppConfig {
    type V = Seq<char>;

    closed spec fn view(&self) -> Seq<char> {
        self.path@
    }
}

impl AppConfig {
    pub fn new(path: String) -> (config: Self)
        ensures
            config@ == path@,
    {
        Self { path }
    }

    /// The path of the map file.
    pub fn path(&self) -> (path: &str)
        ensures
            path@ == self@,
    {
        self.path.as_str()
    }
}

} // verus!
