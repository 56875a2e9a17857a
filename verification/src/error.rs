//! The ways in which loading and searching a map fail.

use crate::cell::ConversionError;
use vstd::prelude::*;

verus! {

/// A map that cannot be loaded, or a search that cannot be made.
#[derive(Debug, Clone, Copy, PartialEq, Eq, Structural)]
pub enum GameMapError {
    MoreThanOneTarget,
    MissingTarget,
    MoreThanOneOrigin,
    MissingOrigin,
    CouldNotFindPath,
    AlreadySolved,
}

/// Why the lines of a map file are no map.
#[derive(Debug, Clone, Copy, PartialEq, Eq, Structural)]
pub enum LoadError {
    /// A character stands for no cell.
    Conversion(ConversionError),
    /// The cells do not hold exactly one origin and one target.
    GameMap(GameMapError),
}

} // verus!
