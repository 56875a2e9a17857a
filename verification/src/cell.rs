//! The kinds of cell a grid holds, and the characters that stand for them.

use vstd::prelude::*;
use vstd::std_specs::convert::FromSpecImpl;
use vstd::std_specs::convert::TryFromSpecImpl;

verus! {

/// What one cell of a grid holds. `Path` is an overlay used when a grid is
/// rendered; no loaded grid holds it.
#[derive(Debug, Clone, Copy, PartialEq, Eq, Structural)]
pub enum CellType {
    Wall,
    Floor,
    Target,
    Origin,
    Path,
}

/// A character that stands for no cell.
#[derive(Debug, Clone, Copy, PartialEq, Eq, Structural)]
pub enum ConversionError {
    CellType(char),
}

/// The cell that a character of a map file stands for.
pub open spec fn decode(c: char) -> Result<CellType, ConversionError> {
    if c == '#' {
        Ok(CellType::Wall)
    } else if c == '.' {
        Ok(CellType::Floor)
    } else if c == 'x' {
        Ok(CellType::Target)
    } else if c == 'o' {
        Ok(CellType::Origin)
    } else {
        Err(ConversionError::CellType(c))
    }
}

/// The character that a cell is written as.
pub open spec fn glyph(cell: CellType) -> char {
    match cell {
        CellType::Wall => '#',
        CellType::Floor => '.',
        CellType::Target => 'x',
        CellType::Origin => 'o',
        CellType::Path => '*',
    }
}

/// Writing a decoded cell gives back the character it was read from.
pub proof fn lemma_glyph_of_decoded(c: char)
    requires
        decode(c) is Ok,
    ensures
        glyph(decode(c)->Ok_0) == c,
{
}

/// Reading a written cell gives back the cell, the overlay excepted.
pub proof fn lemma_decode_of_glyph(cell: CellType)
    requires
        cell != CellType::Path,
    ensures
        decode(glyph(cell)) == Ok::<CellType, ConversionError>(cell),
{
}

impl CellType {
    pub fn is_target(&self) -> (yes: bool)
        ensures
            yes == (*self == CellType::Target),
    {
        match self {
            CellType::Target => true,
            _ => false,
        }
    }

    /// Whether a search may step onto a cell of this kind: floor and the
    /// target, nothing else.
    pub fn can_traverse(&self) -> (yes: bool)
        ensures
            yes == (*self == CellType::Floor || *self == CellType::Target),
    {
        match self {
            CellType::Floor => true,
            CellType::Target => true,
            _ => false,
        }
    }
}

impl TryFrom<char> for CellType {
    type Error = ConversionError;

    fn try_from(value: char) -> (cell: Result<Self, ConversionError>) {
        match value {
            '#' => Ok(CellType::Wall),
            '.' => Ok(CellType::Floor),
            'x' => Ok(CellType::Target),
            'o' => Ok(CellType::Origin),
            _ => Err(ConversionError::CellType(value)),
        }
    }
}

impl TryFromSpecImpl<char> for CellType {
    open spec fn obeys_try_from_spec() -> bool {
        true
    }

    open spec fn try_from_spec(value: char) -> Result<Self, ConversionError> {
        decode(value)
    }
}

impl From<CellType> for char {
    fn from(value: CellType) -> (c: char) {
        match value {
            CellType::Wall => '#',
            CellType::Floor => '.',
            CellType::Target => 'x',
            CellType::Origin => 'o',
            CellType::Path => '*',
        }
    }
}

impl FromSpecImpl<CellType> for char {
    open spec fn obeys_from_spec() -> bool {
        true
    }

    open spec fn from_spec(value: CellType) -> char {
        glyph(value)
    }
}

} // verus!
