//! Plain data types for the command surface: the dimension selector, the
//! argument bundles of each sub-command, and the block-position triple that
//! bounds filters work on.  The binary front end holds mirror types carrying
//! the argument-parser attributes and converts to these.

use vstd::prelude::*;

verus! {

/// A three-component block position as supplied on the command line.
pub type Coords = (i32, i32, i32);

/// The simulated dimension whose region files a command works on.
#[derive(Clone, Copy, PartialEq, Eq, Structural, Debug)]
pub enum Dimension {
    Overworld,
    Nether,
    End,
}

impl Dimension {
    /// Path of the terrain region directory, relative to the world root.
    pub fn region_subdir(self) -> (r: &'static str)
        ensures
            self is Overworld ==> r@ == "region"@,
            self is Nether ==> r@ == "DIM-1/region"@,
            self is End ==> r@ == "DIM1/region"@,
    {
        match self {
            Dimension::Overworld => "region",
            Dimension::Nether => "DIM-1/region",
            Dimension::End => "DIM1/region",
        }
    }

    /// Path of the entity region directory, relative to the world root.
    pub fn entities_subdir(self) -> (r: &'static str)
        ensures
            self is Overworld ==> r@ == "entities"@,
            self is Nether ==> r@ == "DIM-1/entities"@,
            self is End ==> r@ == "DIM1/entities"@,
    {
        match self {
            Dimension::Overworld => "entities",
            Dimension::Nether => "DIM-1/entities",
            Dimension::End => "DIM1/entities",
        }
    }
}

/// Arguments of the block-pattern search sub-command.
pub struct BlockArgs {
    pub world: String,
    pub dimension: Dimension,
    pub pattern: String,
    pub from: Coords,
    pub to: Coords,
}

/// Arguments of the block-entity listing sub-command.
pub struct BlockEntitiesArgs {
    pub world: String,
    pub dimension: Dimension,
    pub from: Option<Coords>,
    pub to: Option<Coords>,
    pub json: bool,
}

/// Arguments of the lighting-reset sub-command.
pub struct ResetLightingArgs {
    pub region: String,
}

} // verus!
