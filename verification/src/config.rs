//! The per-run configuration: which game is selected, with its schema and
//! settings.
//!
//! Loading the schema from disk is the caller's business; a `Config` is
//! built from the already-loaded pieces.

use crate::schema::Schema;
use crate::settings::Settings;
use vstd::prelude::*;

verus! {

/// The configuration one run of a program works under.
pub struct Config {
    pub game_selected: String,
    pub schema: Schema,
    pub settings: Settings,
    pub verbosity_level: u64,
}

impl Config {
    /// A configuration for the given game, around its loaded schema.
    pub fn new(game_selected: String, schema: Schema, settings: Settings, verbosity_level: u64) -> (c:
        Config)
        ensures
            c.game_selected@ == game_selected@,
            c.schema == schema,
            c.settings == settings,
            c.verbosity_level == verbosity_level,
    {
        Config { game_selected, schema, settings, verbosity_level }
    }
}

} // verus!
