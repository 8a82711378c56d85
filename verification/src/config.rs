//! The settings that are kept between runs.

use crate::constants::PROJECT_NAME;
use crate::text::{chars_of, push_all, string_of};
use vstd::prelude::*;

verus! {

/// The settings: where the notes are kept.
#[derive(Debug, Clone, PartialEq)]
pub struct Config {
    /// Root directory for notes (required)
    pub root_dir: Option<String>,
}

impl Default for Config {
    fn default() -> (config: Config)
        ensures
            config.root_dir is None,
    {
        Config { root_dir: None }
    }
}

impl Config {
    /// Whether the root directory has still to be asked for.
    pub fn needs_setup(&self) -> (r: bool)
        ensures
            r == (self.root_dir is None),
    {
        self.root_dir.is_none()
    }
}

/// The name of the settings file: the project name behind a dot.
pub open spec fn config_name() -> Seq<char> {
    seq!['.'] + PROJECT_NAME@
}

/// Config file stored in home directory
pub fn config_filename() -> (name: String)
    ensures
        name@ == config_name(),
{
    let mut name: Vec<char> = Vec::new();
    name.push('.');
    assert(name@ == seq!['.']);
    push_all(&mut name, &chars_of(PROJECT_NAME));
    string_of(&name)
}

} // verus!
