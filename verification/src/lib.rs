//! The logic of a small Doom launcher: remembered lists of source ports and
//! IWADs, a key/value settings file, the mods and maps offered from a folder,
//! and the command line of a launch.

use vstd::prelude::*;

pub mod text;
pub mod paths;
pub mod named_paths;
pub mod settings;
pub mod mods;
pub mod selection;
pub mod launch;
