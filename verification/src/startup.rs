//! The server's configuration.
use vstd::prelude::*;
use std::path::PathBuf;

verus! {

#[verifier::external_type_specification]
#[verifier::external_body]
pub struct ExPathBuf(PathBuf);

/// How the server is run.
#[derive(Debug)]
pub struct Config {
    /// Database dump file directory.
    pub data_dir: Option<PathBuf>,
    /// Don't show the starting graphic.
    pub dont_show_graphic: bool,
    /// How many commands run between two saves.
    pub ops_until_save: u64,
    /// The port to listen on.
    pub port: u64,
    /// Never save the databases to disk.
    pub memory_only: bool,
    /// Directory of scripts to load.
    pub scripts_dir: Option<PathBuf>,
}

} // verus!
