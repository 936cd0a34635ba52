//! The saved configuration: which folder was indexed, and when.
use vstd::prelude::*;

verus! {

/// What `init` records.
#[derive(Clone, Debug)]
pub struct Config {
    /// The absolute path of the document folder.
    pub doc_folder_path: String,
    /// When the folder was last indexed (`%Y-%m-%dT%H:%M:%S`, local time).
    pub last_init_time: String,
}

/// Where the configuration is kept (`config.json` in the data folder).
pub struct ConfigStore {
    /// The configuration file's path.
    pub config_path: String,
}

impl ConfigStore {
    /// A store for the configuration file at `config_path`.
    pub fn new(config_path: &str) -> (r: Self)
        ensures
            r.config_path@ == config_path@,
    {
        Self { config_path: config_path.to_owned() }
    }
}

} // verus!
