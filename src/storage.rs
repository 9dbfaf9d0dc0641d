use vstd::prelude::*;

verus! {

/// Where the profiles and accounts are kept on disk: two JSON files in a
/// directory under the application's data directory.
pub struct Storage;

impl Storage {
    /// The directory, under the application's data directory, that holds the files.
    pub fn config_dir() -> (r: &'static str)
        ensures
            r@ == "config"@,
    {
        "config"
    }

    /// The file of the profiles.
    pub fn profiles_file() -> (r: &'static str)
        ensures
            r@ == "profiles.json"@,
    {
        "profiles.json"
    }

    /// The file of the accounts.
    pub fn briefcases_file() -> (r: &'static str)
        ensures
            r@ == "briefcases.json"@,
    {
        "briefcases.json"
    }

    /// What a new file holds: an empty JSON list.
    pub fn empty_file() -> (r: &'static str)
        ensures
            r@ == "[]"@,
    {
        "[]"
    }
}

/// The configuration file: where the profiles and the accounts are kept, and
/// the settings.
#[derive(Clone, Debug)]
pub struct ConfigFile {
    pub profile_path: String,
    pub brief_case_path: String,
    pub settings: Vec<String>,
}

} // verus!
