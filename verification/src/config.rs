use vstd::prelude::*;

verus! {

/// Where the tool keeps its data: a directory path. Reading a
/// configuration file and expanding `~` are the shell adapter's work; the
/// library only derives the file locations from the chosen directory.
pub struct Config {
    path: String,
}

impl Config {
    /// The configured data directory.
    pub closed spec fn spec_path(&self) -> Seq<char> {
        self.path@
    }

    pub fn new(path: String) -> (r: Config)
        ensures
            r.spec_path() == path@,
    {
        Config { path }
    }

    pub fn path(&self) -> (r: &str)
        ensures
            r@ == self.spec_path(),
    {
        self.path.as_str()
    }

    /// The database file inside the data directory.
    pub fn database_path(&self) -> (r: String)
        ensures
            r@ == self.spec_path() + "/database.db"@,
    {
        let mut full = self.path.clone();
        full.append("/database.db");
        full
    }
}

} // verus!
