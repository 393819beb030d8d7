//! The lifecycle binaries of a buildpacks installation.

use crate::paths::{join_path, path_join};
use vstd::prelude::*;

verus! {

/// A lifecycle installation rooted at one directory.
#[derive(Debug)]
pub struct Lifecycle {
    pub root: String,
}

impl Lifecycle {
    pub fn new(root: String) -> (r: Self)
        ensures
            r.root@ == root@,
    {
        Lifecycle { root }
    }

    pub fn analyzer_path(&self) -> (r: String)
        ensures
            r@ == path_join(self.root@, "analyzer"@),
    {
        join_path(self.root.as_str(), "analyzer")
    }

    pub fn detector_path(&self) -> (r: String)
        ensures
            r@ == path_join(self.root@, "detector"@),
    {
        join_path(self.root.as_str(), "detector")
    }

    pub fn restorer_path(&self) -> (r: String)
        ensures
            r@ == path_join(self.root@, "restorer"@),
    {
        join_path(self.root.as_str(), "restorer")
    }

    pub fn builder_path(&self) -> (r: String)
        ensures
            r@ == path_join(self.root@, "builder"@),
    {
        join_path(self.root.as_str(), "builder")
    }

    pub fn exporter_path(&self) -> (r: String)
        ensures
            r@ == path_join(self.root@, "exporter"@),
    {
        join_path(self.root.as_str(), "exporter")
    }

    pub fn launcher_path(&self) -> (r: String)
        ensures
            r@ == path_join(self.root@, "launcher"@),
    {
        join_path(self.root.as_str(), "launcher")
    }
}

} // verus!
