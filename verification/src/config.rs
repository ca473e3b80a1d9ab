//! The configuration: the project directories to watch.

use vstd::prelude::*;

verus! {

/// The whole configuration file.
#[derive(Clone, Debug)]
pub struct Config {
    pub project: Option<Vec<ProjectConfig>>,
}

/// One watched project.
#[derive(Clone, Debug)]
pub struct ProjectConfig {
    pub dir: String,
}

} // verus!
