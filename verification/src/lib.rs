//! Deploys a managed tree of configuration files ("dotfiles") into a
//! destination tree, rendering template files along the way.
//!
//! The verified core works on plain byte values: template parsing and
//! rendering, the variable store with its persisted document format, the
//! per-entry mirroring decisions, and the persist-if-changed rule. All
//! file-system and console work is left to the surrounding binary.
use vstd::prelude::*;

pub mod bytes;
pub mod deploy;
pub mod docfmt;
pub mod mirror;
pub mod template;
pub mod vars;

verus! {

/// Settings read from the user's configuration file.
pub struct Config {
    /// Whether a deploy should run automatically after an edit.
    pub auto_deploy: bool,
}

impl Default for Config {
    /// The default configuration does not auto-deploy.
    fn default() -> (c: Config)
        ensures
            !c.auto_deploy,
    {
        Config { auto_deploy: false }
    }
}

} // verus!
