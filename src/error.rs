//! Errors of the engine's operations.
use vstd::prelude::*;
use crate::plugin::InvalidReason;

verus! {

/// What went wrong in an operation; no state is changed when one is returned.
#[derive(Clone, Debug, PartialEq, Eq)]
pub enum LoError {
    /// A named plugin is not among the valid installed plugins, and why.
    InvalidPlugin(String, InvalidReason),
    /// A candidate load order names a plugin twice.
    DuplicatePlugin(String),
    /// A candidate load order puts a non-master before a master.
    NonMasterBeforeMaster,
    /// The game's first plugin is installed but not first.
    GameMasterMustLoadFirst,
    /// A candidate load order leaves out an installed plugin that must be active.
    MandatoryPluginMissing(String),
    /// A candidate active set names an installed plugin twice or one outside the load order.
    InvalidActivePlugin(String),
    /// A plugin that must be active is missing from a candidate active set.
    MandatoryPluginInactive(String),
    /// More active plugins of one kind than the cap allows: whether the kind is
    /// light masters, and the cap.
    TooManyActivePlugins(bool, usize),
}

} // verus!
