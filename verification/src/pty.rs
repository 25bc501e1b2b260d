//! Options of the command-wrapping mode.

use vstd::prelude::*;

verus! {

/// When the interactive pager takes over after a command's output has
/// been captured.
#[derive(Clone, Copy, Debug, PartialEq, Eq, Structural)]
pub enum PagerMode {
    /// Output all pages and exit; do not enter the pager or wait for keys.
    Disabled,
    /// Default: output all pages, then wait for a key before optionally
    /// entering the pager.
    OnDemand,
    /// Enter the interactive pager immediately.
    Immediate,
}

} // verus!
