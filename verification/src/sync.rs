//! The `sync` command.

use vstd::prelude::*;

verus! {

/// Arguments of the `sync` command. It takes none: everything it needs
/// comes from the configuration.
#[derive(Clone, Copy, Debug, Default)]
pub struct Args {}

} // verus!
