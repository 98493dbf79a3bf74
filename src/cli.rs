//! The command that loads a project and dumps its crate graph. Discovering and
//! loading a project is not part of this library; the command value carries no
//! settings.
use vstd::prelude::*;

verus! {

/// The `create-json` command.
pub struct CreateJsonCmd {}

} // verus!
