//! The server application.
use vstd::prelude::*;

verus! {

/// The server application: it starts the listener process, which starts the workers.
pub struct App {}

} // verus!
