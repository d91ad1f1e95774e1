//! Flight logging from the Open Glider Network: APRS report parsing, OGN device
//! identifiers and database, and take-off / landing event detection.
pub mod aprs;
pub mod calendar;
pub mod events;
pub mod ogn;
pub mod text;

use vstd::prelude::*;

verus! {

} // verus!
