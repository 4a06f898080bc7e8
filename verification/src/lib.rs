pub mod app;
pub mod clock;
pub mod date;
pub mod json;
pub mod jsonify;
pub mod manager;
pub mod standup;
pub mod text;

use vstd::prelude::*;

verus! {

/// Failure conditions raised while opening a session: the persisted-file
/// location cannot be resolved, or an explicitly supplied date string does
/// not name a calendar day.
#[derive(Clone, Copy, Debug, PartialEq, Eq, Structural)]
pub enum StandupError {
    HomeDirNotFound,
    DataFilepathInvalid,
    InvalidDate,
}

} // verus!
