pub mod defines;
pub mod order;
pub mod session_index_diff;
pub mod io;
pub mod io_scan;
pub mod leaf_scan;
pub mod history;
pub mod history_replay;
pub mod point_search;
pub mod text;
pub mod snapshot;
pub mod net_window;
pub mod watch;

use vstd::prelude::*;

verus! {

/// Marker type: this build carries no per-session entity replay API.
pub struct LegacySessionReplayUnavailableInProduction;

} // verus!
