//! A tiling window manager's core: layouts that give each number of windows a
//! set of zones, and the state machine that keeps windows, workspaces and
//! monitors coherent as the desktop reports events.

use vstd::prelude::*;

pub mod dispatch;
pub mod layout;
pub mod settings;
pub mod variant;
pub mod variants_container;
pub mod window_rules;
pub mod wm;
pub mod zone;

verus! {

} // verus!
