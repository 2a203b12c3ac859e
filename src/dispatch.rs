use vstd::prelude::*;

use crate::window_rules::Rule;
use crate::wm::{tiled_count, CycleDirection, FocusUpdate, Placement, WindowManager};
use crate::zone::Zone;

verus! {

/// What to do with a new window whose virtual desktop was asked for.
#[derive(Clone, Copy, Debug, PartialEq, Eq, Structural)]
pub enum DesktopQuery {
    /// The desktop is known: manage the window there.
    Manage(u128),
    /// The desktop is not ready yet: ask again; this is attempt number `0`.
    Retry(i32),
    /// The attempts are used up: leave the window alone.
    GiveUp,
}

/// The step after attempt `attempt` to read a new window's desktop gave
/// `desktop` (0 while the desktop is not ready), with `retries` attempts allowed.
pub fn desktop_query_step(attempt: i32, retries: i32, desktop: u128) -> (r: DesktopQuery)
    ensures
        r == if desktop != 0 {
            DesktopQuery::Manage(desktop)
        } else if attempt < retries {
            DesktopQuery::Retry((attempt + 1) as i32)
        } else {
            DesktopQuery::GiveUp
        },
{
    if desktop != 0 {
        DesktopQuery::Manage(desktop)
    } else if attempt < retries {
        DesktopQuery::Retry(attempt + 1)
    } else {
        DesktopQuery::GiveUp
    }
}

/// A window moved to a monitor of another scale is placed once more, at the
/// same rectangle, once the desktop has rescaled it.
pub fn dpi_reissue(dpi_before: u32, dpi_after: u32, p: Placement) -> (r: Option<Placement>)
    ensures
        r == if dpi_before != dpi_after {
            Some(p)
        } else {
            None::<Placement>
        },
{
    if dpi_before != dpi_after {
        Some(p)
    } else {
        None
    }
}

/// An operator action bound to a hotkey.
#[derive(Clone, Copy, Debug, PartialEq, Eq, Structural)]
pub enum Action {
    Focus(CycleDirection),
    Swap(CycleDirection),
    Variant(CycleDirection, usize),
    Layout(CycleDirection),
    FocusMonitor(CycleDirection),
    MoveToMonitor(CycleDirection),
    Grab,
    Release,
    ToggleWindow,
    ToggleWorkspace,
    Refresh,
    Restart,
}

/// The number of the first hotkey that cycles variants; hotkeys from there on
/// come in pairs, previous then next, one pair per level of the variant tree.
pub const VARIANT_HOTKEYS_START: usize = 16;

/// The action of hotkey number `id`.
pub open spec fn hotkey_action(id: usize) -> Action {
    if id < VARIANT_HOTKEYS_START {
        match id {
            0 => Action::Focus(CycleDirection::Previous),
            1 => Action::Focus(CycleDirection::Next),
            2 => Action::Swap(CycleDirection::Previous),
            3 => Action::Swap(CycleDirection::Next),
            4 => Action::Layout(CycleDirection::Previous),
            5 => Action::Layout(CycleDirection::Next),
            6 => Action::FocusMonitor(CycleDirection::Previous),
            7 => Action::FocusMonitor(CycleDirection::Next),
            8 => Action::MoveToMonitor(CycleDirection::Previous),
            9 => Action::MoveToMonitor(CycleDirection::Next),
            10 => Action::Grab,
            11 => Action::Release,
            12 => Action::ToggleWindow,
            13 => Action::ToggleWorkspace,
            14 => Action::Refresh,
            _ => Action::Restart,
        }
    } else {
        let depth = ((id - VARIANT_HOTKEYS_START) / 2) as usize;
        if (id - VARIANT_HOTKEYS_START) % 2 == 0 {
            Action::Variant(CycleDirection::Previous, depth)
        } else {
            Action::Variant(CycleDirection::Next, depth)
        }
    }
}

/// See `hotkey_action`.
pub fn decode_hotkey(id: usize) -> (r: Action)
    ensures
        r == hotkey_action(id),
{
    if id >= VARIANT_HOTKEYS_START {
        let rel = id - VARIANT_HOTKEYS_START;
        let depth = rel / 2;
        return if rel % 2 == 0 {
            Action::Variant(CycleDirection::Previous, depth)
        } else {
            Action::Variant(CycleDirection::Next, depth)
        };
    }
    match id {
        0 => Action::Focus(CycleDirection::Previous),
        1 => Action::Focus(CycleDirection::Next),
        2 => Action::Swap(CycleDirection::Previous),
        3 => Action::Swap(CycleDirection::Next),
        4 => Action::Layout(CycleDirection::Previous),
        5 => Action::Layout(CycleDirection::Next),
        6 => Action::FocusMonitor(CycleDirection::Previous),
        7 => Action::FocusMonitor(CycleDirection::Next),
        8 => Action::MoveToMonitor(CycleDirection::Previous),
        9 => Action::MoveToMonitor(CycleDirection::Next),
        10 => Action::Grab,
        11 => Action::Release,
        12 => Action::ToggleWindow,
        13 => Action::ToggleWorkspace,
        14 => Action::Refresh,
        _ => Action::Restart,
    }
}

/// What the event loop hands the manager: desktop events, with what the desktop
/// was asked about them, and hotkey presses.
#[derive(Debug)]
pub enum Message {
    /// A window to manage was shown, on desktop `desktop` and monitor
    /// `monitor`, with the rule that applies to it.
    WindowCreated { hwnd: u64, desktop: u128, monitor: u64, rule: Option<Rule> },
    /// A window became restorable again.
    WindowRestored(u64),
    WindowDestroyed(u64),
    /// A window was minimized, maximized, snapped or hidden.
    StopManagingWindow(u64),
    /// A window is now on desktop `desktop`.
    WindowCloaked { hwnd: u64, desktop: u128 },
    /// A window of desktop `desktop` became visible after a switch from
    /// `previous`; `current` tells the desktop that windows of `previous` are on now.
    WindowUncloaked { desktop: u128, previous: u128, current: Vec<(u64, u128)> },
    ForegroundWindowChanged(u64),
    /// A window was dropped at `rect` on monitor `monitor`.
    WindowMoveFinished { hwnd: u64, monitor: u64, rect: Zone },
    /// A hotkey was pressed; `floating_position` is where the rules place the
    /// foreground window if it is floated.
    Hotkey { id: usize, floating_position: Option<Zone> },
}

/// What handling a message asks of the desktop.
#[derive(Debug)]
pub struct Outcome {
    pub placements: Vec<Placement>,
    pub focus: Option<u64>,
    pub borders: Option<FocusUpdate>,
    pub workspace_ignored: Option<bool>,
}

fn placed(placements: Vec<Placement>) -> (r: Outcome)
    ensures
        r.placements@ == placements@,
        r.focus is None,
        r.borders is None,
        r.workspace_ignored is None,
{
    Outcome { placements, focus: None, borders: None, workspace_ignored: None }
}

/// The number of windows tiled on desktop `d`, capped at `usize::MAX`.
pub open spec fn capped_tiled(wm: WindowManager, d: u128) -> usize {
    if tiled_count(wm.spaces(), d) >= usize::MAX {
        usize::MAX
    } else {
        tiled_count(wm.spaces(), d) as usize
    }
}

/// What handling message `msg` does: `n` and `r` are the state and outcome it leaves.
pub open spec fn handled(wm: WindowManager, n: WindowManager, msg: Message, r: Outcome) -> bool {
    match msg {
        Message::WindowCreated { hwnd, desktop, monitor, rule } => wm.manage_new_window_done(
            n,
            desktop,
            monitor,
            hwnd,
            rule,
            r.placements@,
        ),
        Message::WindowRestored(h) => wm.manage_window_done(n, h, r.placements@),
        Message::WindowDestroyed(h) => wm.window_destroyed_done(n, h, r.placements@),
        Message::StopManagingWindow(h) => wm.stop_managing_window_done(n, h, r.placements@),
        Message::WindowCloaked { hwnd, desktop } => wm.window_cloaked_done(n, hwnd, desktop, r.placements@),
        Message::WindowUncloaked { desktop, previous, current } => {
            let first = wm.uncloaks().0 == 0;
            exists|mid: WindowManager|
                wm.window_uncloaked_done(mid, capped_tiled(wm, desktop), first) && (first
                    ==> mid.migrate_desktop_done(n, previous, current@, r.placements@)) && (!first ==> n == mid
                    && r.placements@.len() == 0)
        },
        Message::ForegroundWindowChanged(h) => r.borders matches Some(u) && wm.foreground_window_changed_done(
            n,
            h,
            u,
        ),
        Message::WindowMoveFinished { hwnd, monitor, rect } => wm.window_move_finished_done(
            n,
            hwnd,
            monitor,
            rect,
            r.placements@,
        ),
        Message::Hotkey { id, floating_position } => performed(wm, n, hotkey_action(id), floating_position, r),
    }
}

/// What carrying out action `a` does.
pub open spec fn performed(wm: WindowManager, n: WindowManager, a: Action, floating_position: Option<Zone>, r: Outcome) -> bool {
    match a {
        Action::Focus(d) => r.focus == wm.focus_target(d) && n == wm,
        Action::Swap(d) => wm.cycle_swap_done(n, d, r.placements@),
        Action::Variant(d, depth) => if depth < usize::MAX {
            wm.cycle_variant_done(n, d, depth, r.placements@)
        } else {
            n == wm && r.placements@.len() == 0
        },
        Action::Layout(d) => wm.cycle_layout_done(n, d, r.placements@),
        Action::FocusMonitor(_) => n == wm,
        Action::MoveToMonitor(d) => wm.cycle_assigned_monitor_done(n, d, r.placements@),
        Action::Grab => wm.grab_window_done(n),
        Action::Release => wm.release_window_done(n, (r.focus, r.placements@)),
        Action::ToggleWindow => wm.toggle_window_done(n, floating_position, r.placements@),
        Action::ToggleWorkspace => wm.toggle_workspace_done(n, (r.workspace_ignored, r.placements@)),
        Action::Refresh => wm.refresh_workspace_done(n, r.placements@),
        Action::Restart => wm.restart_himewm_done(n),
    }
}

/// Hands message `msg` to the handler it is for. A switch's first uncloak also
/// runs the pass that moves the windows that changed desktop.
pub fn handle_message(wm: &mut WindowManager, msg: Message) -> (r: Outcome)
    requires
        old(wm).wf(),
    ensures
        final(wm).wf(),
        handled(*old(wm), *final(wm), msg, r),
{
    match msg {
        Message::WindowCreated { hwnd, desktop, monitor, rule } => placed(
            wm.manage_new_window(desktop, monitor, hwnd, rule),
        ),
        Message::WindowRestored(h) => placed(wm.manage_window(h)),
        Message::WindowDestroyed(h) => placed(wm.window_destroyed(h)),
        Message::StopManagingWindow(h) => placed(wm.stop_managing_window(h)),
        Message::WindowCloaked { hwnd, desktop } => placed(wm.window_cloaked(hwnd, desktop)),
        Message::WindowUncloaked { desktop, previous, current } => {
            let ghost w0 = *wm;
            let tiled = wm.tiled_on_desktop(desktop);
            let first = wm.window_uncloaked(tiled);
            let ghost mid = *wm;
            if first {
                let out = placed(wm.migrate_desktop(previous, &current));
                assert(w0.window_uncloaked_done(mid, capped_tiled(w0, desktop), true));
                out
            } else {
                assert(w0.window_uncloaked_done(mid, capped_tiled(w0, desktop), false));
                placed(Vec::new())
            }
        },
        Message::ForegroundWindowChanged(h) => {
            let u = wm.foreground_window_changed(h);
            Outcome { placements: Vec::new(), focus: None, borders: Some(u), workspace_ignored: None }
        },
        Message::WindowMoveFinished { hwnd, monitor, rect } => placed(
            wm.window_move_finished(hwnd, monitor, rect),
        ),
        Message::Hotkey { id, floating_position } => perform(wm, decode_hotkey(id), floating_position),
    }
}

/// Carries out action `a`.
pub fn perform(wm: &mut WindowManager, a: Action, floating_position: Option<Zone>) -> (r: Outcome)
    requires
        old(wm).wf(),
    ensures
        final(wm).wf(),
        performed(*old(wm), *final(wm), a, floating_position, r),
{
    match a {
        Action::Focus(d) => {
            let f = wm.cycle_focus(d);
            Outcome { placements: Vec::new(), focus: f, borders: None, workspace_ignored: None }
        },
        Action::Swap(d) => placed(wm.cycle_swap(d)),
        Action::Variant(d, depth) => {
            if depth < usize::MAX {
                placed(wm.cycle_variant(d, depth))
            } else {
                placed(Vec::new())
            }
        },
        Action::Layout(d) => placed(wm.cycle_layout(d)),
        Action::FocusMonitor(d) => {
            let f = wm.cycle_focused_monitor(d);
            Outcome { placements: Vec::new(), focus: f, borders: None, workspace_ignored: None }
        },
        Action::MoveToMonitor(d) => placed(wm.cycle_assigned_monitor(d)),
        Action::Grab => {
            wm.grab_window();
            placed(Vec::new())
        },
        Action::Release => {
            let (f, p) = wm.release_window();
            Outcome { placements: p, focus: f, borders: None, workspace_ignored: None }
        },
        Action::ToggleWindow => placed(wm.toggle_window(floating_position)),
        Action::ToggleWorkspace => {
            let (ignored, p) = wm.toggle_workspace();
            Outcome { placements: p, focus: None, borders: None, workspace_ignored: ignored }
        },
        Action::Refresh => placed(wm.refresh_workspace()),
        Action::Restart => {
            wm.restart_himewm();
            placed(Vec::new())
        },
    }
}

} // verus!
