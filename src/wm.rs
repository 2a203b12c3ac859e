use vstd::prelude::*;

use crate::layout::Layout;
use crate::variants_container::{Located, VariantsContainerReturn};
use crate::variant::MAX_STATES;
use crate::window_rules::{Rule, SetPosition, WindowRules};
use crate::zone::{inset, overlap, overlap_area, InvisibleBorder, Zone};

verus! {

broadcast use vstd::std_specs::hash::group_hash_axioms;

/// Which way a cycling action moves.
#[derive(Clone, Copy, Debug, PartialEq, Eq, Structural)]
pub enum CycleDirection {
    Previous,
    Next,
}

/// The operator's settings that the manager consults.
#[derive(Clone, Copy, Debug)]
pub struct Settings {
    pub default_layout_idx: usize,
    pub window_padding: i32,
    pub edge_padding: i32,
    pub disable_rounding: bool,
    pub disable_unfocused_border: bool,
    pub focused_border_colour: u32,
    pub unfocused_border_colour: u32,
    /// The width of a newly floated window, in thousandths of the monitor's width.
    pub floating_window_default_w_permille: u32,
    /// The height of a newly floated window, in thousandths of the monitor's height.
    pub floating_window_default_h_permille: u32,
    pub new_window_retries: i32,
}

/// The border colour that asks the desktop to draw no border.
pub const COLOR_NONE: u32 = 0xFFFFFFFE;

impl Settings {
    /// The colour for the border of a window that does not have the focus.
    pub fn get_unfocused_border_colour(&self) -> (r: u32)
        ensures
            r == if self.disable_unfocused_border {
                COLOR_NONE
            } else {
                self.unfocused_border_colour
            },
    {
        if self.disable_unfocused_border {
            COLOR_NONE
        } else {
            self.unfocused_border_colour
        }
    }
}

/// What the manager knows of one window: its virtual desktop and monitor,
/// whether it holds a slot in its workspace's order (`restored`), and that slot,
/// kept as the place to return to while it holds none.
#[derive(Clone, Copy, Debug, PartialEq, Eq, Structural)]
pub struct WindowInfo {
    pub desktop_id: u128,
    pub monitor_handle: u64,
    pub restored: bool,
    pub idx: usize,
}

impl WindowInfo {
    pub fn new(desktop_id: u128, monitor_handle: u64, restored: bool, idx: usize) -> (r: WindowInfo)
        ensures
            r == (WindowInfo { desktop_id, monitor_handle, restored, idx }),
    {
        WindowInfo { desktop_id, monitor_handle, restored, idx }
    }
}

/// The windows of one virtual desktop on one monitor: the layout and variant it
/// shows, all its windows, and in slot order those that are tiled.
#[derive(Clone, Debug)]
pub struct Workspace {
    pub desktop_id: u128,
    pub monitor_handle: u64,
    pub layout_idx: usize,
    pub variant_idx: Vec<usize>,
    pub window_handles: Vec<u64>,
    pub managed_window_handles: Vec<u64>,
}

/// A command for the desktop: move a window to a rectangle.
#[derive(Clone, Copy, Debug, PartialEq, Eq, Structural)]
pub struct Placement {
    pub hwnd: u64,
    pub rect: Zone,
}

/// The whole state of the window manager.
pub struct WindowManager {
    monitor_handles: Vec<u64>,
    layouts: Vec<Vec<Layout>>,
    window_info: std::collections::HashMap<u64, WindowInfo>,
    workspaces: Vec<Workspace>,
    foreground_window: Option<u64>,
    previous_foreground_window: Option<u64>,
    grabbed_window: Option<u64>,
    ignored_combinations: Vec<(u128, u64)>,
    ignored_windows: Vec<u64>,
    uncloak_count: usize,
    max_uncloak_count: usize,
    settings: Settings,
    window_rules: WindowRules,
    border: InvisibleBorder,
    restart_requested: bool,
}

pub open spec fn ws_key(w: Workspace) -> (u128, u64) {
    (w.desktop_id, w.monitor_handle)
}

pub open spec fn info_key(i: WindowInfo) -> (u128, u64) {
    (i.desktop_id, i.monitor_handle)
}

/// The largest number of windows one workspace tiles.
pub const MAX_TILED: usize = 100000;

impl WindowManager {
    pub closed spec fn windows(self) -> Map<u64, WindowInfo> {
        self.window_info@
    }

    pub closed spec fn spaces(self) -> Seq<Workspace> {
        self.workspaces@
    }

    pub closed spec fn foreground(self) -> Option<u64> {
        self.foreground_window
    }

    pub closed spec fn previous_foreground(self) -> Option<u64> {
        self.previous_foreground_window
    }

    pub closed spec fn grabbed(self) -> Option<u64> {
        self.grabbed_window
    }

    pub closed spec fn monitors(self) -> Seq<u64> {
        self.monitor_handles@
    }

    pub closed spec fn layout_lists(self) -> Seq<Seq<Layout>> {
        self.layouts@.map_values(|l: Vec<Layout>| l@)
    }

    pub closed spec fn ignored_combos(self) -> Seq<(u128, u64)> {
        self.ignored_combinations@
    }

    pub closed spec fn ignored(self) -> Seq<u64> {
        self.ignored_windows@
    }

    pub closed spec fn uncloaks(self) -> (usize, usize) {
        (self.uncloak_count, self.max_uncloak_count)
    }

    pub closed spec fn restart_flag(self) -> bool {
        self.restart_requested
    }

    pub closed spec fn config(self) -> Settings {
        self.settings
    }

    /// Every tiled window holds the slot its entry names in its workspace's order.
    pub open spec fn entries_in_order(self) -> bool {
        forall|h: u64|
            #![trigger self.windows()[h]]
            self.windows().contains_key(h) && self.windows()[h].restored ==> exists|a: int|
                0 <= a < self.spaces().len() && ws_key(#[trigger] self.spaces()[a]) == info_key(
                    self.windows()[h],
                ) && self.windows()[h].idx < self.spaces()[a].managed_window_handles@.len()
                    && self.spaces()[a].managed_window_handles@[self.windows()[h].idx as int] == h
    }

    /// Every window in a workspace's order is a tiled window of that workspace
    /// whose entry names its slot.
    pub open spec fn order_in_entries(self) -> bool {
        forall|a: int, i: int|
            #![trigger self.spaces()[a].managed_window_handles@[i]]
            0 <= a < self.spaces().len() && 0 <= i < self.spaces()[a].managed_window_handles@.len()
                ==> {
                let h = self.spaces()[a].managed_window_handles@[i];
                &&& self.windows().contains_key(h)
                &&& self.windows()[h].restored
                &&& self.windows()[h].idx == i
                &&& info_key(self.windows()[h]) == ws_key(self.spaces()[a])
                &&& self.spaces()[a].window_handles@.contains(h)
            }
    }

    /// Every member of a workspace is a known window of that workspace, once.
    pub open spec fn members_known(self) -> bool {
        forall|a: int, i: int|
            #![trigger self.spaces()[a].window_handles@[i]]
            0 <= a < self.spaces().len() && 0 <= i < self.spaces()[a].window_handles@.len() ==> {
                let h = self.spaces()[a].window_handles@[i];
                &&& self.windows().contains_key(h)
                &&& info_key(self.windows()[h]) == ws_key(self.spaces()[a])
                &&& forall|j: int|
                    0 <= j < self.spaces()[a].window_handles@.len() && j != i
                        ==> self.spaces()[a].window_handles@[j] != h
            }
    }

    /// Every known window is a member of the workspace of its desktop and monitor.
    pub open spec fn entries_member(self) -> bool {
        forall|h: u64|
            #![trigger self.windows().contains_key(h)]
            self.windows().contains_key(h) ==> exists|a: int|
                0 <= a < self.spaces().len() && ws_key(#[trigger] self.spaces()[a]) == info_key(
                    self.windows()[h],
                ) && self.spaces()[a].window_handles@.contains(h)
    }

    /// No two workspaces share a desktop and monitor, none is empty, and none
    /// tiles more than `MAX_TILED` windows.
    pub open spec fn spaces_ok(self) -> bool {
        &&& forall|a: int, b: int|
            0 <= a < self.spaces().len() && 0 <= b < self.spaces().len() && a != b ==> ws_key(
                #[trigger] self.spaces()[a],
            ) != ws_key(#[trigger] self.spaces()[b])
        &&& forall|a: int|
            0 <= a < self.spaces().len() ==> (#[trigger] self.spaces()[a]).window_handles@.len() > 0
                && self.spaces()[a].managed_window_handles@.len() <= MAX_TILED
    }

    /// Each monitor has a non-empty list of well-formed layouts, and each
    /// workspace lies on a known monitor and shows one of its layouts.
    pub open spec fn layouts_ok(self) -> bool {
        &&& self.layout_lists().len() == self.monitors().len()
        &&& forall|i: int, j: int|
            0 <= i < self.monitors().len() && 0 <= j < self.monitors().len() && i != j ==> self.monitors()[i]
                != self.monitors()[j]
        &&& forall|k: int| 0 <= k < self.layout_lists().len() ==> (#[trigger] self.layout_lists()[k]).len() > 0
        &&& forall|k: int, l: int|
            0 <= k < self.layout_lists().len() && 0 <= l < self.layout_lists()[k].len() ==> (
            #[trigger] self.layout_lists()[k][l]).wf()
        &&& forall|a: int| 0 <= a < self.spaces().len() ==> self.on_monitor(#[trigger] self.spaces()[a])
    }

    /// Whether `w` lies on a known monitor and shows one of its layouts.
    pub open spec fn on_monitor(self, w: Workspace) -> bool {
        exists|k: int|
            0 <= k < self.monitors().len() && self.monitors()[k] == w.monitor_handle && w.layout_idx
                < self.layout_lists()[k].len()
    }

    /// The manager's state is coherent.
    pub open spec fn wf(self) -> bool {
        &&& self.layouts_ok()
        &&& self.entries_in_order()
        &&& self.order_in_entries()
        &&& self.members_known()
        &&& self.entries_member()
        &&& self.spaces_ok()
    }
}

/// The slot next to `idx` in an order of `len` slots, wrapping around.
pub open spec fn neighbour(idx: int, len: int, dir: CycleDirection) -> int {
    match dir {
        CycleDirection::Previous => if idx == 0 {
            len - 1
        } else {
            idx - 1
        },
        CycleDirection::Next => if idx == len - 1 {
            0
        } else {
            idx + 1
        },
    }
}

/// The slot reached from `idx` after `n` steps in direction `dir`.
pub open spec fn steps(idx: int, len: int, dir: CycleDirection, n: nat) -> int
    decreases n,
{
    if n == 0 {
        idx
    } else {
        neighbour(steps(idx, len, dir, (n - 1) as nat), len, dir)
    }
}

/// Moving to the next slot as many times as there are slots comes back to the
/// slot one started from.
pub proof fn lemma_cycle_closure(idx: int, len: int)
    requires
        0 <= idx < len,
    ensures
        steps(idx, len, CycleDirection::Next, len as nat) == idx,
{
    assert forall|n: nat| n <= len implies #[trigger] steps(idx, len, CycleDirection::Next, n) == (idx
        + n) % len by {
        lemma_steps_next(idx, len, n);
    }
    assert(steps(idx, len, CycleDirection::Next, len as nat) == (idx + len) % len);
    assert((idx + len) % len == idx) by {
        vstd::arithmetic::div_mod::lemma_mod_add_multiples_vanish(idx, len);
        vstd::arithmetic::div_mod::lemma_small_mod(idx as nat, len as nat);
    }
}

proof fn lemma_steps_next(idx: int, len: int, n: nat)
    requires
        0 <= idx < len,
    ensures
        steps(idx, len, CycleDirection::Next, n) == (idx + n) % len,
    decreases n,
{
    if n == 0 {
        vstd::arithmetic::div_mod::lemma_fundamental_div_mod_converse(idx, len, 0, idx);
    } else {
        lemma_steps_next(idx, len, (n - 1) as nat);
        let x = idx + n - 1;
        let p = x % len;
        let q = x / len;
        vstd::arithmetic::div_mod::lemma_fundamental_div_mod(x, len);
        vstd::arithmetic::div_mod::lemma_mod_bound(x, len);
        if p == len - 1 {
            assert(x + 1 == (q + 1) * len + 0) by (nonlinear_arith)
                requires
                    x == len * q + p,
                    p == len - 1,
            ;
            vstd::arithmetic::div_mod::lemma_fundamental_div_mod_converse(x + 1, len, q + 1, 0);
        } else {
            assert(x + 1 == q * len + (p + 1)) by (nonlinear_arith)
                requires
                    x == len * q + p,
            ;
            vstd::arithmetic::div_mod::lemma_fundamental_div_mod_converse(x + 1, len, q, p + 1);
        }
    }
}

impl WindowManager {
    /// The position of the workspace of desktop `d` on monitor `m`, if there is one.
    pub open spec fn space_of(self, d: u128, m: u64) -> Option<int> {
        if exists|a: int| 0 <= a < self.spaces().len() && ws_key(self.spaces()[a]) == (d, m) {
            Some(choose|a: int| 0 <= a < self.spaces().len() && ws_key(self.spaces()[a]) == (d, m))
        } else {
            None
        }
    }

    fn find_workspace(&self, d: u128, m: u64) -> (r: Option<usize>)
        requires
            self.spaces_ok(),
        ensures
            r == match self.space_of(d, m) {
                Some(a) => Some(a as usize),
                None => None::<usize>,
            },
            match r {
                Some(a) => a < self.spaces().len() && ws_key(self.spaces()[a as int]) == (d, m),
                None => forall|a: int| 0 <= a < self.spaces().len() ==> ws_key(self.spaces()[a]) != (d, m),
            },
    {
        let mut a: usize = 0;
        while a < self.workspaces.len()
            invariant
                a <= self.spaces().len(),
                self.spaces() == self.workspaces@,
                self.spaces_ok(),
                forall|b: int| 0 <= b < a ==> ws_key(self.spaces()[b]) != (d, m),
            decreases self.spaces().len() - a,
        {
            if self.workspaces[a].desktop_id == d && self.workspaces[a].monitor_handle == m {
                assert(ws_key(self.spaces()[a as int]) == (d, m));
                proof {
                    let c = choose|c: int| 0 <= c < self.spaces().len() && ws_key(self.spaces()[c]) == (d, m);
                    assert(c == a as int);
                }
                return Some(a);
            }
            a = a + 1;
        }
        None
    }

    fn monitor_index(&self, m: u64) -> (r: Option<usize>)
        ensures
            match r {
                Some(k) => k < self.monitors().len() && self.monitors()[k as int] == m,
                None => !self.monitors().contains(m),
            },
    {
        let mut k: usize = 0;
        while k < self.monitor_handles.len()
            invariant
                k <= self.monitor_handles@.len(),
                forall|j: int| 0 <= j < k ==> self.monitor_handles@[j] != m,
            decreases self.monitor_handles@.len() - k,
        {
            if self.monitor_handles[k] == m {
                return Some(k);
            }
            k = k + 1;
        }
        None
    }

    fn is_ignored_window(&self, h: u64) -> (r: bool)
        ensures
            r == self.ignored().contains(h),
    {
        let mut i: usize = 0;
        while i < self.ignored_windows.len()
            invariant
                i <= self.ignored_windows@.len(),
                forall|j: int| 0 <= j < i ==> self.ignored_windows@[j] != h,
            decreases self.ignored_windows@.len() - i,
        {
            if self.ignored_windows[i] == h {
                assert(self.ignored()[i as int] == h);
                return true;
            }
            i = i + 1;
        }
        false
    }

    fn is_ignored_combination(&self, d: u128, m: u64) -> (r: bool)
        ensures
            r == self.ignored_combos().contains((d, m)),
    {
        let mut i: usize = 0;
        while i < self.ignored_combinations.len()
            invariant
                i <= self.ignored_combinations@.len(),
                forall|j: int| 0 <= j < i ==> self.ignored_combinations@[j] != (d, m),
            decreases self.ignored_combinations@.len() - i,
        {
            let (cd, cm) = self.ignored_combinations[i];
            if cd == d && cm == m {
                assert(self.ignored_combos()[i as int] == (d, m));
                return true;
            }
            i = i + 1;
        }
        false
    }

    /// The tiled foreground window that cycling acts on, with its workspace: none
    /// where there is no foreground, or it is floating or not tiled.
    pub open spec fn tiled_foreground(self) -> Option<(u64, int)> {
        match self.foreground() {
            Some(h) => if !self.ignored().contains(h) && self.windows().contains_key(h)
                && self.windows()[h].restored {
                match self.space_of(self.windows()[h].desktop_id, self.windows()[h].monitor_handle) {
                    Some(a) => Some((h, a)),
                    None => None,
                }
            } else {
                None
            },
            None => None,
        }
    }

    /// The window that `cycle_focus` hands the focus to.
    pub open spec fn focus_target(self, dir: CycleDirection) -> Option<u64> {
        match self.tiled_foreground() {
            Some((h, a)) => {
                let order = self.spaces()[a].managed_window_handles@;
                if order.len() > 1 {
                    Some(order[neighbour(self.windows()[h].idx as int, order.len() as int, dir)])
                } else {
                    None
                }
            },
            None => None,
        }
    }

    fn tiled_foreground_exec(&self) -> (r: Option<(u64, usize)>)
        requires
            self.wf(),
        ensures
            r is Some <==> self.tiled_foreground() is Some,
            r matches Some((h, a)) ==> {
                &&& self.tiled_foreground() == Some((h, a as int))
                &&& a < self.spaces().len()
                &&& self.windows().contains_key(h)
                &&& self.windows()[h].idx < self.spaces()[a as int].managed_window_handles@.len()
                &&& self.spaces()[a as int].managed_window_handles@[self.windows()[h].idx as int] == h
            },
    {
        let h = match self.foreground_window {
            Some(h) => h,
            None => return None,
        };
        if self.is_ignored_window(h) {
            return None;
        }
        let info = match self.window_info.get(&h) {
            Some(i) => *i,
            None => return None,
        };
        if !info.restored {
            return None;
        }
        let a = self.find_workspace(info.desktop_id, info.monitor_handle);
        match a {
            Some(a) => {
                proof {
                    assert(self.windows()[h].restored);
                    let b = choose|b: int|
                        0 <= b < self.spaces().len() && ws_key(#[trigger] self.spaces()[b]) == info_key(
                            self.windows()[h],
                        ) && self.windows()[h].idx < self.spaces()[b].managed_window_handles@.len()
                            && self.spaces()[b].managed_window_handles@[self.windows()[h].idx as int] == h;
                    assert(b == a as int);
                }
                Some((h, a))
            },
            None => {
                proof {
                    assert(self.windows()[h].restored);
                    let b = choose|b: int|
                        0 <= b < self.spaces().len() && ws_key(#[trigger] self.spaces()[b]) == info_key(
                            self.windows()[h],
                        ) && self.windows()[h].idx < self.spaces()[b].managed_window_handles@.len()
                            && self.spaces()[b].managed_window_handles@[self.windows()[h].idx as int] == h;
                    assert(ws_key(self.spaces()[b]) == (info.desktop_id, info.monitor_handle));
                }
                None
            },
        }
    }

    /// The window to focus next: the neighbour, in slot order and wrapping
    /// around, of the tiled foreground window.
    pub fn cycle_focus(&self, direction: CycleDirection) -> (r: Option<u64>)
        requires
            self.wf(),
        ensures
            r == self.focus_target(direction),
    {
        let (h, a) = match self.tiled_foreground_exec() {
            Some(p) => p,
            None => return None,
        };
        assert(self.tiled_foreground() == Some((h, a as int)));
        let order = &self.workspaces[a].managed_window_handles;
        assert(order@ == self.spaces()[a as int].managed_window_handles@);
        let len = order.len();
        if len <= 1 {
            return None;
        }
        let idx = self.window_info.get(&h).unwrap().idx;
        let to = match direction {
            CycleDirection::Previous => if idx == 0 {
                len - 1
            } else {
                idx - 1
            },
            CycleDirection::Next => if idx == len - 1 {
                0
            } else {
                idx + 1
            },
        };
        Some(order[to])
    }

    /// Everything but the workspaces and the window entries is as before.
    pub open spec fn same_rest(self, other: WindowManager) -> bool {
        &&& self.foreground() == other.foreground()
        &&& self.previous_foreground() == other.previous_foreground()
        &&& self.grabbed() == other.grabbed()
        &&& self.monitors() == other.monitors()
        &&& self.layout_lists() == other.layout_lists()
        &&& self.ignored_combos() == other.ignored_combos()
        &&& self.ignored() == other.ignored()
        &&& self.uncloaks() == other.uncloaks()
        &&& self.restart_flag() == other.restart_flag()
        &&& self.config() == other.config()
        &&& self.inset_border() == other.inset_border()
    }

    /// Exchanges the windows in slots `i` and `j` of workspace `a`.
    fn swap_windows(&mut self, a: usize, i: usize, j: usize)
        requires
            old(self).wf(),
            a < old(self).spaces().len(),
            i < old(self).spaces()[a as int].managed_window_handles@.len(),
            j < old(self).spaces()[a as int].managed_window_handles@.len(),
        ensures
            final(self).wf(),
            final(self).same_rest(*old(self)),
            final(self).spaces().len() == old(self).spaces().len(),
            forall|b: int|
                0 <= b < old(self).spaces().len() && b != a ==> final(self).spaces()[b] == old(
                    self,
                ).spaces()[b],
            ({
                let o = old(self).spaces()[a as int];
                let n = final(self).spaces()[a as int];
                &&& n.managed_window_handles@ == o.managed_window_handles@.update(
                    i as int,
                    o.managed_window_handles@[j as int],
                ).update(j as int, o.managed_window_handles@[i as int])
                &&& n.window_handles@ == o.window_handles@
                &&& n.layout_idx == o.layout_idx
                &&& n.variant_idx@ == o.variant_idx@
                &&& ws_key(n) == ws_key(o)
            }),
            final(self).windows().dom() == old(self).windows().dom(),
            ({
                let o = old(self).spaces()[a as int].managed_window_handles@;
                &&& forall|x: u64|
                    #![trigger final(self).windows()[x]]
                    old(self).windows().contains_key(x) && x != o[i as int] && x != o[j as int]
                        ==> final(self).windows()[x] == old(self).windows()[x]
                &&& final(self).windows()[o[i as int]] == (WindowInfo { idx: j, ..old(self).windows()[o[i as int]] })
                &&& final(self).windows()[o[j as int]] == (WindowInfo { idx: i, ..old(self).windows()[o[j as int]] })
            }),
    {
        if i == j {
            proof {
                let o = self.spaces()[a as int].managed_window_handles@;
                assert(self.windows()[o[i as int]].idx == i);
            }
            proof {
                let o = self.spaces()[a as int].managed_window_handles@;
                assert(o.update(i as int, o[j as int]).update(j as int, o[i as int]) =~= o);
            }
            return;
        }
        let ghost old_self = *self;
        let hi = self.workspaces[a].managed_window_handles[i];
        let hj = self.workspaces[a].managed_window_handles[j];
        proof {
            assert(self.windows().contains_key(hi));
            assert(self.windows().contains_key(hj));
            assert(hi != hj);
        }
        let ii = *self.window_info.get(&hi).unwrap();
        let ij = *self.window_info.get(&hj).unwrap();
        self.window_info.insert(hi, WindowInfo { idx: j, ..ii });
        self.window_info.insert(hj, WindowInfo { idx: i, ..ij });
        let ws = &mut self.workspaces[a];
        ws.managed_window_handles.set(i, hj);
        ws.managed_window_handles.set(j, hi);
        proof {
            let os = old_self.spaces();
            let ns = self.spaces();
            let o = os[a as int].managed_window_handles@;
            let n = ns[a as int].managed_window_handles@;
            assert(n =~= o.update(i as int, o[j as int]).update(j as int, o[i as int]));
            assert forall|h: u64|
                #![trigger self.windows()[h]]
                self.windows().contains_key(h) && self.windows()[h].restored implies exists|b: int|
                    0 <= b < self.spaces().len() && ws_key(#[trigger] self.spaces()[b]) == info_key(
                        self.windows()[h],
                    ) && self.windows()[h].idx < self.spaces()[b].managed_window_handles@.len()
                        && self.spaces()[b].managed_window_handles@[self.windows()[h].idx as int]
                        == h by {
                if h == hi {
                    assert(ws_key(ns[a as int]) == info_key(self.windows()[h]));
                } else if h == hj {
                    assert(ws_key(ns[a as int]) == info_key(self.windows()[h]));
                } else {
                    assert(old_self.windows()[h] == self.windows()[h]);
                    let b = choose|b: int|
                        0 <= b < os.len() && ws_key(#[trigger] os[b]) == info_key(old_self.windows()[h])
                            && old_self.windows()[h].idx < os[b].managed_window_handles@.len()
                            && os[b].managed_window_handles@[old_self.windows()[h].idx as int] == h;
                    assert(ws_key(ns[b]) == info_key(self.windows()[h]));
                    if b == a as int {
                        let k = self.windows()[h].idx as int;
                        assert(k != i && k != j);
                        assert(n[k] == h);
                    }
                }
            }
            assert forall|b: int, k: int|
                #![trigger self.spaces()[b].managed_window_handles@[k]]
                0 <= b < self.spaces().len() && 0 <= k < self.spaces()[b].managed_window_handles@.len()
                    implies {
                    let h = self.spaces()[b].managed_window_handles@[k];
                    &&& self.windows().contains_key(h)
                    &&& self.windows()[h].restored
                    &&& self.windows()[h].idx == k
                    &&& info_key(self.windows()[h]) == ws_key(self.spaces()[b])
                    &&& self.spaces()[b].window_handles@.contains(h)
                } by {
                if b == a as int {
                    if k == i as int {
                        assert(o[j as int] == hj);
                    } else if k == j as int {
                        assert(o[i as int] == hi);
                    } else {
                        assert(n[k] == o[k]);
                        assert(os[b].managed_window_handles@[k] == o[k]);
                        assert(o[k] != hi && o[k] != hj);
                    }
                } else {
                    let h = os[b].managed_window_handles@[k];
                    assert(os[b] == ns[b]);
                    if h == hi || h == hj {
                        assert(ws_key(os[b]) == ws_key(os[a as int]));
                    }
                }
            }
            assert forall|b: int, k: int|
                #![trigger self.spaces()[b].window_handles@[k]]
                0 <= b < self.spaces().len() && 0 <= k < self.spaces()[b].window_handles@.len()
                    implies {
                    let h = self.spaces()[b].window_handles@[k];
                    &&& self.windows().contains_key(h)
                    &&& info_key(self.windows()[h]) == ws_key(self.spaces()[b])
                    &&& forall|j2: int|
                        0 <= j2 < self.spaces()[b].window_handles@.len() && j2 != k
                            ==> self.spaces()[b].window_handles@[j2] != h
                } by {
                assert(os[b].window_handles@ == ns[b].window_handles@);
                assert(ws_key(os[b]) == ws_key(ns[b]));
                let h = os[b].window_handles@[k];
                assert(old_self.windows().contains_key(h));
            }
            assert forall|h: u64|
                #![trigger self.windows().contains_key(h)]
                self.windows().contains_key(h) implies exists|b: int|
                    0 <= b < self.spaces().len() && ws_key(#[trigger] self.spaces()[b]) == info_key(
                        self.windows()[h],
                    ) && self.spaces()[b].window_handles@.contains(h) by {
                assert(old_self.windows().contains_key(h));
                assert(info_key(old_self.windows()[h]) == info_key(self.windows()[h]));
                let b = choose|b: int|
                    0 <= b < os.len() && ws_key(#[trigger] os[b]) == info_key(old_self.windows()[h])
                        && os[b].window_handles@.contains(h);
                assert(ws_key(ns[b]) == ws_key(os[b]));
                assert(ns[b].window_handles@ == os[b].window_handles@);
            }
            assert forall|b: int|
                0 <= b < self.spaces().len() implies exists|k: int|
                    0 <= k < self.monitors().len() && self.monitors()[k] == (
                    #[trigger] self.spaces()[b]).monitor_handle && self.spaces()[b].layout_idx
                        < self.layout_lists()[k].len() by {
                assert(os[b].monitor_handle == ns[b].monitor_handle);
                assert(os[b].layout_idx == ns[b].layout_idx);
                let k = choose|k: int|
                    0 <= k < old_self.monitors().len() && old_self.monitors()[k] == (
                    #[trigger] os[b]).monitor_handle && os[b].layout_idx
                        < old_self.layout_lists()[k].len();
                assert(self.layout_lists() == old_self.layout_lists());
                assert(self.monitors() == old_self.monitors());
                assert(0 <= k < self.monitors().len() && self.monitors()[k] == self.spaces()[b].monitor_handle
                    && self.spaces()[b].layout_idx < self.layout_lists()[k].len());
            }
            assert forall|b: int, c: int|
                0 <= b < self.spaces().len() && 0 <= c < self.spaces().len() && b != c implies ws_key(
                    #[trigger] self.spaces()[b],
                ) != ws_key(#[trigger] self.spaces()[c]) by {
                assert(ws_key(os[b]) == ws_key(ns[b]));
                assert(ws_key(os[c]) == ws_key(ns[c]));
            }
            assert forall|b: int|
                0 <= b < self.spaces().len() implies (#[trigger] self.spaces()[b]).window_handles@.len() > 0
                    && self.spaces()[b].managed_window_handles@.len() <= MAX_TILED by {
                assert(os[b].window_handles@ == ns[b].window_handles@);
            }
            assert(self.windows().dom() =~= old_self.windows().dom());
        }
    }

    /// `wf`, except that the slot that the entries of workspace `a`'s tiled
    /// windows name may be stale.
    pub open spec fn wf_but_indices(self, a: int) -> bool {
        let sa = self.spaces()[a];
        let m = sa.managed_window_handles@;
        &&& 0 <= a < self.spaces().len()
        &&& self.layouts_ok()
        &&& self.members_known()
        &&& self.entries_member()
        &&& self.spaces_ok()
        &&& forall|h: u64|
            #![trigger self.windows()[h]]
            self.windows().contains_key(h) && self.windows()[h].restored && info_key(
                self.windows()[h],
            ) != ws_key(sa) ==> exists|b: int|
                0 <= b < self.spaces().len() && ws_key(#[trigger] self.spaces()[b]) == info_key(
                    self.windows()[h],
                ) && self.windows()[h].idx < self.spaces()[b].managed_window_handles@.len()
                    && self.spaces()[b].managed_window_handles@[self.windows()[h].idx as int] == h
        &&& forall|h: u64|
            #![trigger self.windows()[h]]
            self.windows().contains_key(h) && self.windows()[h].restored && info_key(
                self.windows()[h],
            ) == ws_key(sa) ==> m.contains(h)
        &&& forall|b: int, i: int|
            #![trigger self.spaces()[b].managed_window_handles@[i]]
            0 <= b < self.spaces().len() && b != a && 0 <= i
                < self.spaces()[b].managed_window_handles@.len() ==> {
                let h = self.spaces()[b].managed_window_handles@[i];
                &&& self.windows().contains_key(h)
                &&& self.windows()[h].restored
                &&& self.windows()[h].idx == i
                &&& info_key(self.windows()[h]) == ws_key(self.spaces()[b])
                &&& self.spaces()[b].window_handles@.contains(h)
            }
        &&& forall|i: int|
            #![trigger m[i]]
            0 <= i < m.len() ==> {
                &&& self.windows().contains_key(m[i])
                &&& self.windows()[m[i]].restored
                &&& info_key(self.windows()[m[i]]) == ws_key(sa)
                &&& sa.window_handles@.contains(m[i])
            }
        &&& forall|i: int, j: int| 0 <= i < m.len() && 0 <= j < m.len() && i != j ==> m[i] != m[j]
    }

    /// Sets the slot of each tiled window of workspace `a` to its place in the order.
    fn reindex(&mut self, a: usize)
        requires
            old(self).wf_but_indices(a as int),
        ensures
            final(self).wf(),
            final(self).same_rest(*old(self)),
            final(self).spaces() == old(self).spaces(),
            final(self).windows().dom() == old(self).windows().dom(),
            forall|h: u64|
                #![trigger final(self).windows()[h]]
                old(self).windows().contains_key(h) ==> {
                    &&& info_key(final(self).windows()[h]) == info_key(old(self).windows()[h])
                    &&& final(self).windows()[h].restored == old(self).windows()[h].restored
                    &&& !old(self).spaces()[a as int].managed_window_handles@.contains(h)
                        ==> final(self).windows()[h] == old(self).windows()[h]
                },
    {
        let ghost o = *self;
        let ghost m = self.spaces()[a as int].managed_window_handles@;
        let len = self.workspaces[a].managed_window_handles.len();
        let mut k: usize = 0;
        while k < len
            invariant
                o.wf_but_indices(a as int),
                k <= len,
                len == m.len(),
                self.spaces() == o.spaces(),
                self.same_rest(o),
                m == o.spaces()[a as int].managed_window_handles@,
                self.windows().dom() == o.windows().dom(),
                forall|h: u64|
                    #![trigger self.windows()[h]]
                    o.windows().contains_key(h) ==> {
                        &&& info_key(self.windows()[h]) == info_key(o.windows()[h])
                        &&& self.windows()[h].restored == o.windows()[h].restored
                        &&& !m.contains(h) ==> self.windows()[h] == o.windows()[h]
                    },
                forall|j: int| 0 <= j < k ==> #[trigger] self.windows()[m[j]].idx == j,
            decreases len - k,
        {
            let h = self.workspaces[a].managed_window_handles[k];
            assert(h == m[k as int]);
            assert(o.windows().contains_key(h));
            let info = *self.window_info.get(&h).unwrap();
            self.window_info.insert(h, WindowInfo { idx: k, ..info });
            proof {
                assert forall|j: int| 0 <= j < k + 1 implies #[trigger] self.windows()[m[j]].idx == j by {
                    if j < k {
                        assert(m[j] != h);
                    }
                }
                assert forall|x: u64|
                    #![trigger self.windows()[x]]
                    o.windows().contains_key(x) && !m.contains(x) implies self.windows()[x] == o.windows()[x] by {
                    assert(x != h);
                }
            }
            k = k + 1;
        }
        proof {
            assert(self.windows().dom() =~= o.windows().dom());
            let ss = self.spaces();
            assert forall|h: u64|
                #![trigger self.windows()[h]]
                self.windows().contains_key(h) && self.windows()[h].restored implies exists|b: int|
                    0 <= b < ss.len() && ws_key(#[trigger] ss[b]) == info_key(self.windows()[h])
                        && self.windows()[h].idx < ss[b].managed_window_handles@.len()
                        && ss[b].managed_window_handles@[self.windows()[h].idx as int] == h by {
                assert(o.windows().contains_key(h));
                if info_key(o.windows()[h]) == ws_key(ss[a as int]) {
                    assert(m.contains(h));
                    let j = choose|j: int| 0 <= j < m.len() && m[j] == h;
                    assert(self.windows()[m[j]].idx == j);
                } else {
                    assert(self.windows()[h] == o.windows()[h]) by {
                        if m.contains(h) {
                            let j = choose|j: int| 0 <= j < m.len() && m[j] == h;
                            assert(info_key(o.windows()[m[j]]) == ws_key(ss[a as int]));
                        }
                    }
                    let b = choose|b: int|
                        0 <= b < ss.len() && ws_key(#[trigger] ss[b]) == info_key(o.windows()[h])
                            && o.windows()[h].idx < ss[b].managed_window_handles@.len()
                            && ss[b].managed_window_handles@[o.windows()[h].idx as int] == h;
                }
            }
            assert forall|b: int, i: int|
                #![trigger ss[b].managed_window_handles@[i]]
                0 <= b < ss.len() && 0 <= i < ss[b].managed_window_handles@.len() implies {
                    let h = ss[b].managed_window_handles@[i];
                    &&& self.windows().contains_key(h)
                    &&& self.windows()[h].restored
                    &&& self.windows()[h].idx == i
                    &&& info_key(self.windows()[h]) == ws_key(ss[b])
                    &&& ss[b].window_handles@.contains(h)
                } by {
                let h = ss[b].managed_window_handles@[i];
                if b == a as int {
                    assert(m[i] == h);
                    assert(self.windows()[m[i]].idx == i);
                } else {
                    assert(o.windows().contains_key(h));
                    if m.contains(h) {
                        let j = choose|j: int| 0 <= j < m.len() && m[j] == h;
                        assert(info_key(o.windows()[m[j]]) == ws_key(ss[a as int]));
                        assert(ws_key(ss[b]) != ws_key(ss[a as int]));
                    }
                }
            }
            assert forall|b: int, i: int|
                #![trigger ss[b].window_handles@[i]]
                0 <= b < ss.len() && 0 <= i < ss[b].window_handles@.len() implies {
                    let h = ss[b].window_handles@[i];
                    &&& self.windows().contains_key(h)
                    &&& info_key(self.windows()[h]) == ws_key(ss[b])
                    &&& forall|j2: int|
                        0 <= j2 < ss[b].window_handles@.len() && j2 != i
                            ==> ss[b].window_handles@[j2] != h
                } by {
                let h = ss[b].window_handles@[i];
                assert(o.windows().contains_key(h));
            }
            assert forall|h: u64|
                #![trigger self.windows().contains_key(h)]
                self.windows().contains_key(h) implies exists|b: int|
                    0 <= b < ss.len() && ws_key(#[trigger] ss[b]) == info_key(self.windows()[h])
                        && ss[b].window_handles@.contains(h) by {
                assert(o.windows().contains_key(h));
                let b = choose|b: int|
                    0 <= b < ss.len() && ws_key(#[trigger] ss[b]) == info_key(o.windows()[h])
                        && ss[b].window_handles@.contains(h);
            }
            assert forall|b: int|
                0 <= b < ss.len() implies exists|k: int|
                    0 <= k < self.monitors().len() && self.monitors()[k] == (#[trigger] ss[b]).monitor_handle
                        && ss[b].layout_idx < self.layout_lists()[k].len() by {
                let k = choose|k: int|
                    0 <= k < o.monitors().len() && o.monitors()[k] == (#[trigger] ss[b]).monitor_handle
                        && ss[b].layout_idx < o.layout_lists()[k].len();
                assert(0 <= k < self.monitors().len() && self.monitors()[k] == ss[b].monitor_handle
                    && ss[b].layout_idx < self.layout_lists()[k].len());
            }
        }
    }

    /// The facts that `wf_but_indices` needs beyond those on workspace `a`, when
    /// only workspace `a`'s order and some entries of its windows changed.
    proof fn lemma_frame(o: WindowManager, n: WindowManager, a: int)
        requires
            o.wf(),
            0 <= a < o.spaces().len(),
            n.spaces().len() == o.spaces().len(),
            forall|b: int| 0 <= b < o.spaces().len() && b != a ==> n.spaces()[b] == o.spaces()[b],
            ws_key(n.spaces()[a]) == ws_key(o.spaces()[a]),
            n.spaces()[a].window_handles@ == o.spaces()[a].window_handles@,
            n.spaces()[a].layout_idx == o.spaces()[a].layout_idx,
            n.spaces()[a].managed_window_handles@.len() <= MAX_TILED,
            n.windows().dom() == o.windows().dom(),
            forall|h: u64|
                #![trigger n.windows()[h]]
                o.windows().contains_key(h) ==> info_key(n.windows()[h]) == info_key(o.windows()[h]),
            forall|h: u64|
                #![trigger n.windows()[h]]
                o.windows().contains_key(h) && info_key(o.windows()[h]) != ws_key(o.spaces()[a])
                    ==> n.windows()[h] == o.windows()[h],
            n.same_rest(o),
        ensures
            n.layouts_ok(),
            n.members_known(),
            n.entries_member(),
            n.spaces_ok(),
            forall|h: u64|
                #![trigger n.windows()[h]]
                n.windows().contains_key(h) && n.windows()[h].restored && info_key(n.windows()[h])
                    != ws_key(n.spaces()[a]) ==> exists|b: int|
                    0 <= b < n.spaces().len() && ws_key(#[trigger] n.spaces()[b]) == info_key(
                        n.windows()[h],
                    ) && n.windows()[h].idx < n.spaces()[b].managed_window_handles@.len()
                        && n.spaces()[b].managed_window_handles@[n.windows()[h].idx as int] == h,
            forall|b: int, i: int|
                #![trigger n.spaces()[b].managed_window_handles@[i]]
                0 <= b < n.spaces().len() && b != a && 0 <= i
                    < n.spaces()[b].managed_window_handles@.len() ==> {
                    let h = n.spaces()[b].managed_window_handles@[i];
                    &&& n.windows().contains_key(h)
                    &&& n.windows()[h].restored
                    &&& n.windows()[h].idx == i
                    &&& info_key(n.windows()[h]) == ws_key(n.spaces()[b])
                    &&& n.spaces()[b].window_handles@.contains(h)
                },
    {
        let os = o.spaces();
        let ns = n.spaces();
        assert forall|b: int| 0 <= b < ns.len() implies ws_key(#[trigger] ns[b]) == ws_key(os[b])
            && ns[b].window_handles@ == os[b].window_handles@ && ns[b].layout_idx == os[b].layout_idx
            && ns[b].monitor_handle == os[b].monitor_handle by {}
        assert forall|b: int, i: int|
            #![trigger ns[b].window_handles@[i]]
            0 <= b < ns.len() && 0 <= i < ns[b].window_handles@.len() implies {
                let h = ns[b].window_handles@[i];
                &&& n.windows().contains_key(h)
                &&& info_key(n.windows()[h]) == ws_key(ns[b])
                &&& forall|j2: int|
                    0 <= j2 < ns[b].window_handles@.len() && j2 != i ==> ns[b].window_handles@[j2] != h
            } by {
            let h = os[b].window_handles@[i];
            assert(ws_key(ns[b]) == ws_key(os[b]));
            assert(o.windows().contains_key(h));
        }
        assert forall|h: u64|
            #![trigger n.windows().contains_key(h)]
            n.windows().contains_key(h) implies exists|b: int|
                0 <= b < ns.len() && ws_key(#[trigger] ns[b]) == info_key(n.windows()[h])
                    && ns[b].window_handles@.contains(h) by {
            assert(o.windows().contains_key(h));
            let b = choose|b: int|
                0 <= b < os.len() && ws_key(#[trigger] os[b]) == info_key(o.windows()[h])
                    && os[b].window_handles@.contains(h);
            assert(ws_key(ns[b]) == ws_key(os[b]));
        }
        assert forall|b: int|
            0 <= b < ns.len() implies exists|k: int|
                0 <= k < n.monitors().len() && n.monitors()[k] == (#[trigger] ns[b]).monitor_handle
                    && ns[b].layout_idx < n.layout_lists()[k].len() by {
            let k = choose|k: int|
                0 <= k < o.monitors().len() && o.monitors()[k] == (#[trigger] os[b]).monitor_handle
                    && os[b].layout_idx < o.layout_lists()[k].len();
            assert(ws_key(ns[b]) == ws_key(os[b]));
            assert(0 <= k < n.monitors().len() && n.monitors()[k] == ns[b].monitor_handle
                && ns[b].layout_idx < n.layout_lists()[k].len());
        }
        assert forall|b: int, c: int|
            0 <= b < ns.len() && 0 <= c < ns.len() && b != c implies ws_key(#[trigger] ns[b]) != ws_key(
                #[trigger] ns[c],
            ) by {
            assert(ws_key(ns[b]) == ws_key(os[b]));
            assert(ws_key(ns[c]) == ws_key(os[c]));
        }
        assert forall|b: int|
            0 <= b < ns.len() implies (#[trigger] ns[b]).window_handles@.len() > 0
                && ns[b].managed_window_handles@.len() <= MAX_TILED by {
            assert(ns[b].window_handles@ == os[b].window_handles@);
            if b != a {
                assert(ns[b] == os[b]);
            }
        }
        assert forall|h: u64|
            #![trigger n.windows()[h]]
            n.windows().contains_key(h) && n.windows()[h].restored && info_key(n.windows()[h])
                != ws_key(ns[a]) implies exists|b: int|
                0 <= b < ns.len() && ws_key(#[trigger] ns[b]) == info_key(n.windows()[h])
                    && n.windows()[h].idx < ns[b].managed_window_handles@.len()
                    && ns[b].managed_window_handles@[n.windows()[h].idx as int] == h by {
            assert(o.windows().contains_key(h));
            assert(n.windows()[h] == o.windows()[h]);
            let b = choose|b: int|
                0 <= b < os.len() && ws_key(#[trigger] os[b]) == info_key(o.windows()[h])
                    && o.windows()[h].idx < os[b].managed_window_handles@.len()
                    && os[b].managed_window_handles@[o.windows()[h].idx as int] == h;
            assert(b != a);
            assert(ns[b] == os[b]);
        }
        assert forall|b: int, i: int|
            #![trigger ns[b].managed_window_handles@[i]]
            0 <= b < ns.len() && b != a && 0 <= i < ns[b].managed_window_handles@.len() implies {
                let h = ns[b].managed_window_handles@[i];
                &&& n.windows().contains_key(h)
                &&& n.windows()[h].restored
                &&& n.windows()[h].idx == i
                &&& info_key(n.windows()[h]) == ws_key(ns[b])
                &&& ns[b].window_handles@.contains(h)
            } by {
            assert(ns[b] == os[b]);
            let h = os[b].managed_window_handles@[i];
            assert(o.windows().contains_key(h));
            assert(info_key(o.windows()[h]) == ws_key(os[b]));
            assert(ws_key(os[b]) != ws_key(os[a]));
            assert(n.windows()[h] == o.windows()[h]);
        }
    }

    /// Takes tiled window `h` out of its workspace's order; it stays a member and
    /// keeps its slot as the place to return to.
    fn detach(&mut self, h: u64) -> (a: usize)
        requires
            old(self).wf(),
            old(self).windows().contains_key(h),
            old(self).windows()[h].restored,
        ensures
            final(self).wf(),
            final(self).same_rest(*old(self)),
            a < old(self).spaces().len(),
            ws_key(old(self).spaces()[a as int]) == info_key(old(self).windows()[h]),
            final(self).spaces().len() == old(self).spaces().len(),
            forall|b: int|
                0 <= b < old(self).spaces().len() && b != a ==> final(self).spaces()[b] == old(
                    self,
                ).spaces()[b],
            ({
                let o = old(self).spaces()[a as int];
                let n = final(self).spaces()[a as int];
                &&& n.managed_window_handles@ == o.managed_window_handles@.remove(
                    old(self).windows()[h].idx as int,
                )
                &&& n.window_handles@ == o.window_handles@
                &&& n.layout_idx == o.layout_idx
                &&& n.variant_idx@ == o.variant_idx@
                &&& ws_key(n) == ws_key(o)
            }),
            final(self).windows().dom() == old(self).windows().dom(),
            final(self).windows()[h] == (WindowInfo { restored: false, ..old(self).windows()[h] }),
            forall|x: u64|
                #![trigger final(self).windows()[x]]
                old(self).windows().contains_key(x) && x != h ==> info_key(final(self).windows()[x])
                    == info_key(old(self).windows()[x]) && final(self).windows()[x].restored == old(
                    self,
                ).windows()[x].restored,
            forall|d: u128, m: u64|
                #![trigger final(self).order_of(d, m)]
                final(self).order_of(d, m) == if (d, m) == info_key(old(self).windows()[h]) {
                    old(self).order_of(d, m).remove(old(self).windows()[h].idx as int)
                } else {
                    old(self).order_of(d, m)
                },
    {
        let ghost o = *self;
        let info = *self.window_info.get(&h).unwrap();
        let a = self.find_workspace(info.desktop_id, info.monitor_handle).unwrap();
        proof {
            let b = choose|b: int|
                0 <= b < o.spaces().len() && ws_key(#[trigger] o.spaces()[b]) == info_key(o.windows()[h])
                    && o.windows()[h].idx < o.spaces()[b].managed_window_handles@.len()
                    && o.spaces()[b].managed_window_handles@[o.windows()[h].idx as int] == h;
            assert(b == a as int);
        }
        let i = info.idx;
        let ghost om = o.spaces()[a as int].managed_window_handles@;
        self.workspaces[a].managed_window_handles.remove(i);
        self.window_info.insert(h, WindowInfo { restored: false, ..info });
        let ghost mid = *self;
        proof {
            let m = mid.spaces()[a as int].managed_window_handles@;
            assert(m =~= om.remove(i as int));
            assert(mid.windows().dom() =~= o.windows().dom());
            assert forall|x: u64|
                #![trigger mid.windows()[x]]
                o.windows().contains_key(x) && info_key(o.windows()[x]) != ws_key(o.spaces()[a as int])
                    implies mid.windows()[x] == o.windows()[x] by {}
            WindowManager::lemma_frame(o, mid, a as int);
            assert forall|x: u64|
                #![trigger mid.windows()[x]]
                mid.windows().contains_key(x) && mid.windows()[x].restored && info_key(mid.windows()[x])
                    == ws_key(mid.spaces()[a as int]) implies m.contains(x) by {
                assert(x != h);
                let b = choose|b: int|
                    0 <= b < o.spaces().len() && ws_key(#[trigger] o.spaces()[b]) == info_key(
                        o.windows()[x],
                    ) && o.windows()[x].idx < o.spaces()[b].managed_window_handles@.len()
                        && o.spaces()[b].managed_window_handles@[o.windows()[x].idx as int] == x;
                assert(b == a as int);
                let k = o.windows()[x].idx as int;
                assert(k != i as int);
                if k < i {
                    assert(m[k] == x);
                } else {
                    assert(m[k - 1] == x);
                }
            }
            assert forall|k: int|
                #![trigger m[k]]
                0 <= k < m.len() implies {
                    &&& mid.windows().contains_key(m[k])
                    &&& mid.windows()[m[k]].restored
                    &&& info_key(mid.windows()[m[k]]) == ws_key(mid.spaces()[a as int])
                    &&& mid.spaces()[a as int].window_handles@.contains(m[k])
                } by {
                let ok = if k < i {
                    k
                } else {
                    k + 1
                };
                assert(m[k] == om[ok]);
                assert(o.spaces()[a as int].managed_window_handles@[ok] == om[ok]);
                assert(om[ok] != h);
            }
            assert forall|p: int, q: int| 0 <= p < m.len() && 0 <= q < m.len() && p != q implies m[p]
                != m[q] by {
                let op = if p < i {
                    p
                } else {
                    p + 1
                };
                let oq = if q < i {
                    q
                } else {
                    q + 1
                };
                assert(o.spaces()[a as int].managed_window_handles@[op] == om[op]);
                assert(o.spaces()[a as int].managed_window_handles@[oq] == om[oq]);
            }
        }
        self.reindex(a);
        proof {
            o.lemma_space_at(a as int);
            WindowManager::lemma_orders_frame(o, *self, a as int);
        }
        a
    }

    /// Puts window `h`, a member of workspace `a` that holds no slot, into slot
    /// `idx` of its order.
    fn attach(&mut self, h: u64, a: usize, idx: usize)
        requires
            old(self).wf(),
            old(self).windows().contains_key(h),
            !old(self).windows()[h].restored,
            a < old(self).spaces().len(),
            ws_key(old(self).spaces()[a as int]) == info_key(old(self).windows()[h]),
            idx <= old(self).spaces()[a as int].managed_window_handles@.len(),
            old(self).spaces()[a as int].managed_window_handles@.len() < MAX_TILED,
        ensures
            final(self).wf(),
            final(self).same_rest(*old(self)),
            final(self).spaces().len() == old(self).spaces().len(),
            forall|b: int|
                0 <= b < old(self).spaces().len() && b != a ==> final(self).spaces()[b] == old(
                    self,
                ).spaces()[b],
            ({
                let o = old(self).spaces()[a as int];
                let n = final(self).spaces()[a as int];
                &&& n.managed_window_handles@ == o.managed_window_handles@.insert(idx as int, h)
                &&& n.window_handles@ == o.window_handles@
                &&& n.layout_idx == o.layout_idx
                &&& n.variant_idx@ == o.variant_idx@
                &&& ws_key(n) == ws_key(o)
            }),
            final(self).windows().dom() == old(self).windows().dom(),
            final(self).windows()[h] == (WindowInfo {
                restored: true,
                idx: idx,
                ..old(self).windows()[h]
            }),
            forall|x: u64|
                #![trigger final(self).windows()[x]]
                old(self).windows().contains_key(x) && x != h ==> info_key(final(self).windows()[x])
                    == info_key(old(self).windows()[x]) && final(self).windows()[x].restored == old(
                    self,
                ).windows()[x].restored,
            forall|d: u128, m: u64|
                #![trigger final(self).order_of(d, m)]
                final(self).order_of(d, m) == if (d, m) == ws_key(old(self).spaces()[a as int]) {
                    old(self).order_of(d, m).insert(idx as int, h)
                } else {
                    old(self).order_of(d, m)
                },
    {
        let ghost o = *self;
        let ghost om = o.spaces()[a as int].managed_window_handles@;
        let info = *self.window_info.get(&h).unwrap();
        self.workspaces[a].managed_window_handles.insert(idx, h);
        self.window_info.insert(h, WindowInfo { restored: true, ..info });
        let ghost mid = *self;
        proof {
            let m = mid.spaces()[a as int].managed_window_handles@;
            assert(m =~= om.insert(idx as int, h));
            assert(mid.windows().dom() =~= o.windows().dom());
            WindowManager::lemma_frame(o, mid, a as int);
            assert(o.spaces()[a as int].window_handles@.contains(h)) by {
                let b = choose|b: int|
                    0 <= b < o.spaces().len() && ws_key(#[trigger] o.spaces()[b]) == info_key(
                        o.windows()[h],
                    ) && o.spaces()[b].window_handles@.contains(h);
                assert(b == a as int);
            }
            assert(!om.contains(h)) by {
                if om.contains(h) {
                    let k = choose|k: int| 0 <= k < om.len() && om[k] == h;
                    assert(o.spaces()[a as int].managed_window_handles@[k] == om[k]);
                }
            }
            assert forall|x: u64|
                #![trigger mid.windows()[x]]
                mid.windows().contains_key(x) && mid.windows()[x].restored && info_key(mid.windows()[x])
                    == ws_key(mid.spaces()[a as int]) implies m.contains(x) by {
                if x == h {
                    assert(m[idx as int] == h);
                } else {
                    let b = choose|b: int|
                        0 <= b < o.spaces().len() && ws_key(#[trigger] o.spaces()[b]) == info_key(
                            o.windows()[x],
                        ) && o.windows()[x].idx < o.spaces()[b].managed_window_handles@.len()
                            && o.spaces()[b].managed_window_handles@[o.windows()[x].idx as int] == x;
                    assert(b == a as int);
                    let k = o.windows()[x].idx as int;
                    if k < idx {
                        assert(m[k] == x);
                    } else {
                        assert(m[k + 1] == x);
                    }
                }
            }
            assert forall|k: int|
                #![trigger m[k]]
                0 <= k < m.len() implies {
                    &&& mid.windows().contains_key(m[k])
                    &&& mid.windows()[m[k]].restored
                    &&& info_key(mid.windows()[m[k]]) == ws_key(mid.spaces()[a as int])
                    &&& mid.spaces()[a as int].window_handles@.contains(m[k])
                } by {
                if k != idx as int {
                    let ok = if k < idx {
                        k
                    } else {
                        k - 1
                    };
                    assert(m[k] == om[ok]);
                    assert(o.spaces()[a as int].managed_window_handles@[ok] == om[ok]);
                }
            }
            assert forall|p: int, q: int| 0 <= p < m.len() && 0 <= q < m.len() && p != q implies m[p]
                != m[q] by {
                if p != idx as int && q != idx as int {
                    let op = if p < idx {
                        p
                    } else {
                        p - 1
                    };
                    let oq = if q < idx {
                        q
                    } else {
                        q - 1
                    };
                    assert(o.spaces()[a as int].managed_window_handles@[op] == om[op]);
                    assert(o.spaces()[a as int].managed_window_handles@[oq] == om[oq]);
                } else if p == idx as int {
                    let oq = if q < idx {
                        q
                    } else {
                        q - 1
                    };
                    assert(m[q] == om[oq]);
                } else {
                    let op = if p < idx {
                        p
                    } else {
                        p - 1
                    };
                    assert(m[p] == om[op]);
                }
            }
        }
        self.reindex(a);
        proof {
            o.lemma_space_at(a as int);
            WindowManager::lemma_orders_frame(o, *self, a as int);
            assert(self.windows()[h].idx == idx) by {
                let m = self.spaces()[a as int].managed_window_handles@;
                assert(m[idx as int] == h);
            }
        }
    }

    /// The layout a new workspace on monitor number `k` starts with.
    pub open spec fn start_layout(self, k: int) -> usize {
        if self.config().default_layout_idx < self.layout_lists()[k].len() {
            self.config().default_layout_idx
        } else {
            0
        }
    }

    /// Enters window `h`, not known yet, as a member of the workspace of desktop
    /// `d` on monitor number `k`, creating that workspace if there is none.
    fn add_member(&mut self, h: u64, d: u128, k: usize)
        requires
            old(self).wf(),
            !old(self).windows().contains_key(h),
            k < old(self).monitors().len(),
        ensures
            final(self).wf(),
            forall|d2: u128, m2: u64|
                #![trigger final(self).order_of(d2, m2)]
                final(self).order_of(d2, m2) == old(self).order_of(d2, m2),
            final(self).same_rest(*old(self)),
            final(self).windows() == old(self).windows().insert(
                h,
                WindowInfo {
                    desktop_id: d,
                    monitor_handle: old(self).monitors()[k as int],
                    restored: false,
                    idx: 0,
                },
            ),
            match old(self).space_of(d, old(self).monitors()[k as int]) {
                Some(a) => {
                    &&& final(self).spaces().len() == old(self).spaces().len()
                    &&& forall|b: int|
                        0 <= b < old(self).spaces().len() && b != a ==> final(self).spaces()[b]
                            == old(self).spaces()[b]
                    &&& final(self).spaces()[a].window_handles@ == old(
                        self,
                    ).spaces()[a].window_handles@.push(h)
                    &&& final(self).spaces()[a].managed_window_handles@ == old(
                        self,
                    ).spaces()[a].managed_window_handles@
                    &&& final(self).spaces()[a].layout_idx == old(self).spaces()[a].layout_idx
                    &&& final(self).spaces()[a].variant_idx@ == old(self).spaces()[a].variant_idx@
                    &&& ws_key(final(self).spaces()[a]) == ws_key(old(self).spaces()[a])
                },
                None => {
                    &&& final(self).spaces().len() == old(self).spaces().len() + 1
                    &&& forall|b: int|
                        0 <= b < old(self).spaces().len() ==> final(self).spaces()[b] == old(
                            self,
                        ).spaces()[b]
                    &&& ws_key(final(self).spaces().last()) == (d, old(self).monitors()[k as int])
                    &&& final(self).spaces().last().window_handles@ == seq![h]
                    &&& final(self).spaces().last().managed_window_handles@.len() == 0
                    &&& final(self).spaces().last().layout_idx == old(self).start_layout(k as int)
                    &&& final(self).spaces().last().variant_idx@ == old(self).layout_lists()[k as int][old(
                        self,
                    ).start_layout(k as int) as int].default_path()
                },
            },
    {
        let ghost o = *self;
        let m = self.monitor_handles[k];
        let info = WindowInfo { desktop_id: d, monitor_handle: m, restored: false, idx: 0 };
        self.window_info.insert(h, info);
        let found = self.find_workspace(d, m);
        match found {
            Some(a) => {
                self.workspaces[a].window_handles.push(h);
            },
            None => {
                let n = self.layouts[k].len();
                assert(self.layout_lists()[k as int] == self.layouts@[k as int]@);
                let li = if self.settings.default_layout_idx < n {
                    self.settings.default_layout_idx
                } else {
                    0
                };
                let path = self.layouts[k][li].default_variant_idx();
                let mut members: Vec<u64> = Vec::new();
                members.push(h);
                self.workspaces.push(
                    Workspace {
                        desktop_id: d,
                        monitor_handle: m,
                        layout_idx: li,
                        variant_idx: path,
                        window_handles: members,
                        managed_window_handles: Vec::new(),
                    },
                );
            },
        }
        proof {
            let os = o.spaces();
            let ns = self.spaces();
            assert(self.layout_lists() == o.layout_lists());
            let a = match found {
                Some(a) => a as int,
                None => os.len() as int,
            };
            assert(ws_key(ns[a]) == (d, m));
            assert forall|b: int| 0 <= b < os.len() && b != a implies ns[b] == os[b] by {}
            // a known window other than h keeps its entry and workspace
            assert forall|x: u64|
                #![trigger self.windows()[x]]
                self.windows().contains_key(x) && self.windows()[x].restored implies exists|b: int|
                    0 <= b < ns.len() && ws_key(#[trigger] ns[b]) == info_key(self.windows()[x])
                        && self.windows()[x].idx < ns[b].managed_window_handles@.len()
                        && ns[b].managed_window_handles@[self.windows()[x].idx as int] == x by {
                assert(x != h);
                let b = choose|b: int|
                    0 <= b < os.len() && ws_key(#[trigger] os[b]) == info_key(o.windows()[x])
                        && o.windows()[x].idx < os[b].managed_window_handles@.len()
                        && os[b].managed_window_handles@[o.windows()[x].idx as int] == x;
                assert(ws_key(ns[b]) == ws_key(os[b]));
                assert(ns[b].managed_window_handles@ == os[b].managed_window_handles@);
            }
            assert forall|b: int, i: int|
                #![trigger ns[b].managed_window_handles@[i]]
                0 <= b < ns.len() && 0 <= i < ns[b].managed_window_handles@.len() implies {
                    let x = ns[b].managed_window_handles@[i];
                    &&& self.windows().contains_key(x)
                    &&& self.windows()[x].restored
                    &&& self.windows()[x].idx == i
                    &&& info_key(self.windows()[x]) == ws_key(ns[b])
                    &&& ns[b].window_handles@.contains(x)
                } by {
                assert(b < os.len());
                assert(ns[b].managed_window_handles@ == os[b].managed_window_handles@);
                let x = os[b].managed_window_handles@[i];
                assert(o.windows().contains_key(x));
                assert(x != h);
                assert(os[b].window_handles@.contains(x));
                if b == a {
                    let j = choose|j: int| 0 <= j < os[b].window_handles@.len() && os[b].window_handles@[j] == x;
                    assert(ns[b].window_handles@[j] == x);
                }
            }
            assert forall|b: int, i: int|
                #![trigger ns[b].window_handles@[i]]
                0 <= b < ns.len() && 0 <= i < ns[b].window_handles@.len() implies {
                    let x = ns[b].window_handles@[i];
                    &&& self.windows().contains_key(x)
                    &&& info_key(self.windows()[x]) == ws_key(ns[b])
                    &&& forall|j2: int|
                        0 <= j2 < ns[b].window_handles@.len() && j2 != i ==> ns[b].window_handles@[j2] != x
                } by {
                if b == a && i == ns[b].window_handles@.len() - 1 {
                    assert forall|j2: int|
                        0 <= j2 < ns[b].window_handles@.len() && j2 != i implies ns[b].window_handles@[j2] != h by {
                        assert(b < os.len());
                        assert(ns[b].window_handles@[j2] == os[b].window_handles@[j2]);
                        assert(o.windows().contains_key(os[b].window_handles@[j2]));
                    }
                } else {
                    assert(b < os.len());
                    assert(ns[b].window_handles@[i] == os[b].window_handles@[i]);
                    let x = os[b].window_handles@[i];
                    assert(o.windows().contains_key(x));
                    assert forall|j2: int|
                        0 <= j2 < ns[b].window_handles@.len() && j2 != i implies ns[b].window_handles@[j2] != x by {
                        if b == a && j2 == ns[b].window_handles@.len() - 1 {
                            assert(ns[b].window_handles@[j2] == h);
                        } else {
                            assert(ns[b].window_handles@[j2] == os[b].window_handles@[j2]);
                        }
                    }
                }
            }
            assert forall|x: u64|
                #![trigger self.windows().contains_key(x)]
                self.windows().contains_key(x) implies exists|b: int|
                    0 <= b < ns.len() && ws_key(#[trigger] ns[b]) == info_key(self.windows()[x])
                        && ns[b].window_handles@.contains(x) by {
                if x == h {
                    assert(ns[a].window_handles@[ns[a].window_handles@.len() - 1] == h);
                } else {
                    let b = choose|b: int|
                        0 <= b < os.len() && ws_key(#[trigger] os[b]) == info_key(o.windows()[x])
                            && os[b].window_handles@.contains(x);
                    let j = choose|j: int| 0 <= j < os[b].window_handles@.len() && os[b].window_handles@[j] == x;
                    assert(ns[b].window_handles@[j] == x);
                    assert(ws_key(ns[b]) == ws_key(os[b]));
                }
            }
            assert forall|b: int|
                0 <= b < ns.len() implies exists|kk: int|
                    0 <= kk < self.monitors().len() && self.monitors()[kk] == (#[trigger] ns[b]).monitor_handle
                        && ns[b].layout_idx < self.layout_lists()[kk].len() by {
                if b < os.len() {
                    let kk = choose|kk: int|
                        0 <= kk < o.monitors().len() && o.monitors()[kk] == (#[trigger] os[b]).monitor_handle
                            && os[b].layout_idx < o.layout_lists()[kk].len();
                    assert(ns[b].monitor_handle == os[b].monitor_handle);
                    assert(ns[b].layout_idx == os[b].layout_idx);
                    assert(0 <= kk < self.monitors().len() && self.monitors()[kk] == ns[b].monitor_handle
                        && ns[b].layout_idx < self.layout_lists()[kk].len());
                } else {
                    assert(0 <= k < self.monitors().len() && self.monitors()[k as int] == ns[b].monitor_handle
                        && ns[b].layout_idx < self.layout_lists()[k as int].len());
                }
            }
            assert forall|b: int, c: int|
                0 <= b < ns.len() && 0 <= c < ns.len() && b != c implies ws_key(#[trigger] ns[b]) != ws_key(
                    #[trigger] ns[c],
                ) by {
                if b < os.len() {
                    assert(ws_key(ns[b]) == ws_key(os[b]));
                }
                if c < os.len() {
                    assert(ws_key(ns[c]) == ws_key(os[c]));
                }
            }
            assert forall|b: int|
                0 <= b < ns.len() implies (#[trigger] ns[b]).window_handles@.len() > 0
                    && ns[b].managed_window_handles@.len() <= MAX_TILED by {
                if b < os.len() {
                    assert(os[b].window_handles@.len() > 0);
                }
            }
            if found is None {
                assert(ns.last().window_handles@ =~= seq![h]);
            }
            assert forall|d2: u128, m2: u64|
                #![trigger self.order_of(d2, m2)]
                self.order_of(d2, m2) == o.order_of(d2, m2) by {
                if exists|b: int| 0 <= b < os.len() && ws_key(os[b]) == (d2, m2) {
                    let b = choose|b: int| 0 <= b < os.len() && ws_key(os[b]) == (d2, m2);
                    o.lemma_space_at(b);
                    assert(ws_key(ns[b]) == (d2, m2));
                    self.lemma_space_at(b);
                } else if exists|b: int| 0 <= b < ns.len() && ws_key(ns[b]) == (d2, m2) {
                    let b = choose|b: int| 0 <= b < ns.len() && ws_key(ns[b]) == (d2, m2);
                    self.lemma_space_at(b);
                    assert(b == os.len());
                } else {
                }
            }
        }
    }

    /// Forgets window `h`, which holds no slot: it leaves its workspace, and a
    /// workspace left without members is dropped.
    #[verifier::rlimit(60)]
    fn remove_member(&mut self, h: u64)
        requires
            old(self).wf(),
            old(self).windows().contains_key(h),
            !old(self).windows()[h].restored,
        ensures
            final(self).wf(),
            final(self).same_rest(*old(self)),
            final(self).windows() == old(self).windows().remove(h),
            forall|b: int|
                0 <= b < final(self).spaces().len() ==> (#[trigger] final(self).spaces()[b]).window_handles@.len() > 0,
            forall|d2: u128, m2: u64|
                #![trigger final(self).order_of(d2, m2)]
                final(self).order_of(d2, m2) == old(self).order_of(d2, m2),
    {
        let ghost o = *self;
        let info = *self.window_info.get(&h).unwrap();
        let a = self.find_workspace(info.desktop_id, info.monitor_handle).unwrap();
        proof {
            let b = choose|b: int|
                0 <= b < o.spaces().len() && ws_key(#[trigger] o.spaces()[b]) == info_key(o.windows()[h])
                    && o.spaces()[b].window_handles@.contains(h);
            assert(b == a as int);
        }
        let ghost members = o.spaces()[a as int].window_handles@;
        let mut p: usize = 0;
        while p < self.workspaces[a].window_handles.len() && self.workspaces[a].window_handles[p] != h
            invariant
                *self == o,
                a < self.spaces().len(),
                members == self.spaces()[a as int].window_handles@,
                members.contains(h),
                p <= members.len(),
                forall|j: int| 0 <= j < p ==> members[j] != h,
            decreases members.len() - p,
        {
            p = p + 1;
        }
        proof {
            if p == members.len() {
                let j = choose|j: int| 0 <= j < members.len() && members[j] == h;
                assert(members[j] != h);
            }
        }
        assert(p < members.len() && members[p as int] == h);
        self.window_info.remove(&h);
        if self.workspaces[a].window_handles.len() == 1 {
            self.workspaces.remove(a);
        } else {
            self.workspaces[a].window_handles.remove(p);
        }
        proof {
            let os = o.spaces();
            let ns = self.spaces();
            let dropped = members.len() == 1;
            // position of an old workspace in the new list
            let pos = |b: int|
                if dropped && b > a {
                    b - 1
                } else {
                    b
                };
            assert(self.layout_lists() == o.layout_lists());
            assert forall|b: int| 0 <= b < os.len() && !(dropped && b == a) implies {
                &&& 0 <= #[trigger] pos(b) < ns.len()
                &&& ws_key(ns[pos(b)]) == ws_key(os[b])
                &&& ns[pos(b)].managed_window_handles@ == os[b].managed_window_handles@
                &&& ns[pos(b)].layout_idx == os[b].layout_idx
                &&& ns[pos(b)].monitor_handle == os[b].monitor_handle
                &&& (b != a ==> ns[pos(b)] == os[b])
                &&& (b == a ==> ns[pos(b)].window_handles@ == members.remove(p as int))
            } by {}
            let orig = |c: int|
                if dropped && c >= a {
                    c + 1
                } else {
                    c
                };
            assert forall|c: int| 0 <= c < ns.len() implies 0 <= #[trigger] orig(c) < os.len() && !(
            dropped && orig(c) == a) && pos(orig(c)) == c by {}
            assert forall|x: u64|
                #![trigger self.windows()[x]]
                self.windows().contains_key(x) && self.windows()[x].restored implies exists|c: int|
                    0 <= c < ns.len() && ws_key(#[trigger] ns[c]) == info_key(self.windows()[x])
                        && self.windows()[x].idx < ns[c].managed_window_handles@.len()
                        && ns[c].managed_window_handles@[self.windows()[x].idx as int] == x by {
                let b = choose|b: int|
                    0 <= b < os.len() && ws_key(#[trigger] os[b]) == info_key(o.windows()[x])
                        && o.windows()[x].idx < os[b].managed_window_handles@.len()
                        && os[b].managed_window_handles@[o.windows()[x].idx as int] == x;
                if dropped && b == a {
                    let y = members[0];
                    assert(members.len() == 1 && y == h);
                    assert(os[a as int].window_handles@.contains(x));
                    let j = choose|j: int| 0 <= j < members.len() && members[j] == x;
                    assert(false);
                }
                assert(0 <= pos(b) < ns.len());
            }
            assert forall|c: int, i: int|
                #![trigger ns[c].managed_window_handles@[i]]
                0 <= c < ns.len() && 0 <= i < ns[c].managed_window_handles@.len() implies {
                    let x = ns[c].managed_window_handles@[i];
                    &&& self.windows().contains_key(x)
                    &&& self.windows()[x].restored
                    &&& self.windows()[x].idx == i
                    &&& info_key(self.windows()[x]) == ws_key(ns[c])
                    &&& ns[c].window_handles@.contains(x)
                } by {
                let b = orig(c);
                let x = os[b].managed_window_handles@[i];
                assert(ns[c].managed_window_handles@[i] == x);
                assert(o.windows().contains_key(x) && o.windows()[x].restored);
                assert(x != h);
                if b == a {
                    let j = choose|j: int| 0 <= j < members.len() && members[j] == x;
                    if j < p {
                        assert(members.remove(p as int)[j] == x);
                    } else {
                        assert(j != p);
                        assert(members.remove(p as int)[j - 1] == x);
                    }
                }
            }
            assert forall|c: int, i: int|
                #![trigger ns[c].window_handles@[i]]
                0 <= c < ns.len() && 0 <= i < ns[c].window_handles@.len() implies {
                    let x = ns[c].window_handles@[i];
                    &&& self.windows().contains_key(x)
                    &&& info_key(self.windows()[x]) == ws_key(ns[c])
                    &&& forall|j2: int|
                        0 <= j2 < ns[c].window_handles@.len() && j2 != i ==> ns[c].window_handles@[j2] != x
                } by {
                let b = orig(c);
                if b == a {
                    let oi = if i < p {
                        i
                    } else {
                        i + 1
                    };
                    let x = members[oi];
                    assert(ns[c].window_handles@[i] == x);
                    assert(os[b].window_handles@[oi] == x);
                    assert(x != h);
                    assert forall|j2: int|
                        0 <= j2 < ns[c].window_handles@.len() && j2 != i implies ns[c].window_handles@[j2] != x by {
                        let oj = if j2 < p {
                            j2
                        } else {
                            j2 + 1
                        };
                        assert(ns[c].window_handles@[j2] == members[oj]);
                        assert(os[b].window_handles@[oj] == members[oj]);
                    }
                } else {
                    let x = os[b].window_handles@[i];
                    assert(o.windows().contains_key(x));
                    if x == h {
                        assert(ws_key(os[b]) == ws_key(os[a as int]));
                    }
                }
            }
            assert forall|x: u64|
                #![trigger self.windows().contains_key(x)]
                self.windows().contains_key(x) implies exists|c: int|
                    0 <= c < self.spaces().len() && ws_key(#[trigger] self.spaces()[c]) == info_key(self.windows()[x])
                        && self.spaces()[c].window_handles@.contains(x) by {
                assert(o.windows().contains_key(x));
                let b = choose|b: int|
                    0 <= b < os.len() && ws_key(#[trigger] os[b]) == info_key(o.windows()[x])
                        && os[b].window_handles@.contains(x);
                let j = choose|j: int| 0 <= j < os[b].window_handles@.len() && os[b].window_handles@[j] == x;
                assert(pos(b) == b || pos(b) == b - 1);
                if b == a {
                    assert(j != p);
                    if dropped {
                        assert(false);
                    }
                    if j < p {
                        assert(members.remove(p as int)[j] == x);
                    } else {
                        assert(members.remove(p as int)[j - 1] == x);
                    }
                } else {
                    assert(ns[pos(b)].window_handles@[j] == x);
                }
                assert(x != h);
                assert(self.windows()[x] == o.windows()[x]);
                assert(0 <= pos(b) < ns.len());
                assert(ws_key(ns[pos(b)]) == info_key(self.windows()[x]));
                assert(ns[pos(b)].window_handles@.contains(x));
            }
            assert forall|c: int|
                0 <= c < ns.len() implies exists|kk: int|
                    0 <= kk < self.monitors().len() && self.monitors()[kk] == (#[trigger] ns[c]).monitor_handle
                        && ns[c].layout_idx < self.layout_lists()[kk].len() by {
                let b = orig(c);
                assert(0 <= b < os.len() && !(dropped && b == a) && pos(b) == c);
                assert(ns[c].monitor_handle == os[b].monitor_handle);
                assert(ns[c].layout_idx == os[b].layout_idx);
                let kk = choose|kk: int|
                    0 <= kk < o.monitors().len() && o.monitors()[kk] == (#[trigger] os[b]).monitor_handle
                        && os[b].layout_idx < o.layout_lists()[kk].len();
                assert(0 <= kk < self.monitors().len() && self.monitors()[kk] == ns[c].monitor_handle
                    && ns[c].layout_idx < self.layout_lists()[kk].len());
            }
            assert forall|c: int, e: int|
                0 <= c < ns.len() && 0 <= e < ns.len() && c != e implies ws_key(#[trigger] ns[c]) != ws_key(
                    #[trigger] ns[e],
                ) by {
                let b = orig(c);
                let f = orig(e);
            }
            assert forall|c: int|
                0 <= c < ns.len() implies (#[trigger] ns[c]).window_handles@.len() > 0
                    && ns[c].managed_window_handles@.len() <= MAX_TILED by {
                let b = orig(c);
            }
            assert(self.windows() =~= o.windows().remove(h));
            assert(self.layout_lists().len() == self.monitors().len());
            assert(forall|k: int| 0 <= k < self.layout_lists().len() ==> (#[trigger] self.layout_lists()[k]).len() > 0);
            assert(forall|k: int, l: int|
            0 <= k < self.layout_lists().len() && 0 <= l < self.layout_lists()[k].len() ==> (
            #[trigger] self.layout_lists()[k][l]).wf());
            assert(self.layouts_ok());
            assert(self.entries_in_order());
            assert(self.order_in_entries());
            assert(self.members_known());
            assert(self.entries_member());
            assert(self.spaces_ok());
            if dropped {
                if os[a as int].managed_window_handles@.len() > 0 {
                    let x = os[a as int].managed_window_handles@[0];
                    assert(os[a as int].window_handles@.contains(x));
                    let j = choose|j: int| 0 <= j < members.len() && members[j] == x;
                    assert(x == h);
                }
            }
            assert forall|d2: u128, m2: u64|
                #![trigger self.order_of(d2, m2)]
                self.order_of(d2, m2) == o.order_of(d2, m2) by {
                if exists|c: int| 0 <= c < ns.len() && ws_key(ns[c]) == (d2, m2) {
                    let c = choose|c: int| 0 <= c < ns.len() && ws_key(ns[c]) == (d2, m2);
                    self.lemma_space_at(c);
                    let b = orig(c);
                    assert(ws_key(os[b]) == (d2, m2));
                    o.lemma_space_at(b);
                } else if exists|b: int| 0 <= b < os.len() && ws_key(os[b]) == (d2, m2) {
                    let b = choose|b: int| 0 <= b < os.len() && ws_key(os[b]) == (d2, m2);
                    o.lemma_space_at(b);
                    if !(dropped && b == a) {
                        assert(ws_key(ns[pos(b)]) == (d2, m2));
                    }
                    assert(o.order_of(d2, m2) =~= Seq::<u64>::empty());
                }
            }
        }
    }

    /// All but the layouts is as before.
    pub open spec fn same_but_layouts(self, other: WindowManager) -> bool {
        &&& self.windows() == other.windows()
        &&& self.spaces() == other.spaces()
        &&& self.foreground() == other.foreground()
        &&& self.previous_foreground() == other.previous_foreground()
        &&& self.grabbed() == other.grabbed()
        &&& self.monitors() == other.monitors()
        &&& self.ignored_combos() == other.ignored_combos()
        &&& self.ignored() == other.ignored()
        &&& self.uncloaks() == other.uncloaks()
        &&& self.restart_flag() == other.restart_flag()
        &&& self.config() == other.config()
        &&& self.layout_lists().len() == other.layout_lists().len()
        &&& forall|k: int|
            0 <= k < self.layout_lists().len() ==> (#[trigger] self.layout_lists()[k]).len()
                == other.layout_lists()[k].len()
    }

    pub closed spec fn inset_border(self) -> InvisibleBorder {
        self.border
    }

    /// The geometry commands for workspace `a` under the layouts `after`: one per
    /// tiled window in slot order, each the window rectangle of the zone in the
    /// same place of the state for that many windows of the workspace's variant.
    pub open spec fn placements_for(self, a: int, k: int, after: WindowManager, r: Seq<Placement>) -> bool {
        let ws = self.spaces()[a];
        let n = ws.managed_window_handles@.len();
        let layout = after.layout_lists()[k][ws.layout_idx as int];
        &&& r.len() == n
        &&& forall|i: int|
            0 <= i < n ==> (#[trigger] r[i]).hwnd == ws.managed_window_handles@[i] && r[i].rect == inset(
                layout.tree().innermost(ws.variant_idx@).states()[n - 1][i],
                layout.monitor(),
                self.config().window_padding as int,
                self.config().edge_padding as int,
                self.inset_border(),
            )
    }

    /// Whether `r` are the geometry commands that `update_workspace(d, m)` gives
    /// in this state.
    pub open spec fn update_result(self, d: u128, m: u64, r: Seq<Placement>) -> bool {
        match self.space_of(d, m) {
            Some(a) => if self.ignored_combos().contains((d, m))
                || self.spaces()[a].managed_window_handles@.len() == 0 {
                r.len() == 0
            } else {
                exists|k: int|
                    0 <= k < self.monitors().len() && self.monitors()[k] == m && self.placements_for(
                        a,
                        k,
                        self,
                        r,
                    )
            },
            None => r.len() == 0,
        }
    }

    /// A manager for the given monitors, each with its list of layouts, and no
    /// windows yet.
    pub fn new(
        settings: Settings,
        window_rules: WindowRules,
        monitor_handles: Vec<u64>,
        layouts: Vec<Vec<Layout>>,
        border: InvisibleBorder,
    ) -> (r: WindowManager)
        requires
            layouts@.len() == monitor_handles@.len(),
            forall|i: int, j: int|
                0 <= i < monitor_handles@.len() && 0 <= j < monitor_handles@.len() && i != j
                    ==> monitor_handles@[i] != monitor_handles@[j],
            forall|k: int| 0 <= k < layouts@.len() ==> (#[trigger] layouts@[k])@.len() > 0,
            forall|k: int, l: int|
                0 <= k < layouts@.len() && 0 <= l < layouts@[k]@.len() ==> (
                #[trigger] layouts@[k]@[l]).wf(),
        ensures
            r.wf(),
            r.windows().is_empty(),
            r.spaces().len() == 0,
            r.monitors() == monitor_handles@,
            r.config() == settings,
            r.foreground() is None,
            r.grabbed() is None,
            !r.restart_flag(),
    {
        let r = WindowManager {
            monitor_handles,
            layouts,
            window_info: std::collections::HashMap::new(),
            workspaces: Vec::new(),
            foreground_window: None,
            previous_foreground_window: None,
            grabbed_window: None,
            ignored_combinations: Vec::new(),
            ignored_windows: Vec::new(),
            uncloak_count: 0,
            max_uncloak_count: 0,
            settings,
            window_rules,
            border,
            restart_requested: false,
        };
        proof {
            assert(r.windows() =~= Map::<u64, WindowInfo>::empty());
            assert forall|k: int| 0 <= k < r.layout_lists().len() implies (#[trigger] r.layout_lists()[k]).len() > 0 by {
                assert(r.layout_lists()[k] == layouts@[k]@);
            }
            assert forall|k: int, l: int|
                0 <= k < r.layout_lists().len() && 0 <= l < r.layout_lists()[k].len() implies (
                #[trigger] r.layout_lists()[k][l]).wf() by {
                assert(r.layout_lists()[k] == layouts@[k]@);
            }
        }
        r
    }

    /// The geometry commands that bring workspace `(d, m)` in line with its
    /// layout: none when the workspace is ignored, absent or tiles nothing.
    pub fn update_workspace(&mut self, d: u128, m: u64) -> (r: Vec<Placement>)
        requires
            old(self).wf(),
        ensures
            final(self).wf(),
            final(self).same_but_layouts(*old(self)),
            final(self).inset_border() == old(self).inset_border(),
            final(self).update_result(d, m, r@),
            forall|d2: u128, m2: u64|
                #![trigger final(self).order_of(d2, m2)]
                final(self).order_of(d2, m2) == old(self).order_of(d2, m2),
            match old(self).space_of(d, m) {
                Some(a) => if old(self).ignored_combos().contains((d, m))
                    || old(self).spaces()[a].managed_window_handles@.len() == 0 {
                    r@.len() == 0 && *final(self) == *old(self)
                } else {
                    &&& 0 <= old(self).mon_no(m) < old(self).monitors().len()
                    &&& old(self).monitors()[old(self).mon_no(m)] == m
                    &&& old(self).placements_for(a, old(self).mon_no(m), *final(self), r@)
                    &&& old(self).keeps_layouts(
                        *final(self),
                        old(self).mon_no(m),
                        old(self).spaces()[a].layout_idx as int,
                        old(self).spaces()[a].variant_idx@,
                        old(self).layout_lists()[old(self).mon_no(m)][old(self).spaces()[a].layout_idx as int].tree().innermost(
                            old(self).spaces()[a].variant_idx@,
                        ).states().len() as int,
                    )
                },
                None => r@.len() == 0 && *final(self) == *old(self),
            },
    {
        let ghost o = *self;
        if self.is_ignored_combination(d, m) {
            return Vec::new();
        }
        let a = match self.find_workspace(d, m) {
            Some(a) => a,
            None => return Vec::new(),
        };
        let n = self.workspaces[a].managed_window_handles.len();
        if n == 0 {
            return Vec::new();
        }
        let k = self.monitor_index(m).unwrap();
        proof {
            let kk = choose|kk: int|
                0 <= kk < o.monitors().len() && o.monitors()[kk] == (#[trigger] o.spaces()[a as int]).monitor_handle
                    && o.spaces()[a as int].layout_idx < o.layout_lists()[kk].len();
            assert(o.monitors().contains(m)) by {
                assert(o.monitors()[kk] == m);
            }
        }
        let li = self.workspaces[a].layout_idx;
        let pad = self.settings.window_padding;
        let edge = self.settings.edge_padding;
        let border = self.border;
        proof {
            assert(self.layout_lists()[k as int] == self.layouts@[k as int]@);
            assert(self.layouts@[k as int]@[li as int].wf());
        }
        let positions = self.layouts[k][li].get_internal_positions(
            self.workspaces[a].variant_idx.as_slice(),
            n,
            pad,
            edge,
            &border,
        );
        let ghost after = *self;
        assert(self.spaces() == o.spaces());
        assert(self.windows() == o.windows());
        assert(self.monitors() == o.monitors());
        let mut out: Vec<Placement> = Vec::new();
        let mut i: usize = 0;
        while i < n
            invariant
                *self == after,
                i <= n,
                n == self.spaces()[a as int].managed_window_handles@.len(),
                a < self.spaces().len(),
                positions@.len() == n,
                out@.len() == i,
                forall|j: int|
                    0 <= j < i ==> (#[trigger] out@[j]).hwnd == self.spaces()[a as int].managed_window_handles@[j]
                        && out@[j].rect == positions@[j],
            decreases n - i,
        {
            out.push(Placement { hwnd: self.workspaces[a].managed_window_handles[i], rect: positions[i] });
            i = i + 1;
        }
        proof {
            assert(self.layout_lists() =~= o.layout_lists().update(
                k as int,
                o.layout_lists()[k as int].update(li as int, self.layouts@[k as int]@[li as int]),
            ));
            assert(self.layout_lists()[k as int][li as int] == self.layouts@[k as int]@[li as int]);
            assert forall|kk: int| 0 <= kk < self.layout_lists().len() implies (#[trigger] self.layout_lists()[kk]).len()
                == o.layout_lists()[kk].len() by {}
            assert forall|kk: int, l: int|
                0 <= kk < self.layout_lists().len() && 0 <= l < self.layout_lists()[kk].len() implies (
                #[trigger] self.layout_lists()[kk][l]).wf() by {
                if kk != k || l != li {
                    assert(self.layout_lists()[kk][l] == o.layout_lists()[kk][l]);
                }
            }
            assert forall|b: int|
                0 <= b < self.spaces().len() implies exists|kk: int|
                    0 <= kk < self.monitors().len() && self.monitors()[kk] == (#[trigger] self.spaces()[b]).monitor_handle
                        && self.spaces()[b].layout_idx < self.layout_lists()[kk].len() by {
                let kk = choose|kk: int|
                    0 <= kk < o.monitors().len() && o.monitors()[kk] == (#[trigger] o.spaces()[b]).monitor_handle
                        && o.spaces()[b].layout_idx < o.layout_lists()[kk].len();
                assert(self.layout_lists()[kk].len() == o.layout_lists()[kk].len());
                assert(0 <= kk < self.monitors().len() && self.monitors()[kk] == self.spaces()[b].monitor_handle
                    && self.spaces()[b].layout_idx < self.layout_lists()[kk].len());
            }
            assert(self.layouts_ok());
            assert(self.entries_in_order());
            assert(self.order_in_entries());
            assert(self.members_known());
            assert(self.entries_member());
            assert(self.spaces_ok());
            assert(o.space_of(d, m) == Some(a as int));
            assert(o.placements_for(a as int, k as int, *self, out@));
            assert(self.space_of(d, m) == Some(a as int));
            assert(self.placements_for(a as int, k as int, *self, out@));
            WindowManager::lemma_orders_eq(o, *self);
            assert forall|k2: int, l2: int|
                0 <= k2 < o.layout_lists().len() && 0 <= l2 < o.layout_lists()[k2].len() && (k2 != k || l2 != li)
                    implies #[trigger] self.layout_lists()[k2][l2] == o.layout_lists()[k2][l2] by {}
            let kc = choose|kc: int| 0 <= kc < o.monitors().len() && o.monitors()[kc] == m;
            assert(kc == k as int);
            assert(o.keeps_layouts(
                *self,
                k as int,
                li as int,
                o.spaces()[a as int].variant_idx@,
                o.layout_lists()[k as int][li as int].tree().innermost(o.spaces()[a as int].variant_idx@).states().len() as int,
            ));
        }
        out
    }

    /// The invariant speaks only of the windows, workspaces, monitors and layouts.
    proof fn lemma_wf_frame(o: WindowManager, n: WindowManager)
        requires
            o.wf(),
            n.windows() == o.windows(),
            n.spaces() == o.spaces(),
            n.monitors() == o.monitors(),
            n.layout_lists() == o.layout_lists(),
        ensures
            n.wf(),
            forall|d: u128, m: u64| #![trigger n.order_of(d, m)] n.order_of(d, m) == o.order_of(d, m),
    {
        WindowManager::lemma_orders_eq(o, n);
        assert forall|h: u64|
            #![trigger n.windows().contains_key(h)]
            n.windows().contains_key(h) implies exists|b: int|
                0 <= b < n.spaces().len() && ws_key(#[trigger] n.spaces()[b]) == info_key(n.windows()[h])
                    && n.spaces()[b].window_handles@.contains(h) by {
            assert(o.windows().contains_key(h));
            assert(o.windows()[h] == n.windows()[h]);
            let b = choose|b: int|
                0 <= b < o.spaces().len() && ws_key(#[trigger] o.spaces()[b]) == info_key(o.windows()[h])
                    && o.spaces()[b].window_handles@.contains(h);
            assert(ws_key(n.spaces()[b]) == info_key(n.windows()[h]));
        }
        assert forall|h: u64|
            #![trigger n.windows()[h]]
            n.windows().contains_key(h) && n.windows()[h].restored implies exists|b: int|
                0 <= b < n.spaces().len() && ws_key(#[trigger] n.spaces()[b]) == info_key(n.windows()[h])
                    && n.windows()[h].idx < n.spaces()[b].managed_window_handles@.len()
                    && n.spaces()[b].managed_window_handles@[n.windows()[h].idx as int] == h by {
            assert(o.windows()[h] == n.windows()[h]);
        }
        assert forall|b: int|
            0 <= b < n.spaces().len() implies exists|k: int|
                0 <= k < n.monitors().len() && n.monitors()[k] == (#[trigger] n.spaces()[b]).monitor_handle
                    && n.spaces()[b].layout_idx < n.layout_lists()[k].len() by {
            assert(o.spaces()[b] == n.spaces()[b]);
            let k = choose|k: int|
                0 <= k < o.monitors().len() && o.monitors()[k] == (#[trigger] o.spaces()[b]).monitor_handle
                    && o.spaces()[b].layout_idx < o.layout_lists()[k].len();
            assert(0 <= k < n.monitors().len() && n.monitors()[k] == n.spaces()[b].monitor_handle
                && n.spaces()[b].layout_idx < n.layout_lists()[k].len());
        }
        assert(forall|k: int| 0 <= k < n.layout_lists().len() ==> (#[trigger] n.layout_lists()[k]).len() > 0);
        assert(forall|k: int, l: int|
            0 <= k < n.layout_lists().len() && 0 <= l < n.layout_lists()[k].len() ==> (
            #[trigger] n.layout_lists()[k][l]).wf());
        assert(forall|i: int, j: int|
            0 <= i < n.monitors().len() && 0 <= j < n.monitors().len() && i != j ==> n.monitors()[i]
                != n.monitors()[j]);
        assert(n.layouts_ok());
        assert(n.entries_in_order());
        assert(n.order_in_entries());
        assert(n.members_known());
        assert(n.entries_member());
        assert(n.spaces_ok());
    }

    fn remove_ignored(&mut self, h: u64)
        ensures
            final(self).ignored() == old(self).ignored().filter(|x: u64| x != h),
            !final(self).ignored().contains(h),
            final(self).windows() == old(self).windows(),
            final(self).spaces() == old(self).spaces(),
            final(self).monitors() == old(self).monitors(),
            final(self).layout_lists() == old(self).layout_lists(),
            final(self).foreground() == old(self).foreground(),
            final(self).previous_foreground() == old(self).previous_foreground(),
            final(self).grabbed() == old(self).grabbed(),
            final(self).ignored_combos() == old(self).ignored_combos(),
            final(self).uncloaks() == old(self).uncloaks(),
            final(self).restart_flag() == old(self).restart_flag(),
            final(self).config() == old(self).config(),
            final(self).inset_border() == old(self).inset_border(),
    {
        let ghost old_ig = self.ignored_windows@;
        let mut kept: Vec<u64> = Vec::new();
        let mut i: usize = 0;
        while i < self.ignored_windows.len()
            invariant
                old_ig == self.ignored_windows@,
                i <= old_ig.len(),
                kept@ == old_ig.subrange(0, i as int).filter(|x: u64| x != h),
            decreases old_ig.len() - i,
        {
            let x = self.ignored_windows[i];
            proof {
                old_ig.subrange(0, i as int).lemma_filter_push(x, |x: u64| x != h);
                assert(old_ig.subrange(0, i as int).push(x) =~= old_ig.subrange(0, i + 1));
            }
            if x != h {
                kept.push(x);
            }
            i = i + 1;
        }
        assert(old_ig.subrange(0, old_ig.len() as int) =~= old_ig);
        self.ignored_windows = kept;
        proof {
            if self.ignored_windows@.contains(h) {
                let j = choose|j: int| 0 <= j < self.ignored_windows@.len() && self.ignored_windows@[j] == h;
                old_ig.filter_lemma(|x: u64| x != h);
            }
        }
    }

    /// A window was destroyed: it is forgotten, leaves its workspace (which is
    /// dropped once it has no members) and every role it had, and its workspace
    /// gets new geometry if it was tiled there.
    pub fn window_destroyed(&mut self, hwnd: u64) -> (r: Vec<Placement>)
        requires
            old(self).wf(),
        ensures
            final(self).wf(),
            old(self).window_destroyed_done(*final(self), hwnd, r@),
    {
        let ghost o = *self;
        self.remove_ignored(hwnd);
        if self.foreground_window == Some(hwnd) {
            self.foreground_window = None;
        }
        if self.previous_foreground_window == Some(hwnd) {
            self.previous_foreground_window = None;
        }
        if self.grabbed_window == Some(hwnd) {
            self.grabbed_window = None;
        }
        proof {
            WindowManager::lemma_wf_frame(o, *self);
        }
        let info = match self.window_info.get(&hwnd) {
            Some(i) => *i,
            None => {
                assert(self.windows().dom() =~= old(self).windows().dom().remove(hwnd));
                return Vec::new();
            },
        };
        if info.restored {
            self.detach(hwnd);
        }
        self.remove_member(hwnd);
        assert(self.windows().dom() =~= old(self).windows().dom().remove(hwnd));
        if info.restored {
            self.update_workspace(info.desktop_id, info.monitor_handle)
        } else {
            Vec::new()
        }
    }
}

impl WindowManager {
    /// A tiled window was minimized, maximized, snapped or hidden: it leaves its
    /// slot but stays a member, keeping the slot to return to; it loses the
    /// focus roles; its workspace gets new geometry.
    pub fn stop_managing_window(&mut self, hwnd: u64) -> (r: Vec<Placement>)
        requires
            old(self).wf(),
        ensures
            final(self).wf(),
            old(self).stop_managing_window_done(*final(self), hwnd, r@),
    {
        let info = match self.window_info.get(&hwnd) {
            Some(i) => *i,
            None => return Vec::new(),
        };
        if !info.restored {
            return Vec::new();
        }
        let ghost o = *self;
        if self.foreground_window == Some(hwnd) {
            self.foreground_window = None;
        }
        if self.previous_foreground_window == Some(hwnd) {
            self.previous_foreground_window = None;
        }
        if self.grabbed_window == Some(hwnd) {
            self.grabbed_window = None;
        }
        proof {
            WindowManager::lemma_wf_frame(o, *self);
        }
        self.detach(hwnd);
        self.update_workspace(info.desktop_id, info.monitor_handle)
    }

    /// A known window that holds no slot and is not floating became restorable:
    /// it takes back its slot, or the last slot where the order has grown
    /// shorter, and its workspace gets new geometry.
    pub fn manage_window(&mut self, hwnd: u64) -> (r: Vec<Placement>)
        requires
            old(self).wf(),
        ensures
            final(self).wf(),
            old(self).manage_window_done(*final(self), hwnd, r@),
    {
        let info = match self.window_info.get(&hwnd) {
            Some(i) => *i,
            None => return Vec::new(),
        };
        if info.restored {
            return Vec::new();
        }
        if self.is_ignored_window(hwnd) {
            return Vec::new();
        }
        let a = match self.find_workspace(info.desktop_id, info.monitor_handle) {
            Some(a) => a,
            None => return Vec::new(),
        };
        let len = self.workspaces[a].managed_window_handles.len();
        if len >= MAX_TILED {
            return Vec::new();
        }
        let slot = if info.idx <= len {
            info.idx
        } else {
            len
        };
        proof {
            self.lemma_space_at(a as int);
        }
        self.attach(hwnd, a, slot);
        self.update_workspace(info.desktop_id, info.monitor_handle)
    }

    /// The layouts of monitor `m`.
    pub open spec fn layouts_on(self, m: u64) -> Seq<Layout> {
        self.layout_lists()[choose|k: int| 0 <= k < self.monitors().len() && self.monitors()[k] == m]
    }

    /// Where a window that starts floating under `p` is placed on workspace `a`:
    /// centred at the configured size, at the given rectangle, or nowhere.
    pub open spec fn start_floating_placement(self, h: u64, a: int, p: SetPosition) -> Seq<Placement> {
        match p {
            SetPosition::Default => Seq::empty(),
            SetPosition::Center => seq![
                Placement {
                    hwnd: h,
                    rect: centered(
                        self.shown_layout(a).monitor(),
                        cap_permille(self.config().floating_window_default_w_permille),
                        cap_permille(self.config().floating_window_default_h_permille),
                    ),
                },
            ],
            SetPosition::Position(z) => seq![Placement { hwnd: h, rect: z }],
        }
    }

    /// A window was seen for the first time on desktop `d` and monitor `m`, with
    /// the rule that applies to it, if any. On an unknown monitor, or when it is
    /// known already, nothing happens. Otherwise it becomes a member of the
    /// workspace of `(d, m)`. A floating rule makes it float, placed as the rule
    /// says. A layout rule sets the workspace's layout where the monitor has that
    /// layout. A window that does not float takes the last slot. Where there is
    /// no foreground window it becomes the foreground.
    #[verifier::spinoff_prover]
    #[verifier::rlimit(100)]
    pub fn manage_new_window(&mut self, d: u128, m: u64, hwnd: u64, rule: Option<Rule>) -> (r: Vec<
        Placement,
    >)
        requires
            old(self).wf(),
        ensures
            final(self).wf(),
            old(self).manage_new_window_done(*final(self), d, m, hwnd, rule, r@),
    {
        let k = match self.monitor_index(m) {
            Some(k) => k,
            None => return Vec::new(),
        };
        if self.window_info.contains_key(&hwnd) {
            return Vec::new();
        }
        let ghost o = *self;
        proof {
            let kk = choose|kk: int| 0 <= kk < o.monitors().len() && o.monitors()[kk] == m;
            assert(kk == k as int);
        }
        if self.foreground_window.is_none() {
            self.foreground_window = Some(hwnd);
        }
        let floating = match rule {
            Some(Rule::StartFloating(_)) => true,
            _ => false,
        };
        if floating {
            self.ignored_windows.push(hwnd);
            assert(self.ignored()[self.ignored().len() - 1] == hwnd);
        }
        proof {
            WindowManager::lemma_wf_frame(o, *self);
        }
        self.add_member(hwnd, d, k);
        let a = self.find_workspace(d, m).unwrap();
        if let Some(Rule::LayoutIdx(li)) = rule {
            assert(self.layout_lists()[k as int] == self.layouts@[k as int]@);
            if li < self.layouts[k].len() {
                let path = self.layouts[k][li].default_variant_idx();
                self.set_layout(a, k, li, path);
            }
        }
        proof {
            self.lemma_space_at(a as int);
            self.lemma_monitor_no(a as int);
        }
        if floating {
            let p = match rule {
                Some(Rule::StartFloating(p)) => p,
                _ => SetPosition::Default,
            };
            return match p {
                SetPosition::Default => Vec::new(),
                SetPosition::Position(z) => {
                    let mut v = Vec::new();
                    v.push(Placement { hwnd, rect: z });
                    assert(v@ =~= seq![Placement { hwnd, rect: z }]);
                    v
                },
                SetPosition::Center => {
                    let li = self.workspaces[a].layout_idx;
                    proof {
                        assert(k as int == self.monitor_no(a as int));
                        assert(self.layout_lists()[k as int] == self.layouts@[k as int]@);
                    }
                    let area = *self.layouts[k][li].get_monitor_rect();
                    let wp = if self.settings.floating_window_default_w_permille > 1000 {
                        1000
                    } else {
                        self.settings.floating_window_default_w_permille
                    };
                    let hp = if self.settings.floating_window_default_h_permille > 1000 {
                        1000
                    } else {
                        self.settings.floating_window_default_h_permille
                    };
                    let rect = center_rect(&area, wp, hp);
                    let mut v = Vec::new();
                    v.push(Placement { hwnd, rect });
                    assert(v@ =~= seq![Placement { hwnd, rect }]);
                    v
                },
            };
        }
        let len = self.workspaces[a].managed_window_handles.len();
        if len >= MAX_TILED {
            return Vec::new();
        }
        self.attach(hwnd, a, len);
        proof {
            assert(self.spaces()[a as int].managed_window_handles@.len() > 0);
        }
        let ghost s2 = *self;
        let r = self.update_workspace(d, m);
        proof {
            assert forall|d2: u128, m2: u64|
                #![trigger self.order_of(d2, m2)]
                self.order_of(d2, m2) == if (d2, m2) == (d, m) {
                    o.order_of(d, m).push(hwnd)
                } else {
                    o.order_of(d2, m2)
                } by {
                assert(s2.order_of(d2, m2) == self.order_of(d2, m2));
                if (d2, m2) == (d, m) {
                    assert(o.order_of(d, m).insert(o.order_of(d, m).len() as int, hwnd) =~= o.order_of(d, m).push(hwnd));
                }
            }
        }
        r
    }

    /// Whether workspace `(d, m)` is absent or can tile one more window.
    pub open spec fn room_in(self, d: u128, m: u64) -> bool {
        match self.space_of(d, m) {
            Some(a) => self.spaces()[a].managed_window_handles@.len() < MAX_TILED,
            None => true,
        }
    }

    /// Points workspace `a`, on monitor number `k`, at layout `li` and variant path `path`.
    fn set_layout(&mut self, a: usize, k: usize, li: usize, path: Vec<usize>)
        requires
            old(self).wf(),
            a < old(self).spaces().len(),
            k < old(self).monitors().len(),
            old(self).monitors()[k as int] == old(self).spaces()[a as int].monitor_handle,
            li < old(self).layout_lists()[k as int].len(),
        ensures
            final(self).wf(),
            final(self).same_rest(*old(self)),
            final(self).windows() == old(self).windows(),
            final(self).spaces() == old(self).spaces().update(
                a as int,
                Workspace { layout_idx: li, variant_idx: path, ..old(self).spaces()[a as int] },
            ),
            forall|d2: u128, m2: u64|
                #![trigger final(self).order_of(d2, m2)]
                final(self).order_of(d2, m2) == old(self).order_of(d2, m2),
    {
        let ghost o = *self;
        let ws = &mut self.workspaces[a];
        ws.layout_idx = li;
        ws.variant_idx = path;
        proof {
            let ns = self.spaces();
            let os = o.spaces();
            assert(ns =~= os.update(a as int, Workspace { layout_idx: li, variant_idx: path, ..os[a as int] }));
            assert forall|b: int| 0 <= b < ns.len() implies ws_key(#[trigger] ns[b]) == ws_key(os[b])
                && ns[b].window_handles@ == os[b].window_handles@
                && ns[b].managed_window_handles@ == os[b].managed_window_handles@ by {}
            assert forall|b: int| 0 <= b < ns.len() implies self.on_monitor(#[trigger] ns[b]) by {
                if b == a {
                    assert(self.monitors()[k as int] == ns[b].monitor_handle);
                } else {
                    assert(o.on_monitor(os[b]));
                    let kk = choose|kk: int|
                        0 <= kk < o.monitors().len() && o.monitors()[kk] == os[b].monitor_handle
                            && os[b].layout_idx < o.layout_lists()[kk].len();
                    assert(self.monitors()[kk] == ns[b].monitor_handle);
                }
            }
            assert forall|h: u64|
                #![trigger self.windows()[h]]
                self.windows().contains_key(h) && self.windows()[h].restored implies exists|b: int|
                    0 <= b < ns.len() && ws_key(#[trigger] ns[b]) == info_key(self.windows()[h])
                        && self.windows()[h].idx < ns[b].managed_window_handles@.len()
                        && ns[b].managed_window_handles@[self.windows()[h].idx as int] == h by {
                let b = choose|b: int|
                    0 <= b < os.len() && ws_key(#[trigger] os[b]) == info_key(o.windows()[h])
                        && o.windows()[h].idx < os[b].managed_window_handles@.len()
                        && os[b].managed_window_handles@[o.windows()[h].idx as int] == h;
                assert(ws_key(ns[b]) == ws_key(os[b]));
            }
            assert forall|h: u64|
                #![trigger self.windows().contains_key(h)]
                self.windows().contains_key(h) implies exists|b: int|
                    0 <= b < ns.len() && ws_key(#[trigger] ns[b]) == info_key(self.windows()[h])
                        && ns[b].window_handles@.contains(h) by {
                let b = choose|b: int|
                    0 <= b < os.len() && ws_key(#[trigger] os[b]) == info_key(o.windows()[h])
                        && os[b].window_handles@.contains(h);
                assert(ws_key(ns[b]) == ws_key(os[b]));
            }
            assert forall|b: int, i: int|
                #![trigger ns[b].managed_window_handles@[i]]
                0 <= b < ns.len() && 0 <= i < ns[b].managed_window_handles@.len() implies {
                    let h = ns[b].managed_window_handles@[i];
                    &&& self.windows().contains_key(h)
                    &&& self.windows()[h].restored
                    &&& self.windows()[h].idx == i
                    &&& info_key(self.windows()[h]) == ws_key(ns[b])
                    &&& ns[b].window_handles@.contains(h)
                } by {
                assert(os[b].managed_window_handles@[i] == ns[b].managed_window_handles@[i]);
            }
            assert forall|b: int, i: int|
                #![trigger ns[b].window_handles@[i]]
                0 <= b < ns.len() && 0 <= i < ns[b].window_handles@.len() implies {
                    let h = ns[b].window_handles@[i];
                    &&& self.windows().contains_key(h)
                    &&& info_key(self.windows()[h]) == ws_key(ns[b])
                    &&& forall|j2: int|
                        0 <= j2 < ns[b].window_handles@.len() && j2 != i ==> ns[b].window_handles@[j2] != h
                } by {
                assert(os[b].window_handles@[i] == ns[b].window_handles@[i]);
            }
            assert forall|b: int, c: int|
                0 <= b < ns.len() && 0 <= c < ns.len() && b != c implies ws_key(#[trigger] ns[b]) != ws_key(
                    #[trigger] ns[c],
                ) by {
                assert(ws_key(os[b]) == ws_key(ns[b]));
                assert(ws_key(os[c]) == ws_key(ns[c]));
            }
            assert forall|b: int|
                0 <= b < ns.len() implies (#[trigger] ns[b]).window_handles@.len() > 0
                    && ns[b].managed_window_handles@.len() <= MAX_TILED by {
                assert(os[b].window_handles@.len() > 0);
            }
            WindowManager::lemma_orders_same(o, *self);
        }
    }

    /// Swaps the tiled foreground window with its neighbour in slot order,
    /// wrapping around; nothing happens on an ignored workspace or one that
    /// tiles a single window.
    pub fn cycle_swap(&mut self, direction: CycleDirection) -> (r: Vec<Placement>)
        requires
            old(self).wf(),
        ensures
            final(self).wf(),
            old(self).cycle_swap_done(*final(self), direction, r@),
    {
        let (h, a) = match self.tiled_foreground_exec() {
            Some(p) => p,
            None => return Vec::new(),
        };
        let d = self.workspaces[a].desktop_id;
        let m = self.workspaces[a].monitor_handle;
        if self.is_ignored_combination(d, m) {
            return Vec::new();
        }
        let len = self.workspaces[a].managed_window_handles.len();
        if len <= 1 {
            return Vec::new();
        }
        let idx = self.window_info.get(&h).unwrap().idx;
        let to = match direction {
            CycleDirection::Previous => if idx == 0 {
                len - 1
            } else {
                idx - 1
            },
            CycleDirection::Next => if idx == len - 1 {
                0
            } else {
                idx + 1
            },
        };
        let ghost o = *self;
        self.swap_windows(a, idx, to);
        proof {
            o.lemma_space_at(a as int);
            WindowManager::lemma_orders_frame(o, *self, a as int);
        }
        self.update_workspace(d, m)
    }

    /// Marks the foreground window as grabbed, where it is tiled.
    pub fn grab_window(&mut self)
        requires
            old(self).wf(),
        ensures
            final(self).wf(),
            old(self).grab_window_done(*final(self)),
    {
        let ghost o = *self;
        self.grabbed_window = match self.foreground_window {
            Some(h) => match self.window_info.get(&h) {
                Some(i) if i.restored => Some(h),
                _ => None,
            },
            None => None,
        };
        proof {
            WindowManager::lemma_wf_frame(o, *self);
        }
    }

    /// Asks for a restart: the event loop tears this manager down and builds a
    /// new one from the configuration.
    pub fn restart_himewm(&mut self)
        requires
            old(self).wf(),
        ensures
            final(self).wf(),
            old(self).restart_himewm_done(*final(self)),
    {
        let ghost o = *self;
        self.restart_requested = true;
        proof {
            WindowManager::lemma_wf_frame(o, *self);
        }
    }

    pub fn restart_requested(&self) -> (r: bool)
        ensures
            r == self.restart_flag(),
    {
        self.restart_requested
    }

    pub fn foreground_window(&self) -> (r: Option<u64>)
        ensures
            r == self.foreground(),
    {
        self.foreground_window
    }

    pub fn grabbed_window(&self) -> (r: Option<u64>)
        ensures
            r == self.grabbed(),
    {
        self.grabbed_window
    }

    /// The tiled windows of workspace `(d, m)` in slot order.
    pub fn tiled_order(&self, d: u128, m: u64) -> (r: Vec<u64>)
        requires
            self.wf(),
        ensures
            match self.space_of(d, m) {
                Some(a) => r@ == self.spaces()[a].managed_window_handles@,
                None => r@.len() == 0,
            },
    {
        match self.find_workspace(d, m) {
            Some(a) => {
                let src = &self.workspaces[a].managed_window_handles;
                let mut out: Vec<u64> = Vec::new();
                let mut i: usize = 0;
                while i < src.len()
                    invariant
                        i <= src@.len(),
                        out@ == src@.subrange(0, i as int),
                    decreases src@.len() - i,
                {
                    out.push(src[i]);
                    i = i + 1;
                    assert(out@ =~= src@.subrange(0, i as int));
                }
                assert(src@.subrange(0, src@.len() as int) =~= src@);
                out
            },
            None => Vec::new(),
        }
    }

    /// What the manager knows of window `h`, if anything.
    pub fn window_info(&self, h: u64) -> (r: Option<WindowInfo>)
        ensures
            r == if self.windows().contains_key(h) {
                Some(self.windows()[h])
            } else {
                None
            },
    {
        match self.window_info.get(&h) {
            Some(i) => Some(*i),
            None => None,
        }
    }
}

/// `p` with zeros appended until it has at least `n` entries.
pub open spec fn pad_path(p: Seq<usize>, n: nat) -> Seq<usize> {
    if p.len() >= n {
        p
    } else {
        p + Seq::new((n - p.len()) as nat, |i: int| 0usize)
    }
}

/// The variant path after cycling level `depth` of `p` in direction `dir`, for
/// a node with `count` children there.
pub open spec fn cycled_path(p: Seq<usize>, depth: int, count: int, dir: CycleDirection) -> Seq<usize> {
    if count == 1 {
        p.update(depth, 0)
    } else {
        let cur = if p[depth] > count - 1 {
            count - 1
        } else {
            p[depth] as int
        };
        p.update(depth, neighbour(cur, count, dir) as usize)
    }
}

impl WindowManager {
    /// The monitor number of workspace `a`.
    pub open spec fn monitor_no(self, a: int) -> int {
        choose|k: int| 0 <= k < self.monitors().len() && self.monitors()[k] == self.spaces()[a].monitor_handle
    }

    /// The layout that workspace `a` shows.
    pub open spec fn shown_layout(self, a: int) -> Layout {
        self.layout_lists()[self.monitor_no(a)][self.spaces()[a].layout_idx as int]
    }

    proof fn lemma_monitor_no(self, a: int)
        requires
            self.wf(),
            0 <= a < self.spaces().len(),
        ensures
            0 <= self.monitor_no(a) < self.monitors().len(),
            self.monitors()[self.monitor_no(a)] == self.spaces()[a].monitor_handle,
            self.spaces()[a].layout_idx < self.layout_lists()[self.monitor_no(a)].len(),
            self.shown_layout(a).wf(),
            forall|k: int| 0 <= k < self.monitors().len() && self.monitors()[k] == self.spaces()[a].monitor_handle ==> k == self.monitor_no(a),
    {
        assert(self.on_monitor(self.spaces()[a]));
        let k = choose|k: int|
            0 <= k < self.monitors().len() && self.monitors()[k] == self.spaces()[a].monitor_handle
                && self.spaces()[a].layout_idx < self.layout_lists()[k].len();
        assert(k == self.monitor_no(a));
    }

    /// Cycles level `depth` of the variant path of the tiled foreground window's
    /// workspace: the path is first padded with zeros to reach that level; where
    /// the path's first `depth` entries lead to a node, its entry at `depth`
    /// moves to the neighbouring child, wrapping around.
    pub fn cycle_variant(&mut self, direction: CycleDirection, depth: usize) -> (r: Vec<Placement>)
        requires
            old(self).wf(),
            depth < usize::MAX,
        ensures
            final(self).wf(),
            old(self).cycle_variant_done(*final(self), direction, depth, r@),
    {
        let (h, a) = match self.tiled_foreground_exec() {
            Some(p) => p,
            None => return Vec::new(),
        };
        let d = self.workspaces[a].desktop_id;
        let m = self.workspaces[a].monitor_handle;
        if self.is_ignored_combination(d, m) {
            return Vec::new();
        }
        let k = self.monitor_index(m).unwrap();
        proof {
            self.lemma_monitor_no(a as int);
            assert(self.monitors().contains(m)) by {
                assert(self.monitors()[self.monitor_no(a as int)] == m);
            }
        }
        let li = self.workspaces[a].layout_idx;
        let mut path: Vec<usize> = Vec::new();
        let mut i: usize = 0;
        let src_len = self.workspaces[a].variant_idx.len();
        while i < src_len || i <= depth
            invariant
                depth < usize::MAX,
                src_len == self.spaces()[a as int].variant_idx@.len(),
                a < self.spaces().len(),
                path@.len() == i,
                i <= depth + 1 || i <= src_len,
                forall|j: int| 0 <= j < i ==> #[trigger] path@[j] == pad_path(self.spaces()[a as int].variant_idx@, (depth + 1) as nat)[j],
                i <= pad_path(self.spaces()[a as int].variant_idx@, (depth + 1) as nat).len(),
            decreases (if src_len > depth + 1 { src_len as int } else { depth + 1 }) - i,
        {
            if i < src_len {
                path.push(self.workspaces[a].variant_idx[i]);
            } else {
                path.push(0);
            }
            i = i + 1;
        }
        let ghost p = pad_path(self.spaces()[a as int].variant_idx@, (depth + 1) as nat);
        assert(path@ =~= p);
        let mut prefix: Vec<usize> = Vec::new();
        let mut j: usize = 0;
        while j < depth
            invariant
                j <= depth,
                depth < path@.len(),
                prefix@ == path@.take(j as int),
            decreases depth - j,
        {
            prefix.push(path[j]);
            j = j + 1;
            assert(prefix@ =~= path@.take(j as int));
        }
        proof {
            assert(self.layout_lists()[k as int] == self.layouts@[k as int]@);
            assert(self.shown_layout(a as int) == self.layouts@[k as int]@[li as int]);
            self.shown_layout(a as int).tree().lemma_at_wf(prefix@);
        }
        let count = match self.layouts[k][li].get_variants().get(prefix.as_slice()) {
            VariantsContainerReturn::Container(c) => c.len(),
            VariantsContainerReturn::Variant(_) => {
                self.set_layout(a, k, li, path);
                return Vec::new();
            },
        };
        if count == 1 {
            path.set(depth, 0);
            self.set_layout(a, k, li, path);
            return Vec::new();
        }
        let cur = if path[depth] > count - 1 {
            count - 1
        } else {
            path[depth]
        };
        let next = match direction {
            CycleDirection::Previous => if cur == 0 {
                count - 1
            } else {
                cur - 1
            },
            CycleDirection::Next => if cur == count - 1 {
                0
            } else {
                cur + 1
            },
        };
        path.set(depth, next);
        self.set_layout(a, k, li, path);
        self.update_workspace(d, m)
    }

    /// Cycles the layout of the tiled foreground window's workspace through its
    /// monitor's layouts, wrapping around, and resets its variant path to the new
    /// layout's default; nothing happens where the monitor has one layout.
    pub fn cycle_layout(&mut self, direction: CycleDirection) -> (r: Vec<Placement>)
        requires
            old(self).wf(),
        ensures
            final(self).wf(),
            old(self).cycle_layout_done(*final(self), direction, r@),
    {
        let (h, a) = match self.tiled_foreground_exec() {
            Some(p) => p,
            None => return Vec::new(),
        };
        let d = self.workspaces[a].desktop_id;
        let m = self.workspaces[a].monitor_handle;
        if self.is_ignored_combination(d, m) {
            return Vec::new();
        }
        let k = self.monitor_index(m).unwrap();
        proof {
            self.lemma_monitor_no(a as int);
            assert(self.monitors().contains(m)) by {
                assert(self.monitors()[self.monitor_no(a as int)] == m);
            }
            assert(self.layout_lists()[k as int] == self.layouts@[k as int]@);
        }
        let n = self.layouts[k].len();
        if n == 1 {
            return Vec::new();
        }
        let cur = self.workspaces[a].layout_idx;
        let li = match direction {
            CycleDirection::Previous => if cur == 0 {
                n - 1
            } else {
                cur - 1
            },
            CycleDirection::Next => if cur == n - 1 {
                0
            } else {
                cur + 1
            },
        };
        let path = self.layouts[k][li].default_variant_idx();
        self.set_layout(a, k, li, path);
        self.update_workspace(d, m)
    }
}

fn copy_path(p: &Vec<usize>) -> (r: Vec<usize>)
    ensures
        r@ == p@,
{
    let mut r: Vec<usize> = Vec::new();
    let mut i: usize = 0;
    while i < p.len()
        invariant
            i <= p@.len(),
            r@ == p@.subrange(0, i as int),
        decreases p@.len() - i,
    {
        r.push(p[i]);
        i = i + 1;
        assert(r@ =~= p@.subrange(0, i as int));
    }
    assert(p@.subrange(0, p@.len() as int) =~= p@);
    r
}

/// Whether slot `i` of `ps` shares the most pixels with `rect`, and no earlier
/// slot shares as many.
pub open spec fn is_best_slot(rect: Zone, ps: Seq<Zone>, i: int) -> bool {
    &&& 0 <= i < ps.len()
    &&& forall|j: int| 0 <= j < ps.len() ==> overlap(rect, #[trigger] ps[j]) <= overlap(rect, ps[i])
    &&& forall|j: int| 0 <= j < i ==> overlap(rect, #[trigger] ps[j]) < overlap(rect, ps[i])
}

/// The slot whose rectangle shares the most pixels with `rect`; among equals,
/// the lowest.
pub fn best_slot(rect: &Zone, ps: &Vec<Zone>) -> (r: usize)
    requires
        ps@.len() > 0,
    ensures
        is_best_slot(*rect, ps@, r as int),
{
    let mut best: usize = 0;
    let mut best_area = overlap_area(rect, &ps[0]);
    let mut i: usize = 1;
    while i < ps.len()
        invariant
            1 <= i <= ps@.len(),
            best < i,
            best_area == overlap(*rect, ps@[best as int]),
            forall|j: int| 0 <= j < i ==> overlap(*rect, #[trigger] ps@[j]) <= overlap(*rect, ps@[best as int]),
            forall|j: int| 0 <= j < best ==> overlap(*rect, #[trigger] ps@[j]) < overlap(*rect, ps@[best as int]),
        decreases ps@.len() - i,
    {
        let area = overlap_area(rect, &ps[i]);
        if area > best_area {
            best = i;
            best_area = area;
        }
        i = i + 1;
    }
    best
}

impl WindowManager {
    /// Whether `r` holds one command for each tiled window of workspace `(d, m)`,
    /// in slot order, as `update_workspace(d, m)` gives them.
    pub open spec fn names_order(self, d: u128, m: u64, r: Seq<Placement>) -> bool {
        let t = self.order_of(d, m);
        if self.ignored_combos().contains((d, m)) || t.len() == 0 {
            r.len() == 0
        } else {
            &&& r.len() == t.len()
            &&& forall|i: int| 0 <= i < r.len() ==> (#[trigger] r[i]).hwnd == t[i]
        }
    }

    /// The windows that an update's commands name stay right while the
    /// workspace's order and the ignored workspaces stay as they were.
    proof fn lemma_update_names(s1: WindowManager, s2: WindowManager, d: u128, m: u64, r: Seq<Placement>)
        requires
            s1.spaces_ok(),
            s1.update_result(d, m, r),
            s2.order_of(d, m) == s1.order_of(d, m),
            s2.ignored_combos() == s1.ignored_combos(),
        ensures
            s2.names_order(d, m, r),
    {
        match s1.space_of(d, m) {
            Some(a) => {
                s1.lemma_space_at(a);
                if !(s1.ignored_combos().contains((d, m)) || s1.spaces()[a].managed_window_handles@.len() == 0) {
                    let k = choose|k: int|
                        0 <= k < s1.monitors().len() && s1.monitors()[k] == m && s1.placements_for(a, k, s1, r);
                }
            },
            None => {},
        }
    }

    /// Moves known window `h` to the workspace of desktop `d` on monitor number
    /// `k`: it leaves its slot and workspace, joins the other, and where it was
    /// tiled takes slot `slot` there, or the last slot where `slot` is past the end.
    /// Returns whether it is tiled afterwards.
    fn move_window(&mut self, h: u64, d: u128, k: usize, slot: usize) -> (tiled: bool)
        requires
            old(self).wf(),
            old(self).windows().contains_key(h),
            k < old(self).monitors().len(),
            (d, old(self).monitors()[k as int]) != info_key(old(self).windows()[h]),
        ensures
            final(self).wf(),
            final(self).same_rest(*old(self)),
            final(self).windows().dom() == old(self).windows().dom(),
            info_key(final(self).windows()[h]) == (d, old(self).monitors()[k as int]),
            final(self).windows()[h].restored == tiled,
            tiled == (old(self).windows()[h].restored && old(self).order_of(d, old(self).monitors()[k as int]).len()
                < MAX_TILED),
            forall|x: u64|
                #![trigger final(self).windows()[x]]
                old(self).windows().contains_key(x) && x != h ==> info_key(final(self).windows()[x])
                    == info_key(old(self).windows()[x]) && final(self).windows()[x].restored == old(
                    self,
                ).windows()[x].restored,
            ({
                let k0 = info_key(old(self).windows()[h]);
                let k1 = (d, old(self).monitors()[k as int]);
                let t1 = old(self).order_of(k1.0, k1.1);
                &&& forall|d2: u128, m2: u64|
                    #![trigger final(self).order_of(d2, m2)]
                    (d2, m2) != k0 && (d2, m2) != k1 ==> final(self).order_of(d2, m2) == old(self).order_of(d2, m2)
                &&& final(self).order_of(k0.0, k0.1) == if old(self).windows()[h].restored {
                    old(self).order_of(k0.0, k0.1).remove(old(self).windows()[h].idx as int)
                } else {
                    old(self).order_of(k0.0, k0.1)
                }
                &&& final(self).order_of(k1.0, k1.1) == if tiled {
                    t1.insert(if slot < t1.len() { slot as int } else { t1.len() as int }, h)
                } else {
                    t1
                }
                &&& tiled ==> final(self).windows()[h].idx == (if slot < t1.len() { slot as int } else { t1.len() as int })
            }),
    {
        let ghost o = *self;
        let was_tiled = self.window_info.get(&h).unwrap().restored;
        if was_tiled {
            self.detach(h);
        }
        let ghost o1 = *self;
        self.remove_member(h);
        self.add_member(h, d, k);
        let m = self.monitor_handles[k];
        let a = self.find_workspace(d, m).unwrap();
        proof {
            self.lemma_space_at(a as int);
        }
        if !was_tiled {
            return false;
        }
        let len = self.workspaces[a].managed_window_handles.len();
        if len >= MAX_TILED {
            return false;
        }
        let at = if slot < len {
            slot
        } else {
            len
        };
        let ghost o3 = *self;
        self.attach(h, a, at);
        proof {
            let c = choose|c: int| 0 <= c < self.spaces().len() && ws_key(self.spaces()[c]) == (d, m);
            assert(c == a as int);
            assert(self.spaces()[a as int].managed_window_handles@[at as int] == h);
        }
        true
    }

    /// A window was moved to another virtual desktop `d`: it moves to the
    /// workspace of `d` on the same monitor, at the end of its order if it was
    /// tiled. Both workspaces get new geometry: the old one's commands come first.
    pub fn window_cloaked(&mut self, hwnd: u64, d: u128) -> (r: Vec<Placement>)
        requires
            old(self).wf(),
        ensures
            final(self).wf(),
            old(self).window_cloaked_done(*final(self), hwnd, d, r@),
    {
        let info = match self.window_info.get(&hwnd) {
            Some(i) => *i,
            None => return Vec::new(),
        };
        if info.desktop_id == d {
            return Vec::new();
        }
        let ghost o = *self;
        self.uncloak_count = 0;
        self.max_uncloak_count = 0;
        proof {
            WindowManager::lemma_wf_frame(o, *self);
        }
        let k = self.monitor_index(info.monitor_handle).unwrap_or(0);
        proof {
            let a = choose|b: int|
                0 <= b < o.spaces().len() && ws_key(#[trigger] o.spaces()[b]) == info_key(o.windows()[hwnd])
                    && o.spaces()[b].window_handles@.contains(hwnd);
            assert(o.on_monitor(o.spaces()[a]));
            let kk = choose|kk: int|
                0 <= kk < o.monitors().len() && o.monitors()[kk] == o.spaces()[a].monitor_handle
                    && o.spaces()[a].layout_idx < o.layout_lists()[kk].len();
            assert(self.monitors().contains(info.monitor_handle)) by {
                assert(self.monitors()[kk] == info.monitor_handle);
            }
        }
        self.move_window(hwnd, d, k, usize::MAX);
        proof {
            let t1 = o.order_of(d, info.monitor_handle);
            assert(t1.insert(t1.len() as int, hwnd) =~= t1.push(hwnd));
        }
        let ghost s1 = *self;
        let mut r1 = self.update_workspace(info.desktop_id, info.monitor_handle);
        let ghost s2 = *self;
        let ghost g1 = r1@;
        let mut r2 = self.update_workspace(d, info.monitor_handle);
        proof {
            WindowManager::lemma_update_names(s2, *self, info.desktop_id, info.monitor_handle, g1);
        }
        r1.append(&mut r2);
        r1
    }
}

/// The rectangle of a window floated on the work area `area`: `w_permille` and
/// `h_permille` thousandths of its width and height, rounded down, centred.
pub open spec fn centered(area: Zone, w_permille: int, h_permille: int) -> Zone {
    let w = area.w * w_permille / 1000;
    let h = area.h * h_permille / 1000;
    Zone { x: (area.x + (area.w - w) / 2) as i32, y: (area.y + (area.h - h) / 2) as i32, w: w as i32, h: h as i32 }
}

/// See `centered`.
pub fn center_rect(area: &Zone, w_permille: u32, h_permille: u32) -> (r: Zone)
    requires
        crate::zone::zone_wf(*area),
        w_permille <= 1000,
        h_permille <= 1000,
    ensures
        r == centered(*area, w_permille as int, h_permille as int),
{
    proof {
        assert(0 <= area.w * w_permille <= 0x7fff_ffff * 1000) by (nonlinear_arith)
            requires
                0 <= area.w <= 0x7fff_ffff,
                0 <= w_permille <= 1000,
        ;
        assert(0 <= area.h * h_permille <= 0x7fff_ffff * 1000) by (nonlinear_arith)
            requires
                0 <= area.h <= 0x7fff_ffff,
                0 <= h_permille <= 1000,
        ;
    }
    let w64 = area.w as i64 * w_permille as i64 / 1000;
    let h64 = area.h as i64 * h_permille as i64 / 1000;
    proof {
        assert(0 <= area.w * w_permille <= area.w * 1000) by (nonlinear_arith)
            requires
                0 <= area.w,
                0 <= w_permille <= 1000,
        ;
        assert(0 <= area.h * h_permille <= area.h * 1000) by (nonlinear_arith)
            requires
                0 <= area.h,
                0 <= h_permille <= 1000,
        ;
        assert(0 <= w64 <= area.w) by (nonlinear_arith)
            requires
                0 <= area.w * w_permille <= area.w * 1000,
                w64 == area.w * w_permille / 1000,
        ;
        assert(0 <= h64 <= area.h) by (nonlinear_arith)
            requires
                0 <= area.h * h_permille <= area.h * 1000,
                h64 == area.h * h_permille / 1000,
        ;
    }
    let w = w64 as i32;
    let h = h64 as i32;
    Zone { x: area.x + (area.w - w) / 2, y: area.y + (area.h - h) / 2, w, h }
}

impl WindowManager {
    /// Whether the monitor `u` steps from monitor number `k` in direction `dir`
    /// is another monitor whose workspace of desktop `d` is not ignored.
    pub open spec fn free_at(self, d: u128, k: int, dir: CycleDirection, u: int) -> bool {
        let j = steps(k, self.monitors().len() as int, dir, u as nat);
        j != k && !self.ignored_combos().contains((d, self.monitors()[j]))
    }

    /// Moves the tiled foreground window to the end of the order of its desktop's
    /// workspace on the next monitor in direction `direction`, wrapping around
    /// and passing over monitors whose workspace is ignored. Both workspaces get
    /// new geometry, the old one's first. Where every other monitor is passed
    /// over, nothing changes.
    #[verifier::spinoff_prover]
    #[verifier::rlimit(100)]
    pub fn cycle_assigned_monitor(&mut self, direction: CycleDirection) -> (r: Vec<Placement>)
        requires
            old(self).wf(),
        ensures
            final(self).wf(),
            old(self).cycle_assigned_monitor_done(*final(self), direction, r@),
    {
        let (h, a) = match self.tiled_foreground_exec() {
            Some(p) => p,
            None => return Vec::new(),
        };
        let d = self.workspaces[a].desktop_id;
        let m = self.workspaces[a].monitor_handle;
        let n = self.monitor_handles.len();
        proof {
            self.lemma_monitor_no(a as int);
            assert(self.monitors().contains(m)) by {
                assert(self.monitors()[self.monitor_no(a as int)] == m);
            }
        }
        let k = self.monitor_index(m).unwrap();
        let ghost kk = k as int;
        assert(kk == self.monitor_no(a as int));
        let ghost o = *self;
        let mut j = k;
        let mut t: usize = 0;
        let mut found = false;
        while t + 1 < n && !found
            invariant
                *self == o,
                kk == k as int,
                n == self.monitors().len(),
                k < n,
                j < n,
                t < n,
                j as int == steps(kk, n as int, direction, t as nat),
                found ==> t >= 1 && o.free_at(d, kk, direction, t as int),
                forall|u: int| 1 <= u <= t && !(found && u == t) ==> !#[trigger] o.free_at(d, kk, direction, u),
            decreases n - t - (if found { 1int } else { 0int }),
        {
            j = match direction {
                CycleDirection::Previous => if j == 0 {
                    n - 1
                } else {
                    j - 1
                },
                CycleDirection::Next => if j == n - 1 {
                    0
                } else {
                    j + 1
                },
            };
            t = t + 1;
            let ghost prev_found = found;
            let free = j != k && !self.is_ignored_combination(d, self.monitor_handles[j]);
            proof {
                assert(j as int == steps(kk, n as int, direction, t as nat));
                assert(o.monitors().len() as int == n as int);
                assert(steps(kk, o.monitors().len() as int, direction, ((t as int) as nat)) == j as int);
                assert(o.monitors()[j as int] == self.monitor_handles@[j as int]);
                assert(o.ignored_combos() == self.ignored_combos());
                assert((j != k) == (j as int != kk));
                assert(free == o.free_at(d, kk, direction, t as int));
            }
            if free {
                found = true;
            }
            proof {
                assert forall|u: int| 1 <= u <= t && !(found && u == t) implies !#[trigger] o.free_at(d, kk, direction, u) by {
                    if u == t {
                        assert(!free);
                    }
                }
            }
        }
        if !found {
            proof {
                assert forall|u: int| 1 <= u < n implies !#[trigger] o.free_at(d, kk, direction, u) by {}
            }
            return Vec::new();
        }
        let target = self.monitor_handles[j];
        proof {
            assert(target != m);
        }
        self.move_window(h, d, j, usize::MAX);
        proof {
            let t1 = o.order_of(d, target);
            assert(t1.insert(t1.len() as int, h) =~= t1.push(h));
        }
        let ghost s2 = *self;
        let mut r1 = self.update_workspace(d, m);
        let ghost s3 = *self;
        let ghost g1 = r1@;
        let mut r2 = self.update_workspace(d, target);
        proof {
            WindowManager::lemma_update_names(s3, *self, d, m, g1);
            assert(o.moved_to(*self, h, o.spaces()[a as int], target, r1@ + r2@));
            assert(target == o.monitors()[steps(kk, n as int, direction, t as nat)]);
            assert(1 <= t < n && o.free_at(d, kk, direction, t as int));
            assert(forall|u: int| 1 <= u < t ==> !#[trigger] o.free_at(d, kk, direction, u));
            assert(o.moved_to(*self, h, o.spaces()[a as int], o.monitors()[steps(kk, n as int, direction, (t as int) as nat)], r1@ + r2@));
        }
        let ghost both = r1@ + r2@;
        r1.append(&mut r2);
        proof {
            assert(r1@ == both);
            let tt = t as int;
            assert(1 <= tt < n && o.free_at(d, kk, direction, tt) && (forall|u: int|
                1 <= u < tt ==> !#[trigger] o.free_at(d, kk, direction, u)) && o.moved_to(
                *self,
                h,
                o.spaces()[a as int],
                o.monitors()[steps(kk, n as int, direction, tt as nat)],
                r1@,
            ));
            assert(exists|t2: int|
                1 <= t2 < n && #[trigger] o.free_at(d, kk, direction, t2) && (forall|u: int|
                    1 <= u < t2 ==> !#[trigger] o.free_at(d, kk, direction, u)) && o.moved_to(
                    *self,
                    h,
                    o.spaces()[a as int],
                    o.monitors()[steps(kk, n as int, direction, t2 as nat)],
                    r1@,
                ));
            assert(o.tiled_foreground() == Some((h, a as int)));
            assert(o.monitor_no(a as int) == kk);
            assert(o.spaces()[a as int].desktop_id == d);
            assert(o.monitors().len() as int == n as int);
            let ws = o.spaces()[a as int];
            let cnt = o.monitors().len() as int;
            assert(exists|t2: int| 1 <= t2 < cnt && #[trigger] o.free_at(ws.desktop_id, kk, direction, t2));
            assert(exists|t2: int|
                1 <= t2 < cnt && #[trigger] o.free_at(ws.desktop_id, kk, direction, t2) && (forall|u: int|
                    1 <= u < t2 ==> !#[trigger] o.free_at(ws.desktop_id, kk, direction, u))
                    && o.moved_to(*self, h, ws, o.monitors()[steps(kk, cnt, direction, t2 as nat)], r1@));
            assert(o.assigned_to_next(*self, h, a as int, direction, r1@));
            assert(o.cycle_assigned_monitor_done(*self, direction, r1@));
        }
        r1
    }

    /// Whether `n` is this state with tiled window `h` of workspace `ws` moved to
    /// the end of the order of `ws`'s desktop on monitor `m1`, and `r` the geometry
    /// of both workspaces, the old one's first.
    pub open spec fn moved_to(self, n: WindowManager, h: u64, ws: Workspace, m1: u64, r: Seq<Placement>) -> bool {
        let k0 = ws_key(ws);
        let k1 = (ws.desktop_id, m1);
        let t1 = self.order_of(k1.0, k1.1);
        let tiled = t1.len() < MAX_TILED;
        &&& info_key(n.windows()[h]) == k1
        &&& n.windows()[h].restored == tiled
        &&& tiled ==> n.windows()[h].idx == t1.len()
        &&& forall|d2: u128, m2: u64|
            #![trigger n.order_of(d2, m2)]
            n.order_of(d2, m2) == if (d2, m2) == k0 {
                self.order_of(d2, m2).remove(self.windows()[h].idx as int)
            } else if (d2, m2) == k1 && tiled {
                t1.push(h)
            } else {
                self.order_of(d2, m2)
            }
        &&& exists|r1: Seq<Placement>, r2: Seq<Placement>|
            r == r1 + r2 && n.names_order(k0.0, k0.1, r1) && n.update_result(k1.0, k1.1, r2)
    }

    /// Toggles whether the workspace of the foreground window is ignored. A
    /// workspace that stops being ignored gets new geometry. Returns whether it is
    /// ignored now, or nothing where there is no known foreground window.
    pub fn toggle_workspace(&mut self) -> (r: (Option<bool>, Vec<Placement>))
        requires
            old(self).wf(),
        ensures
            final(self).wf(),
            old(self).toggle_workspace_done(*final(self), (r.0, r.1@)),
    {
        let h = match self.foreground_window {
            Some(h) => h,
            None => return (None, Vec::new()),
        };
        let info = match self.window_info.get(&h) {
            Some(i) => *i,
            None => return (None, Vec::new()),
        };
        let d = info.desktop_id;
        let m = info.monitor_handle;
        let ghost o = *self;
        if self.is_ignored_combination(d, m) {
            let mut kept: Vec<(u128, u64)> = Vec::new();
            let mut i: usize = 0;
            while i < self.ignored_combinations.len()
                invariant
                    *self == o,
                    i <= o.ignored_combos().len(),
                    forall|j: int| 0 <= j < kept@.len() ==> kept@[j] != (d, m),
                decreases o.ignored_combos().len() - i,
            {
                let c = self.ignored_combinations[i];
                if !(c.0 == d && c.1 == m) {
                    kept.push(c);
                }
                i = i + 1;
            }
            self.ignored_combinations = kept;
            proof {
                WindowManager::lemma_wf_frame(o, *self);
            }
            let r = self.update_workspace(d, m);
            (Some(false), r)
        } else {
            self.ignored_combinations.push((d, m));
            proof {
                assert(self.ignored_combos()[self.ignored_combos().len() - 1] == (d, m));
                WindowManager::lemma_wf_frame(o, *self);
            }
            (Some(true), Vec::new())
        }
    }

    /// One window of a virtual-desktop switch became visible; `tiled_on_desktop`
    /// is the number of tiled windows on the desktop switched to. The first such
    /// event of a switch starts a batch expecting that many events and asks for one
    /// pass that moves the windows that changed desktop (true); later events of
    /// the batch only count, and the last one ends the batch.
    pub fn window_uncloaked(&mut self, tiled_on_desktop: usize) -> (r: bool)
        requires
            old(self).wf(),
        ensures
            final(self).wf(),
            old(self).window_uncloaked_done(*final(self), tiled_on_desktop, r),
    {
        let ghost o = *self;
        let first = self.uncloak_count == 0;
        if first {
            self.max_uncloak_count = tiled_on_desktop;
            self.uncloak_count = 1;
        } else if self.uncloak_count < usize::MAX {
            self.uncloak_count = self.uncloak_count + 1;
        }
        if self.uncloak_count >= self.max_uncloak_count {
            self.uncloak_count = 0;
            self.max_uncloak_count = 0;
        }
        proof {
            WindowManager::lemma_wf_frame(o, *self);
        }
        first
    }
}

pub open spec fn cap_permille(p: u32) -> int {
    if p > 1000 {
        1000
    } else {
        p as int
    }
}

impl WindowManager {
    /// Whether `n` is this state with tiled window `h` floated: it leaves its
    /// slot, is ignored from then on, and `r` is its workspace's geometry
    /// followed by the window's placement at `rect`.
    pub open spec fn floated(self, n: WindowManager, h: u64, rect: Zone, r: Seq<Placement>) -> bool {
        let i = self.windows()[h];
        let key = info_key(i);
        let p = Placement { hwnd: h, rect };
        &&& n.ignored().contains(h)
        &&& !n.windows()[h].restored
        &&& n.windows()[h].idx == i.idx
        &&& forall|d2: u128, m2: u64|
            #![trigger n.order_of(d2, m2)]
            n.order_of(d2, m2) == if (d2, m2) == key {
                self.order_of(d2, m2).remove(i.idx as int)
            } else {
                self.order_of(d2, m2)
            }
        &&& exists|r0: Seq<Placement>| r == r0.push(p) && n.update_result(key.0, key.1, r0)
    }

    /// Floats or tiles the foreground window. A floating one stops being ignored
    /// and takes back its slot (or the last one). A tiled one leaves its slot,
    /// is ignored from then on, and is placed at `floating_position` if given,
    /// else centred on its monitor at the configured fraction of its size; that
    /// placement is the last command.
    #[verifier::spinoff_prover]
    #[verifier::rlimit(100)]
    pub fn toggle_window(&mut self, floating_position: Option<Zone>) -> (r: Vec<Placement>)
        requires
            old(self).wf(),
        ensures
            final(self).wf(),
            old(self).toggle_window_done(*final(self), floating_position, r@),
    {
        let h = match self.foreground_window {
            Some(h) => h,
            None => return Vec::new(),
        };
        let info = match self.window_info.get(&h) {
            Some(i) => *i,
            None => return Vec::new(),
        };
        if self.is_ignored_window(h) {
            let ghost o = *self;
            self.remove_ignored(h);
            proof {
                WindowManager::lemma_wf_frame(o, *self);
            }
            return self.manage_window(h);
        }
        if !info.restored {
            return Vec::new();
        }
        let ghost o = *self;
        let a = self.detach(h);
        proof {
            o.lemma_monitor_no(a as int);
            assert(o.monitors().contains(info.monitor_handle)) by {
                assert(o.monitors()[o.monitor_no(a as int)] == info.monitor_handle);
            }
            let c = choose|c: int| 0 <= c < o.spaces().len() && ws_key(o.spaces()[c]) == info_key(info);
            assert(c == a as int);
        }
        let k = self.monitor_index(info.monitor_handle).unwrap();
        let li = self.workspaces[a].layout_idx;
        proof {
            assert(k as int == o.monitor_no(a as int));
            assert(self.layout_lists()[k as int] == self.layouts@[k as int]@);
            assert(self.layouts@[k as int]@[li as int] == o.shown_layout(a as int));
        }
        let area = *self.layouts[k][li].get_monitor_rect();
        let wp = if self.settings.floating_window_default_w_permille > 1000 {
            1000
        } else {
            self.settings.floating_window_default_w_permille
        };
        let hp = if self.settings.floating_window_default_h_permille > 1000 {
            1000
        } else {
            self.settings.floating_window_default_h_permille
        };
        let rect = match floating_position {
            Some(z) => z,
            None => center_rect(&area, wp, hp),
        };
        let ghost o2 = *self;
        self.ignored_windows.push(h);
        proof {
            assert(self.ignored()[self.ignored().len() - 1] == h);
            WindowManager::lemma_wf_frame(o2, *self);
        }
        let mut r = self.update_workspace(info.desktop_id, info.monitor_handle);
        let ghost r0 = r@;
        r.push(Placement { hwnd: h, rect });
        proof {
            assert(r@ == r0.push(Placement { hwnd: h, rect }));
            assert(self.update_result(info.desktop_id, info.monitor_handle, r0));
            assert(exists|q: Seq<Placement>|
                r@ == q.push(Placement { hwnd: h, rect }) && self.update_result(info.desktop_id, info.monitor_handle, q));
            assert(self.windows()[h].idx == info.idx);
            assert(self.ignored().contains(h)) by {
                assert(o2.ignored().push(h) == self.ignored());
                assert(self.ignored()[self.ignored().len() - 1] == h);
            }
            let aa = o.space_of(info.desktop_id, info.monitor_handle)->0;
            assert(aa == a as int);
            assert(rect == match floating_position {
                Some(z) => z,
                None => centered(
                    o.shown_layout(aa).monitor(),
                    cap_permille(o.config().floating_window_default_w_permille),
                    cap_permille(o.config().floating_window_default_h_permille),
                ),
            });
            assert(!self.windows()[h].restored);
            assert forall|d2: u128, m2: u64|
                #![trigger self.order_of(d2, m2)]
                self.order_of(d2, m2) == if (d2, m2) == info_key(info) {
                    o.order_of(d2, m2).remove(info.idx as int)
                } else {
                    o.order_of(d2, m2)
                } by {}
            assert(o.floated(*self, h, rect, r@));
        }
        r
    }
}

/// What a change of foreground window asks of the desktop: which window gets
/// the focused border colour, which the unfocused one, and which to minimize.
#[derive(Debug)]
pub struct FocusUpdate {
    pub focused: Option<u64>,
    pub unfocused: Option<u64>,
    pub minimize: Vec<u64>,
}

impl WindowManager {
    /// Whether member `x` of a workspace would cover its tiled foreground window:
    /// it holds no slot, or it floats.
    pub open spec fn covers(self, h: u64, x: u64) -> bool {
        x != h && (!self.windows()[x].restored || self.ignored().contains(x))
    }

    /// The foreground window changed to `hwnd`. A known window gets the focused
    /// border and the previous foreground, if known and different, the
    /// unfocused one; `hwnd` becomes the foreground. Where `hwnd` is tiled on a
    /// workspace that is not ignored, the members of that workspace that would
    /// cover it are minimized. An unknown window clears the foreground.
    pub fn foreground_window_changed(&mut self, hwnd: u64) -> (r: FocusUpdate)
        requires
            old(self).wf(),
        ensures
            final(self).wf(),
            old(self).foreground_window_changed_done(*final(self), hwnd, r),
    {
        let ghost o = *self;
        let prior = self.foreground_window;
        let unfocused = match prior {
            Some(p) => if p != hwnd && self.window_info.contains_key(&p) {
                Some(p)
            } else {
                None
            },
            None => None,
        };
        self.previous_foreground_window = prior;
        let info = match self.window_info.get(&hwnd) {
            Some(i) => *i,
            None => {
                self.foreground_window = None;
                proof {
                    WindowManager::lemma_wf_frame(o, *self);
                }
                return FocusUpdate { focused: None, unfocused, minimize: Vec::new() };
            },
        };
        self.foreground_window = Some(hwnd);
        proof {
            WindowManager::lemma_wf_frame(o, *self);
        }
        let mut minimize: Vec<u64> = Vec::new();
        if info.restored && !self.is_ignored_combination(info.desktop_id, info.monitor_handle) {
            let a = self.find_workspace(info.desktop_id, info.monitor_handle).unwrap();
            let ghost members = self.spaces()[a as int].window_handles@;
            let mut i: usize = 0;
            while i < self.workspaces[a].window_handles.len()
                invariant
                    self.wf(),
                    self.windows() == o.windows(),
                    self.spaces() == o.spaces(),
                    self.ignored() == o.ignored(),
                    a < self.spaces().len(),
                    members == self.spaces()[a as int].window_handles@,
                    i <= members.len(),
                    minimize@ == members.subrange(0, i as int).filter(|x: u64| o.covers(hwnd, x)),
                decreases members.len() - i,
            {
                let x = self.workspaces[a].window_handles[i];
                proof {
                    members.subrange(0, i as int).lemma_filter_push(x, |x: u64| o.covers(hwnd, x));
                    assert(members.subrange(0, i as int).push(x) =~= members.subrange(0, i + 1));
                    assert(o.windows().contains_key(x));
                }
                if x != hwnd {
                    let xi = *self.window_info.get(&x).unwrap();
                    if !xi.restored || self.is_ignored_window(x) {
                        minimize.push(x);
                    }
                }
                i = i + 1;
            }
            proof {
                assert(members.subrange(0, members.len() as int) =~= members);
                let c = choose|c: int| 0 <= c < o.spaces().len() && ws_key(o.spaces()[c]) == info_key(info);
                assert(c == a as int);
            }
        }
        FocusUpdate { focused: Some(hwnd), unfocused, minimize }
    }

    /// The window rectangles for `n` windows under layout `li` of monitor
    /// number `k` and variant path `path`.
    fn window_rects(&mut self, k: usize, li: usize, path: &[usize], n: usize) -> (r: Vec<Zone>)
        requires
            old(self).wf(),
            k < old(self).monitors().len(),
            li < old(self).layout_lists()[k as int].len(),
            1 <= n <= MAX_STATES,
        ensures
            final(self).wf(),
            final(self).same_but_layouts(*old(self)),
            final(self).inset_border() == old(self).inset_border(),
            r@ == final(self).rects_for(k as int, li as int, path@, n as int),
            old(self).keeps_layouts(
                *final(self),
                k as int,
                li as int,
                path@,
                old(self).layout_lists()[k as int][li as int].tree().innermost(path@).states().len() as int,
            ),
            final(self).layout_lists()[k as int][li as int].tree().innermost(path@).states().len() >= n,
    {
        let ghost o = *self;
        let pad = self.settings.window_padding;
        let edge = self.settings.edge_padding;
        let border = self.border;
        proof {
            assert(self.layout_lists()[k as int] == self.layouts@[k as int]@);
            assert(self.layouts@[k as int]@[li as int].wf());
        }
        let r = self.layouts[k][li].get_internal_positions(path, n, pad, edge, &border);
        proof {
            assert(self.spaces() == o.spaces());
            assert(self.windows() == o.windows());
            assert(self.monitors() == o.monitors());
            assert(self.layout_lists() =~= o.layout_lists().update(
                k as int,
                o.layout_lists()[k as int].update(li as int, self.layouts@[k as int]@[li as int]),
            ));
            assert forall|kk: int| 0 <= kk < self.layout_lists().len() implies (#[trigger] self.layout_lists()[kk]).len()
                == o.layout_lists()[kk].len() by {}
            assert forall|kk: int, l: int|
                0 <= kk < self.layout_lists().len() && 0 <= l < self.layout_lists()[kk].len() implies (
                #[trigger] self.layout_lists()[kk][l]).wf() by {
                if kk != k || l != li {
                    assert(self.layout_lists()[kk][l] == o.layout_lists()[kk][l]);
                }
            }
            assert forall|b: int| 0 <= b < self.spaces().len() implies self.on_monitor(#[trigger] self.spaces()[b]) by {
                assert(o.on_monitor(o.spaces()[b]));
                let kk = choose|kk: int|
                    0 <= kk < o.monitors().len() && o.monitors()[kk] == o.spaces()[b].monitor_handle
                        && o.spaces()[b].layout_idx < o.layout_lists()[kk].len();
                assert(self.layout_lists()[kk].len() == o.layout_lists()[kk].len());
                assert(0 <= kk < self.monitors().len() && self.monitors()[kk] == self.spaces()[b].monitor_handle
                    && self.spaces()[b].layout_idx < self.layout_lists()[kk].len());
            }
            assert(forall|k2: int| 0 <= k2 < self.layout_lists().len() ==> (#[trigger] self.layout_lists()[k2]).len() > 0);
            assert(self.layouts_ok());
            assert(self.entries_in_order());
            assert(self.order_in_entries());
            assert(self.members_known());
            assert(self.entries_member());
            assert(self.spaces_ok());
            let nl = self.layout_lists()[k as int][li as int];
            assert(nl == self.layouts@[k as int]@[li as int]);
            assert(r@ =~= self.rects_for(k as int, li as int, path@, n as int));
            assert forall|k2: int, l2: int|
                0 <= k2 < o.layout_lists().len() && 0 <= l2 < o.layout_lists()[k2].len() && (k2 != k || l2 != li)
                    implies #[trigger] self.layout_lists()[k2][l2] == o.layout_lists()[k2][l2] by {}
        }
        r
    }

    /// The number of the monitor `m`.
    pub open spec fn mon_no(self, m: u64) -> int {
        choose|k: int| 0 <= k < self.monitors().len() && self.monitors()[k] == m
    }

    /// The window rectangles for `n` windows on workspace `(d, m)`: those that
    /// choose the slot of a window dropped there.
    pub open spec fn drop_rects(self, d: u128, m: u64, n: int) -> Seq<Zone> {
        let a = self.space_of(d, m)->0;
        self.rects_for(self.mon_no(m), self.spaces()[a].layout_idx as int, self.spaces()[a].variant_idx@, n)
    }

    /// Whether a drop of `hwnd` at `rect` on monitor `m` acts: it is a known,
    /// tiled, non-floating window and `m` a known monitor.
    pub open spec fn can_drop(self, hwnd: u64, m: u64) -> bool {
        &&& self.windows().contains_key(hwnd)
        &&& self.windows()[hwnd].restored
        &&& !self.ignored().contains(hwnd)
        &&& self.monitors().contains(m)
    }

    /// Whether `n` is this state after tiled window `h` was dropped at `rect` on
    /// its own monitor: it traded places with the window in the slot whose
    /// rectangle shares the most pixels with `rect`, the lowest among equals.
    pub open spec fn dropped_same(self, n: WindowManager, h: u64, rect: Zone, r: Seq<Placement>) -> bool {
        let i = self.windows()[h];
        let key = info_key(i);
        let t = self.order_of(key.0, key.1);
        exists|s: int|
            is_best_slot(rect, n.drop_rects(key.0, key.1, t.len() as int), s) && {
                &&& n.order_of(key.0, key.1) == t.update(i.idx as int, t[s]).update(s, h)
                &&& n.windows()[h].restored
                &&& n.windows()[h].idx == s
                &&& forall|d2: u128, m2: u64|
                    #![trigger n.order_of(d2, m2)]
                    (d2, m2) != key ==> n.order_of(d2, m2) == self.order_of(d2, m2)
                &&& n.update_result(key.0, key.1, r)
            }
    }

    /// Whether `n` is this state after tiled window `h` was dropped at `rect` on
    /// monitor `m`, another than its own: it left its order, the rest closing up,
    /// and took the slot of the workspace of its desktop on `m` whose rectangle,
    /// for one window more, shares the most pixels with `rect`.
    pub open spec fn dropped_across(self, n: WindowManager, h: u64, m: u64, rect: Zone, r: Seq<Placement>) -> bool {
        let i = self.windows()[h];
        let k0 = info_key(i);
        let k1 = (i.desktop_id, m);
        let t1 = self.order_of(k1.0, k1.1);
        exists|s: int|
            is_best_slot(rect, n.drop_rects(k1.0, k1.1, t1.len() as int + 1), s) && {
                &&& info_key(n.windows()[h]) == k1
                &&& n.windows()[h].restored
                &&& n.windows()[h].idx == s
                &&& n.order_of(k1.0, k1.1) == t1.insert(s, h)
                &&& n.order_of(k0.0, k0.1) == self.order_of(k0.0, k0.1).remove(i.idx as int)
                &&& forall|d2: u128, m2: u64|
                    #![trigger n.order_of(d2, m2)]
                    (d2, m2) != k0 && (d2, m2) != k1 ==> n.order_of(d2, m2) == self.order_of(d2, m2)
                &&& exists|r1: Seq<Placement>, r2: Seq<Placement>|
                    r == r1 + r2 && n.names_order(k0.0, k0.1, r1) && n.update_result(k1.0, k1.1, r2)
            }
    }

    /// A tiled window `hwnd` was dropped at `rect` on monitor `m`. Its slot is
    /// the one whose window rectangle shares the most pixels with `rect` (the
    /// lowest among equals), in the state for the windows of the workspace of
    /// its desktop on `m`, itself included. On the same monitor it trades places
    /// with the window in that slot; on another it moves to that workspace at that
    /// slot. The workspaces concerned get new geometry.
    #[verifier::spinoff_prover]
    #[verifier::rlimit(100)]
    pub fn window_move_finished(&mut self, hwnd: u64, m: u64, rect: Zone) -> (r: Vec<Placement>)
        requires
            old(self).wf(),
        ensures
            final(self).wf(),
            old(self).window_move_finished_done(*final(self), hwnd, m, rect, r@),
    {
        let info = match self.window_info.get(&hwnd) {
            Some(i) => *i,
            None => return Vec::new(),
        };
        if !info.restored || self.is_ignored_window(hwnd) {
            return Vec::new();
        }
        let k = match self.monitor_index(m) {
            Some(k) => k,
            None => return Vec::new(),
        };
        let d = info.desktop_id;
        let ghost o = *self;
        proof {
            o.lemma_index_in_order(hwnd);
            let kk = o.mon_no(m);
            assert(kk == k as int);
        }
        if m == info.monitor_handle {
            let a = self.find_workspace(d, m).unwrap();
            proof {
                self.lemma_space_at(a as int);
                self.lemma_monitor_no(a as int);
                assert(self.layout_lists()[k as int] == self.layouts@[k as int]@);
            }
            let li = self.workspaces[a].layout_idx;
            let path = copy_path(&self.workspaces[a].variant_idx);
            let n = self.workspaces[a].managed_window_handles.len();
            let ps = self.window_rects(k, li, path.as_slice(), n);
            let ghost s1 = *self;
            let slot = best_slot(&rect, &ps);
            proof {
                WindowManager::lemma_orders_eq(o, s1);
                s1.lemma_space_at(a as int);
            }
            self.swap_windows(a, info.idx, slot);
            let ghost s2 = *self;
            proof {
                WindowManager::lemma_orders_frame(s1, s2, a as int);
                s2.lemma_space_at(a as int);
                assert(s2.mon_no(m) == k as int);
            }
            let r = self.update_workspace(d, m);
            proof {
                WindowManager::lemma_rects_kept(s2, *self, k as int, li as int, path@, s2.layout_lists()[k as int][li as int].tree().innermost(path@).states().len() as int, n as int);
                assert(s2.rects_for(k as int, li as int, path@, n as int) =~= s1.rects_for(k as int, li as int, path@, n as int));
                self.lemma_space_at(a as int);
                assert(self.mon_no(m) == k as int);
                assert(self.drop_rects(d, m, n as int) == ps@);
                let t = o.order_of(d, m);
                assert(t.len() == n);
                assert(is_best_slot(rect, self.drop_rects(d, m, t.len() as int), slot as int));
                assert(t == s1.spaces()[a as int].managed_window_handles@);
                assert(t[info.idx as int] == hwnd);
                assert(self.order_of(d, m) == t.update(info.idx as int, t[slot as int]).update(slot as int, hwnd));
                assert(self.windows()[hwnd].idx == slot);
                assert(self.windows()[hwnd].restored);
                assert(forall|d2: u128, m2: u64|
                    #![trigger self.order_of(d2, m2)]
                    (d2, m2) != (d, m) ==> self.order_of(d2, m2) == o.order_of(d2, m2));
                assert(self.update_result(d, m, r@));
                let i = o.windows()[hwnd];
                let key = info_key(i);
                let sl = slot as int;
                assert(key == (d, m));
                assert(is_best_slot(rect, self.drop_rects(key.0, key.1, t.len() as int), sl) && {
                    &&& self.order_of(key.0, key.1) == t.update(i.idx as int, t[sl]).update(sl, hwnd)
                    &&& self.windows()[hwnd].restored
                    &&& self.windows()[hwnd].idx == sl
                    &&& forall|d2: u128, m2: u64|
                        #![trigger self.order_of(d2, m2)]
                        (d2, m2) != key ==> self.order_of(d2, m2) == o.order_of(d2, m2)
                    &&& self.update_result(key.0, key.1, r@)
                });
                assert(o.dropped_same(*self, hwnd, rect, r@));
            }
            r
        } else {
            let tiled = self.move_window(hwnd, d, k, usize::MAX);
            if !tiled {
                let mut r1 = self.update_workspace(d, info.monitor_handle);
                let mut r2 = self.update_workspace(d, m);
                r1.append(&mut r2);
                return r1;
            }
            let ghost s0 = *self;
            let mut r1 = self.update_workspace(d, info.monitor_handle);
            let ghost sa = *self;
            let ghost g1 = r1@;
            let a = self.find_workspace(d, m).unwrap();
            proof {
                self.lemma_space_at(a as int);
                self.lemma_monitor_no(a as int);
                assert(self.layout_lists()[k as int] == self.layouts@[k as int]@);
                let t1 = o.order_of(d, m);
                assert(t1.insert(t1.len() as int, hwnd) =~= t1.push(hwnd));
            }
            let li = self.workspaces[a].layout_idx;
            let path = copy_path(&self.workspaces[a].variant_idx);
            let n = self.workspaces[a].managed_window_handles.len();
            let ps = self.window_rects(k, li, path.as_slice(), n);
            let ghost s1 = *self;
            let slot = best_slot(&rect, &ps);
            proof {
                WindowManager::lemma_orders_eq(sa, s1);
                s1.lemma_space_at(a as int);
                assert(s1.windows()[hwnd].idx == n - 1);
            }
            self.detach(hwnd);
            proof {
                self.lemma_space_at(a as int);
                let t1 = o.order_of(d, m);
                assert(t1.push(hwnd).remove(t1.len() as int) =~= t1);
            }
            self.attach(hwnd, a, slot);
            let ghost s2 = *self;
            proof {
                s2.lemma_space_at(a as int);
                assert(s2.mon_no(m) == k as int);
            }
            let mut r2 = self.update_workspace(d, m);
            proof {
                WindowManager::lemma_rects_kept(s2, *self, k as int, li as int, path@, s2.layout_lists()[k as int][li as int].tree().innermost(path@).states().len() as int, n as int);
                assert(s2.rects_for(k as int, li as int, path@, n as int) =~= s1.rects_for(k as int, li as int, path@, n as int));
                self.lemma_space_at(a as int);
                assert(self.mon_no(m) == k as int);
                assert(self.drop_rects(d, m, n as int) == ps@);
                WindowManager::lemma_update_names(sa, *self, d, info.monitor_handle, g1);
                let t1 = o.order_of(d, m);
                assert(n == t1.len() + 1);
                assert(is_best_slot(rect, self.drop_rects(d, m, t1.len() as int + 1), slot as int));
            }
            let ghost both = r1@ + r2@;
            r1.append(&mut r2);
            proof {
                assert(r1@ == both);
                assert(o.dropped_across(*self, hwnd, m, rect, r1@));
            }
            r1
        }
    }
}

impl WindowManager {
    /// The window to focus when the focus moves to the neighbouring monitor in
    /// direction `direction` (wrapping around): the first tiled window of the
    /// foreground window's desktop there, if any.
    pub fn cycle_focused_monitor(&self, direction: CycleDirection) -> (r: Option<u64>)
        requires
            self.wf(),
        ensures
            r == match self.foreground() {
                Some(h) => if self.monitors().len() > 1 && self.windows().contains_key(h)
                    && self.windows()[h].restored && self.monitors().contains(self.windows()[h].monitor_handle) {
                    let n = self.monitors().len() as int;
                    let k = choose|k: int| 0 <= k < n && self.monitors()[k] == self.windows()[h].monitor_handle;
                    let j = neighbour(k, n, direction);
                    match self.space_of(self.windows()[h].desktop_id, self.monitors()[j]) {
                        Some(b) => if self.spaces()[b].managed_window_handles@.len() > 0 {
                            Some(self.spaces()[b].managed_window_handles@[0])
                        } else {
                            None
                        },
                        None => None,
                    }
                } else {
                    None
                },
                None => None,
            },
    {
        let n = self.monitor_handles.len();
        if n <= 1 {
            return None;
        }
        let h = match self.foreground_window {
            Some(h) => h,
            None => return None,
        };
        let info = match self.window_info.get(&h) {
            Some(i) => *i,
            None => return None,
        };
        if !info.restored {
            return None;
        }
        let k = match self.monitor_index(info.monitor_handle) {
            Some(k) => k,
            None => return None,
        };
        proof {
            let kk = choose|kk: int| 0 <= kk < n && self.monitors()[kk] == info.monitor_handle;
            assert(kk == k as int);
        }
        let j = match direction {
            CycleDirection::Previous => if k == 0 {
                n - 1
            } else {
                k - 1
            },
            CycleDirection::Next => if k == n - 1 {
                0
            } else {
                k + 1
            },
        };
        match self.find_workspace(info.desktop_id, self.monitor_handles[j]) {
            Some(b) => if self.workspaces[b].managed_window_handles.len() > 0 {
                Some(self.workspaces[b].managed_window_handles[0])
            } else {
                None
            },
            None => None,
        }
    }

    /// Whether `n` is this state after grabbed window `g` was released onto the
    /// slot of foreground window `f`, and `r` the geometry that asks for.
    pub open spec fn released(self, n: WindowManager, g: u64, f: u64, r: Seq<Placement>) -> bool {
        let gi = self.windows()[g];
        let fi = self.windows()[f];
        let kg = info_key(gi);
        let kf = info_key(fi);
        let tf = self.order_of(kf.0, kf.1);
        &&& info_key(n.windows()[g]) == kf
        &&& !n.ignored().contains(g)
        &&& n.grabbed() is None
        &&& if kg == kf {
            gi.restored ==> {
                &&& n.order_of(kf.0, kf.1) == tf.update(gi.idx as int, f).update(fi.idx as int, g)
                &&& forall|d2: u128, m2: u64|
                    #![trigger n.order_of(d2, m2)]
                    (d2, m2) != kf ==> n.order_of(d2, m2) == self.order_of(d2, m2)
                &&& n.update_result(kf.0, kf.1, r)
            }
        } else {
            tf.len() < MAX_TILED ==> {
                &&& n.windows()[g].restored
                &&& n.windows()[g].idx == fi.idx
                &&& n.order_of(kf.0, kf.1) == tf.insert(fi.idx as int, g)
                &&& n.order_of(kg.0, kg.1) == if gi.restored {
                    self.order_of(kg.0, kg.1).remove(gi.idx as int)
                } else {
                    self.order_of(kg.0, kg.1)
                }
                &&& forall|d2: u128, m2: u64|
                    #![trigger n.order_of(d2, m2)]
                    (d2, m2) != kf && (d2, m2) != kg ==> n.order_of(d2, m2) == self.order_of(d2, m2)
                &&& exists|r1: Seq<Placement>, r2: Seq<Placement>|
                    r == r1 + r2 && n.names_order(kg.0, kg.1, r1) && n.update_result(kf.0, kf.1, r2)
            }
        }
    }

    /// Whether releasing grabbed window `g` onto foreground window `f` does
    /// anything: both are known and differ, share a desktop, `f` is tiled on a
    /// known monitor and its workspace is not ignored.
    pub open spec fn can_release(self, g: u64, f: u64) -> bool {
        &&& g != f
        &&& self.windows().contains_key(g)
        &&& self.windows().contains_key(f)
        &&& self.windows()[f].restored
        &&& !self.ignored_combos().contains(info_key(self.windows()[f]))
        &&& self.windows()[g].desktop_id == self.windows()[f].desktop_id
        &&& self.monitors().contains(self.windows()[f].monitor_handle)
    }

    /// Drops the grabbed window where the foreground window is: on the same
    /// monitor the two trade slots; on another monitor of the same desktop the
    /// grabbed window moves there, into the foreground window's slot. A grabbed
    /// window that was floating is tiled again. Nothing happens unless
    /// `can_release` holds. Returns the window to focus, the grabbed one, and the
    /// geometry commands; the grab ends either way.
    #[verifier::spinoff_prover]
    #[verifier::rlimit(100)]
    pub fn release_window(&mut self) -> (r: (Option<u64>, Vec<Placement>))
        requires
            old(self).wf(),
        ensures
            final(self).wf(),
            old(self).release_window_done(*final(self), (r.0, r.1@)),
    {
        let g = match self.grabbed_window {
            Some(g) => g,
            None => return (None, Vec::new()),
        };
        let f = match self.foreground_window {
            Some(f) => f,
            None => return (None, Vec::new()),
        };
        if f == g {
            return (None, Vec::new());
        }
        let fi = match self.window_info.get(&f) {
            Some(i) => *i,
            None => return (None, Vec::new()),
        };
        let gi = match self.window_info.get(&g) {
            Some(i) => *i,
            None => return (None, Vec::new()),
        };
        if !fi.restored || self.is_ignored_combination(fi.desktop_id, fi.monitor_handle)
            || gi.desktop_id != fi.desktop_id {
            return (None, Vec::new());
        }
        let k = match self.monitor_index(fi.monitor_handle) {
            Some(k) => k,
            None => return (None, Vec::new()),
        };
        let d = fi.desktop_id;
        let ghost o = *self;
        self.grabbed_window = None;
        self.remove_ignored(g);
        proof {
            WindowManager::lemma_wf_frame(o, *self);
        }
        let ghost o1 = *self;
        let r = if gi.monitor_handle == fi.monitor_handle {
            if !gi.restored {
                self.manage_window(g);
            }
            let a = self.find_workspace(d, fi.monitor_handle).unwrap();
            let gn = *self.window_info.get(&g).unwrap();
            let fn_ = *self.window_info.get(&f).unwrap();
            if gn.restored && fn_.restored {
                proof {
                    let c = choose|c: int|
                        0 <= c < self.spaces().len() && ws_key(#[trigger] self.spaces()[c]) == info_key(self.windows()[g])
                            && self.windows()[g].idx < self.spaces()[c].managed_window_handles@.len()
                            && self.spaces()[c].managed_window_handles@[self.windows()[g].idx as int] == g;
                    assert(c == a as int);
                    let e = choose|e: int|
                        0 <= e < self.spaces().len() && ws_key(#[trigger] self.spaces()[e]) == info_key(self.windows()[f])
                            && self.windows()[f].idx < self.spaces()[e].managed_window_handles@.len()
                            && self.spaces()[e].managed_window_handles@[self.windows()[f].idx as int] == f;
                    assert(e == a as int);
                }
                let ghost o2 = *self;
                self.swap_windows(a, gn.idx, fn_.idx);
                proof {
                    o2.lemma_space_at(a as int);
                    WindowManager::lemma_orders_frame(o2, *self, a as int);
                }
            }
            self.update_workspace(d, fi.monitor_handle)
        } else {
            let fidx = fi.idx;
            proof {
                o1.lemma_index_in_order(f);
            }
            let tiled = self.move_window(g, d, k, fidx);
            if !tiled {
                let a = self.find_workspace(d, fi.monitor_handle).unwrap();
                proof {
                    self.lemma_space_at(a as int);
                }
                let len = self.workspaces[a].managed_window_handles.len();
                if len < MAX_TILED && !gi.restored {
                    self.attach(g, a, fidx);
                }
            }
            let ghost s2 = *self;
            let mut r1 = self.update_workspace(d, gi.monitor_handle);
            let ghost s3 = *self;
            let ghost g1 = r1@;
            let mut r2 = self.update_workspace(d, fi.monitor_handle);
            proof {
                WindowManager::lemma_update_names(s3, *self, d, gi.monitor_handle, g1);
            }
            let ghost both = r1@ + r2@;
            r1.append(&mut r2);
            proof {
                assert(r1@ == both);
            }
            r1
        };
        (Some(g), r)
    }

    /// A tiled window stands in its workspace's order at the slot its entry names.
    pub proof fn lemma_index_in_order(self, h: u64)
        requires
            self.wf(),
            self.windows().contains_key(h),
            self.windows()[h].restored,
        ensures
            self.windows()[h].idx < self.order_of(self.windows()[h].desktop_id, self.windows()[h].monitor_handle).len(),
            self.order_of(self.windows()[h].desktop_id, self.windows()[h].monitor_handle)[self.windows()[h].idx as int] == h,
    {
        let b = choose|b: int|
            0 <= b < self.spaces().len() && ws_key(#[trigger] self.spaces()[b]) == info_key(self.windows()[h])
                && self.windows()[h].idx < self.spaces()[b].managed_window_handles@.len()
                && self.spaces()[b].managed_window_handles@[self.windows()[h].idx as int] == h;
        self.lemma_space_at(b);
    }
}

impl WindowManager {
    /// The layout number and variant path of workspace `(d, m)`, if it exists.
    pub fn workspace_layout(&self, d: u128, m: u64) -> (r: Option<(usize, Vec<usize>)>)
        requires
            self.wf(),
        ensures
            match self.space_of(d, m) {
                Some(a) => r matches Some((li, p)) && li == self.spaces()[a].layout_idx && p@
                    == self.spaces()[a].variant_idx@,
                None => r is None,
            },
    {
        match self.find_workspace(d, m) {
            Some(a) => {
                let src = &self.workspaces[a].variant_idx;
                let mut out: Vec<usize> = Vec::new();
                let mut i: usize = 0;
                while i < src.len()
                    invariant
                        i <= src@.len(),
                        out@ == src@.subrange(0, i as int),
                    decreases src@.len() - i,
                {
                    out.push(src[i]);
                    i = i + 1;
                    assert(out@ =~= src@.subrange(0, i as int));
                }
                assert(src@.subrange(0, src@.len() as int) =~= src@);
                Some((self.workspaces[a].layout_idx, out))
            },
            None => None,
        }
    }

    /// Whether window `h` is floating: the manager leaves its geometry alone.
    pub fn is_floating(&self, h: u64) -> (r: bool)
        ensures
            r == self.ignored().contains(h),
    {
        self.is_ignored_window(h)
    }
}

/// The style bits of an overlapped window.
pub const WS_OVERLAPPEDWINDOW: u32 = 0x00CF0000;

/// The style bit of a window with a sizing border.
pub const WS_SIZEBOX: u32 = 0x00040000;

/// A window is managed only if it has an overlapped-window style and a sizing border.
pub fn is_manageable(style: u32) -> (r: bool)
    ensures
        r == (style & WS_OVERLAPPEDWINDOW != 0 && style & WS_SIZEBOX != 0),
{
    style & WS_OVERLAPPEDWINDOW != 0 && style & WS_SIZEBOX != 0
}

/// What the desktop reports of a window's state.
#[derive(Clone, Copy, Debug, PartialEq, Eq, Structural)]
pub struct WindowState {
    pub style: u32,
    pub iconic: bool,
    pub zoomed: bool,
    pub arranged: bool,
    pub visible: bool,
}

/// A window can be tiled again when it has a sizing border, is visible, and is
/// neither minimized, maximized nor snapped.
pub fn is_restored(s: &WindowState) -> (r: bool)
    ensures
        r == (s.style & WS_SIZEBOX != 0 && !s.iconic && !s.zoomed && !s.arranged && s.visible),
{
    s.style & WS_SIZEBOX != 0 && !s.iconic && !s.zoomed && !s.arranged && s.visible
}

/// The number of windows tiled in the workspaces of desktop `d` among `spaces`.
pub open spec fn tiled_count(spaces: Seq<Workspace>, d: u128) -> int
    decreases spaces.len(),
{
    if spaces.len() == 0 {
        0
    } else {
        let last = spaces.last();
        tiled_count(spaces.drop_last(), d) + if last.desktop_id == d {
            last.managed_window_handles@.len() as int
        } else {
            0
        }
    }
}

impl WindowManager {
    /// The number of windows tiled on desktop `d` over all monitors, or
    /// `usize::MAX` where that many or more are.
    pub fn tiled_on_desktop(&self, d: u128) -> (r: usize)
        ensures
            r == if tiled_count(self.spaces(), d) >= usize::MAX {
                usize::MAX as int
            } else {
                tiled_count(self.spaces(), d)
            },
    {
        let mut total: usize = 0;
        let mut a: usize = 0;
        while a < self.workspaces.len()
            invariant
                a <= self.spaces().len(),
                total == if tiled_count(self.spaces().take(a as int), d) >= usize::MAX {
                    usize::MAX as int
                } else {
                    tiled_count(self.spaces().take(a as int), d)
                },
            decreases self.spaces().len() - a,
        {
            proof {
                assert(self.spaces().take(a + 1).drop_last() =~= self.spaces().take(a as int));
                assert(self.spaces().take(a + 1).last() == self.spaces()[a as int]);
                lemma_tiled_count_nonneg(self.spaces().take(a as int), d);
            }
            if self.workspaces[a].desktop_id == d {
                let n = self.workspaces[a].managed_window_handles.len();
                total = if total > usize::MAX - n {
                    usize::MAX
                } else {
                    total + n
                };
            }
            a = a + 1;
        }
        assert(self.spaces().take(a as int) =~= self.spaces());
        total
    }

    /// Recomputes the geometry of the foreground window's workspace.
    pub fn refresh_workspace(&mut self) -> (r: Vec<Placement>)
        requires
            old(self).wf(),
        ensures
            final(self).wf(),
            old(self).refresh_workspace_done(*final(self), r@),
    {
        let h = match self.foreground_window {
            Some(h) => h,
            None => return Vec::new(),
        };
        match self.window_info.get(&h) {
            Some(i) => {
                let i = *i;
                self.update_workspace(i.desktop_id, i.monitor_handle)
            },
            None => Vec::new(),
        }
    }
}

proof fn lemma_tiled_count_nonneg(spaces: Seq<Workspace>, d: u128)
    ensures
        tiled_count(spaces, d) >= 0,
    decreases spaces.len(),
{
    if spaces.len() > 0 {
        lemma_tiled_count_nonneg(spaces.drop_last(), d);
    }
}

/// The desktop that the first entry for window `h` in `list` names, if any.
pub open spec fn desktop_in(list: Seq<(u64, u128)>, h: u64) -> Option<u128>
    decreases list.len(),
{
    if list.len() == 0 {
        None
    } else if list[0].0 == h {
        Some(list[0].1)
    } else {
        desktop_in(list.drop_first(), h)
    }
}

fn find_desktop(list: &Vec<(u64, u128)>, h: u64) -> (r: Option<u128>)
    ensures
        r == desktop_in(list@, h),
{
    let mut i: usize = 0;
    assert(list@.subrange(0, list@.len() as int) =~= list@);
    while i < list.len()
        invariant
            i <= list@.len(),
            desktop_in(list@, h) == desktop_in(list@.subrange(i as int, list@.len() as int), h),
        decreases list@.len() - i,
    {
        let ghost rest = list@.subrange(i as int, list@.len() as int);
        assert(rest.drop_first() =~= list@.subrange(i + 1, list@.len() as int));
        if list[i].0 == h {
            return Some(list[i].1);
        }
        i = i + 1;
    }
    None
}

impl WindowManager {
    /// The windows of desktop `from`: of each of its workspaces, the tiled ones
    /// in slot order, then all members.
    fn windows_of_desktop(&self, from: u128) -> (r: Vec<u64>)
        requires
            self.wf(),
        ensures
            forall|h: u64|
                #![trigger self.windows()[h]]
                self.windows().contains_key(h) && self.windows()[h].desktop_id == from ==> r@.contains(h),
    {
        let mut out: Vec<u64> = Vec::new();
        let mut a: usize = 0;
        while a < self.workspaces.len()
            invariant
                a <= self.spaces().len(),
                forall|b: int, i: int|
                    0 <= b < a && self.spaces()[b].desktop_id == from && 0 <= i
                        < self.spaces()[b].window_handles@.len() ==> out@.contains(
                        #[trigger] self.spaces()[b].window_handles@[i],
                    ),
            decreases self.spaces().len() - a,
        {
            if self.workspaces[a].desktop_id == from {
                let ghost before = out@;
                let managed = &self.workspaces[a].managed_window_handles;
                let mut i: usize = 0;
                while i < managed.len()
                    invariant
                        i <= managed@.len(),
                        forall|x: u64| before.contains(x) ==> out@.contains(x),
                    decreases managed@.len() - i,
                {
                    let ghost o = out@;
                    out.push(managed[i]);
                    proof {
                        assert forall|x: u64| before.contains(x) implies out@.contains(x) by {
                            let j = choose|j: int| 0 <= j < o.len() && o[j] == x;
                            assert(out@[j] == x);
                        }
                    }
                    i = i + 1;
                }
                let ghost mid = out@;
                let members = &self.workspaces[a].window_handles;
                let mut j: usize = 0;
                while j < members.len()
                    invariant
                        j <= members@.len(),
                        members@ == self.spaces()[a as int].window_handles@,
                        forall|x: u64| mid.contains(x) ==> out@.contains(x),
                        forall|q: int| 0 <= q < j ==> out@.contains(#[trigger] members@[q]),
                    decreases members@.len() - j,
                {
                    let ghost o = out@;
                    out.push(members[j]);
                    proof {
                        assert(out@[o.len() as int] == members@[j as int]);
                        assert forall|x: u64| mid.contains(x) implies out@.contains(x) by {
                            let p = choose|p: int| 0 <= p < o.len() && o[p] == x;
                            assert(out@[p] == x);
                        }
                        assert forall|q: int| 0 <= q < j + 1 implies out@.contains(#[trigger] members@[q]) by {
                            if q < j {
                                let p = choose|p: int| 0 <= p < o.len() && o[p] == members@[q];
                                assert(out@[p] == members@[q]);
                            }
                        }
                    }
                    j = j + 1;
                }
            }
            a = a + 1;
        }
        proof {
            assert forall|h: u64|
                #![trigger self.windows()[h]]
                self.windows().contains_key(h) && self.windows()[h].desktop_id == from implies out@.contains(h) by {
                let b = choose|b: int|
                    0 <= b < self.spaces().len() && ws_key(#[trigger] self.spaces()[b]) == info_key(self.windows()[h])
                        && self.spaces()[b].window_handles@.contains(h);
                let i = choose|i: int| 0 <= i < self.spaces()[b].window_handles@.len() && self.spaces()[b].window_handles@[i] == h;
            }
        }
        out
    }

    /// After a switch away from desktop `from`, `current` tells for some windows
    /// which desktop they are on now. Each known window of `from` whose first
    /// entry there names another desktop moves to that desktop's workspace on
    /// its monitor, tiled windows in their slot order at the end; the moves reset
    /// no batch. Then every workspace gets new geometry.
    pub fn migrate_desktop(&mut self, from: u128, current: &Vec<(u64, u128)>) -> (r: Vec<Placement>)
        requires
            old(self).wf(),
        ensures
            final(self).wf(),
            old(self).migrate_desktop_done(*final(self), from, current@, r@),
    {
        let ghost o = *self;
        let list = self.windows_of_desktop(from);
        let mut i: usize = 0;
        while i < list.len()
            invariant
                i <= list@.len(),
                self.wf(),
                self.windows().dom() == o.windows().dom(),
                self.monitors() == o.monitors(),
                forall|h: u64|
                    #![trigger o.windows()[h]]
                    o.windows().contains_key(h) && o.windows()[h].desktop_id == from ==> list@.contains(h),
                forall|h: u64|
                    #![trigger self.windows()[h]]
                    o.windows().contains_key(h) ==> info_key(self.windows()[h]) == if list@.take(i as int).contains(h)
                        && o.windows()[h].desktop_id == from && desktop_in(current@, h) is Some {
                        (desktop_in(current@, h)->0, o.windows()[h].monitor_handle)
                    } else {
                        info_key(o.windows()[h])
                    },
            decreases list@.len() - i,
        {
            let h = list[i];
            let ghost before = *self;
            proof {
                assert(list@.take(i + 1) =~= list@.take(i as int).push(h));
            }
            if let Some(info) = self.window_info.get(&h) {
                let info = *info;
                if info.desktop_id == from {
                    let found = find_desktop(current, h);
                    if found.is_some() && found.unwrap() != from {
                        let nd = found.unwrap();
                        proof {
                            let b = choose|b: int|
                                0 <= b < self.spaces().len() && ws_key(#[trigger] self.spaces()[b]) == info_key(self.windows()[h])
                                    && self.spaces()[b].window_handles@.contains(h);
                            assert(self.on_monitor(self.spaces()[b]));
                            let kk = choose|kk: int|
                                0 <= kk < self.monitors().len() && self.monitors()[kk] == self.spaces()[b].monitor_handle
                                    && self.spaces()[b].layout_idx < self.layout_lists()[kk].len();
                            assert(self.monitors().contains(info.monitor_handle)) by {
                                assert(self.monitors()[kk] == info.monitor_handle);
                            }
                        }
                        let k = self.monitor_index(info.monitor_handle).unwrap();
                        self.move_window(h, nd, k, usize::MAX);
                    }
                }
            }
            proof {
                assert forall|x: u64|
                    #![trigger self.windows()[x]]
                    o.windows().contains_key(x) implies info_key(self.windows()[x]) == if list@.take(i + 1).contains(x)
                        && o.windows()[x].desktop_id == from && desktop_in(current@, x) is Some {
                        (desktop_in(current@, x)->0, o.windows()[x].monitor_handle)
                    } else {
                        info_key(o.windows()[x])
                    } by {
                    assert(before.windows().contains_key(x));
                    if x != h {
                        let t = list@.take(i as int);
                        assert(t.push(h).contains(x) == t.contains(x)) by {
                            if t.push(h).contains(x) {
                                let p = choose|p: int| 0 <= p < t.len() + 1 && #[trigger] t.push(h)[p] == x;
                                assert(p < t.len());
                                assert(t[p] == x);
                            }
                            if t.contains(x) {
                                let p = choose|p: int| 0 <= p < t.len() && #[trigger] t[p] == x;
                                assert(t.push(h)[p] == x);
                            }
                        }
                    } else {
                        assert(list@.take(i + 1)[i as int] == h);
                        assert(list@.take(i + 1).contains(h));
                    }
                }
            }
            i = i + 1;
        }
        proof {
            assert(list@.take(list@.len() as int) =~= list@);
            assert forall|h: u64|
                #![trigger self.windows()[h]]
                o.windows().contains_key(h) implies info_key(self.windows()[h]) == match desktop_in(current@, h) {
                    Some(nd) => if o.windows()[h].desktop_id == from {
                        (nd, o.windows()[h].monitor_handle)
                    } else {
                        info_key(o.windows()[h])
                    },
                    None => info_key(o.windows()[h]),
                } by {
                if o.windows()[h].desktop_id == from {
                    assert(list@.contains(h));
                    assert(list@.take(i as int).contains(h));
                }
            }
        }
        self.update_all()
    }

    /// New geometry for every workspace, in their order.
    fn update_all(&mut self) -> (r: Vec<Placement>)
        requires
            old(self).wf(),
        ensures
            final(self).wf(),
            final(self).windows() == old(self).windows(),
            final(self).spaces() == old(self).spaces(),
    {
        let mut out: Vec<Placement> = Vec::new();
        let n = self.workspaces.len();
        let mut a: usize = 0;
        while a < n
            invariant
                self.wf(),
                self.windows() == old(self).windows(),
                self.spaces() == old(self).spaces(),
                n == self.spaces().len(),
            decreases n - a,
        {
            let d = self.workspaces[a].desktop_id;
            let m = self.workspaces[a].monitor_handle;
            let mut r = self.update_workspace(d, m);
            out.append(&mut r);
            a = a + 1;
        }
        out
    }
}

impl WindowManager {
    /// The window rectangles for `n` windows under layout `li` of monitor number
    /// `k` and variant path `path`.
    pub open spec fn rects_for(self, k: int, li: int, path: Seq<usize>, n: int) -> Seq<Zone> {
        let l = self.layout_lists()[k][li];
        Seq::new(
            n as nat,
            |i: int|
                inset(
                    l.tree().innermost(path).states()[n - 1][i],
                    l.monitor(),
                    self.config().window_padding as int,
                    self.config().edge_padding as int,
                    self.inset_border(),
                ),
        )
    }

    /// Whether `n` has the layouts of this state, but that the variant `path`
    /// leads to in layout `li` of monitor `k` may have gained states after its
    /// first `cnt`.
    pub open spec fn keeps_layouts(self, n: WindowManager, k: int, li: int, path: Seq<usize>, cnt: int) -> bool {
        let a = self.layout_lists()[k][li];
        let b = n.layout_lists()[k][li];
        &&& n.layout_lists().len() == self.layout_lists().len()
        &&& forall|k2: int| 0 <= k2 < self.layout_lists().len() ==> (#[trigger] n.layout_lists()[k2]).len() == self.layout_lists()[k2].len()
        &&& forall|k2: int, l2: int|
            0 <= k2 < self.layout_lists().len() && 0 <= l2 < self.layout_lists()[k2].len() && (k2 != k || l2 != li)
                ==> #[trigger] n.layout_lists()[k2][l2] == self.layout_lists()[k2][l2]
        &&& b.monitor() == a.monitor()
        &&& b.tree().innermost(path).states().len() >= cnt
        &&& forall|i: int| 0 <= i < cnt ==> #[trigger] b.tree().innermost(path).states()[i] == a.tree().innermost(path).states()[i]
    }

    /// Rectangles for at most `cnt` windows stay what they were while only
    /// later states are added.
    pub proof fn lemma_rects_kept(a: WindowManager, b: WindowManager, k: int, li: int, path: Seq<usize>, cnt: int, n: int)
        requires
            a.keeps_layouts(b, k, li, path, cnt),
            1 <= n <= cnt,
            a.config() == b.config(),
            a.inset_border() == b.inset_border(),
        ensures
            b.rects_for(k, li, path, n) == a.rects_for(k, li, path, n),
    {
        assert(b.rects_for(k, li, path, n) =~= a.rects_for(k, li, path, n));
    }
}

impl WindowManager {
    /// The tiled windows of workspace `(d, m)` in slot order; none where it is absent.
    pub open spec fn order_of(self, d: u128, m: u64) -> Seq<u64> {
        match self.space_of(d, m) {
            Some(a) => self.spaces()[a].managed_window_handles@,
            None => Seq::empty(),
        }
    }

    /// The workspace at position `a` is the one its key names.
    pub proof fn lemma_space_at(self, a: int)
        requires
            self.spaces_ok(),
            0 <= a < self.spaces().len(),
        ensures
            self.space_of(self.spaces()[a].desktop_id, self.spaces()[a].monitor_handle) == Some(a),
            self.order_of(self.spaces()[a].desktop_id, self.spaces()[a].monitor_handle)
                == self.spaces()[a].managed_window_handles@,
    {
        let k = ws_key(self.spaces()[a]);
        let c = choose|c: int| 0 <= c < self.spaces().len() && ws_key(self.spaces()[c]) == k;
        assert(c == a);
    }

    /// Two states whose workspaces have the same keys in the same places, and
    /// the same orders but at position `a`, have the same orders but for the
    /// key of `a`.
    pub proof fn lemma_orders_frame(o: WindowManager, n: WindowManager, a: int)
        requires
            o.spaces_ok(),
            n.spaces_ok(),
            0 <= a < o.spaces().len(),
            n.spaces().len() == o.spaces().len(),
            forall|b: int| 0 <= b < o.spaces().len() ==> ws_key(#[trigger] n.spaces()[b]) == ws_key(o.spaces()[b]),
            forall|b: int|
                0 <= b < o.spaces().len() && b != a ==> (#[trigger] n.spaces()[b]).managed_window_handles@
                    == o.spaces()[b].managed_window_handles@,
        ensures
            forall|d: u128, m: u64|
                #![trigger n.order_of(d, m)]
                (d, m) != ws_key(o.spaces()[a]) ==> n.order_of(d, m) == o.order_of(d, m),
            n.order_of(o.spaces()[a].desktop_id, o.spaces()[a].monitor_handle)
                == n.spaces()[a].managed_window_handles@,
    {
        assert(ws_key(n.spaces()[a]) == ws_key(o.spaces()[a]));
        n.lemma_space_at(a);
        assert forall|d: u128, m: u64|
            #![trigger n.order_of(d, m)]
            (d, m) != ws_key(o.spaces()[a]) implies n.order_of(d, m) == o.order_of(d, m) by {
            if exists|b: int| 0 <= b < o.spaces().len() && ws_key(o.spaces()[b]) == (d, m) {
                let b = choose|b: int| 0 <= b < o.spaces().len() && ws_key(o.spaces()[b]) == (d, m);
                o.lemma_space_at(b);
                assert(ws_key(n.spaces()[b]) == (d, m));
                n.lemma_space_at(b);
            } else {
                assert forall|b: int| 0 <= b < n.spaces().len() implies ws_key(n.spaces()[b]) != (d, m) by {
                    assert(ws_key(n.spaces()[b]) == ws_key(o.spaces()[b]));
                }
            }
        }
    }

    /// States with the same workspaces have the same orders.
    pub proof fn lemma_orders_eq(o: WindowManager, n: WindowManager)
        requires
            o.spaces_ok(),
            n.spaces() == o.spaces(),
        ensures
            forall|d: u128, m: u64| #![trigger n.order_of(d, m)] n.order_of(d, m) == o.order_of(d, m),
    {
        WindowManager::lemma_orders_same(o, n);
    }

    /// States whose workspaces all have the same keys and orders have the same orders.
    pub proof fn lemma_orders_same(o: WindowManager, n: WindowManager)
        requires
            o.spaces_ok(),
            n.spaces_ok(),
            n.spaces().len() == o.spaces().len(),
            forall|b: int| 0 <= b < o.spaces().len() ==> ws_key(#[trigger] n.spaces()[b]) == ws_key(o.spaces()[b]),
            forall|b: int|
                0 <= b < o.spaces().len() ==> (#[trigger] n.spaces()[b]).managed_window_handles@
                    == o.spaces()[b].managed_window_handles@,
        ensures
            forall|d: u128, m: u64| #![trigger n.order_of(d, m)] n.order_of(d, m) == o.order_of(d, m),
    {
        assert forall|d: u128, m: u64| #![trigger n.order_of(d, m)] n.order_of(d, m) == o.order_of(d, m) by {
            if exists|b: int| 0 <= b < o.spaces().len() && ws_key(o.spaces()[b]) == (d, m) {
                let b = choose|b: int| 0 <= b < o.spaces().len() && ws_key(o.spaces()[b]) == (d, m);
                o.lemma_space_at(b);
                assert(ws_key(n.spaces()[b]) == (d, m));
                n.lemma_space_at(b);
            } else {
                assert forall|b: int| 0 <= b < n.spaces().len() implies ws_key(n.spaces()[b]) != (d, m) by {
                    assert(ws_key(n.spaces()[b]) == ws_key(o.spaces()[b]));
                }
            }
        }
    }
}

impl WindowManager {
    /// What `manage_new_window` does: `n` and `r` are the state and result it leaves.
    pub open spec fn manage_new_window_done(self, n: WindowManager, d: u128, m: u64, hwnd: u64, rule: Option<Rule>, r: Seq<Placement>) -> bool {
        &&& ((!self.monitors().contains(m) || self.windows().contains_key(hwnd))
                ==> n == self && r.len() == 0)
        &&& (self.monitors().contains(m) && !self.windows().contains_key(hwnd) ==> {
                &&& n.windows().dom() == self.windows().dom().insert(hwnd)
                &&& info_key(n.windows()[hwnd]) == (d, m)
                &&& n.space_of(d, m) is Some
                &&& (self.foreground() is None ==> n.foreground() == Some(hwnd))
                &&& (self.foreground() is Some ==> n.foreground() == self.foreground())
                &&& (rule matches Some(Rule::LayoutIdx(u)) ==> (u < self.layouts_on(m).len()
                    ==> n.spaces()[n.space_of(d, m)->0].layout_idx == u))
            })
        &&& (self.monitors().contains(m) && !self.windows().contains_key(hwnd) && (
            rule matches Some(Rule::StartFloating(_))) ==> {
                &&& !n.windows()[hwnd].restored
                &&& n.ignored().contains(hwnd)
                &&& forall|d2: u128, m2: u64|
                    #![trigger n.order_of(d2, m2)]
                    n.order_of(d2, m2) == self.order_of(d2, m2)
                &&& r == n.start_floating_placement(
                    hwnd,
                    n.space_of(d, m)->0,
                    rule->0->StartFloating_0,
                )
            })
        &&& (self.monitors().contains(m) && !self.windows().contains_key(hwnd) && !(
            rule matches Some(Rule::StartFloating(_))) && self.order_of(d, m).len() < MAX_TILED ==> {
                &&& n.windows()[hwnd].restored
                &&& n.windows()[hwnd].idx == self.order_of(d, m).len()
                &&& forall|d2: u128, m2: u64|
                    #![trigger n.order_of(d2, m2)]
                    n.order_of(d2, m2) == if (d2, m2) == (d, m) {
                        self.order_of(d, m).push(hwnd)
                    } else {
                        self.order_of(d2, m2)
                    }
                &&& n.update_result(d, m, r)
            })
    }

    /// What `manage_window` does: `n` and `r` are the state and result it leaves.
    pub open spec fn manage_window_done(self, n: WindowManager, hwnd: u64, r: Seq<Placement>) -> bool {
        &&& (n.ignored() == self.ignored())
        &&& (n.foreground() == self.foreground())
        &&& (n.grabbed() == self.grabbed())
        &&& (forall|x: u64|
                #![trigger n.windows()[x]]
                self.windows().contains_key(x) && x != hwnd ==> info_key(n.windows()[x])
                    == info_key(self.windows()[x]) && n.windows()[x].restored == self.windows()[x].restored)
        &&& (n.windows().dom() == self.windows().dom())
        &&& (({
                let o = self;
                let i = o.windows()[hwnd];
                if o.windows().contains_key(hwnd) && !i.restored && !o.ignored().contains(hwnd)
                    && o.space_of(i.desktop_id, i.monitor_handle) is Some
                    && o.spaces()[o.space_of(i.desktop_id, i.monitor_handle)->0].managed_window_handles@.len()
                    < MAX_TILED {
                    let a = o.space_of(i.desktop_id, i.monitor_handle)->0;
                    let len = o.spaces()[a].managed_window_handles@.len();
                    let slot = if i.idx <= len {
                        i.idx as int
                    } else {
                        len as int
                    };
                    &&& n.windows()[hwnd] == (WindowInfo {
                        restored: true,
                        idx: slot as usize,
                        ..i
                    })
                    &&& n.update_result(i.desktop_id, i.monitor_handle, r)
                    &&& forall|d2: u128, m2: u64|
                        #![trigger n.order_of(d2, m2)]
                        n.order_of(d2, m2) == if (d2, m2) == info_key(i) {
                            o.order_of(d2, m2).insert(slot, hwnd)
                        } else {
                            o.order_of(d2, m2)
                        }
                } else {
                    r.len() == 0 && n == self
                }
            }))
    }

    /// What `window_destroyed` does: `n` and `r` are the state and result it leaves.
    pub open spec fn window_destroyed_done(self, n: WindowManager, hwnd: u64, r: Seq<Placement>) -> bool {
        &&& (n.windows().dom() == self.windows().dom().remove(hwnd))
        &&& (forall|x: u64|
                #![trigger n.windows()[x]]
                n.windows().contains_key(x) ==> info_key(n.windows()[x]) == info_key(
                    self.windows()[x],
                ) && n.windows()[x].restored == self.windows()[x].restored)
        &&& (n.foreground() != Some(hwnd))
        &&& (n.previous_foreground() != Some(hwnd))
        &&& (n.grabbed() != Some(hwnd))
        &&& (!n.ignored().contains(hwnd))
        &&& (self.windows().contains_key(hwnd) && self.windows()[hwnd].restored
                ==> n.update_result(
                self.windows()[hwnd].desktop_id,
                self.windows()[hwnd].monitor_handle,
                r,
            ))
        &&& (!(self.windows().contains_key(hwnd) && self.windows()[hwnd].restored) ==> r.len()
                == 0)
        &&& (forall|d2: u128, m2: u64|
                #![trigger n.order_of(d2, m2)]
                n.order_of(d2, m2) == if self.windows().contains_key(hwnd)
                    && self.windows()[hwnd].restored && (d2, m2) == info_key(self.windows()[hwnd]) {
                    self.order_of(d2, m2).remove(self.windows()[hwnd].idx as int)
                } else {
                    self.order_of(d2, m2)
                })
    }

    /// What `stop_managing_window` does: `n` and `r` are the state and result it leaves.
    pub open spec fn stop_managing_window_done(self, n: WindowManager, hwnd: u64, r: Seq<Placement>) -> bool {
        &&& (n.windows().dom() == self.windows().dom())
        &&& (self.windows().contains_key(hwnd) && self.windows()[hwnd].restored ==> {
                &&& n.windows()[hwnd] == (WindowInfo {
                    restored: false,
                    ..self.windows()[hwnd]
                })
                &&& n.foreground() != Some(hwnd)
                &&& n.previous_foreground() != Some(hwnd)
                &&& n.grabbed() != Some(hwnd)
                &&& forall|d2: u128, m2: u64|
                    #![trigger n.order_of(d2, m2)]
                    n.order_of(d2, m2) == if (d2, m2) == info_key(self.windows()[hwnd]) {
                        self.order_of(d2, m2).remove(self.windows()[hwnd].idx as int)
                    } else {
                        self.order_of(d2, m2)
                    }
                &&& n.update_result(
                    self.windows()[hwnd].desktop_id,
                    self.windows()[hwnd].monitor_handle,
                    r,
                )
            })
        &&& (!(self.windows().contains_key(hwnd) && self.windows()[hwnd].restored) ==> r.len()
                == 0 && n.windows() == self.windows())
    }

    /// What `window_cloaked` does: `n` and `r` are the state and result it leaves.
    pub open spec fn window_cloaked_done(self, n: WindowManager, hwnd: u64, d: u128, r: Seq<Placement>) -> bool {
        &&& (n.windows().dom() == self.windows().dom())
        &&& (self.windows().contains_key(hwnd) && self.windows()[hwnd].desktop_id != d ==> {
                &&& info_key(n.windows()[hwnd]) == (d, self.windows()[hwnd].monitor_handle)
                &&& n.windows()[hwnd].restored == (self.windows()[hwnd].restored
                    && self.order_of(d, self.windows()[hwnd].monitor_handle).len() < MAX_TILED)
                &&& n.uncloaks() == (0usize, 0usize)
                &&& forall|d2: u128, m2: u64|
                    #![trigger n.order_of(d2, m2)]
                    n.order_of(d2, m2) == if (d2, m2) == info_key(self.windows()[hwnd]) {
                        if self.windows()[hwnd].restored {
                            self.order_of(d2, m2).remove(self.windows()[hwnd].idx as int)
                        } else {
                            self.order_of(d2, m2)
                        }
                    } else if (d2, m2) == (d, self.windows()[hwnd].monitor_handle) && n.windows()[hwnd].restored {
                        self.order_of(d2, m2).push(hwnd)
                    } else {
                        self.order_of(d2, m2)
                    }
                &&& exists|r1: Seq<Placement>, r2: Seq<Placement>|
                    r == r1 + r2 && n.names_order(
                        self.windows()[hwnd].desktop_id,
                        self.windows()[hwnd].monitor_handle,
                        r1,
                    ) && n.update_result(d, self.windows()[hwnd].monitor_handle, r2)
            })
        &&& (!(self.windows().contains_key(hwnd) && self.windows()[hwnd].desktop_id != d)
                ==> n == self && r.len() == 0)
    }

    /// What `window_move_finished` does: `n` and `r` are the state and result it leaves.
    pub open spec fn window_move_finished_done(self, n: WindowManager, hwnd: u64, m: u64, rect: Zone, r: Seq<Placement>) -> bool {
        &&& (n.windows().dom() == self.windows().dom())
        &&& (self.can_drop(hwnd, m) && m == self.windows()[hwnd].monitor_handle ==> self.dropped_same(n, hwnd, rect, r))
        &&& (self.can_drop(hwnd, m) && m != self.windows()[hwnd].monitor_handle && self.order_of(self.windows()[hwnd].desktop_id, m).len() < MAX_TILED ==> self.dropped_across(n, hwnd, m, rect, r))
        &&& (!self.can_drop(hwnd, m) ==> n == self && r.len() == 0)
    }

    /// What `foreground_window_changed` does: `n` and `r` are the state and result it leaves.
    pub open spec fn foreground_window_changed_done(self, n: WindowManager, hwnd: u64, r: FocusUpdate) -> bool {
        &&& (n.windows() == self.windows())
        &&& (n.spaces() == self.spaces())
        &&& (n.previous_foreground() == self.foreground())
        &&& (r.unfocused == match self.foreground() {
                Some(p) => if p != hwnd && self.windows().contains_key(p) {
                    Some(p)
                } else {
                    None::<u64>
                },
                None => None,
            })
        &&& (!self.windows().contains_key(hwnd) ==> n.foreground() is None && r.focused
                is None && r.minimize@.len() == 0)
        &&& (self.windows().contains_key(hwnd) ==> {
                &&& n.foreground() == Some(hwnd)
                &&& r.focused == Some(hwnd)
                &&& {
                    let i = self.windows()[hwnd];
                    if i.restored && !self.ignored_combos().contains(info_key(i)) {
                        let a = self.space_of(i.desktop_id, i.monitor_handle)->0;
                        r.minimize@ == self.spaces()[a].window_handles@.filter(|x: u64| self.covers(hwnd, x))
                    } else {
                        r.minimize@.len() == 0
                    }
                }
            })
    }

    /// What `cycle_swap` does: `n` and `r` are the state and result it leaves.
    pub open spec fn cycle_swap_done(self, n: WindowManager, direction: CycleDirection, r: Seq<Placement>) -> bool {
        &&& (n.windows().dom() == self.windows().dom())
        &&& (match self.tiled_foreground() {
                Some((h, a)) => {
                    let o = self.spaces()[a].managed_window_handles@;
                    let i = self.windows()[h].idx as int;
                    let j = neighbour(i, o.len() as int, direction);
                    if o.len() > 1 && !self.ignored_combos().contains(ws_key(self.spaces()[a])) {
                        &&& n.spaces()[a].managed_window_handles@ == o.update(i, o[j]).update(j, o[i])
                        &&& forall|d2: u128, m2: u64|
                            #![trigger n.order_of(d2, m2)]
                            n.order_of(d2, m2) == if (d2, m2) == ws_key(self.spaces()[a]) {
                                o.update(i, o[j]).update(j, o[i])
                            } else {
                                self.order_of(d2, m2)
                            }
                        &&& n.spaces().len() == self.spaces().len()
                        &&& forall|b: int| 0 <= b < self.spaces().len() && b != a ==> n.spaces()[b] == self.spaces()[b]
                        &&& n.spaces()[a].window_handles@ == self.spaces()[a].window_handles@
                        &&& n.spaces()[a].layout_idx == self.spaces()[a].layout_idx
                        &&& n.spaces()[a].variant_idx@ == self.spaces()[a].variant_idx@
                        &&& n.windows()[h].idx == j
                        &&& n.windows()[o[j]].idx == i
                        &&& forall|x: u64|
                            #![trigger n.windows()[x]]
                            self.windows().contains_key(x) && x != h && x != o[j]
                                ==> n.windows()[x] == self.windows()[x]
                        &&& n.update_result(
                            self.spaces()[a].desktop_id,
                            self.spaces()[a].monitor_handle,
                            r,
                        )
                    } else {
                        n == self && r.len() == 0
                    }
                },
                None => n == self && r.len() == 0,
            })
    }

    /// What `cycle_variant` does: `n` and `r` are the state and result it leaves.
    pub open spec fn cycle_variant_done(self, n: WindowManager, direction: CycleDirection, depth: usize, r: Seq<Placement>) -> bool {
        &&& (n.windows() == self.windows())
        &&& (n.spaces().len() == self.spaces().len())
        &&& (match self.tiled_foreground() {
                Some((h, a)) => {
                    let ws = self.spaces()[a];
                    let p = pad_path(ws.variant_idx@, (depth + 1) as nat);
                    if self.ignored_combos().contains(ws_key(ws)) {
                        n.spaces() == self.spaces() && r.len() == 0
                    } else {
                        match self.shown_layout(a).tree().at(p.take(depth as int)) {
                            Located::Container(c) => {
                                &&& n.spaces()[a].variant_idx@ == cycled_path(
                                    p,
                                    depth as int,
                                    c.spec_len() as int,
                                    direction,
                                )
                                &&& n.spaces()[a].layout_idx == ws.layout_idx
                                &&& (c.spec_len() > 1 ==> n.update_result(
                                    ws.desktop_id,
                                    ws.monitor_handle,
                                    r,
                                ))
                                &&& (c.spec_len() == 1 ==> r.len() == 0)
                            },
                            Located::Variant(_) => n.spaces()[a].variant_idx@ == p && r.len()
                                == 0,
                        }
                    }
                },
                None => n.spaces() == self.spaces() && r.len() == 0,
            })
    }

    /// What `cycle_layout` does: `n` and `r` are the state and result it leaves.
    pub open spec fn cycle_layout_done(self, n: WindowManager, direction: CycleDirection, r: Seq<Placement>) -> bool {
        &&& (n.windows() == self.windows())
        &&& (n.spaces().len() == self.spaces().len())
        &&& (match self.tiled_foreground() {
                Some((h, a)) => {
                    let ws = self.spaces()[a];
                    let layouts = self.layout_lists()[self.monitor_no(a)];
                    if self.ignored_combos().contains(ws_key(ws)) || layouts.len() == 1 {
                        n.spaces() == self.spaces() && r.len() == 0
                    } else {
                        let li = neighbour(ws.layout_idx as int, layouts.len() as int, direction);
                        &&& n.spaces()[a].layout_idx == li
                        &&& n.spaces()[a].variant_idx@ == layouts[li].default_path()
                        &&& n.update_result(ws.desktop_id, ws.monitor_handle, r)
                    }
                },
                None => n.spaces() == self.spaces() && r.len() == 0,
            })
    }

    /// What `cycle_assigned_monitor` does: `n` and `r` are the state and result it leaves.
    pub open spec fn cycle_assigned_monitor_done(self, n: WindowManager, direction: CycleDirection, r: Seq<Placement>) -> bool {
        &&& n.windows().dom() == self.windows().dom()
        &&& if self.tiled_foreground() is Some {
            self.assigned_to_next(n, (self.tiled_foreground()->0).0, (self.tiled_foreground()->0).1, direction, r)
        } else {
            n == self && r.len() == 0
        }
    }

    /// Whether `n` and `r` are what moving tiled window `h` of workspace `a` to
    /// the next free monitor in direction `direction` leaves.
    pub open spec fn assigned_to_next(self, n: WindowManager, h: u64, a: int, direction: CycleDirection, r: Seq<Placement>) -> bool {
        let ws = self.spaces()[a];
        let cnt = self.monitors().len() as int;
        let k = self.monitor_no(a);
        if exists|t: int| 1 <= t < cnt && #[trigger] self.free_at(ws.desktop_id, k, direction, t) {
            exists|t: int|
                1 <= t < cnt && #[trigger] self.free_at(ws.desktop_id, k, direction, t) && (forall|u: int|
                    1 <= u < t ==> !#[trigger] self.free_at(ws.desktop_id, k, direction, u))
                    && self.moved_to(n, h, ws, self.monitors()[steps(k, cnt, direction, t as nat)], r)
        } else {
            n == self && r.len() == 0
        }
    }

    /// What `grab_window` does: `n` and `r` are the state and result it leaves.
    pub open spec fn grab_window_done(self, n: WindowManager) -> bool {
        &&& (n.windows() == self.windows())
        &&& (n.spaces() == self.spaces())
        &&& (n.grabbed() == match self.foreground() {
                Some(h) => if self.windows().contains_key(h) && self.windows()[h].restored {
                    Some(h)
                } else {
                    None
                },
                None => None,
            })
    }

    /// What `release_window` does: `n` and `r` are the state and result it leaves.
    pub open spec fn release_window_done(self, n: WindowManager, r: (Option<u64>, Seq<Placement>)) -> bool {
        &&& (n.windows().dom() == self.windows().dom())
        &&& (match (self.grabbed(), self.foreground()) {
                (Some(g), Some(f)) => if self.can_release(g, f) {
                    r.0 == Some(g) && self.released(n, g, f, r.1)
                } else {
                    r.0 is None && r.1.len() == 0 && (n.grabbed() is None || n == self)
                },
                _ => r.0 is None && n == self,
            })
    }

    /// What `toggle_window` does: `n` and `r` are the state and result it leaves.
    pub open spec fn toggle_window_done(self, n: WindowManager, floating_position: Option<Zone>, r: Seq<Placement>) -> bool {
        &&& (n.windows().dom() == self.windows().dom())
        &&& (match self.foreground() {
                Some(h) => if !self.windows().contains_key(h) {
                    n == self && r.len() == 0
                } else if self.ignored().contains(h) {
                    let i = self.windows()[h];
                    let key = info_key(i);
                    let t = self.order_of(key.0, key.1);
                    let slot = if i.idx <= t.len() {
                        i.idx as int
                    } else {
                        t.len() as int
                    };
                    &&& !n.ignored().contains(h)
                    &&& (!i.restored && self.space_of(key.0, key.1) is Some && t.len() < MAX_TILED) ==> {
                        &&& n.windows()[h].restored
                        &&& n.windows()[h].idx == slot
                        &&& forall|d2: u128, m2: u64|
                            #![trigger n.order_of(d2, m2)]
                            n.order_of(d2, m2) == if (d2, m2) == key {
                                t.insert(slot, h)
                            } else {
                                self.order_of(d2, m2)
                            }
                        &&& n.update_result(key.0, key.1, r)
                    }
                } else if self.windows()[h].restored {
                    self.floated(
                        n,
                        h,
                        match floating_position {
                            Some(z) => z,
                            None => centered(
                                self.shown_layout(
                                    self.space_of(
                                        self.windows()[h].desktop_id,
                                        self.windows()[h].monitor_handle,
                                    )->0,
                                ).monitor(),
                                cap_permille(self.config().floating_window_default_w_permille),
                                cap_permille(self.config().floating_window_default_h_permille),
                            ),
                        },
                        r,
                    )
                } else {
                    n == self && r.len() == 0
                },
                None => n == self && r.len() == 0,
            })
    }

    /// What `toggle_workspace` does: `n` and `r` are the state and result it leaves.
    pub open spec fn toggle_workspace_done(self, n: WindowManager, r: (Option<bool>, Seq<Placement>)) -> bool {
        &&& (n.windows() == self.windows())
        &&& (n.spaces() == self.spaces())
        &&& (match self.foreground() {
                Some(h) => if self.windows().contains_key(h) {
                    let key = info_key(self.windows()[h]);
                    if self.ignored_combos().contains(key) {
                        &&& !n.ignored_combos().contains(key)
                        &&& r.0 == Some(false)
                        &&& n.update_result(key.0, key.1, r.1)
                    } else {
                        &&& n.ignored_combos().contains(key)
                        &&& r.0 == Some(true)
                        &&& r.1.len() == 0
                    }
                } else {
                    n == self && r.0 is None
                },
                None => n == self && r.0 is None,
            })
    }

    /// What `refresh_workspace` does: `n` and `r` are the state and result it leaves.
    pub open spec fn refresh_workspace_done(self, n: WindowManager, r: Seq<Placement>) -> bool {
        &&& (n.windows() == self.windows())
        &&& (n.spaces() == self.spaces())
        &&& (match self.foreground() {
                Some(h) => if self.windows().contains_key(h) {
                    n.update_result(
                        self.windows()[h].desktop_id,
                        self.windows()[h].monitor_handle,
                        r,
                    )
                } else {
                    r.len() == 0
                },
                None => r.len() == 0,
            })
    }

    /// What `restart_himewm` does: `n` and `r` are the state and result it leaves.
    pub open spec fn restart_himewm_done(self, n: WindowManager) -> bool {
        &&& (n.restart_flag())
        &&& (n.windows() == self.windows())
        &&& (n.spaces() == self.spaces())
    }

    /// What `window_uncloaked` does: `n` and `r` are the state and result it leaves.
    pub open spec fn window_uncloaked_done(self, n: WindowManager, tiled_on_desktop: usize, r: bool) -> bool {
        &&& (n.windows() == self.windows())
        &&& (n.spaces() == self.spaces())
        &&& (r == (self.uncloaks().0 == 0))
        &&& (n.foreground() == self.foreground())
        &&& (n.previous_foreground() == self.previous_foreground())
        &&& (n.grabbed() == self.grabbed())
        &&& (n.ignored() == self.ignored())
        &&& (n.ignored_combos() == self.ignored_combos())
        &&& (n.restart_flag() == self.restart_flag())
        &&& (n.layout_lists() == self.layout_lists())
        &&& (({
                let count = self.uncloaks().0;
                let max = self.uncloaks().1;
                let c2: int = if count == 0 {
                    1
                } else if count < usize::MAX {
                    count + 1
                } else {
                    count as int
                };
                let m2: int = if count == 0 {
                    tiled_on_desktop as int
                } else {
                    max as int
                };
                if c2 >= m2 {
                    n.uncloaks() == (0usize, 0usize)
                } else {
                    n.uncloaks() == (c2 as usize, m2 as usize)
                }
            }))
    }

    /// What `migrate_desktop` does: `n` and `r` are the state and result it leaves.
    pub open spec fn migrate_desktop_done(self, n: WindowManager, from: u128, current: Seq<(u64, u128)>, r: Seq<Placement>) -> bool {
        &&& (n.windows().dom() == self.windows().dom())
        &&& (forall|h: u64|
                #![trigger n.windows()[h]]
                self.windows().contains_key(h) ==> info_key(n.windows()[h]) == match desktop_in(
                    current,
                    h,
                ) {
                    Some(nd) => if self.windows()[h].desktop_id == from {
                        (nd, self.windows()[h].monitor_handle)
                    } else {
                        info_key(self.windows()[h])
                    },
                    None => info_key(self.windows()[h]),
                })
    }

}

impl WindowManager {
    /// The desktop refused to move window `hwnd` (access denied): it leaves its
    /// slot, is ignored from then on, and its workspace gets new geometry.
    #[verifier::spinoff_prover]
    pub fn window_access_denied(&mut self, hwnd: u64) -> (r: Vec<Placement>)
        requires
            old(self).wf(),
        ensures
            final(self).wf(),
            final(self).windows().dom() == old(self).windows().dom(),
            old(self).windows().contains_key(hwnd) && old(self).windows()[hwnd].restored ==> {
                let i = old(self).windows()[hwnd];
                &&& !final(self).windows()[hwnd].restored
                &&& final(self).ignored().contains(hwnd)
                &&& forall|d2: u128, m2: u64|
                    #![trigger final(self).order_of(d2, m2)]
                    final(self).order_of(d2, m2) == if (d2, m2) == info_key(i) {
                        old(self).order_of(d2, m2).remove(i.idx as int)
                    } else {
                        old(self).order_of(d2, m2)
                    }
                &&& final(self).update_result(i.desktop_id, i.monitor_handle, r@)
            },
            !(old(self).windows().contains_key(hwnd) && old(self).windows()[hwnd].restored)
                ==> *final(self) == *old(self) && r@.len() == 0,
    {
        let info = match self.window_info.get(&hwnd) {
            Some(i) => *i,
            None => return Vec::new(),
        };
        if !info.restored {
            return Vec::new();
        }
        self.detach(hwnd);
        let ghost o2 = *self;
        self.ignored_windows.push(hwnd);
        proof {
            assert(self.ignored()[self.ignored().len() - 1] == hwnd);
            WindowManager::lemma_wf_frame(o2, *self);
        }
        self.update_workspace(info.desktop_id, info.monitor_handle)
    }
}

/// After any event, every workspace that the manager keeps has a member: a
/// workspace left without members is no longer among them.
pub proof fn lemma_workspace_liveness(wm: WindowManager)
    requires
        wm.wf(),
    ensures
        forall|a: int| 0 <= a < wm.spaces().len() ==> (#[trigger] wm.spaces()[a]).window_handles@.len() > 0,
{
}

/// At rest, every tiled window is found in its workspace's order at the slot
/// its entry names.
pub proof fn lemma_index_order_coherence(wm: WindowManager, h: u64)
    requires
        wm.wf(),
        wm.windows().contains_key(h),
        wm.windows()[h].restored,
    ensures
        wm.space_of(wm.windows()[h].desktop_id, wm.windows()[h].monitor_handle) matches Some(a) && {
            let order = wm.spaces()[a].managed_window_handles@;
            wm.windows()[h].idx < order.len() && order[wm.windows()[h].idx as int] == h
        },
{
    let b = choose|b: int|
        0 <= b < wm.spaces().len() && ws_key(#[trigger] wm.spaces()[b]) == info_key(wm.windows()[h])
            && wm.windows()[h].idx < wm.spaces()[b].managed_window_handles@.len()
            && wm.spaces()[b].managed_window_handles@[wm.windows()[h].idx as int] == h;
    let a = choose|a: int|
        0 <= a < wm.spaces().len() && ws_key(wm.spaces()[a]) == (
            wm.windows()[h].desktop_id,
            wm.windows()[h].monitor_handle,
        );
    assert(a == b);
}

} // verus!
