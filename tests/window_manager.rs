use himewm::layout::Layout;
use himewm::variant::{EndBehaviour, EndBehaviourType, Variant};
use himewm::variants_container::VariantsContainer;
use himewm::window_rules::{Rule, SetPosition, WindowRules};
use himewm::wm::{is_manageable, is_restored, CycleDirection, Placement, Settings, WindowManager, WindowState};
use himewm::zone::{Direction, InvisibleBorder, Zone};

const D1: u128 = 0x1111;
const D2: u128 = 0x2222;
const M1: u64 = 10;
const M2: u64 = 20;

fn settings() -> Settings {
    Settings {
        default_layout_idx: 0,
        window_padding: 0,
        edge_padding: 0,
        disable_rounding: false,
        disable_unfocused_border: false,
        focused_border_colour: 0x0000ff,
        unfocused_border_colour: 0x888888,
        floating_window_default_w_permille: 500,
        floating_window_default_h_permille: 500,
        new_window_retries: 3,
    }
}

fn stack_variant() -> Variant {
    Variant::new(
        vec![
            vec![Zone::new(0, 0, 1920, 1200)],
            vec![Zone::new(0, 0, 960, 1200), Zone::new(960, 0, 960, 1200)],
            vec![Zone::new(0, 0, 960, 1200), Zone::new(960, 0, 960, 600), Zone::new(960, 600, 960, 600)],
        ],
        EndBehaviour {
            from: None,
            position_idx: 2,
            behaviour: EndBehaviourType::Directional { direction: Direction::Down },
        },
    )
}

fn stack_layout() -> Layout {
    Layout::from_parts(Zone::new(0, 0, 1920, 1200), VariantsContainer::Variants(vec![stack_variant()]), vec![0])
}

fn one_monitor() -> WindowManager {
    WindowManager::new(settings(), WindowRules::new(), vec![M1], vec![vec![stack_layout()]], InvisibleBorder::none())
}

fn two_monitors() -> WindowManager {
    let second = stack_layout().adapt_to_monitor(&Zone::new(1920, 0, 1280, 720)).unwrap();
    WindowManager::new(
        settings(),
        WindowRules::new(),
        vec![M1, M2],
        vec![vec![stack_layout()], vec![second]],
        InvisibleBorder::none(),
    )
}

fn place(hwnd: u64, x: i32, y: i32, w: i32, h: i32) -> Placement {
    Placement { hwnd, rect: Zone::new(x, y, w, h) }
}

#[test]
fn three_windows_fill_a_vertical_stack() {
    let mut wm = one_monitor();
    wm.manage_new_window(D1, M1, 1, None);
    wm.manage_new_window(D1, M1, 2, None);
    let r = wm.manage_new_window(D1, M1, 3, None);
    assert_eq!(r, vec![place(1, 0, 0, 960, 1200), place(2, 960, 0, 960, 600), place(3, 960, 600, 960, 600)]);
    assert_eq!(wm.foreground_window(), Some(1));
    let r = wm.cycle_swap(CycleDirection::Next);
    assert_eq!(wm.tiled_order(D1, M1), vec![2, 1, 3]);
    assert_eq!(r[0], place(2, 0, 0, 960, 1200));
    assert_eq!(r[1], place(1, 960, 0, 960, 600));
}

#[test]
fn slots_named_by_entries_match_the_order() {
    let mut wm = one_monitor();
    for h in 1..=4 {
        wm.manage_new_window(D1, M1, h, None);
    }
    wm.stop_managing_window(2);
    wm.window_destroyed(3);
    let order = wm.tiled_order(D1, M1);
    assert_eq!(order, vec![1, 4]);
    for (i, h) in order.iter().enumerate() {
        assert_eq!(wm.window_info(*h).unwrap().idx, i);
    }
    wm.manage_window(2);
    assert_eq!(wm.tiled_order(D1, M1), vec![1, 2, 4]);
}

#[test]
fn destroying_the_last_window_drops_the_workspace() {
    let mut wm = one_monitor();
    wm.manage_new_window(D1, M1, 1, None);
    assert!(wm.workspace_layout(D1, M1).is_some());
    let r = wm.window_destroyed(1);
    assert!(r.is_empty());
    assert!(wm.workspace_layout(D1, M1).is_none());
    assert!(wm.window_info(1).is_none());
    assert_eq!(wm.foreground_window(), None);
}

#[test]
fn cycling_focus_through_every_slot_returns_to_the_start() {
    let mut wm = one_monitor();
    for h in 1..=3 {
        wm.manage_new_window(D1, M1, h, None);
    }
    let start = wm.foreground_window().unwrap();
    for _ in 0..3 {
        let next = wm.cycle_focus(CycleDirection::Next).unwrap();
        wm.foreground_window_changed(next);
    }
    assert_eq!(wm.foreground_window(), Some(start));
    assert_eq!(wm.cycle_focus(CycleDirection::Previous), Some(3));
}

#[test]
fn window_dropped_on_another_monitor_moves_there() {
    let mut wm = two_monitors();
    wm.manage_new_window(D1, M1, 1, None);
    wm.manage_new_window(D1, M1, 2, None);
    wm.manage_new_window(D1, M2, 3, None);
    let r = wm.window_move_finished(1, M2, Zone::new(2560, 0, 640, 720));
    assert_eq!(wm.tiled_order(D1, M2), vec![3, 1]);
    assert_eq!(wm.tiled_order(D1, M1), vec![2]);
    assert_eq!(
        r,
        vec![place(2, 0, 0, 1920, 1200), place(3, 1920, 0, 640, 720), place(1, 2560, 0, 640, 720)]
    );
}

#[test]
fn window_dropped_on_its_own_monitor_trades_places() {
    let mut wm = one_monitor();
    for h in 1..=3 {
        wm.manage_new_window(D1, M1, h, None);
    }
    wm.window_move_finished(1, M1, Zone::new(960, 650, 960, 500));
    assert_eq!(wm.tiled_order(D1, M1), vec![3, 2, 1]);
}

#[test]
fn uncloak_events_of_one_switch_form_one_batch() {
    let mut wm = two_monitors();
    for h in 1..=3 {
        wm.manage_new_window(D1, M1, h, None);
        wm.manage_new_window(D1, M2, h + 10, None);
    }
    assert_eq!(wm.tiled_on_desktop(D1), 6);
    assert_eq!(wm.tiled_on_desktop(D2), 0);
    assert!(wm.window_uncloaked(6));
    for _ in 0..5 {
        assert!(!wm.window_uncloaked(6));
    }
    assert!(wm.window_uncloaked(6));
}

#[test]
fn desktop_change_moves_window_to_the_other_workspace() {
    let mut wm = one_monitor();
    wm.manage_new_window(D1, M1, 1, None);
    wm.manage_new_window(D1, M1, 2, None);
    let r = wm.window_cloaked(2, D2);
    assert_eq!(wm.tiled_order(D1, M1), vec![1]);
    assert_eq!(wm.tiled_order(D2, M1), vec![2]);
    assert_eq!(r, vec![place(1, 0, 0, 1920, 1200), place(2, 0, 0, 1920, 1200)]);
}

#[test]
fn float_toggle_centres_and_restores_the_slot() {
    let mut wm = one_monitor();
    for h in 1..=3 {
        wm.manage_new_window(D1, M1, h, None);
    }
    let r = wm.toggle_window(None);
    assert_eq!(wm.tiled_order(D1, M1), vec![2, 3]);
    assert!(wm.is_floating(1));
    assert_eq!(*r.last().unwrap(), place(1, 480, 300, 960, 600));
    wm.toggle_window(None);
    assert!(!wm.is_floating(1));
    assert_eq!(wm.tiled_order(D1, M1), vec![1, 2, 3]);
}

#[test]
fn restart_sets_the_flag_only() {
    let mut wm = one_monitor();
    wm.manage_new_window(D1, M1, 1, None);
    assert!(!wm.restart_requested());
    wm.restart_himewm();
    assert!(wm.restart_requested());
    assert_eq!(wm.tiled_order(D1, M1), vec![1]);
}

#[test]
fn cycling_variants_walks_the_tree() {
    let tree = VariantsContainer::Container(vec![
        VariantsContainer::Variants(vec![stack_variant(), stack_variant()]),
        VariantsContainer::Variants(vec![stack_variant()]),
    ]);
    let layout = Layout::from_parts(Zone::new(0, 0, 1920, 1200), tree, vec![0]);
    let mut wm = WindowManager::new(settings(), WindowRules::new(), vec![M1], vec![vec![layout]], InvisibleBorder::none());
    wm.manage_new_window(D1, M1, 1, None);
    assert_eq!(wm.workspace_layout(D1, M1).unwrap().1, vec![0]);
    wm.cycle_variant(CycleDirection::Next, 0);
    assert_eq!(wm.workspace_layout(D1, M1).unwrap().1, vec![1]);
    wm.cycle_variant(CycleDirection::Next, 1);
    assert_eq!(wm.workspace_layout(D1, M1).unwrap().1, vec![1, 0]);
    wm.cycle_variant(CycleDirection::Next, 0);
    assert_eq!(wm.workspace_layout(D1, M1).unwrap().1, vec![0, 0]);
    wm.cycle_variant(CycleDirection::Next, 1);
    assert_eq!(wm.workspace_layout(D1, M1).unwrap().1, vec![0, 1]);
}

#[test]
fn cycling_layouts_wraps_and_resets_the_path() {
    let mut wm = WindowManager::new(
        settings(),
        WindowRules::new(),
        vec![M1],
        vec![vec![stack_layout(), Layout::new(1920, 1200)]],
        InvisibleBorder::none(),
    );
    wm.manage_new_window(D1, M1, 1, None);
    wm.cycle_layout(CycleDirection::Next);
    assert_eq!(wm.workspace_layout(D1, M1).unwrap(), (1, vec![0]));
    wm.cycle_layout(CycleDirection::Next);
    assert_eq!(wm.workspace_layout(D1, M1).unwrap().0, 0);
    wm.cycle_layout(CycleDirection::Previous);
    assert_eq!(wm.workspace_layout(D1, M1).unwrap().0, 1);
}

#[test]
fn assigned_monitor_skips_ignored_workspaces() {
    let mut wm = two_monitors();
    wm.manage_new_window(D1, M1, 1, None);
    wm.manage_new_window(D1, M1, 2, None);
    let r = wm.cycle_assigned_monitor(CycleDirection::Next);
    assert_eq!(wm.tiled_order(D1, M2), vec![1]);
    assert_eq!(wm.tiled_order(D1, M1), vec![2]);
    assert_eq!(r.len(), 2);
    wm.foreground_window_changed(1);
    assert_eq!(wm.toggle_workspace().0, Some(true));
    wm.foreground_window_changed(2);
    wm.cycle_assigned_monitor(CycleDirection::Next);
    assert_eq!(wm.tiled_order(D1, M1), vec![2]);
}

#[test]
fn ignored_workspace_gets_no_geometry() {
    let mut wm = one_monitor();
    wm.manage_new_window(D1, M1, 1, None);
    assert_eq!(wm.toggle_workspace(), (Some(true), vec![]));
    assert!(wm.update_workspace(D1, M1).is_empty());
    let (ignored, r) = wm.toggle_workspace();
    assert_eq!(ignored, Some(false));
    assert_eq!(r, vec![place(1, 0, 0, 1920, 1200)]);
}

#[test]
fn grab_and_release_trade_slots() {
    let mut wm = one_monitor();
    for h in 1..=3 {
        wm.manage_new_window(D1, M1, h, None);
    }
    wm.grab_window();
    assert_eq!(wm.grabbed_window(), Some(1));
    wm.foreground_window_changed(3);
    let (focus, _) = wm.release_window();
    assert_eq!(focus, Some(1));
    assert_eq!(wm.tiled_order(D1, M1), vec![3, 2, 1]);
    assert_eq!(wm.grabbed_window(), None);
}

#[test]
fn focus_change_minimizes_covering_members() {
    let mut wm = one_monitor();
    wm.manage_new_window(D1, M1, 1, None);
    wm.manage_new_window(D1, M1, 2, None);
    wm.manage_new_window(D1, M1, 3, None);
    wm.stop_managing_window(3);
    let u = wm.foreground_window_changed(2);
    assert_eq!(u.focused, Some(2));
    assert_eq!(u.unfocused, Some(1));
    assert_eq!(u.minimize, vec![3]);
    let u = wm.foreground_window_changed(99);
    assert_eq!(u.focused, None);
    assert_eq!(wm.foreground_window(), None);
}

#[test]
fn focus_moves_to_first_window_of_next_monitor() {
    let mut wm = two_monitors();
    wm.manage_new_window(D1, M1, 1, None);
    wm.manage_new_window(D1, M2, 5, None);
    wm.manage_new_window(D1, M2, 6, None);
    assert_eq!(wm.cycle_focused_monitor(CycleDirection::Next), Some(5));
    assert_eq!(wm.cycle_focused_monitor(CycleDirection::Previous), Some(5));
}

#[test]
fn unknown_monitor_or_known_window_is_left_alone() {
    let mut wm = one_monitor();
    assert!(wm.manage_new_window(D1, 77, 1, None).is_empty());
    assert!(wm.window_info(1).is_none());
    wm.manage_new_window(D1, M1, 1, None);
    assert!(wm.manage_new_window(D1, M1, 1, None).is_empty());
    assert_eq!(wm.tiled_order(D1, M1), vec![1]);
}

#[test]
fn only_overlapped_windows_with_a_sizing_border_are_managed() {
    assert!(is_manageable(0x00CF0000));
    assert!(!is_manageable(0x00C00000));
    assert!(!is_manageable(0));
}

#[test]
fn restorable_state_needs_a_plain_visible_window() {
    let plain = WindowState { style: 0x00CF0000, iconic: false, zoomed: false, arranged: false, visible: true };
    assert!(is_restored(&plain));
    assert!(!is_restored(&WindowState { iconic: true, ..plain }));
    assert!(!is_restored(&WindowState { zoomed: true, ..plain }));
    assert!(!is_restored(&WindowState { arranged: true, ..plain }));
    assert!(!is_restored(&WindowState { visible: false, ..plain }));
}

#[test]
fn refresh_reapplies_the_foreground_workspace() {
    let mut wm = one_monitor();
    wm.manage_new_window(D1, M1, 1, None);
    wm.manage_new_window(D1, M1, 2, None);
    assert_eq!(wm.refresh_workspace(), vec![place(1, 0, 0, 960, 1200), place(2, 960, 0, 960, 1200)]);
}

#[test]
fn switch_pass_moves_windows_in_slot_order() {
    let mut wm = two_monitors();
    for h in 1..=3 {
        wm.manage_new_window(D1, M1, h, None);
        wm.manage_new_window(D1, M2, h + 10, None);
    }
    assert!(wm.window_uncloaked(wm.tiled_on_desktop(D1)));
    wm.migrate_desktop(D1, &vec![(2, D2), (11, D2), (1, D2), (12, D1)]);
    assert_eq!(wm.tiled_order(D2, M1), vec![1, 2]);
    assert_eq!(wm.tiled_order(D1, M1), vec![3]);
    assert_eq!(wm.tiled_order(D2, M2), vec![11]);
    assert_eq!(wm.tiled_order(D1, M2), vec![12, 13]);
    assert!(!wm.window_uncloaked(6));
}

#[test]
fn start_floating_rule_places_the_window() {
    let mut wm = one_monitor();
    wm.manage_new_window(D1, M1, 1, None);
    let r = wm.manage_new_window(D1, M1, 2, Some(Rule::StartFloating(SetPosition::Center)));
    assert_eq!(r, vec![place(2, 480, 300, 960, 600)]);
    assert!(wm.is_floating(2));
    assert_eq!(wm.tiled_order(D1, M1), vec![1]);
    let r = wm.manage_new_window(D1, M1, 3, Some(Rule::StartFloating(SetPosition::Position(Zone::new(5, 6, 7, 8)))));
    assert_eq!(r, vec![place(3, 5, 6, 7, 8)]);
    assert!(wm.manage_new_window(D1, M1, 4, Some(Rule::StartFloating(SetPosition::Default))).is_empty());
}

#[test]
fn layout_rule_sets_the_workspace_layout() {
    let mut wm = WindowManager::new(
        settings(),
        WindowRules::new(),
        vec![M1],
        vec![vec![stack_layout(), Layout::new(1920, 1200)]],
        InvisibleBorder::none(),
    );
    wm.manage_new_window(D1, M1, 1, Some(Rule::LayoutIdx(1)));
    assert_eq!(wm.workspace_layout(D1, M1).unwrap().0, 1);
    assert_eq!(wm.tiled_order(D1, M1), vec![1]);
}

#[test]
fn release_on_another_monitor_takes_the_foreground_slot() {
    let mut wm = two_monitors();
    wm.manage_new_window(D1, M1, 1, None);
    wm.manage_new_window(D1, M1, 2, None);
    wm.manage_new_window(D1, M2, 5, None);
    wm.manage_new_window(D1, M2, 6, None);
    wm.grab_window();
    wm.foreground_window_changed(6);
    let (focus, r) = wm.release_window();
    assert_eq!(focus, Some(1));
    assert_eq!(wm.tiled_order(D1, M2), vec![5, 1, 6]);
    assert_eq!(wm.tiled_order(D1, M1), vec![2]);
    assert_eq!(r[0], place(2, 0, 0, 1920, 1200));
}

#[test]
fn refused_window_is_evicted_and_floats() {
    let mut wm = one_monitor();
    wm.manage_new_window(D1, M1, 1, None);
    wm.manage_new_window(D1, M1, 2, None);
    let r = wm.window_access_denied(1);
    assert!(wm.is_floating(1));
    assert_eq!(wm.tiled_order(D1, M1), vec![2]);
    assert_eq!(r, vec![place(2, 0, 0, 1920, 1200)]);
}
