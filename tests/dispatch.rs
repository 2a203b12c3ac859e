use himewm::dispatch::{decode_hotkey, desktop_query_step, dpi_reissue, handle_message, Action, DesktopQuery, Message};
use himewm::layout::Layout;
use himewm::window_rules::WindowRules;
use himewm::wm::{CycleDirection, Placement, Settings, WindowManager};
use himewm::zone::{InvisibleBorder, Zone};

fn manager() -> WindowManager {
    let settings = Settings {
        default_layout_idx: 0,
        window_padding: 0,
        edge_padding: 0,
        disable_rounding: false,
        disable_unfocused_border: false,
        focused_border_colour: 0,
        unfocused_border_colour: 0,
        floating_window_default_w_permille: 500,
        floating_window_default_h_permille: 500,
        new_window_retries: 0,
    };
    WindowManager::new(settings, WindowRules::new(), vec![1], vec![vec![Layout::new(1920, 1200)]], InvisibleBorder::none())
}

#[test]
fn hotkey_numbers_map_to_actions() {
    assert_eq!(decode_hotkey(0), Action::Focus(CycleDirection::Previous));
    assert_eq!(decode_hotkey(3), Action::Swap(CycleDirection::Next));
    assert_eq!(decode_hotkey(15), Action::Restart);
    assert_eq!(decode_hotkey(16), Action::Variant(CycleDirection::Previous, 0));
    assert_eq!(decode_hotkey(17), Action::Variant(CycleDirection::Next, 0));
    assert_eq!(decode_hotkey(20), Action::Variant(CycleDirection::Previous, 2));
}

#[test]
fn messages_reach_their_handlers() {
    let mut wm = manager();
    let out = handle_message(&mut wm, Message::WindowCreated { hwnd: 7, desktop: 5, monitor: 1, rule: None });
    assert_eq!(out.placements.len(), 1);
    assert_eq!(out.placements[0].rect, Zone::new(0, 0, 1920, 1200));
    handle_message(&mut wm, Message::WindowCreated { hwnd: 8, desktop: 5, monitor: 1, rule: None });
    let out = handle_message(&mut wm, Message::Hotkey { id: 1, floating_position: None });
    assert_eq!(out.focus, Some(8));
    let out = handle_message(&mut wm, Message::ForegroundWindowChanged(8));
    assert_eq!(out.borders.unwrap().unfocused, Some(7));
    handle_message(&mut wm, Message::WindowDestroyed(7));
    assert_eq!(wm.tiled_order(5, 1), vec![8]);
    handle_message(&mut wm, Message::Hotkey { id: 15, floating_position: None });
    assert!(wm.restart_requested());
}

#[test]
fn first_uncloak_of_a_switch_runs_the_pass() {
    let mut wm = manager();
    handle_message(&mut wm, Message::WindowCreated { hwnd: 7, desktop: 5, monitor: 1, rule: None });
    handle_message(&mut wm, Message::WindowCreated { hwnd: 8, desktop: 5, monitor: 1, rule: None });
    handle_message(&mut wm, Message::WindowUncloaked { desktop: 6, previous: 5, current: vec![(8, 6)] });
    assert_eq!(wm.tiled_order(6, 1), vec![8]);
    assert_eq!(wm.tiled_order(5, 1), vec![7]);
}

#[test]
fn desktop_query_retries_then_gives_up() {
    assert_eq!(desktop_query_step(0, 3, 9), DesktopQuery::Manage(9));
    assert_eq!(desktop_query_step(0, 3, 0), DesktopQuery::Retry(1));
    assert_eq!(desktop_query_step(3, 3, 0), DesktopQuery::GiveUp);
}

#[test]
fn dpi_change_places_the_window_again() {
    let p = Placement { hwnd: 1, rect: Zone::new(0, 0, 10, 10) };
    assert_eq!(dpi_reissue(96, 144, p), Some(p));
    assert_eq!(dpi_reissue(96, 96, p), None);
}
