use himewm::settings::{hex_string_to_colorref, hex_to_decimal, parse_border_colour, COLOR_DEFAULT};
use himewm::window_rules::{layout_index, FilterRule, Rule, SetPosition, WindowRule, WindowRules};
use himewm::wm::Settings;
use himewm::zone::Zone;

fn rules() -> WindowRules {
    let mut r = WindowRules::new();
    r.title_window_rules.push(WindowRule { regex: "Fire(fox)?".to_string(), rule: Rule::LayoutIdx(1) });
    r.title_window_rules.push(WindowRule { regex: "Mozilla".to_string(), rule: Rule::LayoutIdx(2) });
    r.process_window_rules.push(WindowRule {
        regex: "^code\\.exe$".to_string(),
        rule: Rule::StartFloating(SetPosition::Center),
    });
    r.process_window_rules.push(WindowRule {
        regex: "exe".to_string(),
        rule: Rule::FloatingPosition(Zone::new(1, 2, 3, 4)),
    });
    r
}

#[test]
fn title_rules_come_before_process_rules() {
    let r = rules();
    assert_eq!(r.get_window_rule(Some("Mozilla Firefox"), Some("code.exe"), &None), Some(Rule::LayoutIdx(1)));
    assert_eq!(
        r.get_window_rule(Some("Terminal"), Some("code.exe"), &None),
        Some(Rule::StartFloating(SetPosition::Center))
    );
    assert_eq!(
        r.get_window_rule(None, Some("code.exe"), &None),
        Some(Rule::StartFloating(SetPosition::Center))
    );
}

#[test]
fn filter_skips_rules_of_other_kinds() {
    let r = rules();
    let only_floating = Some(vec![FilterRule::FloatingPosition]);
    assert_eq!(
        r.get_window_rule(Some("Mozilla Firefox"), Some("code.exe"), &only_floating),
        Some(Rule::FloatingPosition(Zone::new(1, 2, 3, 4)))
    );
    assert_eq!(r.get_window_rule(Some("Mozilla"), Some("none"), &Some(vec![FilterRule::InvisibleBorder])), None);
}

#[test]
fn invalid_pattern_matches_nothing() {
    let mut r = WindowRules::new();
    r.title_window_rules.push(WindowRule { regex: "(".to_string(), rule: Rule::LayoutIdx(3) });
    assert_eq!(r.get_window_rule(Some("("), None, &None), None);
}

#[test]
fn filter_kind_of_each_rule() {
    assert_eq!(FilterRule::from(&Rule::LayoutIdx(0)), FilterRule::Layout);
    assert_eq!(FilterRule::from(&Rule::StartFloating(SetPosition::Default)), FilterRule::StartFloating);
}

#[test]
fn layout_names_are_looked_up() {
    let names = vec!["tall".to_string(), "wide".to_string(), "tall".to_string()];
    assert_eq!(layout_index(&names, &"tall".to_string()), Some(0));
    assert_eq!(layout_index(&names, &"wide".to_string()), Some(1));
    assert_eq!(layout_index(&names, &"spiral".to_string()), None);
}

#[test]
fn hex_digits_and_colours() {
    assert_eq!(hex_to_decimal(b'0'), 0);
    assert_eq!(hex_to_decimal(b'9'), 9);
    assert_eq!(hex_to_decimal(b'a'), 10);
    assert_eq!(hex_to_decimal(b'f'), 15);
    assert_eq!(hex_to_decimal(b'g'), 0);
    assert_eq!(hex_string_to_colorref("ff8000"), 0x0080ff);
    assert_eq!(parse_border_colour("  "), COLOR_DEFAULT);
    assert_eq!(parse_border_colour(""), COLOR_DEFAULT);
    assert_eq!(parse_border_colour("0000ff"), 0xff0000);
}

#[test]
fn unfocused_border_can_be_disabled() {
    let mut s = Settings {
        default_layout_idx: 0,
        window_padding: 0,
        edge_padding: 0,
        disable_rounding: false,
        disable_unfocused_border: false,
        focused_border_colour: 1,
        unfocused_border_colour: 2,
        floating_window_default_w_permille: 500,
        floating_window_default_h_permille: 500,
        new_window_retries: 0,
    };
    assert_eq!(s.get_unfocused_border_colour(), 2);
    s.disable_unfocused_border = true;
    assert_eq!(s.get_unfocused_border_colour(), himewm::wm::COLOR_NONE);
}
