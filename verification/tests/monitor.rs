use rust_app_menu::monitor::{parse_hyprctl_focused_monitor, parse_sway_focused_output};

#[test]
fn hyprctl_picks_the_focused_monitor() {
    let json = r#"[{"id": 0, "name": "DP-1", "focused": false},
{"id": 1, "name": "HDMI-A-1", "focused": true}]"#;
    assert_eq!(parse_hyprctl_focused_monitor(json), Some("HDMI-A-1".to_string()));
}

#[test]
fn sway_accepts_the_tight_spelling() {
    let json = r#"[{"name":"eDP-1","focused":false},{"name":"DP-2","focused":true}]"#;
    assert_eq!(parse_sway_focused_output(json), Some("DP-2".to_string()));
}

#[test]
fn white_space_before_the_quote_is_skipped() {
    let json = "{\"focused\": true, \"name\":  \t\n \"eDP-1\"}";
    assert_eq!(parse_sway_focused_output(json), Some("eDP-1".to_string()));
}

#[test]
fn no_focused_output_gives_none() {
    let json = r#"[{"name": "DP-1", "focused": false}]"#;
    assert_eq!(parse_hyprctl_focused_monitor(json), None);
    assert_eq!(parse_sway_focused_output(""), None);
}

#[test]
fn focused_piece_without_a_name_gives_none() {
    let json = r#"[{"name": "DP-1"}, {"focused": true}]"#;
    assert_eq!(parse_hyprctl_focused_monitor(json), None);
}

#[test]
fn unquoted_or_unterminated_name_gives_none() {
    assert_eq!(parse_sway_focused_output(r#"{"focused":true,"name":42}"#), None);
    assert_eq!(parse_sway_focused_output(r#"{"focused":true,"name":"DP-1"#), None);
}

#[test]
fn the_first_name_of_the_focused_piece_counts() {
    // Only the text between two `{` is looked at: a nested object starts a
    // new piece, so the name of the piece that holds the mark is taken.
    let json = r#"[{"name": "DP-1", "active": {"name": "ws-3"}, "focused": true}]"#;
    assert_eq!(parse_hyprctl_focused_monitor(json), Some("ws-3".to_string()));
}

#[test]
fn both_parsers_agree() {
    let samples = [
        r#"[{"name":"A","focused":true}]"#,
        r#"[{"name": "B", "focused": false}, {"name": "C", "focused": true}]"#,
        r#"nothing here"#,
        r#"{"focused": true "name": "Ünïcödé"}"#,
    ];
    for s in samples {
        assert_eq!(parse_hyprctl_focused_monitor(s), parse_sway_focused_output(s));
    }
    assert_eq!(parse_sway_focused_output(samples[3]), Some("Ünïcödé".to_string()));
}
