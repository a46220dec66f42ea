use rust_app_menu::config::{
    config_path, parse_color, reload, set_path, AnchorEdges, AnchorPosition, HexColor,
    WindowConfig,
};

#[test]
fn default_window() {
    let w = WindowConfig::default();
    assert_eq!(w, WindowConfig { anchor: AnchorPosition::Top, width: 600, margin: 0 });
    assert_eq!(AnchorPosition::default(), AnchorPosition::Top);
}

#[test]
fn margins_go_on_the_anchored_edge() {
    assert_eq!(AnchorPosition::Center.to_margin(12), (0, 0, 0, 0));
    assert_eq!(AnchorPosition::Top.to_margin(12), (12, 0, 0, 0));
    assert_eq!(AnchorPosition::Right.to_margin(12), (0, 12, 0, 0));
    assert_eq!(AnchorPosition::Bottom.to_margin(12), (0, 0, 12, 0));
    assert_eq!(AnchorPosition::Left.to_margin(-3), (0, 0, 0, -3));
}

#[test]
fn anchors() {
    let none = AnchorEdges { top: false, bottom: false, left: false, right: false };
    assert_eq!(AnchorPosition::Center.to_anchor(), none);
    assert_eq!(AnchorPosition::Top.to_anchor(), AnchorEdges { top: true, ..none });
    assert_eq!(AnchorPosition::Bottom.to_anchor(), AnchorEdges { bottom: true, ..none });
    assert_eq!(AnchorPosition::Left.to_anchor(), AnchorEdges { left: true, ..none });
    assert_eq!(AnchorPosition::Right.to_anchor(), AnchorEdges { right: true, ..none });
}

#[test]
fn margin_sits_where_the_anchor_is() {
    let all = [
        AnchorPosition::Center,
        AnchorPosition::Top,
        AnchorPosition::Bottom,
        AnchorPosition::Left,
        AnchorPosition::Right,
    ];
    for p in all {
        let m = p.to_margin(7);
        let a = p.to_anchor();
        assert_eq!(m.0 != 0, a.top);
        assert_eq!(m.1 != 0, a.right);
        assert_eq!(m.2 != 0, a.bottom);
        assert_eq!(m.3 != 0, a.left);
    }
}

#[test]
fn six_and_eight_digit_colors() {
    assert_eq!(parse_color("#ff8000"), HexColor::Rgb(255, 128, 0));
    assert_eq!(parse_color("#26262ECC"), HexColor::Rgba(0x26, 0x26, 0x2e, 0xcc));
    assert_eq!(parse_color("6699FF99"), HexColor::Rgba(0x66, 0x99, 0xff, 0x99));
    assert_eq!(parse_color("##abcdef"), HexColor::Rgb(0xab, 0xcd, 0xef));
}

#[test]
fn bad_digits_read_as_zero() {
    assert_eq!(parse_color("#zz00ff"), HexColor::Rgb(0, 0, 255));
    assert_eq!(parse_color("#+f0000"), HexColor::Rgb(15, 0, 0));
    assert_eq!(parse_color("#-f0000"), HexColor::Rgb(0, 0, 0));
    assert_eq!(parse_color("#é0000"), HexColor::Rgb(0, 0, 0));
}

#[test]
fn other_lengths_are_invalid() {
    assert_eq!(parse_color("#fff"), HexColor::Invalid);
    assert_eq!(parse_color(""), HexColor::Invalid);
    assert_eq!(parse_color("#"), HexColor::Invalid);
    assert_eq!(parse_color("#ff00ff0"), HexColor::Invalid);
}

#[test]
fn config_path_choices() {
    assert_eq!(config_path(Some("/x.toml".to_string()), Some("/c".to_string()), None), "/x.toml");
    assert_eq!(
        config_path(None, Some("/home/u/.cfg".to_string()), Some("/home/u".to_string())),
        "/home/u/.cfg/rust-app-menu/config.toml"
    );
    assert_eq!(
        config_path(None, None, Some("/home/u".to_string())),
        "/home/u/.config/rust-app-menu/config.toml"
    );
    assert_eq!(config_path(None, None, None), "/root/.config/rust-app-menu/config.toml");
}

#[test]
fn the_first_path_given_wins() {
    let mut slot = None;
    set_path(&mut slot, "first".to_string());
    set_path(&mut slot, "second".to_string());
    assert_eq!(slot, Some("first".to_string()));
}

#[test]
fn reload_replaces_the_config() {
    let mut slot = Some(1u32);
    reload(&mut slot, 2);
    assert_eq!(slot, Some(2));
    let mut empty: Option<u32> = None;
    reload(&mut empty, 5);
    assert_eq!(empty, Some(5));
}
