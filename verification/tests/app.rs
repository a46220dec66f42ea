use rust_app_menu::app::{
    all_ids_hide, all_ids_resize, all_ids_show, compute_height, namespace, new, run_mode, update,
    Action, Closing, InputEvent, Keyboard, LayerRequest, Launcher, Message, RunMode, Screen,
    Startup,
};
use rust_app_menu::config::{AnchorEdges, AnchorPosition, WindowConfig};
use rust_app_menu::data::App;

fn app(name: &str, command: &str) -> App {
    App { name: name.to_string(), command: command.to_string() }
}

fn launcher(apps: &[(&str, &str)]) -> Launcher {
    let (l, _) = new(RunMode::Daemon, apps.iter().map(|(n, c)| app(n, c)).collect());
    l
}

fn names(l: &Launcher) -> Vec<String> {
    l.filtered().iter().map(|a| a.name.clone()).collect()
}

fn key(c: &str) -> Message {
    Message::IcedEvent(InputEvent::Character(c.to_string()))
}

#[test]
fn run_mode_defaults_to_normal() {
    assert_eq!(run_mode(None), RunMode::Normal);
    assert_eq!(run_mode(Some(RunMode::Daemon)), RunMode::Daemon);
}

#[test]
fn namespace_is_launcher() {
    assert_eq!(namespace(), "Launcher");
}

#[test]
fn new_launcher_is_hidden_and_empty() {
    let (l, startup) = new(RunMode::Normal, vec![app("A", "a")]);
    assert_eq!(startup, Startup::ShowNow);
    assert!(!l.visible && l.query.is_empty() && l.selected == 0);
    assert_eq!(l.all_apps.len(), 1);
    let (_, daemon) = new(RunMode::Daemon, Vec::new());
    assert_eq!(daemon, Startup::ListenForCommands);
}

#[test]
fn empty_query_lists_everything() {
    let l = launcher(&[("Firefox", "firefox"), ("Files", "nautilus")]);
    assert_eq!(names(&l), vec!["Firefox", "Files"]);
}

#[test]
fn search_ignores_case() {
    let mut l = launcher(&[("Firefox", "firefox"), ("Files", "nautilus"), ("GIMP", "gimp")]);
    l.query = "FI".to_string();
    assert_eq!(names(&l), vec!["Firefox", "Files"]);
    l.query = "fox".to_string();
    assert_eq!(names(&l), vec!["Firefox"]);
    l.query = "gimp".to_string();
    assert_eq!(names(&l), vec!["GIMP"]);
    l.query = "zzz".to_string();
    assert!(names(&l).is_empty());
}

#[test]
fn heights() {
    let many: Vec<(String, String)> = (0..10).map(|i| (format!("app{i}"), format!("run{i}"))).collect();
    let refs: Vec<(&str, &str)> = many.iter().map(|(a, b)| (a.as_str(), b.as_str())).collect();
    let mut l = launcher(&refs);
    assert_eq!(compute_height(&l), 80);
    l.query = "app1".to_string();
    assert_eq!(compute_height(&l), 135);
    l.query = "app".to_string();
    assert_eq!(compute_height(&l), 400);
    l.query = "nothing".to_string();
    assert_eq!(compute_height(&l), 80);
    let few: Vec<(&str, &str)> = refs[..5].to_vec();
    let mut l5 = launcher(&few);
    l5.query = "app".to_string();
    assert_eq!(compute_height(&l5), 355);
}

#[test]
fn show_opens_afresh() {
    let mut l = launcher(&[("A", "a")]);
    l.query = "x".to_string();
    l.selected = 4;
    let a = update(&mut l, RunMode::Daemon, Message::Show);
    assert!(matches!(a, Action::Show(80)));
    assert!(l.visible && l.query.is_empty() && l.selected == 0);
}

#[test]
fn typing_and_backspace() {
    let mut l = launcher(&[("Alpha Bravo", "a"), ("Beta", "b")]);
    update(&mut l, RunMode::Daemon, Message::Show);
    let a = update(&mut l, RunMode::Daemon, key("b"));
    assert_eq!(l.query, "b");
    assert!(matches!(a, Action::Resize(h) if h == 135 + 55));
    let a = update(&mut l, RunMode::Daemon, key("e"));
    assert_eq!(l.query, "be");
    assert!(matches!(a, Action::Resize(135)));
    l.selected = 1;
    let a = update(&mut l, RunMode::Daemon, Message::IcedEvent(InputEvent::Backspace));
    assert_eq!(l.query, "b");
    assert_eq!(l.selected, 0);
    assert!(matches!(a, Action::Resize(190)));
    update(&mut l, RunMode::Daemon, Message::IcedEvent(InputEvent::Backspace));
    let a = update(&mut l, RunMode::Daemon, Message::IcedEvent(InputEvent::Backspace));
    assert_eq!(l.query, "");
    assert!(matches!(a, Action::Resize(80)));
}

#[test]
fn backspace_takes_back_a_multibyte_character() {
    let mut l = launcher(&[]);
    update(&mut l, RunMode::Normal, key("é"));
    update(&mut l, RunMode::Normal, key("ü"));
    update(&mut l, RunMode::Normal, Message::IcedEvent(InputEvent::Backspace));
    assert_eq!(l.query, "é");
}

#[test]
fn query_changed_replaces_the_query() {
    let mut l = launcher(&[("Alpha", "a")]);
    l.selected = 2;
    let a = update(&mut l, RunMode::Daemon, Message::QueryChanged("alp".to_string()));
    assert_eq!(l.query, "alp");
    assert_eq!(l.selected, 0);
    assert!(matches!(a, Action::Resize(135)));
}

#[test]
fn tab_cycles_through_the_results() {
    let mut l = launcher(&[("a1", "1"), ("a2", "2"), ("a3", "3")]);
    let tab = || Message::IcedEvent(InputEvent::Tab);
    for expected in [1, 2, 0, 1] {
        let a = update(&mut l, RunMode::Daemon, tab());
        assert!(matches!(a, Action::Nothing));
        assert_eq!(l.selected, expected);
    }
    let mut empty = launcher(&[]);
    update(&mut empty, RunMode::Daemon, tab());
    assert_eq!(empty.selected, 0);
}

#[test]
fn enter_launches_the_highlighted_result() {
    let mut l = launcher(&[("Alpha", "alpha --run"), ("Beta", "beta")]);
    update(&mut l, RunMode::Daemon, Message::Show);
    update(&mut l, RunMode::Daemon, Message::IcedEvent(InputEvent::Tab));
    match l.screen() {
        Screen::Search => {}
        _ => panic!("no results without a query"),
    }
    let a = update(&mut l, RunMode::Daemon, Message::IcedEvent(InputEvent::Enter));
    match a {
        Action::LaunchAndClose(cmd, Closing::Hide) => assert_eq!(cmd, "beta"),
        _ => panic!("expected a launch"),
    }
    assert!(!l.visible && l.query.is_empty() && l.selected == 0);
}

#[test]
fn enter_clamps_a_stale_highlight() {
    let mut l = launcher(&[("Alpha", "alpha"), ("Beta", "beta")]);
    l.selected = 9;
    let a = update(&mut l, RunMode::Normal, Message::IcedEvent(InputEvent::Enter));
    match a {
        Action::LaunchAndClose(cmd, Closing::Exit) => assert_eq!(cmd, "beta"),
        _ => panic!("expected a launch"),
    }
}

#[test]
fn enter_without_results_does_nothing() {
    let mut l = launcher(&[("Alpha", "alpha")]);
    l.visible = true;
    l.query = "zzz".to_string();
    let a = update(&mut l, RunMode::Daemon, Message::IcedEvent(InputEvent::Enter));
    assert!(matches!(a, Action::Nothing));
    assert!(l.visible);
    assert_eq!(l.query, "zzz");
}

#[test]
fn escape_and_close_depend_on_the_mode() {
    let mut l = launcher(&[("A", "a")]);
    l.visible = true;
    l.query = "a".to_string();
    let a = update(&mut l, RunMode::Normal, Message::IcedEvent(InputEvent::Escape));
    assert!(matches!(a, Action::Close(Closing::Exit)));
    assert!(!l.visible && l.query.is_empty());
    l.visible = true;
    let a = update(&mut l, RunMode::Daemon, Message::Close);
    assert!(matches!(a, Action::Close(Closing::Hide)));
    assert!(!l.visible);
}

#[test]
fn clicking_a_result_launches_it() {
    let mut l = launcher(&[("A", "a")]);
    l.visible = true;
    let a = update(&mut l, RunMode::Daemon, Message::Launch("a --flag".to_string()));
    match a {
        Action::LaunchAndClose(cmd, Closing::Hide) => assert_eq!(cmd, "a --flag"),
        _ => panic!("expected a launch"),
    }
    assert!(!l.visible);
}

#[test]
fn other_events_change_nothing() {
    let mut l = launcher(&[("A", "a")]);
    l.query = "q".to_string();
    l.selected = 3;
    let a = update(&mut l, RunMode::Daemon, Message::IcedEvent(InputEvent::Other));
    assert!(matches!(a, Action::Nothing));
    assert_eq!(l.query, "q");
    assert_eq!(l.selected, 3);
}

#[test]
fn reload_replaces_only_the_apps() {
    let mut l = launcher(&[("A", "a")]);
    l.query = "b".to_string();
    l.visible = true;
    let a = update(&mut l, RunMode::Daemon, Message::Reload);
    assert!(matches!(a, Action::Reload));
    assert_eq!(l.all_apps.len(), 1);
    l.finish_reload(vec![app("B", "b"), app("Bee", "bee")]);
    assert_eq!(names(&l), vec!["B", "Bee"]);
    assert_eq!(l.query, "b");
    assert!(l.visible);
}

#[test]
fn screens() {
    let mut l = launcher(&[("Alpha", "a"), ("Alps", "b")]);
    assert!(matches!(l.screen(), Screen::Hidden));
    l.visible = true;
    assert!(matches!(l.screen(), Screen::Search));
    l.query = "al".to_string();
    l.selected = 7;
    match l.screen() {
        Screen::Results(items, selected) => {
            assert_eq!(items.len(), 2);
            assert_eq!(selected, 1);
            assert_eq!(items[0].name, "Alpha");
        }
        _ => panic!("expected results"),
    }
    l.query = "none".to_string();
    assert!(matches!(l.screen(), Screen::Search));
}

#[test]
fn window_requests() {
    let w = WindowConfig { anchor: AnchorPosition::Bottom, width: 700, margin: 9 };
    let bottom = AnchorEdges { top: false, bottom: true, left: false, right: false };
    let hide = all_ids_hide(&w);
    assert_eq!(hide.len(), 2);
    assert!(matches!(hide[0], LayerRequest::AnchorSizeChange { anchor, size: (1, 1) } if anchor == bottom));
    assert!(matches!(hide[1], LayerRequest::KeyboardInteractivityChange(Keyboard::NoFocus)));
    let show = all_ids_show(&w, 135);
    assert_eq!(show.len(), 3);
    assert!(matches!(show[0], LayerRequest::AnchorSizeChange { anchor, size: (700, 135) } if anchor == bottom));
    assert!(matches!(show[1], LayerRequest::MarginChange((0, 0, 9, 0))));
    assert!(matches!(show[2], LayerRequest::KeyboardInteractivityChange(Keyboard::Exclusive)));
    let resize = all_ids_resize(&w, 400);
    assert_eq!(resize.len(), 1);
    assert!(matches!(resize[0], LayerRequest::AnchorSizeChange { anchor, size: (700, 400) } if anchor == bottom));
}

#[test]
fn a_longer_query_narrows_the_results() {
    let mut l = launcher(&[("Firefox", "f"), ("Files", "n"), ("Fish Shell", "s"), ("GIMP", "g")]);
    l.query = "fi".to_string();
    let wide = names(&l);
    l.query = "fil".to_string();
    let narrow = names(&l);
    assert_eq!(wide, vec!["Firefox", "Files", "Fish Shell"]);
    assert_eq!(narrow, vec!["Files"]);
    assert!(narrow.iter().all(|n| wide.contains(n)));
}
