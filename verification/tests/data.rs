use rust_app_menu::data::{clean_exec, key_less, load_apps, parse_desktop_entry, sort_by_keys, App};

fn app(name: &str, command: &str) -> App {
    App { name: name.to_string(), command: command.to_string() }
}

fn names(apps: &[App]) -> Vec<&str> {
    apps.iter().map(|a| a.name.as_str()).collect()
}

#[test]
fn field_codes_are_removed() {
    assert_eq!(clean_exec("firefox %u"), "firefox");
    assert_eq!(clean_exec("  code  --new-window   %F \t"), "code --new-window");
    assert_eq!(clean_exec("%U"), "");
    assert_eq!(clean_exec(""), "");
    assert_eq!(clean_exec("env A=%x b"), "env A=%x b");
}

#[test]
fn cleaning_twice_is_cleaning_once() {
    for s in ["firefox %u", "  a  %f b\u{3000}c %i ", "", "%F %U", "x\ty\nz"] {
        let once = clean_exec(s);
        assert_eq!(clean_exec(&once), once);
    }
}

const FIREFOX: &str = "[Desktop Entry]
Type=Application
Name=Firefox
Name[de]=Feuerfuchs
Exec=firefox %u
Icon=firefox

[Desktop Action new-window]
Name=New Window
Exec=firefox --new-window %u
";

#[test]
fn a_desktop_entry_is_read() {
    let a = parse_desktop_entry(FIREFOX).unwrap();
    assert_eq!(a.name, "Firefox");
    assert_eq!(a.command, "firefox");
}

#[test]
fn the_first_name_and_exec_win() {
    let text = "[Desktop Entry]\nExec=one %f\nName=A\nName=B\nExec=two\n";
    let a = parse_desktop_entry(text).unwrap();
    assert_eq!(a.name, "A");
    assert_eq!(a.command, "one");
}

#[test]
fn lines_outside_the_entry_section_are_ignored() {
    let text = "Name=Outside\n[Other]\nName=Other\nExec=other\n[Desktop Entry]\nName=In\nExec=in\n";
    let a = parse_desktop_entry(text).unwrap();
    assert_eq!(a.name, "In");
    assert_eq!(a.command, "in");
}

#[test]
fn hidden_entries_are_not_listed() {
    let text = "[Desktop Entry]\nName=Hidden\nExec=x\nNoDisplay=true\n";
    assert!(parse_desktop_entry(text).is_none());
    let dir = "[Desktop Entry]\nType=Directory\nName=Games\nExec=x\n";
    assert!(parse_desktop_entry(dir).is_none());
    // NoDisplay in another section does not count
    let other = "[Desktop Entry]\nName=Shown\nExec=x\n[Other]\nNoDisplay=true\n";
    assert_eq!(parse_desktop_entry(other).unwrap().name, "Shown");
    let falsy = "[Desktop Entry]\nName=Shown\nExec=x\nNoDisplay=false\n";
    assert!(parse_desktop_entry(falsy).is_some());
}

#[test]
fn entries_without_name_or_exec_are_dropped() {
    assert!(parse_desktop_entry("[Desktop Entry]\nName=NoExec\n").is_none());
    assert!(parse_desktop_entry("[Desktop Entry]\nExec=noname\n").is_none());
    assert!(parse_desktop_entry("").is_none());
}

#[test]
fn windows_line_endings() {
    let text = "[Desktop Entry]\r\nName=Crlf App\r\nExec=crlf --go %U\r\n";
    let a = parse_desktop_entry(text).unwrap();
    assert_eq!(a.name, "Crlf App");
    assert_eq!(a.command, "crlf --go");
}

#[test]
fn a_carriage_return_without_newline_stays() {
    let text = "[Desktop Entry]\nExec=x\nName=Last\r";
    assert_eq!(parse_desktop_entry(text).unwrap().name, "Last\r");
}

#[test]
fn the_list_is_ordered_ignoring_case() {
    let apps = load_apps(vec![app("beta", "b"), app("Alpha", "A"), app("gamma", "g"), app("alpha", "a")]);
    assert_eq!(names(&apps), vec!["Alpha", "alpha", "beta", "gamma"]);
    assert_eq!(apps[0].command, "A");
}

#[test]
fn repeated_names_are_kept_once() {
    let apps = load_apps(vec![app("Files", "one"), app("Terminal", "t"), app("Files", "two")]);
    assert_eq!(names(&apps), vec!["Files", "Terminal"]);
    assert_eq!(apps[0].command, "one");
}

#[test]
fn only_neighbouring_repeats_go() {
    // equal in lower case, so they stay in the order found; not neighbours
    let apps = load_apps(vec![app("Foo", "1"), app("foo", "2"), app("Foo", "3")]);
    assert_eq!(names(&apps), vec!["Foo", "foo", "Foo"]);
}

#[test]
fn ordering_uses_unicode_lower_case() {
    let apps = load_apps(vec![app("Émile", "e"), app("Zed", "z"), app("émile", "e2"), app("abc", "a")]);
    assert_eq!(names(&apps), vec!["abc", "Zed", "Émile", "émile"]);
}

#[test]
fn an_empty_list_stays_empty() {
    assert!(load_apps(Vec::new()).is_empty());
}

fn key(s: &str) -> Vec<char> {
    s.chars().collect()
}

#[test]
fn sorting_by_given_keys_is_stable() {
    let items = vec![
        (key("b"), app("second b", "2")),
        (key("a"), app("first a", "1")),
        (key("b"), app("third b", "3")),
        (key("ab"), app("ab", "4")),
        (key(""), app("empty key", "5")),
    ];
    let sorted = sort_by_keys(items);
    assert_eq!(names(&sorted), vec!["empty key", "first a", "ab", "second b", "third b"]);
}

#[test]
fn keys_compare_by_code_point() {
    assert!(key_less(&key("a"), &key("b")));
    assert!(!key_less(&key("b"), &key("a")));
    assert!(key_less(&key("ab"), &key("abc")));
    assert!(!key_less(&key("abc"), &key("abc")));
    assert!(key_less(&key("Z"), &key("a")));
    assert!(key_less(&key("z"), &key("é")));
    assert!(!key_less(&key(""), &key("")));
}
