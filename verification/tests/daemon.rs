use rust_app_menu::daemon::{socket_path, DaemonCommand, SOCKET_NAME};
use rust_app_menu::app::{command_message, Message};

#[test]
fn socket_lives_in_the_runtime_dir() {
    assert_eq!(
        socket_path(Some("/run/user/1000".to_string())),
        "/run/user/1000/rust-app-menu.sock"
    );
}

#[test]
fn socket_falls_back_to_tmp() {
    assert_eq!(socket_path(None), format!("/tmp/{}", SOCKET_NAME));
    assert_eq!(socket_path(None), "/tmp/rust-app-menu.sock");
}

#[test]
fn daemon_commands_become_messages() {
    assert!(matches!(command_message(DaemonCommand::Show), Message::Show));
    assert!(matches!(command_message(DaemonCommand::Reload), Message::Reload));
}
