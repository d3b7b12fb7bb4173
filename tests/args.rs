use vanillachat::args::{ArgError, Args, Mode};

fn argv(words: &[&str]) -> Vec<Vec<u8>> {
    words.iter().map(|w| w.as_bytes().to_vec()).collect()
}

fn mode_of(words: &[&str]) -> Result<Mode, ArgError> {
    Args::gather(&argv(words)).mode()
}

#[test]
fn server_with_port() {
    assert!(matches!(mode_of(&["chat", "-s", "9567"]), Ok(Mode::Host(9567))));
    assert!(matches!(mode_of(&["chat", "--server", "4000"]), Ok(Mode::Host(4000))));
    assert!(matches!(mode_of(&["chat", "-s"]), Ok(Mode::Host(9567))));
}

#[test]
fn connect_with_address_and_port() {
    assert!(matches!(
        mode_of(&["chat", "127.0.0.1", "9567"]),
        Ok(Mode::Connect([127, 0, 0, 1], 9567))
    ));
    assert!(matches!(mode_of(&["chat", "10.0.0.2"]), Ok(Mode::Connect([10, 0, 0, 2], 9567))));
}

#[test]
fn no_positional_uses_daemon() {
    assert!(matches!(mode_of(&["chat"]), Ok(Mode::FromDaemon)));
    assert!(matches!(mode_of(&[]), Ok(Mode::FromDaemon)));
    assert!(matches!(mode_of(&["chat", "--name", "-x"]), Ok(Mode::FromDaemon)));
}

#[test]
fn help_wins() {
    assert!(matches!(mode_of(&["chat", "-h"]), Ok(Mode::Help)));
    assert!(matches!(mode_of(&["chat", "--help", "a", "b", "c"]), Ok(Mode::Help)));
    assert!(matches!(mode_of(&["chat", "-xh"]), Ok(Mode::Help)));
}

#[test]
fn too_many_arguments() {
    assert!(matches!(mode_of(&["chat", "a", "b", "c"]), Err(ArgError::TooManyArguments)));
    assert!(matches!(mode_of(&["chat", "-s", "1", "2"]), Err(ArgError::TooManyArguments)));
}

#[test]
fn bad_port_and_address() {
    assert!(matches!(mode_of(&["chat", "-s", "port"]), Err(ArgError::BadPort)));
    assert!(matches!(mode_of(&["chat", "1.2.3.4", "70000"]), Err(ArgError::BadPort)));
    assert!(matches!(mode_of(&["chat", "1.2.3"]), Err(ArgError::BadAddress)));
}

#[test]
fn double_dash_ends_options() {
    // after "--", "-s" is an address, not a flag
    assert!(matches!(mode_of(&["chat", "--", "-s"]), Err(ArgError::BadAddress)));
    assert!(matches!(mode_of(&["chat", "-", "1"]), Err(ArgError::BadAddress)));
}

#[test]
fn short_cluster_with_unicode() {
    // "-é" is one unknown flag; "s" after it still counts
    assert!(matches!(mode_of(&["chat", "-és"]), Ok(Mode::Host(9567))));
}
