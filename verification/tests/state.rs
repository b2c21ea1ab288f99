use nshell::state::{config_file, state_directory};

fn some(text: &str) -> Option<String> {
    Some(text.to_string())
}

#[test]
fn config_file_follows_xdg_then_home_then_here() {
    assert_eq!(config_file(&some("/x/cfg"), &some("/home/u")), "/x/cfg/nshell/config.nsh");
    assert_eq!(config_file(&some("/x/cfg/"), &None), "/x/cfg/nshell/config.nsh");
    assert_eq!(config_file(&None, &some("/home/u")), "/home/u/.config/nshell/config.nsh");
    assert_eq!(config_file(&None, &None), "./.config/nshell/config.nsh");
}

#[test]
fn state_directory_follows_xdg_then_home_then_here() {
    assert_eq!(state_directory(&some("/x/state"), &some("/home/u")), "/x/state/nshell");
    assert_eq!(state_directory(&None, &some("/home/u")), "/home/u/.local/state/nshell");
    assert_eq!(state_directory(&None, &None), "./.local/state/nshell");
}
