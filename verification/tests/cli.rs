use nshell::cli::{
    cli_action, home_hint, home_relative, is_room_file, room_action, room_template, CliAction,
    RoomAction,
};
use nshell::prompt::{abbreviate_home, short_directory};

fn owned(words: &[&str]) -> Vec<String> {
    words.iter().map(|word| word.to_string()).collect()
}

#[test]
fn command_lines_choose_their_action() {
    assert_eq!(cli_action(&Vec::new()), CliAction::Interactive);
    assert_eq!(
        cli_action(&owned(&["-c", "echo", "hi"])),
        CliAction::Run("echo hi".to_string())
    );
    assert_eq!(cli_action(&owned(&["-c"])), CliAction::MissingCommand);
    assert_eq!(cli_action(&owned(&["--help"])), CliAction::Help);
    assert_eq!(cli_action(&owned(&["gen", "config"])), CliAction::GenerateConfig);
    assert_eq!(cli_action(&owned(&["check"])), CliAction::Check(None));
    assert_eq!(
        cli_action(&owned(&["check", "x.nsh"])),
        CliAction::Check(Some("x.nsh".to_string()))
    );
    assert_eq!(
        cli_action(&owned(&["new", "room", "demo"])),
        CliAction::NewRoom("demo".to_string())
    );
    assert_eq!(
        cli_action(&owned(&["room", "trust"])),
        CliAction::Room("trust".to_string())
    );
    assert_eq!(cli_action(&owned(&["bogus"])), CliAction::Usage);
    assert_eq!(room_action("untrust"), Some(RoomAction::Untrust));
    assert_eq!(room_action("open"), None);
}

#[test]
fn room_files_are_checked_as_rooms() {
    assert!(is_room_file("/tmp/project/.nsh-room"));
    assert!(is_room_file(".nsh-room"));
    assert!(!is_room_file("/tmp/config.nsh"));
    assert!(!is_room_file("/"));
}

#[test]
fn room_template_names_the_room() {
    let text = room_template("my \"project\"");
    assert!(text.starts_with("name = \"my \\\"project\\\"\"\n"));
    let room = nshell::room::parse(&text, ".nsh-room", ".").unwrap();
    assert_eq!(room.name, "my \"project\"");
}

#[test]
fn home_is_abbreviated() {
    assert_eq!(
        abbreviate_home("/tmp/example-home/code", Some("/tmp/example-home")),
        "~/code"
    );
    assert_eq!(abbreviate_home("/tmp/example-home", Some("/tmp/example-home")), "~");
    assert_eq!(abbreviate_home("/tmp/other", Some("/tmp/example-home")), "/tmp/other");
    assert_eq!(abbreviate_home("/tmp/example-homes", Some("/tmp/example-home")), "/tmp/example-homes");
    assert_eq!(short_directory("/tmp/example-home/code", None), "code");
    assert_eq!(short_directory("/", None), "/");
    assert_eq!(short_directory("/home/me", Some("/home/me")), "~");
}

#[test]
fn cd_hints_point_below_home() {
    assert_eq!(home_relative("/Downloads").as_deref(), Some("Downloads"));
    assert_eq!(home_relative("Downloads"), None);
    assert_eq!(home_hint("Downloads"), "nsh: did you mean `cd ~/Downloads`?");
}

#[test]
fn new_room_file_reads_back_with_only_its_name() {
    for name in ["my-project", "a # b", "back\\slash", "x\"", "  spaced  "] {
        let text = room_template(name);
        let room = nshell::room::parse(&text, "/work/.nsh-room", "/work").unwrap();
        assert_eq!(room.name, name);
        assert_eq!(room.path, "/work/.nsh-room");
        assert!(room.environment.entries().is_empty());
        assert!(room.aliases.entries().is_empty());
        assert!(room.abbreviations.entries().is_empty());
        assert_eq!(room.badge, None);
        assert_eq!(room.on_enter, None);
        assert_eq!(room.on_leave, None);
    }
}

#[test]
fn new_room_file_without_a_name_is_refused() {
    let error = nshell::room::parse(&room_template(""), ".nsh-room", ".").err().unwrap();
    assert_eq!(error.line, 1);
    assert_eq!(error.message, "room requires a name");
}

#[test]
fn only_yes_confirms() {
    for yes in ["y", "yes", " Y\n", "YES", "  yEs  "] {
        assert!(nshell::cli::confirms(yes), "{yes:?}");
    }
    for no in ["", "n", "no", "ye", "yess", "y e s", "Yes please"] {
        assert!(!nshell::cli::confirms(no), "{no:?}");
    }
}
