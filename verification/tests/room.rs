use nshell::room::room_stays;
use nshell::room::{
    discover, is_trusted, lifecycle, parse, records_with_trust, records_without_trust,
    room_paths, trust_record, Room,
};

fn owned(words: &[&str]) -> Vec<String> {
    words.iter().map(|word| word.to_string()).collect()
}

#[test]
fn substitutes_lifecycle_name() {
    assert_eq!(lifecycle("echo [[NAME]]", "demo"), "echo demo");
}

#[test]
fn parses_documented_room_settings_and_relative_paths() {
    let source = r#"name = "python project"
environment.PYTHONPATH = "./src"
environment.DEBUG = "1"
alias run > "python main.py"
abbr t > "pytest -q"
prompt.badge = "PROJECT"
on_enter = "echo entered [[NAME]]"
on_leave = "echo leaving [[NAME]]"
"#;
    let parsed = parse(source, "/tmp/project/.nsh-room", "/tmp/project").unwrap();
    assert_eq!(parsed.name, "python project");
    assert_eq!(
        parsed.environment.get(&"PYTHONPATH".to_string()).unwrap(),
        "/tmp/project/./src"
    );
    assert_eq!(parsed.environment.get(&"DEBUG".to_string()).unwrap(), "1");
    assert_eq!(
        parsed.aliases.get(&vec!["run".to_string()]).unwrap(),
        "python main.py"
    );
    assert_eq!(parsed.abbreviations.get(&"t".to_string()).unwrap(), "pytest -q");
    assert_eq!(parsed.badge.as_deref(), Some("PROJECT"));
    assert_eq!(parsed.on_enter.as_deref(), Some("echo entered [[NAME]]"));
    assert_eq!(parsed.hash.len(), 16);
}

#[test]
fn rooms_need_a_name_and_known_entries() {
    let error = parse("badge = \"x\"", "room", ".").unwrap_err();
    assert_eq!(error.line, 1);
    assert_eq!(error.message, "unknown room entry");
    let error = parse("# nothing\n", "room", ".").unwrap_err();
    assert_eq!(error.message, "room requires a name");
    let error = parse("name = \"a\"\nenvironment.BAD-NAME = \"1\"", "room", ".").unwrap_err();
    assert_eq!(error.line, 2);
    assert_eq!(error.message, "invalid environment variable name");
}

#[test]
fn room_hash_follows_contents() {
    let first = parse("name = \"a\"", "room", ".").unwrap();
    let second = parse("name = \"a\" ", "room", ".").unwrap();
    assert_ne!(first.hash, second.hash);
}

#[test]
fn nearest_ancestor_wins() {
    assert_eq!(
        room_paths("/tmp/a/b"),
        owned(&[
            "/tmp/a/b/.nsh-room",
            "/tmp/a/.nsh-room",
            "/tmp/.nsh-room",
            "/.nsh-room"
        ])
    );
    let existing = owned(&["/tmp/.nsh-room", "/tmp/a/.nsh-room"]);
    assert_eq!(
        discover("/tmp/a/b", &existing).as_deref(),
        Some("/tmp/a/.nsh-room")
    );
    assert_eq!(discover("/srv", &existing), None);
}

#[test]
fn trust_follows_the_recorded_contents() {
    let mut room = Room::default();
    room.hash = "00ff".to_string();
    let records = records_with_trust(owned(&["/other\tabcd"]), "/project", "00ff");
    assert_eq!(records, owned(&["/other\tabcd", "/project\t00ff"]));
    assert!(is_trusted(&records, "/project", &room));
    room.hash = "1234".to_string();
    assert!(!is_trusted(&records, "/project", &room));
    let records = records_without_trust(records, "/project");
    assert_eq!(records, owned(&["/other\tabcd"]));
    assert_eq!(trust_record("/a", "b"), "/a\tb");
}

#[test]
fn unchanged_or_declined_rooms_stay() {
    let here = Some(("/p/.nsh-room".to_string(), "h1".to_string()));
    let changed = Some(("/p/.nsh-room".to_string(), "h2".to_string()));
    let found = Some("/p/.nsh-room".to_string());
    assert!(room_stays(&here, &None, &found, &here));
    assert!(!room_stays(&here, &None, &found, &changed));
    assert!(room_stays(&None, &changed, &found, &changed));
    assert!(room_stays(&here, &None, &found, &None));
    assert!(!room_stays(&here, &None, &None, &None));
    assert!(room_stays(&None, &None, &None, &None));
}
