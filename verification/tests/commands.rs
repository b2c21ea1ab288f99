use nshell::commands::ExecutableIndex;
use nshell::commands::{builtins, is_builtin, suggestions};

fn owned(words: &[&str]) -> Vec<String> {
    words.iter().map(|word| word.to_string()).collect()
}

#[test]
fn suggestions_are_ranked_and_limited() {
    assert_eq!(
        suggestions("cagro", owned(&["cargo", "cat", "go", "cagro-long"])),
        ["cargo"]
    );
}

#[test]
fn suggestions_keep_the_three_closest_in_text_order() {
    assert_eq!(
        suggestions("gti", owned(&["gut", "git", "get", "gtk", "git", "zzzzzz"])),
        ["gtk", "get", "git"]
    );
}

#[test]
fn suggestions_of_nothing_are_empty() {
    assert!(suggestions("ls", Vec::new()).is_empty());
}

#[test]
fn builtins_are_recognised() {
    assert!(is_builtin("cd"));
    assert!(is_builtin("history"));
    assert!(!is_builtin("cargo"));
    assert!(builtins().iter().any(|name| name == "pushd"));
}

#[test]
fn executable_index_keeps_the_first_of_each_name() {
    let mut index = ExecutableIndex::new();
    let path = Some("/a:/b".to_string());
    assert!(index.is_stale(&path));
    index.rebuild(
        path.clone(),
        vec![
            ("ls".to_string(), "/a/ls".to_string()),
            ("cat".to_string(), "/a/cat".to_string()),
            ("ls".to_string(), "/b/ls".to_string()),
        ],
    );
    assert!(!index.is_stale(&path));
    assert!(index.is_stale(&None));
    assert_eq!(index.lookup("ls").as_deref(), Some("/a/ls"));
    assert_eq!(index.lookup("grep"), None);
    assert_eq!(
        index.names(),
        vec!["cat".to_string(), "ls".to_string(), "nsh".to_string()]
    );
}

#[test]
fn edit_distance_is_symmetric_and_zero_only_for_equal_texts() {
    let chars = |s: &str| s.chars().collect::<Vec<char>>();
    assert_eq!(nshell::commands::distance(&chars("kitten"), &chars("sitting")), 3);
    assert_eq!(nshell::commands::distance(&chars("sitting"), &chars("kitten")), 3);
    assert_eq!(nshell::commands::distance(&chars("cagro"), &chars("cargo")), 2);
    assert_eq!(nshell::commands::distance(&chars(""), &chars("cargo")), 5);
    assert_eq!(nshell::commands::distance(&chars("cargo"), &chars("cargo")), 0);
    assert_eq!(nshell::commands::distance(&chars("cargo"), &chars("cargp")), 1);
}

#[test]
fn edit_distance_from_nothing_is_the_length() {
    let chars = |s: &str| s.chars().collect::<Vec<char>>();
    assert_eq!(nshell::commands::distance(&chars(""), &chars("")), 0);
    assert_eq!(nshell::commands::distance(&chars("abc"), &chars("")), 3);
}
