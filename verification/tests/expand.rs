use nshell::expand::{enter_all, glob_plan, GlobStep};
use nshell::expand::{
    command_word, glob_matches, literal_word, resolve_word, variable_names, variables_in,
};
use nshell::parser::{Word, LITERAL_STAR};
use nshell::table::Table;

fn env(pairs: &[(&str, &str)]) -> Table<String> {
    let mut table = Table::new();
    for (key, value) in pairs {
        table.insert(key.to_string(), value.to_string());
    }
    table
}

#[test]
fn expands_braced_and_plain_variables() {
    let table = env(&[("NSH_EXPAND_TEST", "works")]);
    assert_eq!(
        variables_in("$NSH_EXPAND_TEST/${NSH_EXPAND_TEST}", &table),
        "works/works"
    );
}

#[test]
fn preserves_quoted_literal_dollar_marker() {
    let table = env(&[("HOME", "/home/someone")]);
    assert_eq!(variables_in("\u{e000}HOME", &table), "$HOME");
}

#[test]
fn expands_home_paths() {
    let table = env(&[("HOME", "/tmp/nshell-home")]);
    assert_eq!(variables_in("~", &table), "/tmp/nshell-home");
    assert_eq!(variables_in("~/.config", &table), "/tmp/nshell-home/.config");
    assert_eq!(variables_in("file~", &table), "file~");
    assert_eq!(variables_in("~", &env(&[])), "~");
}

#[test]
fn wildcard_matcher_supports_star_and_question() {
    assert!(glob_matches("*.rs", "main.rs"));
    assert!(glob_matches("file-?.log", "file-1.log"));
    assert!(!glob_matches("file-?.log", "file-12.log"));
}

#[test]
fn restores_quoted_wildcard_markers_without_expanding() {
    let word = Word {
        text: format!("literal{LITERAL_STAR}.rs"),
        has_glob: false,
    };
    let expansion = command_word(&word, 0, &env(&[]));
    assert!(expansion.pattern.is_none());
    assert_eq!(resolve_word(expansion, Vec::new()), ["literal*.rs"]);
}

#[test]
fn unset_and_odd_variables() {
    let table = env(&[("A", "1")]);
    assert_eq!(variables_in("$B-$A", &table), "-1");
    assert_eq!(variables_in("cost $ 5 ${A", &table), "cost $ 5 ${A");
    assert_eq!(variables_in("${A}${A}x", &table), "11x");
    assert_eq!(
        variable_names("$A ${B c} $"),
        ["A", "B c", "HOME"]
    );
}

#[test]
fn status_and_globs_in_words() {
    let word = Word {
        text: "st=$?-*".to_string(),
        has_glob: true,
    };
    let expansion = command_word(&word, 127, &env(&[]));
    assert_eq!(expansion.pattern.as_deref(), Some("st=127-*"));
    assert_eq!(expansion.literal, "st=127-*");
    assert_eq!(
        resolve_word(expansion, vec!["st=127-a".to_string()]),
        ["st=127-a"]
    );
    assert_eq!(literal_word("$?\u{e002}", -3, &env(&[])), "-3?");
}

#[test]
fn wildcard_components_pick_visible_matches() {
    let names: Vec<String> = ["b.txt", "a.txt", ".hidden.txt", "src"]
        .iter()
        .map(|name| name.to_string())
        .collect();
    assert_eq!(
        nshell::expand::pick_entries(".", "*.txt", &names),
        vec!["./b.txt".to_string(), "./a.txt".to_string()]
    );
    assert_eq!(
        nshell::expand::pick_entries("src", ".*.txt", &names),
        vec!["src/.hidden.txt".to_string()]
    );
    assert!(nshell::expand::holds_wildcard("file-?.log"));
    assert!(!nshell::expand::holds_wildcard("plain"));
}

#[test]
fn wildcard_results_are_sorted_and_relative() {
    let paths = vec!["./b.txt".to_string(), "./a.txt".to_string(), "./src/main.rs".to_string()];
    assert_eq!(
        nshell::expand::finish_glob(paths.clone(), false, false),
        vec!["a.txt".to_string(), "b.txt".to_string(), "src/main.rs".to_string()]
    );
    assert_eq!(
        nshell::expand::finish_glob(paths, false, true),
        vec!["./a.txt".to_string(), "./b.txt".to_string(), "./src/main.rs".to_string()]
    );
    assert_eq!(
        nshell::expand::sort_texts(vec!["b".to_string(), "a".to_string(), "b".to_string()]),
        vec!["a".to_string(), "b".to_string(), "b".to_string()]
    );
}

#[test]
fn wildcard_patterns_walk_component_by_component() {
    let plan = glob_plan("/usr//./lib/*.so");
    assert!(plan.absolute);
    assert!(!plan.explicit_current);
    assert_eq!(plan.origin, "/");
    assert_eq!(
        plan.steps,
        vec![
            GlobStep::Enter("usr".to_string()),
            GlobStep::Enter("lib".to_string()),
            GlobStep::Pick("*.so".to_string()),
        ]
    );
    let plan = glob_plan("./src/../*/");
    assert!(!plan.absolute);
    assert!(plan.explicit_current);
    assert_eq!(plan.origin, ".");
    assert_eq!(
        plan.steps,
        vec![
            GlobStep::Enter("src".to_string()),
            GlobStep::Enter("..".to_string()),
            GlobStep::Pick("*".to_string()),
        ]
    );
    let quoted = format!("a{}b", nshell::parser::LITERAL_STAR);
    assert_eq!(glob_plan(&quoted).steps, vec![GlobStep::Enter("a*b".to_string())]);
    assert_eq!(
        enter_all(&vec!["/".to_string(), ".".to_string(), "x".to_string()], "y"),
        vec!["/y".to_string(), "./y".to_string(), "x/y".to_string()]
    );
}
