use nshell::config::{Config, PromptColor, PromptLayout};
use nshell::prompt::{render_prompt, PromptInfo};
use nshell::shell::{
    alias_expansion, clean_command_name, expand_alias_body, format_duration, paint,
    parse_git_status, placeholder_boundary, plan_builtin, requested_job, shell_quote, Builtin,
};
use nshell::table::Table;
use nshell::shell::{record_history, recent_history, HistoryWrite, HISTORY_LIMIT};
use nshell::shell::{history_line, search_history};
use nshell::room::Room;
use nshell::shell::effective_abbreviations;
use nshell::shell::completion_commands;
use nshell::shell::known_type;
use nshell::shell::{route_command, Route};
use nshell::shell::{not_found_message, suggestion_candidates, suggestion_message};
use nshell::shell::privilege_rerun;
use nshell::parser::Condition;
use nshell::shell::{notify_request, should_run};
use nshell::shell::builtin_command_text;
use nshell::shell::expand_abbreviation;
use nshell::shell::{alias_step, dispatch, Dispatch};
use nshell::shell::{line_after, line_next, LineAction, LineRun};
use nshell::shell::{after_popd, after_pushd, cd_target, directory_listing, popd_target, CdTarget};

fn owned(words: &[&str]) -> Vec<String> {
    words.iter().map(|word| word.to_string()).collect()
}

fn quiet_info(last_status: i32) -> PromptInfo {
    PromptInfo {
        user: "user".to_string(),
        directory: "~".to_string(),
        host: "host".to_string(),
        git: None,
        badge: None,
        jobs: 0,
        duration_ms: None,
        time: None,
        last_status,
        color: false,
    }
}

#[test]
fn alias_arguments_are_safely_quoted() {
    assert_eq!(shell_quote("two words"), "'two words'");
    assert_eq!(shell_quote("plain-file"), "plain-file");
}

#[test]
fn quoting_escapes_single_quotes() {
    assert_eq!(shell_quote("it's"), "'it'\\''s'");
    assert_eq!(shell_quote("a/b_c.d-e"), "a/b_c.d-e");
}

#[test]
fn alias_placeholders_preserve_arguments_and_old_append_behavior() {
    assert_eq!(
        expand_alias_body("printf %s $1", &owned(&["two words"])).unwrap(),
        "printf %s 'two words'"
    );
    assert_eq!(
        expand_alias_body("printf '%s\\n' $@", &owned(&["one", "two words"])).unwrap(),
        "printf '%s\\n' one 'two words'"
    );
    assert_eq!(
        expand_alias_body("printf %s", &owned(&["two words"])).unwrap(),
        "printf %s 'two words'"
    );
    assert_eq!(
        expand_alias_body("echo $2; echo first", &owned(&["only"])).unwrap_err(),
        "missing argument $2"
    );
}

#[test]
fn placeholders_inside_words_stay_literal() {
    assert_eq!(
        expand_alias_body("echo a$1", &owned(&["x"])).unwrap(),
        "echo a$1 x"
    );
    assert!(placeholder_boundary(None));
    assert!(placeholder_boundary(Some(';')));
    assert!(!placeholder_boundary(Some('a')));
}

#[test]
fn alias_expansion_prefers_the_longest_alias() {
    let mut aliases: Table<Vec<String>> = Table::new();
    aliases.insert(owned(&["git"]), "echo git".to_string());
    aliases.insert(owned(&["git", "st"]), "git status".to_string());
    assert_eq!(
        alias_expansion(&owned(&["git", "st", "-s"]), &aliases).unwrap(),
        Some("git status -s".to_string())
    );
    assert_eq!(
        alias_expansion(&owned(&["git", "log"]), &aliases).unwrap(),
        Some("echo git log".to_string())
    );
    assert_eq!(alias_expansion(&owned(&["ls"]), &aliases).unwrap(), None);
}

#[test]
fn git_status_formats_clean_dirty_and_detached_heads() {
    assert_eq!(
        parse_git_status("## main...origin/main\n", "*").as_deref(),
        Some("main")
    );
    assert_eq!(
        parse_git_status("## No commits yet on trunk\n?? file\n", "+").as_deref(),
        Some("trunk+")
    );
    assert_eq!(
        parse_git_status("## HEAD (no branch)\n M file\n", "*").as_deref(),
        Some("detached*")
    );
}

#[test]
fn git_status_without_heading_shows_nothing() {
    assert_eq!(parse_git_status("", "*"), None);
    assert_eq!(parse_git_status("M file\n", "*"), None);
    assert_eq!(
        parse_git_status("## feature [ahead 1]\n", "*").as_deref(),
        Some("feature")
    );
}

#[test]
fn prompt_colors_render_or_disable_independently() {
    assert_eq!(
        paint("name", &PromptColor::BrightCyan, true),
        "\u{1b}[96mname\u{1b}[0m"
    );
    assert_eq!(paint("name", &PromptColor::NoColor, true), "name");
    assert_eq!(paint("name", &PromptColor::Red, false), "name");
}

#[test]
fn command_names_drop_invisible_formatting_characters() {
    assert_eq!(clean_command_name("c\u{200b}d"), "cd");
    assert_eq!(clean_command_name("\u{feff}xonsh"), "xonsh");
    assert_eq!(clean_command_name("normal-command"), "normal-command");
}

#[test]
fn durations_read_naturally() {
    assert_eq!(format_duration(850), "850ms");
    assert_eq!(format_duration(2000), "2s");
    assert_eq!(format_duration(2350), "2.3s");
    assert_eq!(format_duration(65_000), "1m 05s");
    assert_eq!(format_duration(600_000), "10m 00s");
}

#[test]
fn prompt_line_break_places_marker_on_second_line() {
    let mut config = Config::default();
    config.prompt.show_name = false;
    config.prompt.show_dir = false;
    config.prompt.show_status = true;
    config.prompt.newline = true;
    config.prompt.marker = ">".to_string();
    assert_eq!(render_prompt(&config.prompt, &quiet_info(7)), "[7]\n> ");
}

#[test]
fn prompt_layouts_and_duration_render_exactly() {
    let mut config = Config::default();
    config.prompt.show_name = false;
    config.prompt.show_dir = false;
    config.prompt.show_status = true;
    config.prompt.show_duration = true;
    config.prompt.duration_threshold_ms = 1000;
    config.prompt.marker = ">".to_string();
    let mut info = quiet_info(7);
    info.duration_ms = Some(2_350);

    assert_eq!(render_prompt(&config.prompt, &info), "[2.3s] [7] > ");
    config.prompt.layout = PromptLayout::TwoLine;
    assert_eq!(render_prompt(&config.prompt, &info), "[2.3s] [7]\n> ");
    config.prompt.layout = PromptLayout::Framed;
    assert_eq!(render_prompt(&config.prompt, &info), "╭─ [2.3s] [7]\n╰─ > ");
}

#[test]
fn prompt_shows_jobs_and_room_badge() {
    let mut config = Config::default();
    config.prompt.show_name = false;
    config.prompt.show_dir = false;
    config.prompt.show_jobs = true;
    config.prompt.marker = ">".to_string();
    let mut info = quiet_info(0);
    info.jobs = 2;
    info.badge = Some("PROJECT".to_string());
    assert_eq!(render_prompt(&config.prompt, &info), "[PROJECT] [2 jobs] > ");
    info.jobs = 0;
    info.badge = None;
    assert_eq!(render_prompt(&config.prompt, &info), "> ");
}

#[test]
fn job_requests_accept_percent_ids() {
    assert_eq!(requested_job(&owned(&["fg"]), "fg"), Ok(None));
    assert_eq!(requested_job(&owned(&["fg", "%3"]), "fg"), Ok(Some(3)));
    assert_eq!(
        requested_job(&owned(&["bg", "%"]), "bg").unwrap_err(),
        "nsh: bg: `%` is not a valid job ID"
    );
    assert_eq!(
        requested_job(&owned(&["fg", "1", "2"]), "fg").unwrap_err(),
        "nsh: fg: expected at most one job ID"
    );
}

#[test]
fn builtins_check_their_arguments() {
    match plan_builtin(&owned(&["pwd", "extra"]), 0) {
        Some(Builtin::Refuse(message, status)) => {
            assert_eq!(message, "nsh: pwd: does not accept arguments");
            assert_eq!(status, 2);
        }
        _ => panic!("pwd with an argument is refused"),
    }
    match plan_builtin(&owned(&["exit", "-1"]), 0) {
        Some(Builtin::Exit(status, None)) => assert_eq!(status, 255),
        _ => panic!("exit -1 leaves with 255"),
    }
    match plan_builtin(&owned(&["exit", "nope"]), 0) {
        Some(Builtin::Exit(2, Some(message))) => {
            assert_eq!(message, "nsh: exit: `nope` is not a valid exit status")
        }
        _ => panic!("exit with a bad status is refused"),
    }
    match plan_builtin(&owned(&["export", "A=1", "1B=2", "C=3"]), 0) {
        Some(Builtin::Export(sets, Some(message))) => {
            assert_eq!(sets, vec![("A".to_string(), "1".to_string())]);
            assert_eq!(message, "nsh: export: `1B` is not a valid variable name");
        }
        _ => panic!("export stops at the first bad name"),
    }
    match plan_builtin(&owned(&["unset", "OK", ""]), 0) {
        Some(Builtin::Refuse(message, 2)) => {
            assert_eq!(message, "nsh: unset: `` is not a valid variable name")
        }
        _ => panic!("unset refuses an empty name"),
    }
    match plan_builtin(&owned(&["history", "search", "Cargo", "build"]), 0) {
        Some(Builtin::SearchHistory(query)) => assert_eq!(query, "Cargo build"),
        _ => panic!("history search joins its words"),
    }
    assert!(plan_builtin(&owned(&["ls"]), 0).is_none());
}

#[test]
fn history_drops_repeats_and_keeps_a_limit() {
    let mut history = owned(&["ls"]);
    assert_eq!(record_history(&mut history, "ls"), None);
    assert_eq!(history, owned(&["ls"]));
    assert_eq!(
        record_history(&mut history, "echo a\nb"),
        Some(HistoryWrite::Append("echo a b\n".to_string()))
    );
    assert_eq!(history, owned(&["ls", "echo a\nb"]));
    let mut full: Vec<String> = (0..HISTORY_LIMIT).map(|n| n.to_string()).collect();
    match record_history(&mut full, "new") {
        Some(HistoryWrite::Rewrite(text)) => {
            assert!(text.starts_with("1\n2\n"));
            assert!(text.ends_with("new\n"));
        }
        _ => panic!("a full history is written anew"),
    }
    assert_eq!(full.len(), HISTORY_LIMIT);
    assert_eq!(full[0], "1");
    let lines: Vec<String> = (0..HISTORY_LIMIT + 5).map(|n| n.to_string()).collect();
    let kept = recent_history(lines);
    assert_eq!(kept.len(), HISTORY_LIMIT);
    assert_eq!(kept[0], "5");
}

#[test]
fn history_search_ignores_case() {
    let history = owned(&["cargo build", "printf hello", "CARGO test"]);
    assert_eq!(search_history(&history, "Cargo"), vec![0, 2]);
    assert_eq!(search_history(&history, ""), vec![0, 1, 2]);
    assert_eq!(history_line(0, "cargo build"), "    1  cargo build");
    assert_eq!(history_line(123455, "x"), "123456  x");
}

#[test]
fn room_abbreviations_override_global_abbreviations() {
    let mut global: Table<String> = Table::new();
    global.insert("t".to_string(), "cargo test".to_string());
    global.insert("b".to_string(), "cargo build".to_string());
    let mut room = Room::default();
    room.name = "test".to_string();
    room.abbreviations.insert("t".to_string(), "pytest".to_string());
    let effective = effective_abbreviations(&global, Some(&room));
    assert_eq!(effective.get(&"t".to_string()).unwrap(), "pytest");
    assert_eq!(effective.get(&"b".to_string()).unwrap(), "cargo build");
    let outside = effective_abbreviations(&global, None);
    assert_eq!(outside.get(&"t".to_string()).unwrap(), "cargo test");
}

#[test]
fn completion_lists_first_words_once_in_order() {
    let mut aliases: Table<Vec<String>> = Table::new();
    aliases.insert(owned(&["git", "st"]), "git status".to_string());
    aliases.insert(owned(&["ll"]), "ls -la".to_string());
    aliases.insert(owned(&["git", "lg"]), "git log".to_string());
    let mut abbreviations: Table<String> = Table::new();
    abbreviations.insert("gs".to_string(), "git status".to_string());
    abbreviations.insert("ll".to_string(), "ls -l".to_string());
    assert_eq!(
        completion_commands(&aliases, &abbreviations),
        owned(&["git", "gs", "ll"])
    );
}

#[test]
fn type_reports_what_it_knows() {
    let mut aliases: Table<Vec<String>> = Table::new();
    aliases.insert(owned(&["ll"]), "ls -la".to_string());
    let mut abbreviations: Table<String> = Table::new();
    abbreviations.insert("gs".to_string(), "git status".to_string());
    assert_eq!(
        known_type("gs", &aliases, &abbreviations).as_deref(),
        Some("gs is an abbreviation for `git status`")
    );
    assert_eq!(
        known_type("cd", &aliases, &abbreviations).as_deref(),
        Some("cd is an Nshell built-in")
    );
    assert_eq!(
        known_type("sudo", &aliases, &abbreviations).as_deref(),
        Some("sudo is special Nshell syntax")
    );
    assert_eq!(
        known_type("ll", &aliases, &abbreviations).as_deref(),
        Some("ll is an alias for `ls -la`")
    );
    assert_eq!(known_type("cargo", &aliases, &abbreviations), None);
}

#[test]
fn commands_route_to_builtins_paths_or_search() {
    assert_eq!(route_command("cd"), Route::Builtin);
    assert_eq!(route_command("./run.sh"), Route::Path);
    assert_eq!(route_command("cargo"), Route::Search);
    assert_eq!(
        route_command("cd/Downloads"),
        Route::NotCommand("nsh: `cd/Downloads` is not a command; did you mean `cd /Downloads`?".to_string())
    );
}

#[test]
fn not_found_messages_and_suggestions() {
    assert_eq!(
        not_found_message("frobnciate"),
        "❗ nsh: frobnciate: command not found ❗"
    );
    assert_eq!(
        suggestion_message(&owned(&["frobnicate"])).as_deref(),
        Some("Did you mean frobnicate?")
    );
    assert_eq!(
        suggestion_message(&owned(&["a", "b"])).as_deref(),
        Some("Did you mean a, b?")
    );
    assert_eq!(suggestion_message(&Vec::new()), None);
    let candidates = suggestion_candidates(owned(&["frobnicate"]), &Table::new(), &Table::new());
    assert!(candidates.contains(&"frobnicate".to_string()));
    assert!(candidates.contains(&"cd".to_string()));
    assert!(candidates.contains(&"!notify".to_string()));
}

#[test]
fn sudo_alone_reruns_the_last_external_command() {
    assert_eq!(
        privilege_rerun("sudo", &Some("apt update".to_string())),
        Ok("sudo apt update".to_string())
    );
    assert_eq!(
        privilege_rerun("doas", &None).unwrap_err(),
        "nsh: doas: no previous executable command"
    );
    assert_eq!(
        privilege_rerun("sudo", &Some("sudo ls".to_string())).unwrap_err(),
        "nsh: recursive privilege rerun refused"
    );
}

#[test]
fn conditions_decide_which_pipelines_run() {
    assert!(should_run(Condition::Always, 1));
    assert!(should_run(Condition::OnSuccess, 0));
    assert!(!should_run(Condition::OnSuccess, 1));
    assert!(should_run(Condition::OnFailure, 1));
    assert!(!should_run(Condition::OnFailure, 0));
    assert_eq!(notify_request("!notify make"), (true, "make".to_string()));
    assert_eq!(notify_request("make"), (false, "make".to_string()));
}

#[test]
fn builtin_pipeline_text_quotes_each_word() {
    assert_eq!(builtin_command_text(&owned(&["cd", "my dir"])), "cd 'my dir'");
}

#[test]
fn typed_abbreviation_is_written_out() {
    let mut abbreviations: Table<String> = Table::new();
    abbreviations.insert("gs".to_string(), "git status".to_string());
    assert_eq!(expand_abbreviation("gs", &abbreviations), "git status");
    assert_eq!(expand_abbreviation("gs -s", &abbreviations), "git status -s");
    assert_eq!(expand_abbreviation("  gs\t.", &abbreviations), "  git status\t.");
}

#[test]
fn only_a_first_word_abbreviation_is_written_out() {
    let mut abbreviations: Table<String> = Table::new();
    abbreviations.insert("gs".to_string(), "git status".to_string());
    assert_eq!(expand_abbreviation("echo gs", &abbreviations), "echo gs");
    assert_eq!(expand_abbreviation("gsx", &abbreviations), "gsx");
    assert_eq!(expand_abbreviation("   ", &abbreviations), "   ");
    assert_eq!(expand_abbreviation("", &abbreviations), "");
}

#[test]
fn aliases_apply_to_a_single_command_not_named_by_a_builtin() {
    let mut aliases: Table<Vec<String>> = Table::new();
    aliases.insert(owned(&["ll"]), "ls -la".to_string());
    aliases.insert(owned(&["cd"]), "echo shadowed".to_string());
    aliases.insert(owned(&["sudo"]), "echo shadowed".to_string());
    assert_eq!(alias_step(1, &owned(&["ll", "src"]), &aliases), Ok(Some("ls -la src".to_string())));
    assert_eq!(alias_step(2, &owned(&["ll", "src"]), &aliases), Ok(None));
    assert_eq!(alias_step(1, &owned(&["cd"]), &aliases), Ok(None));
    assert_eq!(alias_step(1, &owned(&["sudo"]), &aliases), Ok(None));
    assert_eq!(alias_step(1, &owned(&["ls"]), &aliases), Ok(None));
}

#[test]
fn a_lone_builtin_runs_in_the_shell_and_a_lone_sudo_reruns() {
    assert_eq!(dispatch(1, &owned(&["cd", "/tmp"]), false), Dispatch::InShell);
    assert_eq!(dispatch(1, &owned(&["cd", "/tmp"]), true), Dispatch::Start);
    assert_eq!(dispatch(2, &owned(&["jobs"]), false), Dispatch::Start);
    assert_eq!(dispatch(1, &owned(&["sudo"]), false), Dispatch::Rerun);
    assert_eq!(dispatch(1, &owned(&["doas"]), true), Dispatch::Rerun);
    assert_eq!(dispatch(1, &owned(&["sudo", "ls"]), false), Dispatch::Start);
    assert_eq!(dispatch(1, &owned(&["ls"]), false), Dispatch::Start);
    assert_eq!(dispatch(1, &owned(&[]), false), Dispatch::Start);
}

#[test]
fn an_empty_argument_stays_a_separate_word() {
    assert_eq!(shell_quote(""), "''");
    let text = expand_alias_body("printf '<%s>' $@", &owned(&["", "x"])).unwrap();
    assert_eq!(text, "printf '<%s>' '' x");
    let parsed = nshell::parser::parse_line(&text).ok().unwrap();
    let words: Vec<String> = parsed[0].commands[0]
        .words
        .iter()
        .map(|word| word.text.clone())
        .collect();
    assert_eq!(words, owned(&["printf", "<%s>", "", "x"]));
    assert_eq!(builtin_command_text(&owned(&["cd", ""])), "cd ''");
}

#[test]
fn a_line_runs_pipelines_by_their_conditions_and_stops_at_exit() {
    let conditions = vec![Condition::Always, Condition::OnSuccess, Condition::OnFailure, Condition::Always];
    let start = LineRun { next: 0, status: 0, stopped: false };
    assert_eq!(line_next(&conditions, start), LineAction::Run(0));
    // `false && echo a || echo b; echo c`: the first fails, so the second is skipped.
    let after_false = line_after(0, 1, false);
    assert_eq!(line_next(&conditions, after_false), LineAction::Run(2));
    let after_b = line_after(2, 0, false);
    assert_eq!(line_next(&conditions, after_b), LineAction::Run(3));
    let after_c = line_after(3, 0, false);
    assert_eq!(line_next(&conditions, after_c), LineAction::Done(0));
    // `exit 3` in the first pipeline ends the line with its status.
    let after_exit = line_after(0, 3, true);
    assert_eq!(line_next(&conditions, after_exit), LineAction::Done(3));
    assert_eq!(line_next(&Vec::new(), LineRun { next: 0, status: 7, stopped: false }), LineAction::Done(7));
}

#[test]
fn cd_goes_to_oldpwd_the_target_home_or_here() {
    assert_eq!(cd_target(Some("/tmp".to_string()), false, true, true), CdTarget::Given("/tmp".to_string()));
    assert_eq!(cd_target(None, true, true, true), CdTarget::Previous);
    assert_eq!(cd_target(None, true, false, true), CdTarget::Home);
    assert_eq!(cd_target(None, false, true, true), CdTarget::Home);
    assert_eq!(cd_target(None, false, true, false), CdTarget::Current);
}

#[test]
fn directory_stack_returns_to_the_saved_directory() {
    let mut stack: Vec<String> = owned(&["/a"]);
    after_pushd(&mut stack, "/b".to_string(), false);
    assert_eq!(stack, owned(&["/a"]));
    after_pushd(&mut stack, "/b".to_string(), true);
    assert_eq!(stack, owned(&["/a", "/b"]));
    assert_eq!(directory_listing("/c".to_string(), &stack), owned(&["/c", "/b", "/a"]));
    assert_eq!(popd_target(&stack), Some(&"/b".to_string()));
    after_popd(&mut stack, false);
    assert_eq!(stack, owned(&["/a", "/b"]));
    after_popd(&mut stack, true);
    assert_eq!(stack, owned(&["/a"]));
    after_popd(&mut stack, true);
    assert!(popd_target(&stack).is_none());
    after_popd(&mut stack, true);
    assert!(stack.is_empty());
}

#[test]
fn a_line_that_does_not_parse_ends_with_status_two() {
    let (error, status) = nshell::shell::read_for_run("echo 'open").err().unwrap();
    assert_eq!(status, 2);
    assert_eq!(error.message, "unterminated quote");
    assert_eq!(nshell::shell::read_for_run("false; exit").ok().unwrap().len(), 2);
    assert!(nshell::shell::read_for_run("").ok().unwrap().is_empty());
}
