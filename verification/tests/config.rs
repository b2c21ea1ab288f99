use nshell::config::{
    abbreviation_name, alias_name, line_without_comment, parse, quoted, DirectoryStyle,
    PromptColor, PromptLayout, TimeFormat,
};

#[test]
fn parses_prompt_startup_and_aliases() {
    let source = r#"
prompt_style = {
 show-name
 show-dir
 prompt = "$"
}
exec_once_opened = "one"
exec_once_opened = "two"
alias ff > "fastfetch"
alias "fun echo" > {
 echo one;
 echo two;
}
"#;
    let config = parse(source, "test.nsh").unwrap();
    assert_eq!(config.startup, ["one", "two"]);
    assert_eq!(config.prompt.marker, "$");
    assert_eq!(
        config
            .aliases
            .get(&vec!["fun".to_string(), "echo".to_string()])
            .unwrap(),
        "echo one; echo two"
    );
}

#[test]
fn errors_include_location() {
    let error = parse("unknown = true", "bad.nsh").unwrap_err();
    assert_eq!(error.line, 1);
    assert!(error.describe().contains("bad.nsh:1:1"));
}

#[test]
fn hash_inside_quotes_is_not_a_comment() {
    let config = parse(
        "alias color > \"printf '#ffffff'\" # real comment",
        "colors.nsh",
    )
    .unwrap();
    assert_eq!(
        config.aliases.get(&vec!["color".to_string()]).unwrap(),
        "printf '#ffffff'"
    );
}

#[test]
fn parses_extended_prompt_and_environment_settings() {
    let config = parse(
        r#"
prompt_style = {
  show-name
  show-dir
  show-host
  show-status
  show-git
  show-jobs
  show-duration
  show-time
  layout = "framed"
  directory = "short"
  separator = " :: "
  duration-threshold = "1500ms"
  time-format = "12h"
  git-dirty-symbol = "+"
  name-color = "bright-cyan"
  directory-color = "magenta"
  host-color = "yellow"
  room-color = "bright-magenta"
  status-color = "bright-red"
  git-color = "cyan"
  jobs-color = "yellow"
  duration-color = "bright-black"
  time-color = "white"
  frame-color = "blue"
  success-color = "green"
  error-color = "red"
  prompt = ">"
}
environment.EDITOR = "nano"
abbr gs > "git status"
"#,
        "extended.nsh",
    )
    .unwrap();
    assert!(config.prompt.show_name);
    assert!(config.prompt.show_dir);
    assert!(config.prompt.show_host);
    assert!(config.prompt.show_status);
    assert!(config.prompt.show_git);
    assert!(config.prompt.show_jobs);
    assert!(config.prompt.show_duration);
    assert!(config.prompt.show_time);
    assert_eq!(config.prompt.layout, PromptLayout::Framed);
    assert_eq!(config.prompt.directory_style, DirectoryStyle::Short);
    assert_eq!(config.prompt.separator, " :: ");
    assert_eq!(config.prompt.duration_threshold_ms, 1500);
    assert_eq!(config.prompt.time_format, TimeFormat::TwelveHour);
    assert_eq!(config.prompt.git_dirty_symbol, "+");
    assert_eq!(config.prompt.marker, ">");
    assert_eq!(config.prompt.name_color, PromptColor::BrightCyan);
    assert_eq!(config.prompt.directory_color, PromptColor::Magenta);
    assert_eq!(config.prompt.room_color, PromptColor::BrightMagenta);
    assert_eq!(config.prompt.success_color, PromptColor::Green);
    assert_eq!(config.prompt.error_color, PromptColor::Red);
    assert_eq!(
        config.environment.get(&"EDITOR".to_string()).unwrap(),
        "nano"
    );
    assert_eq!(
        config.abbreviations.get(&"gs".to_string()).unwrap(),
        "git status"
    );
}

#[test]
fn rejects_invalid_directory_style() {
    let error = parse(
        "prompt_style = {\nshow-dir\ndirectory = \"tiny\"\n}",
        "bad-dir.nsh",
    )
    .unwrap_err();
    assert!(error.message.contains("full"));
    assert_eq!(error.line, 3);
}

#[test]
fn rejects_repeated_or_misplaced_prompt_line_breaks() {
    let repeated = parse(
        "prompt_style = {\nshow-name\n\\\n\\\nprompt = \">\"\n}",
        "repeated.nsh",
    )
    .unwrap_err();
    assert!(repeated.message.contains("only once"));

    let misplaced = parse(
        "prompt_style = {\n\\\nshow-name\nprompt = \">\"\n}",
        "misplaced.nsh",
    )
    .unwrap_err();
    assert!(misplaced.message.contains("must follow"));
}

#[test]
fn rejects_layout_line_break_conflicts_and_invalid_values() {
    let conflict = parse(
        "prompt_style = {\nshow-dir\nlayout = \"framed\"\n\\\n}",
        "conflict.nsh",
    )
    .unwrap_err();
    assert!(conflict.message.contains("cannot be combined"));

    let layout = parse(
        "prompt_style = {\nshow-dir\nlayout = \"wide\"\n}",
        "layout.nsh",
    )
    .unwrap_err();
    assert!(layout.message.contains("compact"));

    let duration = parse(
        "prompt_style = {\nshow-duration\nduration-threshold = \"soon\"\n}",
        "duration.nsh",
    )
    .unwrap_err();
    assert!(duration.message.contains("ms, s, or m"));
}

#[test]
fn rejects_line_break_outside_prompt_block() {
    let error = parse("\\", "outside.nsh").unwrap_err();
    assert!(error.message.contains("unknown configuration"));
}

#[test]
fn rejects_unknown_prompt_color() {
    let error = parse(
        "prompt_style = {\nshow-name\nname-color = \"orange\"\nprompt = \">\"\n}",
        "bad-color.nsh",
    )
    .unwrap_err();
    assert_eq!(error.line, 3);
    assert!(error.message.contains("unknown color"));
}

#[test]
fn prompt_line_break_sets_two_line_layout() {
    let config = parse(
        "prompt_style = {\nshow-status\n\\\nprompt = \">\"\n}",
        "break.nsh",
    )
    .unwrap();
    assert!(config.prompt.newline);
    assert_eq!(config.prompt.layout, PromptLayout::TwoLine);
    assert!(!config.prompt.show_name);
    assert!(!config.prompt.show_dir);
    assert!(config.prompt.show_status);
}

#[test]
fn durations_and_unclosed_blocks() {
    let config = parse(
        "prompt_style = {\nduration-threshold = \"3s\"\n}",
        "d.nsh",
    )
    .unwrap();
    assert_eq!(config.prompt.duration_threshold_ms, 3000);
    let config = parse(
        "prompt_style = {\nduration-threshold = \"2m\"\n}",
        "d.nsh",
    )
    .unwrap();
    assert_eq!(config.prompt.duration_threshold_ms, 120000);
    let config = parse(
        "prompt_style = {\nduration-threshold = \"18446744073709551615s\"\n}",
        "d.nsh",
    )
    .unwrap();
    assert_eq!(config.prompt.duration_threshold_ms, u64::MAX);
    let error = parse(
        "prompt_style = {\nduration-threshold = \"-1s\"\n}",
        "d.nsh",
    )
    .unwrap_err();
    assert_eq!(error.message, "duration must be a whole non-negative number");
    let error = parse("prompt_style = {\nshow-name\n", "u.nsh").unwrap_err();
    assert_eq!(error.message, "unclosed prompt_style block");
    assert_eq!(error.line, 2);
    let error = parse("alias x > {\necho\n", "a.nsh").unwrap_err();
    assert_eq!(error.message, "unclosed alias block");
    assert_eq!(error.line, 2);
}

#[test]
fn entries_report_their_own_errors() {
    let error = parse("environment.1BAD = \"x\"", "e.nsh").unwrap_err();
    assert_eq!(error.message, "invalid environment variable name");
    let error = parse("environment.GOOD \"x\"", "e.nsh").unwrap_err();
    assert_eq!(error.message, "environment entry requires `=`");
    let error = parse("abbr gs \"git status\"", "e.nsh").unwrap_err();
    assert_eq!(error.message, "abbreviation requires `>`");
    let error = parse("\n\nalias ll > ls", "e.nsh").unwrap_err();
    assert_eq!(error.message, "expected a quoted string");
    assert_eq!(error.line, 3);
    assert_eq!(error.column, 1);
    assert_eq!(error.path, "e.nsh");
    let config = parse("alert_sound = \"bell\"\n", "s.nsh").unwrap();
    assert_eq!(config.alert_sound.as_deref(), Some("bell"));
}

#[test]
fn quoting_helpers_follow_the_file_syntax() {
    assert_eq!(
        quoted(r#""say \"hi\" \\ there""#, "q", 1).unwrap(),
        r#"say "hi" \ there"#
    );
    assert!(quoted("\"", "q", 1).is_err());
    assert_eq!(alias_name("\"two words\"", "q", 1).unwrap(), "two words");
    assert_eq!(alias_name("ll", "q", 1).unwrap(), "ll");
    assert!(alias_name("bad name", "q", 1).is_err());
    assert!(abbreviation_name("", "q", 1).is_err());
    assert_eq!(abbreviation_name("g.s-1", "q", 1).unwrap(), "g.s-1");
    assert_eq!(line_without_comment("a \"#b\" # c"), "a \"#b\" ");
    assert_eq!(line_without_comment("a \"\\\"#\" #c"), "a \"\\\"#\" ");
}

#[test]
fn colors_have_their_codes() {
    assert_eq!(PromptColor::NoColor.ansi_code(), None);
    assert_eq!(PromptColor::Default.ansi_code(), Some("39"));
    assert_eq!(PromptColor::BrightCyan.ansi_code(), Some("96"));
    assert_eq!(PromptColor::Red.ansi_code(), Some("31"));
}

#[test]
fn starter_config_is_valid() {
    let config = parse(nshell::cli::STARTER_CONFIG, "config.nsh").ok().unwrap();
    assert!(config.prompt.show_name);
    assert!(config.prompt.show_dir);
    assert!(!config.prompt.show_git);
    assert_eq!(config.prompt.layout, PromptLayout::TwoLine);
    assert_eq!(config.prompt.marker, ">");
    assert!(config.aliases.entries().is_empty());
    assert!(config.abbreviations.entries().is_empty());
    assert!(config.startup.is_empty());
    assert_eq!(config.alert_sound, None);
}

#[test]
fn reference_config_is_valid_and_complete() {
    let config = parse(nshell::cli::REFERENCE_CONFIG, "config.nsh").ok().unwrap();
    let prompt = &config.prompt;
    assert!(prompt.show_name && prompt.show_dir && prompt.show_host && prompt.show_status);
    assert!(prompt.show_git && prompt.show_jobs && prompt.show_duration && prompt.show_time);
    assert_eq!(prompt.directory_style, DirectoryStyle::Full);
    assert_eq!(prompt.layout, PromptLayout::Framed);
    assert_eq!(prompt.marker, "❯");
    assert_eq!(prompt.duration_threshold_ms, 2000);
    assert_eq!(prompt.time_format, TimeFormat::TwentyFourHour);
    assert_eq!(prompt.error_color, PromptColor::BrightRed);
    assert_eq!(config.environment.get(&"EDITOR".to_string()), Some(&"nano".to_string()));
    assert_eq!(config.startup, vec!["echo Welcome to Nshell".to_string()]);
    assert_eq!(config.abbreviations.get(&"gs".to_string()), Some(&"git status".to_string()));
    let overview = vec!["system".to_string(), "overview".to_string()];
    assert_eq!(config.aliases.get(&overview), Some(&"uname -a".to_string()));
    let mkcd = vec!["mkcd".to_string()];
    assert_eq!(config.aliases.get(&mkcd), Some(&"mkdir -p $1; cd $1".to_string()));
    assert_eq!(config.alert_sound, None);
}

#[test]
fn a_missing_config_file_gives_the_defaults() {
    let config = nshell::config::load_text(None, "missing.nsh").ok().unwrap();
    assert!(config.aliases.entries().is_empty());
    assert!(config.startup.is_empty());
    assert_eq!(config.alert_sound, None);
    assert_eq!(config.prompt.marker, nshell::config::Config::default().prompt.marker);
    let bad = "prompt_style = {\n layout = \"bogus\"\n}\n";
    let error = nshell::config::load_text(Some(bad), "bad.nsh").err().unwrap();
    let direct = parse(bad, "bad.nsh").err().unwrap();
    assert_eq!(error.path, "bad.nsh");
    assert_eq!(error.line, direct.line);
    assert_eq!(error.message, direct.message);
    let parsed = nshell::config::load_text(Some("alias ll > \"ls -la\"\n"), "ok.nsh").ok().unwrap();
    assert_eq!(parsed.aliases.get(&vec!["ll".to_string()]), Some(&"ls -la".to_string()));
}
