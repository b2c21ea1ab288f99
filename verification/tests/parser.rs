use nshell::parser::{parse_line, Condition, RedirectKind};

#[test]
fn parses_quotes_pipes_redirects_and_sequence() {
    let parsed = parse_line(r#"echo "hello world" | cat >> out; false &"#).unwrap();
    assert_eq!(parsed.len(), 2);
    assert_eq!(
        parsed[0].commands[0]
            .words
            .iter()
            .map(|word| word.text.as_str())
            .collect::<Vec<_>>(),
        ["echo", "hello world"]
    );
    assert_eq!(
        parsed[0].commands[1].redirects[0].kind,
        RedirectKind::Append
    );
    assert!(parsed[1].background);
}

#[test]
fn reports_unterminated_quote() {
    assert!(parse_line("echo 'no")
        .unwrap_err()
        .message
        .contains("unterminated"));
}

#[test]
fn preserves_empty_quoted_arguments_and_unicode_sources() {
    let parsed = parse_line("printf '%s' \"\"; echo привет").unwrap();
    assert_eq!(
        parsed[0].commands[0]
            .words
            .iter()
            .map(|word| word.text.as_str())
            .collect::<Vec<_>>(),
        ["printf", "%s", ""]
    );
    assert_eq!(parsed[0].source, "printf '%s' \"\"");
    assert_eq!(parsed[1].source, "echo привет");
}

#[test]
fn preserves_non_special_backslashes_inside_double_quotes() {
    let parsed = parse_line(r#"printf "<%s>\n" value"#).unwrap();
    assert_eq!(parsed[0].commands[0].words[1].text, r#"<%s>\n"#);
}

#[test]
fn parses_conditional_pipeline_chains() {
    let parsed = parse_line("false && echo no || printf yes; echo done").unwrap();
    assert_eq!(parsed.len(), 4);
    assert_eq!(parsed[0].condition, Condition::Always);
    assert_eq!(parsed[1].condition, Condition::OnSuccess);
    assert_eq!(parsed[2].condition, Condition::OnFailure);
    assert_eq!(parsed[3].condition, Condition::Always);
}

#[test]
fn rejects_missing_conditional_commands() {
    assert!(
        parse_line("echo yes &&")
            .unwrap_err()
            .message
            .contains("expected command")
    );
    assert!(parse_line("|| echo no").is_err());
}

#[test]
fn conditional_operators_do_not_leak_into_pipeline_sources() {
    let parsed = parse_line("false && echo no || echo yes").unwrap();
    assert_eq!(parsed[0].source, "false");
    assert_eq!(parsed[1].source, "echo no");
    assert_eq!(parsed[2].source, "echo yes");
}

#[test]
fn conditional_operator_cannot_be_a_redirect_path() {
    assert!(
        parse_line("echo > && echo no")
            .unwrap_err()
            .message
            .contains("redirect requires a path")
    );
}

#[test]
fn marks_only_unquoted_wildcards_for_expansion() {
    let parsed = parse_line(r#"echo *.rs "*.txt" \?.md"#).unwrap();
    let words = &parsed[0].commands[0].words;
    assert!(words[1].has_glob);
    assert!(!words[2].has_glob);
    assert!(!words[3].has_glob);
}

#[test]
fn quoted_words_parse_back_as_themselves() {
    for word in ["", "plain", "two words", "it's", "a\"b", "semi;colon", "#hash"] {
        let line = format!("echo {}", nshell::shell::shell_quote(word));
        let parsed = parse_line(&line).ok().unwrap();
        assert_eq!(parsed.len(), 1);
        assert_eq!(parsed[0].commands.len(), 1);
        let words: Vec<&str> = parsed[0].commands[0].words.iter().map(|w| w.text.as_str()).collect();
        assert_eq!(words, vec!["echo", word]);
    }
}

#[test]
fn parsed_lines_have_their_documented_shape() {
    let parsed = parse_line("  a | b && c ; d & e || f  ").ok().unwrap();
    assert_eq!(parsed.len(), 5);
    assert_eq!(parsed[0].condition, Condition::Always);
    assert_eq!(parsed[0].commands.len(), 2);
    assert_eq!(parsed[1].condition, Condition::OnSuccess);
    assert_eq!(parsed[2].condition, Condition::Always);
    assert!(parsed[2].background);
    assert_eq!(parsed[3].condition, Condition::Always);
    assert!(!parsed[3].background);
    assert_eq!(parsed[4].condition, Condition::OnFailure);
    assert_eq!(parsed[4].source, "f");
    for pipeline in &parsed {
        assert_eq!(pipeline.source, pipeline.source.trim());
        assert!(pipeline.commands.iter().all(|command| !command.words.is_empty()));
    }
}

#[test]
fn comments_blank_lines_and_redirect_kinds() {
    assert!(parse_line("").unwrap().is_empty());
    assert!(parse_line("   # only a comment").unwrap().is_empty());
    let parsed = parse_line("cmd < in > out 2> err 2>> log >> more # tail").unwrap();
    assert_eq!(parsed.len(), 1);
    let command = &parsed[0].commands[0];
    assert_eq!(command.words.len(), 1);
    assert_eq!(command.words[0].text, "cmd");
    let kinds: Vec<RedirectKind> = command.redirects.iter().map(|r| r.kind).collect();
    assert_eq!(
        kinds,
        [
            RedirectKind::Input,
            RedirectKind::Output,
            RedirectKind::Error,
            RedirectKind::ErrorAppend,
            RedirectKind::Append
        ]
    );
    let paths: Vec<&str> = command.redirects.iter().map(|r| r.path.as_str()).collect();
    assert_eq!(paths, ["in", "out", "err", "log", "more"]);
    assert_eq!(parsed[0].source, "cmd < in > out 2> err 2>> log >> more # tail");
}

#[test]
fn syntax_faults_name_their_cause() {
    assert_eq!(parse_line("echo a\\").unwrap_err().message, "trailing escape");
    assert_eq!(parse_line("echo \"open").unwrap_err().message, "unterminated quote");
    assert_eq!(parse_line("| cat").unwrap_err().message, "expected command before pipe");
    assert_eq!(parse_line("echo |").unwrap_err().message, "expected command after pipe");
    assert_eq!(
        parse_line("echo a ||").unwrap_err().message,
        "expected command after conditional operator"
    );
}

#[test]
fn separators_decide_background_and_the_next_condition() {
    let parsed = parse_line("a & b ; c && d || e").unwrap();
    let background: Vec<bool> = parsed.iter().map(|p| p.background).collect();
    assert_eq!(background, [true, false, false, false, false]);
    let conditions: Vec<Condition> = parsed.iter().map(|p| p.condition).collect();
    assert_eq!(
        conditions,
        [
            Condition::Always,
            Condition::Always,
            Condition::Always,
            Condition::OnSuccess,
            Condition::OnFailure
        ]
    );
    assert_eq!(parse_line("a ; b &").unwrap().len(), 2);
    assert!(parse_line("a ; b &").unwrap()[1].background);
}
