use rshell::command::{Command, ParseCommandError};
use rshell::exec_plan::{cd_error_message, echo_line, expand_home, missing_filename_message,
    not_found_message, plan, type_builtin_message, type_found_message, Plan};
use rshell::prompt;
use rshell::redirect::{redirection, Redirect, RedirectPlan};
use rshell::tokenize::tokenize;
use rshell::trie::Trie;

fn strings(words: &[&str]) -> Vec<String> {
    words.iter().map(|w| w.to_string()).collect()
}

#[test]
fn tokenize_double_quoted_run() {
    let toks = tokenize("echo \"a b\" c");
    assert_eq!(toks, strings(&["echo", "a b", "c"]));
}

#[test]
fn tokenize_single_quoted_run() {
    let toks = tokenize("echo 'x y'");
    assert_eq!(toks, strings(&["echo", "x y"]));
}

#[test]
fn tokenize_empty_quotes_collapse() {
    assert_eq!(tokenize("echo \"\""), strings(&["echo"]));
    assert_eq!(tokenize("echo ''"), strings(&["echo"]));
    assert_eq!(tokenize("ab''cd"), strings(&["abcd"]));
}

#[test]
fn tokenize_blank_line_yields_no_tokens() {
    assert_eq!(tokenize(""), strings(&[]));
    assert_eq!(tokenize("   \t  "), strings(&[]));
    assert_eq!(tokenize("''"), strings(&[]));
}

#[test]
fn tokenize_bare_and_operator_tokens() {
    assert_eq!(
        tokenize("echo hi 1>> /tmp/out.txt"),
        strings(&["echo", "hi", "1>>", "/tmp/out.txt"])
    );
    assert_eq!(tokenize("cd ~/dir-1.2_x"), strings(&["cd", "~/dir-1.2_x"]));
}

#[test]
fn tokenize_unclosed_quote_falls_back() {
    assert_eq!(tokenize("\"abc"), strings(&["abc"]));
}

#[test]
fn trie_contains_iff_inserted() {
    let mut t = Trie::new();
    assert!(!t.contains("ls"));
    t.insert("ls");
    t.insert("cat");
    assert!(t.contains("ls"));
    assert!(t.contains("cat"));
    assert!(!t.contains("l"));
    assert!(!t.contains("lsx"));
    assert!(!t.contains(""));
}

#[test]
fn trie_search_ranks_by_count_then_value() {
    let mut t = Trie::new();
    t.insert("cat");
    t.insert("ls");
    t.insert("ls");
    t.insert("awk");
    // "ls" was inserted twice, so it comes first; ties sort by value.
    assert_eq!(t.search(""), strings(&["ls", "awk", "cat"]));
}

#[test]
fn trie_search_prefix_is_restriction_of_full_search() {
    let mut t = Trie::new();
    t.insert("cargo");
    t.insert("cat");
    t.insert("ls");
    let all = t.search("");
    let with_ca: Vec<String> = all
        .iter()
        .filter(|s| s.starts_with("ca"))
        .cloned()
        .collect();
    assert_eq!(t.search("ca"), with_ca);
    assert_eq!(t.search("zz"), strings(&[]));
}

#[test]
fn trie_double_insert_makes_no_duplicate() {
    let mut t = Trie::new();
    t.insert("ls");
    t.insert("ls");
    assert_eq!(t.search(""), strings(&["ls"]));
    assert_eq!(t.search("l"), strings(&["ls"]));
}

#[test]
fn trie_search_walk_failure_is_empty() {
    let mut t = Trie::new();
    t.insert("echo");
    assert_eq!(t.search("echox"), strings(&[]));
}

#[test]
fn redirection_finds_stdout_truncate() {
    let args = strings(&["echo", "hi", ">", "out.txt"]);
    let r = redirection(&args).unwrap().unwrap();
    assert_eq!(r.0, Redirect::OutputRedir);
    assert_eq!(r.1, "out.txt".to_string());
    assert_eq!(r.2, 2);
}

#[test]
fn redirection_missing_filename_is_an_error() {
    let args = strings(&["echo", "hi", ">"]);
    assert!(redirection(&args).is_err());
}

#[test]
fn redirection_absent_is_none() {
    let args = strings(&["echo", "hi"]);
    assert!(redirection(&args).unwrap().is_none());
}

#[test]
fn redirection_recognises_all_operators() {
    for (tok, want) in [
        (">", Redirect::OutputRedir),
        ("1>", Redirect::OutputRedir),
        ("2>", Redirect::ErrRedir),
        (">>", Redirect::OutputAppend),
        ("1>>", Redirect::OutputAppend),
        ("2>>", Redirect::ErrAppend),
    ] {
        let args = strings(&["x", tok, "f"]);
        let r = redirection(&args).unwrap().unwrap();
        assert_eq!(r.0, want);
        assert_eq!(r.2, 1);
    }
}

#[test]
fn classifier_knows_the_builtins() {
    assert_eq!(Command::from_token("exit"), Ok(Command::Exit));
    assert_eq!(Command::from_token("echo"), Ok(Command::Echo));
    assert_eq!(Command::from_token("type"), Ok(Command::Type));
    assert_eq!(Command::from_token("pwd"), Ok(Command::Pwd));
    assert_eq!(Command::from_token("cd"), Ok(Command::Cd));
    assert_eq!(Command::from_token("emacs"), Err(ParseCommandError));
    assert_eq!(Command::name(&Command::Cd), "cd".to_string());
}

#[test]
fn echo_line_joins_with_spaces_and_newline() {
    let args = strings(&["echo", "hi"]);
    assert_eq!(echo_line(&args, 1, 2), "hi\n".to_string());
    let args = strings(&["echo", "a", "b", "c"]);
    assert_eq!(echo_line(&args, 1, 4), "a b c\n".to_string());
    let args = strings(&["echo"]);
    assert_eq!(echo_line(&args, 1, 1), "\n".to_string());
}

#[test]
fn plan_echo_truncate_writes_exactly_hi() {
    let args = strings(&["echo", "hi", ">", "out.txt"]);
    match plan(&args, "/home/u") {
        Plan::EchoFile { target, append, line } => {
            assert_eq!(target, "out.txt".to_string());
            assert!(!append);
            assert_eq!(line, "hi\n".to_string());
        }
        _ => panic!("expected a file echo"),
    }
}

#[test]
fn plan_echo_append_keeps_appending() {
    let args = strings(&["echo", "hi", ">>", "out.txt"]);
    match plan(&args, "/home/u") {
        Plan::EchoFile { append, .. } => assert!(append),
        _ => panic!("expected a file echo"),
    }
}

#[test]
fn plan_echo_without_redirect_writes_to_stdout() {
    let args = strings(&["echo", "a", "b"]);
    match plan(&args, "/home/u") {
        Plan::EchoOut { line } => assert_eq!(line, "a b\n".to_string()),
        _ => panic!("expected a stdout echo"),
    }
}

#[test]
fn plan_echo_missing_target() {
    let args = strings(&["echo", "hi", "2>"]);
    assert!(matches!(plan(&args, "/h"), Plan::EchoMissingTarget));
}

#[test]
fn plan_cd_expands_home_and_keeps_raw() {
    let args = strings(&["cd", "~/work"]);
    match plan(&args, "/home/u") {
        Plan::Cd { target, raw } => {
            assert_eq!(target, "/home/u/work".to_string());
            assert_eq!(raw, "~/work".to_string());
        }
        _ => panic!("expected a directory change"),
    }
    assert_eq!(expand_home("~", "/home/u"), "/home/u".to_string());
    assert_eq!(expand_home("/etc", "/home/u"), "/etc".to_string());
    assert!(matches!(plan(&strings(&["cd"]), "/h"), Plan::CdNoop));
}

#[test]
fn plan_simple_commands() {
    assert!(matches!(plan(&strings(&[]), "/h"), Plan::Noop));
    assert!(matches!(plan(&strings(&["exit"]), "/h"), Plan::Exit));
    assert!(matches!(plan(&strings(&["exit", "0"]), "/h"), Plan::Exit));
    assert!(matches!(plan(&strings(&["pwd"]), "/h"), Plan::Pwd));
}

#[test]
fn plan_type_collects_names() {
    let args = strings(&["type", "cd", "nonexistent_cmd_xyz"]);
    match plan(&args, "/h") {
        Plan::TypeQuery { names } => {
            assert_eq!(names, strings(&["cd", "nonexistent_cmd_xyz"]));
        }
        _ => panic!("expected a type query"),
    }
}

#[test]
fn plan_external_passes_arguments_through() {
    let args = strings(&["ls", "-l", "/tmp"]);
    match plan(&args, "/h") {
        Plan::External { name, args, redirect } => {
            assert_eq!(name, "ls".to_string());
            assert_eq!(args, strings(&["-l", "/tmp"]));
            assert!(matches!(redirect, RedirectPlan::NoRedirect));
        }
        _ => panic!("expected an external command"),
    }
}

#[test]
fn plan_external_cuts_arguments_at_the_operator() {
    let args = strings(&["prog", "a", "2>>", "err.log"]);
    match plan(&args, "/h") {
        Plan::External { name, args, redirect } => {
            assert_eq!(name, "prog".to_string());
            assert_eq!(args, strings(&["a"]));
            match redirect {
                RedirectPlan::Capture { redirect, target } => {
                    assert_eq!(redirect, Redirect::ErrAppend);
                    assert!(redirect.is_stderr());
                    assert!(redirect.is_append());
                    assert_eq!(target, "err.log".to_string());
                }
                _ => panic!("expected a capture"),
            }
        }
        _ => panic!("expected an external command"),
    }
}

#[test]
fn plan_external_missing_target() {
    let args = strings(&["prog", "a", ">"]);
    match plan(&args, "/h") {
        Plan::External { redirect, .. } => {
            assert!(matches!(redirect, RedirectPlan::MissingTarget));
        }
        _ => panic!("expected an external command"),
    }
}

#[test]
fn messages_match_the_documented_wording() {
    assert_eq!(
        cd_error_message("/no/such"),
        "cd: /no/such: No such file or directory".to_string()
    );
    assert_eq!(
        not_found_message("nonexistent_cmd_xyz"),
        "nonexistent_cmd_xyz: not found".to_string()
    );
    assert_eq!(type_builtin_message("cd"), "cd is a shell builtin".to_string());
    assert_eq!(type_found_message("ls", "/bin/ls"), "ls is /bin/ls".to_string());
    assert_eq!(missing_filename_message(), "missing filename".to_string());
    assert_eq!(prompt(), "$ ".to_string());
}
