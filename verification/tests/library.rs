use ion_parser::grammar::{parse, pipelines, Statement};
use ion_parser::job::{expand_arg, contains_glob_char, Job, Pipeline, Redirection};
use ion_parser::lexer::{tokenize, Token};
use ion_parser::pipeline_parser::parse_pipeline;
use ion_parser::splitter::{chars_of, PipelineIterator};

fn strings(words: &[&str]) -> Vec<String> {
    words.iter().map(|w| w.to_string()).collect()
}

fn pieces(script: &str) -> Vec<String> {
    let mut it = PipelineIterator::new(script);
    let mut out = Vec::new();
    while let Some(piece) = it.next() {
        out.push(piece.to_string());
    }
    out
}

#[test]
fn iterator_splits_at_top_level_separators() {
    assert_eq!(pieces("ls -al;cat tmp.txt"), vec!["ls -al", "cat tmp.txt"]);
    assert_eq!(pieces("a\nb\rc"), vec!["a", "b", "c"]);
}

#[test]
fn iterator_keeps_quoted_and_escaped_separators() {
    assert_eq!(pieces("echo 'a;b' \"c;d\""), vec!["echo 'a;b' \"c;d\""]);
    assert_eq!(pieces("echo a\\;b"), vec!["echo a\\;b"]);
    assert_eq!(pieces("echo $(a; b); c"), vec!["echo $(a; b)", "c"]);
}

#[test]
fn iterator_drops_comments() {
    assert_eq!(pieces("cat # x; y"), vec!["cat"]);
    assert_eq!(pieces("# only a comment"), Vec::<String>::new());
    assert_eq!(pieces("a # c\nb"), vec!["a", "b"]);
    assert_eq!(pieces("echo#x"), vec!["echo#x"]);
}

#[test]
fn iterator_on_blank_script_yields_nothing() {
    assert_eq!(pieces(" \t\n\r "), Vec::<String>::new());
}

#[test]
fn iterator_stays_exhausted() {
    let mut it = PipelineIterator::new("a;b");
    assert_eq!(it.next(), Some("a"));
    assert_eq!(it.next(), Some("b"));
    assert_eq!(it.next(), None);
    assert_eq!(it.next(), None);
    assert_eq!(it.next(), None);
}

#[test]
fn iterator_keeps_trailing_blanks_of_last_piece() {
    assert_eq!(pieces("ls -al\t "), vec!["ls -al\t "]);
    assert_eq!(pieces("  echo"), vec!["echo"]);
}

#[test]
fn tokens_of_a_pipeline() {
    let text = "a|b&<c>d>>e";
    let chars = chars_of(text);
    let ts = tokenize(&chars).unwrap();
    assert_eq!(
        ts,
        vec![
            Token::Word(0, 1),
            Token::Pipe,
            Token::Word(2, 3),
            Token::Background,
            Token::Input,
            Token::Word(5, 6),
            Token::Output,
            Token::Word(7, 8),
            Token::Append,
            Token::Word(10, 11),
        ]
    );
}

#[test]
fn unclosed_quote_is_no_token_list() {
    assert!(tokenize(&chars_of("echo \"abc")).is_none());
    assert!(tokenize(&chars_of("echo 'abc")).is_none());
    assert!(tokenize(&chars_of("echo $(abc")).is_none());
}

#[test]
fn parse_pipeline_reads_jobs_and_redirections() {
    let p = parse_pipeline("cat a | grep b & > out < in").unwrap();
    assert_eq!(p.jobs.len(), 2);
    assert_eq!(p.jobs[0].args, strings(&["cat", "a"]));
    assert!(!p.jobs[0].background);
    assert_eq!(p.jobs[1].command, "grep");
    assert!(p.jobs[1].background);
    assert_eq!(p.stdout, Some(Redirection { file: "out".to_string(), append: false }));
    assert_eq!(p.stdin, Some(Redirection { file: "in".to_string(), append: false }));
}

#[test]
fn later_redirection_replaces_earlier() {
    let p = parse_pipeline("cat > a >> b").unwrap();
    assert_eq!(p.stdout, Some(Redirection { file: "b".to_string(), append: true }));
}

#[test]
fn malformed_pipelines_are_rejected() {
    assert!(parse_pipeline("| cat").is_none());
    assert!(parse_pipeline("cat |").is_none());
    assert!(parse_pipeline("cat >").is_none());
    assert!(parse_pipeline("cat > a b").is_none());
    assert!(parse_pipeline("echo \"abc").is_none());
    assert!(parse_pipeline("").is_none());
}

#[test]
fn escaped_blank_stays_in_word() {
    let p = parse_pipeline("echo a\\ b").unwrap();
    assert_eq!(p.jobs[0].args, strings(&["echo", "a\\ b"]));
}

#[test]
fn pieces_that_form_no_pipeline_are_left_out() {
    if let Ok(Statement::Pipelines(ps)) = pipelines("echo a; | x; echo b") {
        assert_eq!(ps.len(), 2);
        assert_eq!(ps[0].jobs[0].args, strings(&["echo", "a"]));
        assert_eq!(ps[1].jobs[0].args, strings(&["echo", "b"]));
    } else {
        panic!("pipelines always succeeds");
    }
}

#[test]
fn keyword_statements_take_precedence() {
    assert_eq!(parse("else"), Statement::Else);
    assert_eq!(parse(" end "), Statement::End);
    if let Statement::Pipelines(ps) = parse("if a") {
        assert_eq!(ps[0].jobs[0].args, strings(&["if", "a"]));
    } else {
        panic!("not a full if statement");
    }
    if let Statement::Pipelines(ps) = parse("fn a-b") {
        assert_eq!(ps.len(), 1);
    } else {
        panic!("not a name");
    }
}

#[test]
fn job_new_takes_first_argument_as_command() {
    let job = Job::new(strings(&["ls", "-l"]), true);
    assert_eq!(job.command, "ls");
    assert_eq!(job.args, strings(&["ls", "-l"]));
    assert!(job.background);
    assert_eq!(job.command_arguments(), strings(&["-l"]));
    let lone = Job::new(strings(&["pwd"]), false);
    assert_eq!(lone.command_arguments(), Vec::<String>::new());
}

#[test]
fn pipeline_new_keeps_its_parts() {
    let job = Job::new(strings(&["cat"]), false);
    let input = Some(Redirection { file: "in".to_string(), append: false });
    let p = Pipeline::new(vec![job.clone()], input.clone(), None);
    assert_eq!(p.jobs, vec![job]);
    assert_eq!(p.stdin, input);
    assert_eq!(p.stdout, None);
}

#[test]
fn glob_characters_are_recognised() {
    assert!(contains_glob_char(&"*.rs".to_string()));
    assert!(contains_glob_char(&"a?".to_string()));
    assert!(contains_glob_char(&"[ab]".to_string()));
    assert!(!contains_glob_char(&"plain".to_string()));
}

#[test]
fn expand_arg_with_given_outcomes() {
    let found = Some(vec![Some("a.rs".to_string()), None, Some("b.rs".to_string())]);
    assert_eq!(expand_arg("*.rs".to_string(), found), strings(&["a.rs", "b.rs"]));
    assert_eq!(expand_arg("*.rs".to_string(), Some(vec![None])), strings(&["*.rs"]));
    assert_eq!(expand_arg("*.rs".to_string(), None), strings(&["*.rs"]));
    let ignored = Some(vec![Some("x".to_string())]);
    assert_eq!(expand_arg("plain".to_string(), ignored), strings(&["plain"]));
}

#[test]
fn expand_globs_leaves_plain_arguments() {
    let mut job = Job::new(strings(&["echo", "a", "b"]), false);
    job.expand_globs();
    assert_eq!(job.args, strings(&["echo", "a", "b"]));
    assert_eq!(job.command, "echo");
}

#[test]
fn expand_globs_replaces_patterns_by_paths() {
    let mut job = Job::new(strings(&["ls", "/e?c", "/no_such_dir_for_globbing/*", "["]), false);
    job.expand_globs();
    assert_eq!(job.args, strings(&["ls", "/etc", "/no_such_dir_for_globbing/*", "["]));
}

#[test]
fn pipeline_expand_globs_expands_every_job() {
    let a = Job::new(strings(&["ls", "/e?c"]), false);
    let b = Job::new(strings(&["cat", "x"]), true);
    let mut p = Pipeline::new(vec![a, b], None, None);
    p.expand_globs();
    assert_eq!(p.jobs[0].args, strings(&["ls", "/etc"]));
    assert_eq!(p.jobs[1].args, strings(&["cat", "x"]));
    assert!(p.jobs[1].background);
}

#[test]
fn quoted_text_is_one_token() {
    assert_eq!(tokenize(&chars_of("\"a b|c\"")).unwrap(), vec![Token::Word(0, 7)]);
    assert_eq!(tokenize(&chars_of("'x;y'")).unwrap(), vec![Token::Word(0, 5)]);
}

#[test]
fn every_job_runs_its_first_word() {
    let p = parse_pipeline("a 1 | b 2 3 | c").unwrap();
    for job in &p.jobs {
        assert!(!job.args.is_empty());
        assert_eq!(job.command, job.args[0]);
    }
}

#[test]
fn blank_and_comment_lines_are_empty() {
    assert_eq!(parse(" \t "), Statement::Pipelines(vec![]));
    assert_eq!(parse("# if a == b"), Statement::Pipelines(vec![]));
}
