//! The flag surface, fed token by token as the argument lexer hands them
//! over.

use osfacts::cli::{
    parse_host, parse_pid_list, parse_pid_text, parse_snapshot, parse_socket_holders, select_verb, takes_value,
    unexpected, CliError, Scope, Token, Verb, HELP,
};
use osfacts::Facet;

fn long(name: &str) -> Token {
    Token::Long(name.to_owned())
}

fn with_value(name: &str, value: &str) -> Token {
    Token::LongWithValue(name.to_owned(), Ok(value.as_bytes().to_vec()))
}

fn usage_text(e: CliError) -> String {
    match e {
        CliError::Usage(m) => m,
        CliError::Help(_) => panic!("expected a usage error"),
    }
}

#[test]
fn the_first_argument_selects_the_verb() {
    assert_eq!(
        select_verb(Some(&Token::Value(b"snapshot".to_vec()))),
        Ok(Some(Verb::Snapshot))
    );
    assert_eq!(
        select_verb(Some(&Token::Value(b"socket-holders".to_vec()))),
        Ok(Some(Verb::SocketHolders))
    );
    assert_eq!(
        select_verb(Some(&Token::Value(b"host".to_vec()))),
        Ok(Some(Verb::Host))
    );
    assert_eq!(select_verb(None), Err(CliError::Help(HELP.to_owned())));
    assert_eq!(
        select_verb(Some(&Token::Value(b"-h".to_vec()))),
        Err(CliError::Help(HELP.to_owned()))
    );
    assert_eq!(select_verb(Some(&long("help"))), Err(CliError::Help(HELP.to_owned())));
    assert_eq!(select_verb(Some(&long("procs"))), Ok(None));
}

#[test]
fn an_unknown_verb_is_a_usage_error_naming_it() {
    let e = select_verb(Some(&Token::Value(b"shapshot".to_vec()))).unwrap_err();
    assert_eq!(usage_text(e), format!("unknown command 'shapshot'\n\n{HELP}"));
    assert_eq!(
        usage_text(unexpected("Long(\"x\")")),
        format!("unexpected Long(\"x\")\n\n{HELP}")
    );
}

#[test]
fn only_roots_and_pids_take_values() {
    assert!(takes_value(Verb::Snapshot, "roots"));
    assert!(takes_value(Verb::Snapshot, "pids"));
    assert!(!takes_value(Verb::Snapshot, "procs"));
    assert!(!takes_value(Verb::Host, "pids"));
}

#[test]
fn a_snapshot_ask_collects_its_facets_and_scope() {
    let args = parse_snapshot(&[with_value("pids", "1, 2,3"), long("procs"), long("uid"), long("json")])
        .expect("ask");
    assert_eq!(args.scope, Scope::Pids(vec![1, 2, 3]));
    assert!(args.procs && args.uid && args.json);
    assert!(!args.ports && !args.mem);
    assert_eq!(args.asked_facets(), vec![Facet::Proc, Facet::Uid]);
}

#[test]
fn roots_and_pids_are_mutually_exclusive() {
    let e = parse_snapshot(&[with_value("roots", "1"), with_value("pids", "2"), long("procs")])
        .unwrap_err();
    assert_eq!(usage_text(e), "--roots and --pids are mutually exclusive");
}

#[test]
fn a_snapshot_ask_needs_a_facet() {
    let e = parse_snapshot(&[long("json")]).unwrap_err();
    assert_eq!(
        usage_text(e),
        format!("at least one snapshot facet required\n\n{HELP}")
    );
    let args = parse_snapshot(&[long("ports")]).expect("ask");
    assert_eq!(args.scope, Scope::Host);
}

#[test]
fn a_snapshot_ask_refuses_what_it_does_not_take() {
    let e = parse_snapshot(&[long("procs"), long("bogus")]).unwrap_err();
    assert_eq!(usage_text(e), format!("unexpected argument\n\n{HELP}"));
    assert_eq!(
        parse_snapshot(&[long("help")]),
        Err(CliError::Help(HELP.to_owned()))
    );
    assert_eq!(
        parse_snapshot(&[Token::Short('h')]),
        Err(CliError::Help(HELP.to_owned()))
    );
    assert_eq!(
        parse_snapshot(&[Token::LongWithValue("pids".into(), Err("missing value".into()))]),
        Err(CliError::Usage("missing value".into()))
    );
    assert_eq!(
        parse_snapshot(&[long("procs"), Token::Malformed("bad".into())]),
        Err(CliError::Usage("bad".into()))
    );
}

#[test]
fn pid_lists_are_trimmed_and_refuse_zero() {
    assert_eq!(parse_pid_list(b"5"), Ok(vec![5]));
    assert_eq!(parse_pid_list(b" 5 ,\t6"), Ok(vec![5, 6]));
    assert_eq!(
        parse_pid_list(b""),
        Err(CliError::Usage("pid list must not be empty".into()))
    );
    assert_eq!(
        parse_pid_list(b"1,x"),
        Err(CliError::Usage("not a pid: 'x'".into()))
    );
    assert_eq!(
        parse_pid_list(b"1,"),
        Err(CliError::Usage("not a pid: ''".into()))
    );
    assert_eq!(
        parse_pid_list(b"0"),
        Err(CliError::Usage("pid 0 is not a process".into()))
    );
    assert_eq!(
        parse_pid_list(b"4294967296"),
        Err(CliError::Usage("not a pid: '4294967296'".into()))
    );
}

#[test]
fn pid_list_bytes_are_decoded_before_parsing() {
    assert_eq!(parse_pid_text("12, 13"), Ok(vec![12, 13]));
    assert_eq!(
        parse_pid_text("  "),
        Err(CliError::Usage("not a pid: ''".into()))
    );
    assert_eq!(
        parse_pid_list(b"7,\xff"),
        Err(CliError::Usage("not a pid: '\u{fffd}'".into()))
    );
}

#[test]
fn a_holder_ask_takes_exactly_one_path() {
    let args = parse_socket_holders(&[
        Token::Value(b"/run/a b.sock".to_vec()),
        long("procs"),
    ])
    .expect("ask");
    assert_eq!(args.path, b"/run/a b.sock".to_vec());
    assert!(args.procs && !args.json);
    let e = parse_socket_holders(&[Token::Value(b"/a".to_vec()), Token::Value(b"/b".to_vec())])
        .unwrap_err();
    assert_eq!(
        usage_text(e),
        format!("socket-holders takes exactly one PATH\n\n{HELP}")
    );
    let e = parse_socket_holders(&[long("procs")]).unwrap_err();
    assert_eq!(usage_text(e), format!("socket-holders needs a PATH\n\n{HELP}"));
    let e = parse_socket_holders(&[Token::Value(Vec::new())]).unwrap_err();
    assert_eq!(usage_text(e), "socket path must not be empty");
}

#[test]
fn a_host_ask_needs_a_facet() {
    let args = parse_host(&[long("load"), long("disk")]).expect("ask");
    assert!(args.load && args.disk && !args.mem && !args.json);
    let e = parse_host(&[long("json")]).unwrap_err();
    assert_eq!(
        usage_text(e),
        format!("at least one host facet required\n\n{HELP}")
    );
    let e = parse_host(&[Token::Value(b"x".to_vec())]).unwrap_err();
    assert_eq!(usage_text(e), format!("unexpected argument\n\n{HELP}"));
}

#[test]
fn pids_then_roots_is_refused_too() {
    let e = parse_snapshot(&[with_value("pids", "2"), long("procs"), with_value("roots", "1")])
        .unwrap_err();
    assert_eq!(usage_text(e), "--roots and --pids are mutually exclusive");
}

#[test]
fn a_repeated_scope_option_keeps_the_last_list() {
    let args = parse_snapshot(&[with_value("roots", "1"), with_value("roots", "7,8"), long("mem")])
        .expect("ask");
    assert_eq!(args.scope, Scope::Roots(vec![7, 8]));
}

#[test]
fn help_exits_zero_and_usage_exits_two() {
    assert_eq!(osfacts::cli::refusal_exit_code(&CliError::Help(HELP.into())), 0);
    assert_eq!(osfacts::cli::refusal_exit_code(&CliError::Usage("x".into())), 2);
}
