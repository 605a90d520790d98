use foxy_ircd::invocation::{
    launch_from, plan_invocation, server_options, thread_count, usage_text, GivenOptions, Launch,
    ParseFailure, BAD_THREADS, NEED_ARGUMENT,
};

fn args(list: &[&str]) -> Vec<String> {
    list.iter().map(|s| s.to_string()).collect()
}

fn strings(list: &[&str]) -> Vec<String> {
    args(list)
}

fn expect_run(l: Launch, threads: usize, listen: &[&str], listen_tls: &[&str]) {
    match l {
        Launch::Run { threads: t, listen: a, listen_tls: b } => {
            assert_eq!(t, threads);
            assert_eq!(a, strings(listen));
            assert_eq!(b, strings(listen_tls));
        },
        other => panic!("expected a start, got {:?}", other),
    }
}

fn expect_usage(l: Launch) -> Option<String> {
    match l {
        Launch::Usage(m) => m,
        other => panic!("expected help, got {:?}", other),
    }
}

#[test]
fn thread_counts() {
    assert_eq!(thread_count(None, 8), Some(1));
    assert_eq!(thread_count(Some("1"), 8), Some(1));
    assert_eq!(thread_count(Some("auto"), 8), Some(8));
    assert_eq!(thread_count(Some("4"), 8), Some(4));
    assert_eq!(thread_count(Some("+12"), 8), Some(12));
    assert_eq!(thread_count(Some("007"), 8), Some(7));
    assert_eq!(thread_count(Some("0"), 8), None);
    assert_eq!(thread_count(Some(""), 8), None);
    assert_eq!(thread_count(Some("two"), 8), None);
    assert_eq!(thread_count(Some(" 4"), 8), None);
    assert_eq!(thread_count(Some("-4"), 8), None);
    assert_eq!(thread_count(Some("AUTO"), 8), None);
    assert_eq!(thread_count(Some("99999999999999999999999999"), 8), None);
}

#[test]
fn no_arguments_asks_for_one() {
    assert_eq!(expect_usage(plan_invocation(&args(&["foxy"]))), Some(NEED_ARGUMENT.to_string()));
    assert_eq!(expect_usage(plan_invocation(&args(&[]))), Some(NEED_ARGUMENT.to_string()));
}

#[test]
fn double_dash_starts_with_defaults() {
    expect_run(plan_invocation(&args(&["foxy", "--"])), 1, &["[::]:6667"], &[]);
}

#[test]
fn listeners_as_given() {
    expect_run(
        plan_invocation(&args(&["foxy", "-l", "127.0.0.1:6667", "--listen", "[::1]:7000"])),
        1,
        &["127.0.0.1:6667", "[::1]:7000"],
        &[],
    );
    expect_run(plan_invocation(&args(&["foxy", "-s", "0.0.0.0:6697"])), 1, &[], &["0.0.0.0:6697"]);
    expect_run(
        plan_invocation(&args(&["foxy", "-t", "3", "-d", "db", "-l", "a:1"])),
        3,
        &["a:1"],
        &[],
    );
}

#[test]
fn help_wins() {
    assert_eq!(expect_usage(plan_invocation(&args(&["foxy", "-h"]))), None);
    assert_eq!(expect_usage(plan_invocation(&args(&["foxy", "--usage", "-t", "0"]))), None);
    assert_eq!(expect_usage(plan_invocation(&args(&["foxy", "-?"]))), None);
}

#[test]
fn bad_thread_counts() {
    assert_eq!(
        expect_usage(plan_invocation(&args(&["foxy", "-t", "0"]))),
        Some(BAD_THREADS.to_string())
    );
    assert_eq!(
        expect_usage(plan_invocation(&args(&["foxy", "--threads=lots"]))),
        Some("Invalid number of threads specified.".to_string())
    );
}

#[test]
fn auto_threads_use_the_cpu_count() {
    match plan_invocation(&args(&["foxy", "-t", "auto"])) {
        Launch::Run { threads, .. } => assert!(threads >= 1),
        other => panic!("expected a start, got {:?}", other),
    }
}

#[test]
fn refused_options_explain_themselves() {
    assert_eq!(
        expect_usage(plan_invocation(&args(&["foxy", "--bogus"]))),
        Some("Unrecognized option: 'bogus'".to_string())
    );
    assert_eq!(
        expect_usage(plan_invocation(&args(&["foxy", "-l"]))),
        Some("Argument to option 'l' missing".to_string())
    );
    assert_eq!(
        expect_usage(plan_invocation(&args(&["foxy", "-t", "1", "-t", "2"]))),
        Some("Option 'threads' given more than once".to_string())
    );
    assert_eq!(
        expect_usage(plan_invocation(&args(&["foxy", "--help=yes"]))),
        Some("Option 'help' does not take an argument".to_string())
    );
}

#[test]
fn refusal_messages() {
    let n = || "x".to_string();
    assert_eq!(ParseFailure::ArgumentMissing(n()).message(), "Argument to option 'x' missing");
    assert_eq!(ParseFailure::UnrecognizedOption(n()).message(), "Unrecognized option: 'x'");
    assert_eq!(ParseFailure::OptionMissing(n()).message(), "Required option 'x' missing");
    assert_eq!(ParseFailure::OptionDuplicated(n()).message(), "Option 'x' given more than once");
    assert_eq!(
        ParseFailure::UnexpectedArgument(n()).message(),
        "Option 'x' does not take an argument"
    );
}

#[test]
fn decision_from_given_options() {
    let given = GivenOptions {
        help: false,
        threads: Some("auto".to_string()),
        listen_given: false,
        listen_tls_given: false,
        listen: vec![],
        listen_tls: vec![],
    };
    expect_run(launch_from(given, 6), 6, &["[::]:6667"], &[]);
    let given = GivenOptions {
        help: false,
        threads: None,
        listen_given: false,
        listen_tls_given: true,
        listen: vec![],
        listen_tls: strings(&["x:1"]),
    };
    expect_run(launch_from(given, 6), 1, &[], &["x:1"]);
    let given = GivenOptions {
        help: true,
        threads: Some("0".to_string()),
        listen_given: false,
        listen_tls_given: false,
        listen: vec![],
        listen_tls: vec![],
    };
    assert_eq!(expect_usage(launch_from(given, 6)), None);
}

#[test]
fn help_text() {
    let text = usage_text("foxy");
    let opts = server_options();
    let brief = "\nUsage: foxy options...\n\nFoxy IRCd is IRC server software written in Rust.";
    let expected = format!(
        "{}\nIf NO -l options are given, the default is:\n\n  -l [::]:6667\n\nTLS listeners can be requested with -s/--listen-tls but require a future TLS\nbackend integration.\n",
        opts.usage(brief)
    );
    assert_eq!(text, expected);
    assert!(text.starts_with("\nUsage: foxy options..."));
    assert!(text.contains("-l, --listen ADDR:PORT"));
    assert!(text.contains("-t, --threads NUM | \"auto\" (default 1)"));
}
