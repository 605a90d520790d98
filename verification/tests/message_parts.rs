use foxy_ircd::case::upcase;
use foxy_ircd::message::parse::{
    find_idx_of_space_or_end, is_nulcrlf, is_nulcrlfspace, is_nulcrlfspaceatbang, parse_digit,
    parse_source_host, parse_source_name_or_nick, parse_source_user, parse_tags,
    skip_leading_space, validate_param, validate_trailing_param,
};
use foxy_ircd::message::{Command, Message, Source};

#[test]
fn byte_classes() {
    assert!(is_nulcrlf(0));
    assert!(is_nulcrlf(b'\r'));
    assert!(is_nulcrlf(b'\n'));
    assert!(!is_nulcrlf(b' '));
    assert!(is_nulcrlfspace(b' '));
    assert!(!is_nulcrlfspace(b'@'));
    assert!(is_nulcrlfspaceatbang(b'@'));
    assert!(is_nulcrlfspaceatbang(b'!'));
    assert!(!is_nulcrlfspaceatbang(b'a'));
}

#[test]
fn digits() {
    assert_eq!(parse_digit(b'0'), Some(0));
    assert_eq!(parse_digit(b'7'), Some(7));
    assert_eq!(parse_digit(b'9'), Some(9));
    assert_eq!(parse_digit(b'a'), None);
    assert_eq!(parse_digit(b'/'), None);
}

#[test]
fn upcase_folds_ascii_letters_only() {
    assert_eq!(upcase(b'a'), b'A');
    assert_eq!(upcase(b'z'), b'Z');
    assert_eq!(upcase(b'A'), b'A');
    assert_eq!(upcase(b'#'), b'#');
    assert_eq!(upcase(0xe9), 0xe9);
}

#[test]
fn param_validation_errors() {
    assert_eq!(validate_param(b"foo"), Ok(()));
    assert_eq!(validate_param(b""), Err("Invalid empty param"));
    assert_eq!(validate_param(b"a b"), Err("Invalid byte in param"));
    assert_eq!(validate_param(b"a\rb"), Err("Invalid byte in param"));
    assert_eq!(validate_param(b":foo"), Err("Invalid colon in param"));
    assert_eq!(validate_param(b"foo:bar"), Ok(()));
    assert_eq!(validate_trailing_param(b"a b :c"), Ok(()));
    assert_eq!(validate_trailing_param(b""), Ok(()));
    assert_eq!(validate_trailing_param(b"a\nb"), Err("Invalid byte in param"));
}

#[test]
fn scanning_helpers() {
    assert_eq!(find_idx_of_space_or_end(b"abc def"), Some(3));
    assert_eq!(find_idx_of_space_or_end(b"abc"), Some(3));
    assert_eq!(find_idx_of_space_or_end(b"ab\rc"), None);
    assert_eq!(skip_leading_space(b"   x y"), Some(&b"x y"[..]));
    assert_eq!(skip_leading_space(b"   "), Some(&b""[..]));
    assert_eq!(skip_leading_space(b"  \0"), None);
    assert_eq!(parse_tags(b"PING"), Some((None, &b"PING"[..])));
    assert_eq!(parse_tags(b"@a=b;c  PING"), Some((Some(&b"a=b;c"[..]), &b"PING"[..])));
    assert_eq!(parse_tags(b"@a\0b PING"), None);
}

#[test]
fn source_helpers() {
    assert_eq!(parse_source_name_or_nick(b"nick!u@h"), Some((&b"nick"[..], b'!', &b"u@h"[..])));
    assert_eq!(parse_source_name_or_nick(b"nick@h"), Some((&b"nick"[..], b'@', &b"h"[..])));
    assert_eq!(parse_source_name_or_nick(b"server"), Some((&b"server"[..], b' ', &b""[..])));
    assert_eq!(parse_source_user(b"user@host"), Some((&b"user"[..], b'@', &b"host"[..])));
    assert_eq!(parse_source_user(b"us!er@host"), None);
    assert_eq!(parse_source_host(b"host"), Some((&b"host"[..], &b""[..])));
    assert_eq!(parse_source_host(b"ho@st"), None);
}

#[test]
fn assembly_errors_name_the_part() {
    let cmd = Command::Textual(b"FOO");
    let params: &[&[u8]] = &[b"a"];
    let bad_server = Source::Server { name: b"a b" };
    assert_eq!(
        Message::assemble(Some(&bad_server), &cmd, params, false).unwrap_err(),
        "invalid character in server prefix"
    );
    let bad_nick = Source::Client { nick: b"a@b", user: None, host: b"h" };
    assert_eq!(
        Message::assemble(Some(&bad_nick), &cmd, params, false).unwrap_err(),
        "invalid character in client nickname"
    );
    let bad_user = Source::Client { nick: b"n", user: Some(b"u@"), host: b"h" };
    assert_eq!(
        Message::assemble(Some(&bad_user), &cmd, params, false).unwrap_err(),
        "invalid character in client username"
    );
    let bad_host = Source::Client { nick: b"n", user: None, host: b"h!" };
    assert_eq!(
        Message::assemble(Some(&bad_host), &cmd, params, false).unwrap_err(),
        "invalid character in client hostname"
    );
    assert_eq!(
        Message::assemble(None, &Command::Numeric(0), params, false).unwrap_err(),
        "Invalid command number"
    );
    assert_eq!(
        Message::assemble(None, &Command::Numeric(1000), params, false).unwrap_err(),
        "Invalid command number"
    );
    assert_eq!(
        Message::assemble(None, &Command::Textual(b"F O"), params, false).unwrap_err(),
        "invalid character in command name"
    );
    let empty_param: &[&[u8]] = &[b"", b"x"];
    assert_eq!(
        Message::assemble(None, &cmd, empty_param, true).unwrap_err(),
        "Invalid empty param"
    );
}

#[test]
fn assembly_wire_form() {
    let src = Source::Client { nick: b"nick", user: Some(b"user"), host: b"host" };
    let params: &[&[u8]] = &[b"#chan", b"hello there"];
    let m = Message::assemble(Some(&src), &Command::Textual(b"privmsg"), params, true).unwrap();
    assert_eq!(m.get_raw(), &b":nick!user@host PRIVMSG #chan :hello there\r\n"[..]);
    assert_eq!(m.get_command(), Command::Textual(b"PRIVMSG"));
    let m = Message::assemble(None, &Command::Numeric(7), &[], false).unwrap();
    assert_eq!(m.get_raw(), &b"007\r\n"[..]);
    assert_eq!(m.get_param_count(), 0);
    assert_eq!(m.get_nth_param(0), None);
    assert!(!m.has_trailer());
}

#[test]
fn parse_reads_back_what_assembly_wrote() {
    let src = Source::Server { name: b"irc.example.net" };
    let params: &[&[u8]] = &[b"a", b"b:c", b"last one"];
    let m = Message::assemble(Some(&src), &Command::Textual(b"notice"), params, true).unwrap();
    let raw = m.get_raw();
    let back = Message::parse(&raw[..raw.len() - 2]).unwrap();
    assert_eq!(back.get_source(), Some(Source::Server { name: b"irc.example.net" }));
    assert_eq!(back.get_command(), Command::Textual(b"NOTICE"));
    assert_eq!(back.get_param_count(), 3);
    assert_eq!(back.get_nth_param(0), Some(&b"a"[..]));
    assert_eq!(back.get_nth_param(1), Some(&b"b:c"[..]));
    assert_eq!(back.get_nth_param(2), Some(&b"last one"[..]));
    assert!(back.has_trailer());
    assert_eq!(back.get_raw(), raw);
}

#[test]
fn parse_refuses_malformed_lines() {
    assert!(Message::parse(b"").is_none());
    assert!(Message::parse(b":source").is_none());
    assert!(Message::parse(b"FOO a\rb").is_none());
    assert!(Message::parse(b"FOO bar\0baz").is_none());
}

#[test]
fn parse_tags_and_numerics() {
    let m = Message::parse(b"@time=1 :nick!u@h 042 a :b c").unwrap();
    assert_eq!(
        m.get_source(),
        Some(Source::Client { nick: b"nick", user: Some(b"u"), host: b"h" })
    );
    assert_eq!(m.get_command(), Command::Numeric(42));
    assert_eq!(m.get_param_count(), 2);
    assert_eq!(m.get_nth_param(1), Some(&b"b c"[..]));
    let m = Message::parse(b"ping  x").unwrap();
    assert_eq!(m.get_command(), Command::Textual(b"PING"));
    assert_eq!(m.get_nth_param(0), Some(&b"x"[..]));
    assert!(!m.has_trailer());
}

#[test]
fn same_wire_form_same_message() {
    let params: &[&[u8]] = &[b"x", b"y z"];
    let a = Message::assemble(None, &Command::Textual(b"Notice"), params, true).unwrap();
    let b = Message::assemble(None, &Command::Textual(b"NOTICE"), params, true).unwrap();
    assert_eq!(a.get_raw(), b.get_raw());
    assert_eq!(a.get_command(), b.get_command());
    assert_eq!(a.get_param_count(), b.get_param_count());
    assert_eq!(a.has_trailer(), b.has_trailer());
    let plain: &[&[u8]] = &[b"x", b"y"];
    let c = Message::assemble(None, &Command::Textual(b"NOTICE"), plain, false).unwrap();
    assert_ne!(a.get_raw(), c.get_raw());
}

#[test]
fn debugging_text() {
    let s = Source::Client { nick: b"nick", user: Some(b"u\"x"), host: b"h\xff" };
    assert_eq!(
        s.debug_text(),
        "Source::Client { nick: \"nick\", user: Some(\"u\\\"x\"), host: \"h\u{fffd}\" }"
    );
    let s = Source::Client { nick: b"n", user: None, host: b"h" };
    assert_eq!(s.debug_text(), "Source::Client { nick: \"n\", user: None, host: \"h\" }");
    assert_eq!(Source::Server { name: b"irc.x" }.debug_text(), "Source::Server { name: \"irc.x\" }");
    assert_eq!(Command::Numeric(7).debug_text(), "Command::Numeric(007)");
    assert_eq!(Command::Numeric(1234).debug_text(), "Command::Numeric(1234)");
    assert_eq!(Command::Textual(b"PING").debug_text(), "Command::Textual(\"PING\")");
    let m = Message::parse(b"PING x").unwrap();
    assert_eq!(m.debug_text(), "\"PING x\\r\\n\"");
}

#[test]
fn checked_parsing() {
    assert!(Message::try_parse(b"000").is_none());
    assert!(Message::try_parse(b"000 a b").is_none());
    assert!(Message::try_parse(b"").is_none());
    assert!(Message::try_parse(b"FOO a\rb").is_none());
    let m = Message::try_parse(b":srv 001 nick :Welcome!").unwrap();
    assert_eq!(m.get_source(), Some(Source::Server { name: b"srv" }));
    assert_eq!(m.get_command(), Command::Numeric(1));
    assert_eq!(m.get_param_count(), 2);
    assert_eq!(m.get_raw(), &b":srv 001 nick :Welcome!\r\n"[..]);
}
