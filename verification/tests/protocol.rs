use foxy_ircd::server::{
    decode_line, prefixed_nick, ready_notice, Action, Outcome, ServerState, SessionState,
};
use foxy_ircd::session::parse_irc_line;

fn reply(s: &str) -> Action {
    Action::Reply(s.to_string())
}

fn deliver(id: u64, s: &str) -> Action {
    Action::Deliver(id, s.to_string())
}

fn send(server: &mut ServerState, session: &mut SessionState, id: u64, line: &str) -> Outcome {
    server.handle_line(session, id, line)
}

fn registered(server: &mut ServerState, id: u64, nick: &str) -> SessionState {
    let mut session = SessionState::default();
    server.connect(id);
    send(server, &mut session, id, &format!("NICK {}", nick));
    send(server, &mut session, id, &format!("USER {} 0 * :Real Name", nick));
    assert!(session.is_registered());
    session
}

#[test]
fn irc_line_split() {
    let (tags, cmd, args) = parse_irc_line("  privmsg #foo :hello world  ");
    assert_eq!(tags, None);
    assert_eq!(cmd, "PRIVMSG");
    assert_eq!(args, vec!["#foo".to_string(), "hello world".to_string()]);
    let (tags, cmd, args) = parse_irc_line("@a=b;c=d join   #x");
    assert_eq!(tags, Some("@a=b;c=d"));
    assert_eq!(cmd, "JOIN");
    assert_eq!(args, vec!["#x".to_string()]);
    let (tags, cmd, args) = parse_irc_line("@only-tags");
    assert_eq!(tags, None);
    assert_eq!(cmd, "@ONLY-TAGS");
    assert!(args.is_empty());
    let (tags, cmd, args) = parse_irc_line("@t   ");
    assert_eq!(tags, None);
    assert_eq!(cmd, "@T");
    assert!(args.is_empty());
    let (tags, cmd, args) = parse_irc_line("   ");
    assert_eq!(tags, None);
    assert_eq!(cmd, "");
    assert!(args.is_empty());
    let (_, cmd, args) = parse_irc_line("user a b c :d e");
    assert_eq!(cmd, "USER");
    assert_eq!(args, vec!["a", "b", "c", "d e"]);
}

#[test]
fn registration_sends_welcome() {
    let mut server = ServerState::default();
    let mut session = SessionState::default();
    server.connect(1);
    let out = send(&mut server, &mut session, 1, "NICK alice");
    assert!(out.actions.is_empty());
    assert!(!out.quit);
    assert!(!session.is_registered());
    let out = send(&mut server, &mut session, 1, "USER alice 0 * :Alice A");
    assert_eq!(
        out.actions,
        vec![
            reply(":foxy-ircd 001 alice :Welcome to Foxy IRCd"),
            reply(":foxy-ircd 002 alice :Your host is foxy-ircd"),
            reply(":foxy-ircd 003 alice :This server was created recently"),
            reply(":foxy-ircd 004 alice foxy-ircd 0.1 ioCnosit kmn"),
        ]
    );
    assert!(session.is_registered());
    assert_eq!(server.nick_owner("alice"), Some(1));
    assert_eq!(prefixed_nick(&session), "alice!alice@localhost");
    let out = send(&mut server, &mut session, 1, "USER alice 0 * :Again");
    assert_eq!(out.actions, vec![reply(":foxy-ircd 462 * :You may not reregister")]);
    let out = send(&mut server, &mut session, 1, "USER alice 0");
    assert_eq!(out.actions, vec![reply(":foxy-ircd 461 * USER :Not enough parameters")]);
}

#[test]
fn user_first_then_nick_registers() {
    let mut server = ServerState::default();
    let mut session = SessionState::default();
    server.connect(9);
    let out = send(&mut server, &mut session, 9, "USER u 0 * :U");
    assert!(out.actions.is_empty());
    assert_eq!(prefixed_nick(&session), "*!u@localhost");
    let out = send(&mut server, &mut session, 9, "NICK zed");
    assert_eq!(out.actions.len(), 4);
    assert_eq!(out.actions[0], reply(":foxy-ircd 001 zed :Welcome to Foxy IRCd"));
}

#[test]
fn prefix_of_a_fresh_session() {
    assert_eq!(prefixed_nick(&SessionState::default()), "*!unknown@localhost");
}

#[test]
fn nick_errors() {
    let mut server = ServerState::default();
    let _alice = registered(&mut server, 1, "alice");
    let mut other = SessionState::default();
    server.connect(2);
    let out = send(&mut server, &mut other, 2, "NICK alice");
    assert_eq!(out.actions, vec![reply(":foxy-ircd 433 * alice :Nickname is already in use")]);
    assert_eq!(server.nick_owner("alice"), Some(1));
    let out = send(&mut server, &mut other, 2, "NICK");
    assert_eq!(out.actions, vec![reply(":foxy-ircd 431 * :No nickname given")]);
}

#[test]
fn changing_nick_frees_the_old_one() {
    let mut server = ServerState::default();
    let mut alice = registered(&mut server, 1, "alice");
    let out = send(&mut server, &mut alice, 1, "NICK alicia");
    assert!(out.actions.is_empty());
    assert_eq!(server.nick_owner("alice"), None);
    assert_eq!(server.nick_owner("alicia"), Some(1));
    let out = send(&mut server, &mut alice, 1, "NICK alicia");
    assert!(out.actions.is_empty());
    assert_eq!(server.nick_owner("alicia"), Some(1));
}

#[test]
fn unregistered_clients_are_refused() {
    let mut server = ServerState::default();
    let mut session = SessionState::default();
    server.connect(3);
    let out = send(&mut server, &mut session, 3, "JOIN #x");
    assert_eq!(out.actions, vec![reply(":foxy-ircd 451 * :You have not registered")]);
    let out = send(&mut server, &mut session, 3, "PRIVMSG #x :hi");
    assert_eq!(out.actions, vec![reply(":foxy-ircd 451 * :You have not registered")]);
    assert_eq!(server.channel_members("#x"), None);
}

#[test]
fn channel_join_and_message() {
    let mut server = ServerState::default();
    let mut alice = registered(&mut server, 1, "alice");
    let mut bob = registered(&mut server, 2, "bob");
    let out = send(&mut server, &mut alice, 1, "JOIN #Room");
    assert_eq!(out.actions, vec![deliver(1, ":alice!alice@localhost JOIN :#room")]);
    let out = send(&mut server, &mut bob, 2, "@k=v JOIN #room");
    assert_eq!(
        out.actions,
        vec![
            deliver(1, "@k=v :bob!bob@localhost JOIN :#room"),
            deliver(2, "@k=v :bob!bob@localhost JOIN :#room"),
        ]
    );
    assert_eq!(server.channel_members("#room"), Some(vec![1, 2]));
    let out = send(&mut server, &mut alice, 1, "PRIVMSG #ROOM :hello all");
    assert_eq!(out.actions, vec![deliver(2, ":alice!alice@localhost PRIVMSG #room :hello all")]);
    let out = send(&mut server, &mut alice, 1, "@x=1 PRIVMSG #room :tagged");
    assert_eq!(out.actions, vec![deliver(2, "@x=1 :alice!alice@localhost PRIVMSG #room :tagged")]);
    let out = send(&mut server, &mut alice, 1, "PRIVMSG #empty :nobody here");
    assert!(out.actions.is_empty());
    let out = send(&mut server, &mut alice, 1, "JOIN");
    assert_eq!(out.actions, vec![reply(":foxy-ircd 461 alice JOIN :Not enough parameters")]);
}

#[test]
fn private_messages() {
    let mut server = ServerState::default();
    let mut alice = registered(&mut server, 1, "alice");
    let _bob = registered(&mut server, 2, "bob");
    let out = send(&mut server, &mut alice, 1, "PRIVMSG bob :psst");
    assert_eq!(out.actions, vec![deliver(2, ":alice!alice@localhost PRIVMSG bob :psst")]);
    let out = send(&mut server, &mut alice, 1, "PRIVMSG BOB :case folded");
    assert_eq!(out.actions, vec![deliver(2, ":alice!alice@localhost PRIVMSG bob :case folded")]);
    let out = send(&mut server, &mut alice, 1, "PRIVMSG carol :anyone?");
    assert_eq!(out.actions, vec![reply(":foxy-ircd 401 alice carol :No such nick/channel")]);
    let out = send(&mut server, &mut alice, 1, "PRIVMSG bob");
    assert_eq!(out.actions, vec![reply(":foxy-ircd 461 alice PRIVMSG :Not enough parameters")]);
}

#[test]
fn capabilities() {
    let mut server = ServerState::default();
    let mut s = SessionState::default();
    server.connect(4);
    let out = send(&mut server, &mut s, 4, "CAP LS 302");
    assert_eq!(out.actions, vec![reply(":foxy-ircd CAP * LS :message-tags cap-notify multi-prefix")]);
    let out = send(&mut server, &mut s, 4, "cap req :multi-prefix");
    assert_eq!(out.actions, vec![reply(":foxy-ircd CAP * ACK :multi-prefix")]);
    let out = send(&mut server, &mut s, 4, "CAP REQ");
    assert_eq!(out.actions, vec![reply(":foxy-ircd 461 * CAP :Not enough parameters")]);
    let out = send(&mut server, &mut s, 4, "CAP");
    assert_eq!(out.actions, vec![reply(":foxy-ircd 461 * CAP :Not enough parameters")]);
    let out = send(&mut server, &mut s, 4, "CAP END");
    assert!(out.actions.is_empty());
    let out = send(&mut server, &mut s, 4, "CAP FOO bar");
    assert_eq!(out.actions, vec![reply(":foxy-ircd CAP * NAK :bar")]);
    let out = send(&mut server, &mut s, 4, "CAP FOO");
    assert_eq!(out.actions, vec![reply(":foxy-ircd CAP * NAK :")]);
}

#[test]
fn ping_unknown_empty_and_quit() {
    let mut server = ServerState::default();
    let mut s = SessionState::default();
    server.connect(5);
    let out = send(&mut server, &mut s, 5, "PING");
    assert_eq!(out.actions, vec![reply("PONG :foxy-ircd")]);
    let out = send(&mut server, &mut s, 5, "PING :token 1");
    assert_eq!(out.actions, vec![reply("PONG :token 1")]);
    let out = send(&mut server, &mut s, 5, "frobnicate now");
    assert_eq!(out.actions, vec![reply(":foxy-ircd 421 * FROBNICATE :Unknown command")]);
    let out = send(&mut server, &mut s, 5, "   ");
    assert!(out.actions.is_empty());
    assert!(!out.quit);
    let out = send(&mut server, &mut s, 5, "QUIT :bye");
    assert!(out.actions.is_empty());
    assert!(out.quit);
}

#[test]
fn disconnect_forgets_the_client() {
    let mut server = ServerState::default();
    let mut alice = registered(&mut server, 1, "alice");
    let mut bob = registered(&mut server, 2, "bob");
    send(&mut server, &mut alice, 1, "JOIN #room");
    send(&mut server, &mut bob, 2, "JOIN #room");
    server.disconnect(&mut alice, 1);
    assert!(!server.has_client(1));
    assert!(server.has_client(2));
    assert_eq!(server.nick_owner("alice"), None);
    assert_eq!(server.channel_members("#room"), Some(vec![2]));
    let out = send(&mut server, &mut bob, 2, "PRIVMSG alice :gone?");
    assert_eq!(out.actions, vec![reply(":foxy-ircd 401 bob alice :No such nick/channel")]);
    let out = send(&mut server, &mut bob, 2, "PRIVMSG #room :alone");
    assert!(out.actions.is_empty());
}

#[test]
fn line_decoding() {
    assert_eq!(decode_line(b"NICK a\r\n"), "NICK a");
    assert_eq!(decode_line(b"NICK a\n\r\n"), "NICK a");
    assert_eq!(decode_line(b"x\r y"), "x\r y");
    assert_eq!(decode_line(b"caf\xe9\n"), "caf\u{fffd}");
    assert_eq!(decode_line(b"\r\n"), "");
    assert_eq!(ready_notice(), ":foxy-ircd NOTICE * :Foxy IRCd ready");
}
