use foxy_ircd::message::{Command, Message, Source};

struct Test {
    name: &'static str,
    raw: &'static [u8],
    source: Option<Source<'static>>,
    command: Command<'static>,
    params: &'static [&'static [u8]],
    trailer: bool,
}
const TESTS: &[Test] = &[
    Test {
        name: "Simple Numeric",
        raw: b"314\r\n",
        source: None,
        command: Command::Numeric(314),
        params: &[],
        trailer: false,
    },
    Test {
        name: "Simple Textual",
        raw: b"FOO\r\n",
        source: None,
        command: Command::Textual(b"FOO"),
        params: &[],
        trailer: false,
    },
    Test {
        name: "Prefixed, Trailer",
        raw: b":irc.example.com 314 TestDood :This is a simple test\r\n",
        source: Some(Source::Server { name: b"irc.example.com" }),
        command: Command::Numeric(314),
        params: &[
            b"TestDood",
            b"This is a simple test",
        ],
        trailer: true
    },
    Test {
        name: "Mega Trip",
        raw: b":nickName!user@HostName PRIVMSG #not-invalid:name :Eek, a \
               colon!\r\n",
        source: Some(Source::Client { nick: b"nickName",
                                      user: Some(b"user"),
                                      host: b"HostName" }),
        command: Command::Textual(b"PRIVMSG"),
        params: &[
            b"#not-invalid:name",
            b"Eek, a colon!",
        ],
        trailer: true
    },
];
const BAD_ASSEMBLIES: &[Test] = &[
    Test {
        name: "Bad Source Server",
        raw: b"",
        source: Some(Source::Server { name: b"impossible!server" }),
        command: Command::Textual(b"FOO"),
        params: &[
            b"foo",
            b"foo foo",
        ],
        trailer: true,
    },
    Test {
        name: "Bad Source Nick",
        raw: b"",
        source: Some(Source::Client { nick: b"Nick Wilde",
                                      user: None,
                                      host: b"topia.zoo" }),
        command: Command::Textual(b"FOO"),
        params: &[
            b"foo",
            b"foo foo",
        ],
        trailer: true,
    },
    Test {
        name: "Bad Source User",
        raw: b"",
        source: Some(Source::Client { nick: b"NickWilde",
                                      user: Some(b"n!wilde"),
                                      host: b"topia.zoo" }),
        command: Command::Textual(b"FOO"),
        params: &[
            b"foo",
            b"foo foo",
        ],
        trailer: true,
    },
    Test {
        name: "Bad Source Host",
        raw: b"",
        source: Some(Source::Client { nick: b"NickWilde",
                                      user: None,
                                      host: b"nwilde@police.zoo" }),
        command: Command::Textual(b"FOO"),
        params: &[
            b"foo",
            b"foo foo",
        ],
        trailer: true,
    },
    Test {
        name: "Bad Command",
        raw: b"",
        source: Some(Source::Client { nick: b"NickWilde",
                                      user: None,
                                      host: b"topia.zoo" }),
        command: Command::Textual(b"FO O"),
        params: &[
            b"foo",
            b"foo foo",
        ],
        trailer: true,
    },
    Test {
        name: "Bad Param",
        raw: b"",
        source: Some(Source::Client { nick: b"NickWilde",
                                      user: None,
                                      host: b"topia.zoo" }),
        command: Command::Textual(b"FOO"),
        params: &[
            b":foo",
            b"foo foo",
        ],
        trailer: true,
    },
    Test {
        name: "Missing Trailer",
        raw: b"",
        source: Some(Source::Client { nick: b"NickWilde",
                                      user: None,
                                      host: b"topia.zoo" }),
        command: Command::Textual(b"FOO"),
        params: &[
            b"foo",
            b"foo foo",
        ],
        trailer: false,
    },
];
#[test]
fn assemble() {
    for test in TESTS {
        let message = Message::assemble(test.source.as_ref(),
                                        &test.command,
                                        test.params,
                                        test.trailer).unwrap();
        let mut problems =
            (if test.source == message.get_source() { 0 }
             else {
                 println!("Sources don't match!");
                 1
             }) +
            (if test.command == message.get_command() { 0 }
             else {
                 println!("Commands don't match!");
                 1
             }) +
            (if test.trailer == message.has_trailer() { 0 }
             else {
                 println!("has_trailer doesn't match!");
                 1
             });
        if message.get_param_count() as usize != test.params.len() {
            problems += 1;
            println!("Wrong number of params!");
        }
        else {
            for n in 0 .. test.params.len() {
                if message.get_nth_param(n as u32).unwrap() != test.params[n] {
                    println!("Wrong param!");
                    problems += 1;
                }
            }
            assert!(message.get_nth_param(message.get_param_count())
                    .is_none());
        }
        if problems > 0 {
            println!("Expected:");
            println!("\traw: {:?}", String::from_utf8_lossy(test.raw));
            println!("\tsource: {:?}", test.source);
            println!("\tcommand: {:?}", test.command);
            for n in 0..test.params.len() {
                if n == (test.params.len()-1) && test.trailer {
                    println!("\t\t(trailer)");
                }
                println!("\tparams[{}]: {:?}", n,
                          String::from_utf8_lossy(test.params[n]));
            }
            println!("Got:");
            println!("\traw: {:?}", String::from_utf8_lossy(message.get_raw()));
            println!("\tsource: {:?}", message.get_source());
            println!("\tcommand: {:?}", message.get_command());
            for n in 0..message.get_param_count() {
                if n == (message.get_param_count()-1) && message.has_trailer() {
                    println!("\t\t(trailer)");
                }
                println!("\tparams[{}]: {:?}", n,
                          String::from_utf8_lossy(message.get_nth_param(n).unwrap()));
            }
            panic!("Assembly test {:?} failed!", test.name);
        }
    }
}
#[test]
fn bad_assembly() {
    for test in BAD_ASSEMBLIES {
        let message = Message::assemble(test.source.as_ref(),
                                        &test.command,
                                        test.params,
                                        test.trailer);
        if message.is_ok() {
            println!("Test that should have failed:");
            println!("\traw: {:?}", String::from_utf8_lossy(test.raw));
            println!("\tsource: {:?}", test.source);
            println!("\tcommand: {:?}", test.command);
            for n in 0..test.params.len() {
                if n == (test.params.len()-1) && test.trailer {
                    println!("\t\t(trailer)");
                }
                println!("\tparams[{}]: {:?}", n,
                          String::from_utf8_lossy(test.params[n]));
            }
            panic!("Bad assembly test {:?} failed!", test.name);
        }
    }
}
#[test]
fn parse() {
    for test in TESTS {
        let message = Message::parse(&test.raw[..test.raw.len()-2])
            .unwrap();
        let mut problems =
            (if test.source == message.get_source() { 0 }
             else {
                 println!("Sources don't match!");
                 1
             }) +
            (if test.command == message.get_command() { 0 }
             else {
                 println!("Commands don't match!");
                 1
             }) +
            (if test.trailer == message.has_trailer() { 0 }
             else {
                 println!("has_trailer doesn't match!");
                 1
             });
        if message.get_param_count() as usize != test.params.len() {
            problems += 1;
            println!("Wrong number of params!");
        }
        else {
            for n in 0 .. test.params.len() {
                if message.get_nth_param(n as u32).unwrap() != test.params[n] {
                    println!("Wrong param!");
                    problems += 1;
                }
            }
            assert!(message.get_nth_param(message.get_param_count())
                    .is_none());
        }
        if problems > 0 {
            println!("Expected:");
            println!("\traw: {:?}", String::from_utf8_lossy(test.raw));
            println!("\tsource: {:?}", test.source);
            println!("\tcommand: {:?}", test.command);
            for n in 0..test.params.len() {
                if n == (test.params.len()-1) && test.trailer {
                    println!("\t\t(trailer)");
                }
                println!("\tparams[{}]: {:?}", n,
                          String::from_utf8_lossy(test.params[n]));
            }
            println!("Got:");
            println!("\traw: {:?}", String::from_utf8_lossy(message.get_raw()));
            println!("\tsource: {:?}", message.get_source());
            println!("\tcommand: {:?}", message.get_command());
            for n in 0..message.get_param_count() {
                if n == (message.get_param_count()-1) && message.has_trailer() {
                    println!("\t\t(trailer)");
                }
                println!("\tparams[{}]: {:?}", n,
                          String::from_utf8_lossy(message.get_nth_param(n).unwrap()));
            }
            panic!("Parse test {:?} failed!", test.name);
        }
    }
}

