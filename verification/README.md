# Foxy IRCd

An IRC server. The library (`src/`) holds what the server decides. Its
functions carry contracts that Verus proves; where they call std or an
outside crate (`getopts`, `num_cpus`, `serde_json`, path splitting, a few
string functions), the call sits in a small trusted wrapper whose contract
says what that code's source or documentation gives, and Verus believes it.

- `message`: RFC 1459 messages, their wire form, assembling and parsing
  (`message/parse.rs` has the byte-level scanners, `message/roundtrip.rs`
  proves that parsing reads back what assembly wrote);
- `session` and `server`: the client protocol (registration, `NICK`,
  `USER`, `JOIN`, `PRIVMSG`, `CAP`, `PING`, `QUIT`) as a step from a line to
  the new state and the lines to send, with its laws;
- `db`: which paths may name a datum, the cache in front of the files,
  which read of a backing directory settles a lookup, and whether an
  inserted datum changed, given serde_json's own comparison of the new
  datum with the stored one (that comparison is trusted, not proved);
- `invocation`: the command line, the help text and what a command line
  asks for;
- `text` and `case`: the small text functions the rest uses.

The maps of the server (clients, nicknames, channels) and of the database
cache are lists of pairs with distinct keys, not `HashMap`s and `HashSet`s:
vstd specifies `HashMap` only for keys whose hashing it models, and a
`String` key is not one of them, so nothing could be proved of such a map.

The program (`app/`) runs the sockets, the runtime, the files and the
terminal. Its decisions (what to answer, what to store, what to listen on)
come from the library; it reads and writes, and parses socket addresses.
