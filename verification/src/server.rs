//! What each session and the server as a whole keep, and how each line from
//! a client changes it: the decisions of the connection loop, as a function
//! from state and line to next state and the messages to send.
use vstd::prelude::*;
use vstd::string::{StrSliceExecFns, StringExecFns};

use crate::session::{
    irc_line_parse, key_index, keys_unique, lemma_key_index, lemma_member_index,
    lemma_set_add, lemma_set_del, lemma_unique_key_index, lookup, member_index, members_unique,
    opt_str_view, parse_irc_line, set_add, set_del, str_eq, strings_view, with_entry, without_key,
};
use crate::text::{
    from_utf8_lossy, lossy_utf8, lower_all, starts_with_char, to_ascii_lowercase, to_ascii_uppercase,
    trim_owned, trim_spec, upper_all,
};

verus! {

broadcast use vstd::string::group_string_axioms;

pub const SERVER_NAME: &'static str = "foxy-ircd";

pub const CAPABILITIES: &'static str = "message-tags cap-notify multi-prefix";

// ---------------------------------------------------------------------------
// State
// ---------------------------------------------------------------------------

/// What a session stands for.
pub struct SessionView {
    pub nick: Option<Seq<char>>,
    pub user: Option<Seq<char>>,
    pub registered: bool,
}

/// The state of one client's session.
pub struct SessionState {
    nick: Option<String>,
    user: Option<String>,
    registered: bool,
}

pub open spec fn opt_string_view(o: Option<String>) -> Option<Seq<char>> {
    match o {
        Some(s) => Some(s@),
        None => None,
    }
}

impl View for SessionState {
    type V = SessionView;

    closed spec fn view(&self) -> SessionView {
        SessionView {
            nick: opt_string_view(self.nick),
            user: opt_string_view(self.user),
            registered: self.registered,
        }
    }
}

impl Default for SessionState {
    fn default() -> (r: Self)
        ensures
            r@ == (SessionView { nick: None, user: None, registered: false }),
    {
        SessionState { nick: None, user: None, registered: false }
    }
}

impl SessionState {
    /// Whether the session has registered (both NICK and USER seen).
    pub fn is_registered(&self) -> (r: bool)
        ensures
            r == self@.registered,
    {
        self.registered
    }
}

/// What the server state stands for: the connected clients, who owns which
/// nickname, and who is in which channel.
pub struct ServerView {
    pub clients: Seq<u64>,
    pub nicks: Seq<(Seq<char>, u64)>,
    pub channels: Seq<(Seq<char>, Seq<u64>)>,
}

/// The lists behind the shared state.
struct ServerCore {
    clients: Vec<u64>,
    nicks: Vec<(String, u64)>,
    channels: Vec<(String, Vec<u64>)>,
}

pub open spec fn nicks_view(v: Seq<(String, u64)>) -> Seq<(Seq<char>, u64)> {
    Seq::new(v.len(), |i: int| (v[i].0@, v[i].1))
}

pub open spec fn channels_view(v: Seq<(String, Vec<u64>)>) -> Seq<(Seq<char>, Seq<u64>)> {
    Seq::new(v.len(), |i: int| (v[i].0@, v[i].1@))
}

impl View for ServerCore {
    type V = ServerView;

    closed spec fn view(&self) -> ServerView {
        ServerView {
            clients: self.clients@,
            nicks: nicks_view(self.nicks@),
            channels: channels_view(self.channels@),
        }
    }
}

/// No client, nickname, channel or channel member is listed twice.
pub open spec fn server_wf(v: ServerView) -> bool {
    &&& members_unique(v.clients)
    &&& keys_unique(v.nicks)
    &&& keys_unique(v.channels)
    &&& forall|i: int| 0 <= i < v.channels.len() ==> members_unique(#[trigger] v.channels[i].1)
}

// ---------------------------------------------------------------------------
// Actions
// ---------------------------------------------------------------------------

/// What an action stands for.
pub enum ActionView {
    Reply(Seq<char>),
    Deliver(u64, Seq<char>),
}

/// A line to send: back to the session's own client, or to a client by id
/// (if it is still connected).
#[derive(Debug, PartialEq, Eq)]
pub enum Action {
    Reply(String),
    Deliver(u64, String),
}

impl View for Action {
    type V = ActionView;

    open spec fn view(&self) -> ActionView {
        match self {
            Action::Reply(s) => ActionView::Reply(s@),
            Action::Deliver(id, s) => ActionView::Deliver(*id, s@),
        }
    }
}

pub open spec fn actions_view(v: Seq<Action>) -> Seq<ActionView> {
    Seq::new(v.len(), |i: int| v[i]@)
}

/// What handling a line gives: the lines to send, in order, and whether the
/// client quits.
pub struct Outcome {
    pub actions: Vec<Action>,
    pub quit: bool,
}

// ---------------------------------------------------------------------------
// The protocol
// ---------------------------------------------------------------------------

pub open spec fn or_default(o: Option<Seq<char>>, d: Seq<char>) -> Seq<char> {
    match o {
        Some(x) => x,
        None => d,
    }
}

pub open spec fn server_name() -> Seq<char> {
    SERVER_NAME@
}

/// `nick!user@localhost`, with `*` and `unknown` for what is not known yet.
pub open spec fn sender_prefix(s: SessionView) -> Seq<char> {
    or_default(s.nick, "*"@) + "!"@ + or_default(s.user, "unknown"@) + "@localhost"@
}

pub open spec fn reply(text: Seq<char>) -> Seq<ActionView> {
    seq![ActionView::Reply(text)]
}

/// The four lines that greet a newly registered client.
pub open spec fn welcome(nick: Seq<char>) -> Seq<ActionView> {
    seq![
        ActionView::Reply(":"@ + server_name() + " 001 "@ + nick + " :Welcome to Foxy IRCd"@),
        ActionView::Reply(":"@ + server_name() + " 002 "@ + nick + " :Your host is "@ + server_name()),
        ActionView::Reply(":"@ + server_name() + " 003 "@ + nick + " :This server was created recently"@),
        ActionView::Reply(":"@ + server_name() + " 004 "@ + nick + " "@ + server_name() + " 0.1 ioCnosit kmn"@),
    ]
}

/// Registration completes once both a nickname and a user name are known.
pub open spec fn register_step(s: SessionView) -> (SessionView, Seq<ActionView>) {
    if s.registered || s.nick is None || s.user is None {
        (s, Seq::empty())
    } else {
        (SessionView { nick: s.nick, user: s.user, registered: true }, welcome(s.nick->0))
    }
}

/// The replies to `CAP`.
pub open spec fn cap_replies(args: Seq<Seq<char>>) -> Seq<ActionView> {
    if args.len() == 0 {
        reply(":"@ + server_name() + " 461 * CAP :Not enough parameters"@)
    } else {
        let sub = upper_all(args[0]);
        if sub == "LS"@ {
            reply(":"@ + server_name() + " CAP * LS :"@ + CAPABILITIES@)
        } else if sub == "REQ"@ {
            if args.len() > 1 {
                reply(":"@ + server_name() + " CAP * ACK :"@ + args[1])
            } else {
                reply(":"@ + server_name() + " 461 * CAP :Not enough parameters"@)
            }
        } else if sub == "END"@ {
            Seq::empty()
        } else {
            reply(
                ":"@ + server_name() + " CAP * NAK :"@ + (if args.len() > 1 {
                    args[1]
                } else {
                    ""@
                }),
            )
        }
    }
}

/// `NICK`: take the nickname unless another client owns it.
pub open spec fn nick_step(s: SessionView, v: ServerView, id: u64, args: Seq<Seq<char>>) -> (
    SessionView,
    ServerView,
    Seq<ActionView>,
) {
    if args.len() == 0 {
        (s, v, reply(":"@ + server_name() + " 431 * :No nickname given"@))
    } else {
        let nick = args[0];
        if lookup(v.nicks, nick) is Some && lookup(v.nicks, nick)->0 != id {
            (s, v, reply(":"@ + server_name() + " 433 * "@ + nick + " :Nickname is already in use"@))
        } else {
            let nicks1 = match s.nick {
                Some(old) => without_key(v.nicks, old),
                None => v.nicks,
            };
            let v1 = ServerView {
                clients: v.clients,
                nicks: with_entry(nicks1, nick, id),
                channels: v.channels,
            };
            let s1 = SessionView { nick: Some(nick), user: s.user, registered: s.registered };
            let (s2, out) = register_step(s1);
            (s2, v1, out)
        }
    }
}

/// `USER`: record the user name, once, before registration.
pub open spec fn user_step(s: SessionView, args: Seq<Seq<char>>) -> (SessionView, Seq<ActionView>) {
    if args.len() < 4 {
        (s, reply(":"@ + server_name() + " 461 * USER :Not enough parameters"@))
    } else if s.registered {
        (s, reply(":"@ + server_name() + " 462 * :You may not reregister"@))
    } else {
        register_step(SessionView { nick: s.nick, user: Some(args[0]), registered: s.registered })
    }
}

/// One delivery of `msg` to each member that is connected, in member order,
/// leaving out `skip`.
pub open spec fn deliveries(
    members: Seq<u64>,
    clients: Seq<u64>,
    skip: Option<u64>,
    msg: Seq<char>,
) -> Seq<ActionView>
    decreases members.len(),
{
    if members.len() == 0 {
        Seq::empty()
    } else {
        let rest = deliveries(members.drop_last(), clients, skip, msg);
        let m = members.last();
        if clients.contains(m) && skip != Some(m) {
            rest.push(ActionView::Deliver(m, msg))
        } else {
            rest
        }
    }
}

/// The members of a channel, none if it does not exist yet.
pub open spec fn members_of(v: ServerView, channel: Seq<char>) -> Seq<u64> {
    match lookup(v.channels, channel) {
        Some(ms) => ms,
        None => Seq::empty(),
    }
}

/// `JOIN`: a registered client joins the channel (created if needed), and
/// every connected member hears of it.
pub open spec fn join_step(
    s: SessionView,
    v: ServerView,
    id: u64,
    tags: Option<Seq<char>>,
    args: Seq<Seq<char>>,
) -> (ServerView, Seq<ActionView>) {
    if !s.registered {
        (v, reply(":"@ + server_name() + " 451 * :You have not registered"@))
    } else if args.len() == 0 {
        (
            v,
            reply(
                ":"@ + server_name() + " 461 "@ + or_default(s.nick, "*"@)
                    + " JOIN :Not enough parameters"@,
            ),
        )
    } else {
        let channel = lower_all(args[0]);
        let members = set_add(members_of(v, channel), id);
        let v1 = ServerView {
            clients: v.clients,
            nicks: v.nicks,
            channels: with_entry(v.channels, channel, members),
        };
        let msg = trim_spec(
            or_default(tags, ""@) + " :"@ + sender_prefix(s) + " JOIN :"@ + channel,
        );
        (v1, deliveries(members, v.clients, None, msg))
    }
}

/// The line that `PRIVMSG` passes on.
pub open spec fn privmsg_line(
    s: SessionView,
    tags: Option<Seq<char>>,
    target: Seq<char>,
    text: Seq<char>,
) -> Seq<char> {
    match tags {
        Some(t) => t + " :"@ + sender_prefix(s) + " PRIVMSG "@ + target + " :"@ + text,
        None => ":"@ + sender_prefix(s) + " PRIVMSG "@ + target + " :"@ + text,
    }
}

/// `PRIVMSG`: to every other connected member of a channel, or to the
/// connected owner of a nickname.
pub open spec fn privmsg_step(
    s: SessionView,
    v: ServerView,
    id: u64,
    tags: Option<Seq<char>>,
    args: Seq<Seq<char>>,
) -> Seq<ActionView> {
    if !s.registered {
        reply(":"@ + server_name() + " 451 * :You have not registered"@)
    } else if args.len() < 2 {
        reply(
            ":"@ + server_name() + " 461 "@ + or_default(s.nick, "*"@)
                + " PRIVMSG :Not enough parameters"@,
        )
    } else {
        let target = lower_all(args[0]);
        let raw = privmsg_line(s, tags, target, args[1]);
        if target.len() > 0 && target[0] == '#' {
            match lookup(v.channels, target) {
                Some(ms) => deliveries(ms, v.clients, Some(id), raw),
                None => Seq::empty(),
            }
        } else {
            match lookup(v.nicks, target) {
                Some(owner) => if v.clients.contains(owner) {
                    seq![ActionView::Deliver(owner, raw)]
                } else {
                    Seq::empty()
                },
                None => reply(
                    ":"@ + server_name() + " 401 "@ + or_default(s.nick, "*"@) + " "@ + target
                        + " :No such nick/channel"@,
                ),
            }
        }
    }
}

/// How one split line changes the session and the server, what it sends,
/// and whether the client quits.
pub open spec fn step(
    s: SessionView,
    v: ServerView,
    id: u64,
    tags: Option<Seq<char>>,
    cmd: Seq<char>,
    args: Seq<Seq<char>>,
) -> (SessionView, ServerView, Seq<ActionView>, bool) {
    if cmd.len() == 0 {
        (s, v, Seq::empty(), false)
    } else if cmd == "CAP"@ {
        (s, v, cap_replies(args), false)
    } else if cmd == "PING"@ {
        (
            s,
            v,
            reply(
                "PONG :"@ + (if args.len() > 0 {
                    args[0]
                } else {
                    server_name()
                }),
            ),
            false,
        )
    } else if cmd == "NICK"@ {
        let (s1, v1, out) = nick_step(s, v, id, args);
        (s1, v1, out, false)
    } else if cmd == "USER"@ {
        let (s1, out) = user_step(s, args);
        (s1, v, out, false)
    } else if cmd == "JOIN"@ {
        let (v1, out) = join_step(s, v, id, tags, args);
        (s, v1, out, false)
    } else if cmd == "PRIVMSG"@ {
        (s, v, privmsg_step(s, v, id, tags, args), false)
    } else if cmd == "QUIT"@ {
        (s, v, Seq::empty(), true)
    } else {
        (
            s,
            v,
            reply(
                ":"@ + server_name() + " 421 "@ + or_default(s.nick, "*"@) + " "@ + cmd
                    + " :Unknown command"@,
            ),
            false,
        )
    }
}

/// `step` on a raw line.
pub open spec fn line_step(s: SessionView, v: ServerView, id: u64, line: Seq<char>) -> (
    SessionView,
    ServerView,
    Seq<ActionView>,
    bool,
) {
    let (tags, cmd, args) = irc_line_parse(line);
    step(s, v, id, tags, cmd, args)
}


// ---------------------------------------------------------------------------
// Lemmas on keyed lists
// ---------------------------------------------------------------------------

/// Setting a key keeps keys unique; the key then maps to the value, and other
/// keys are unchanged.
pub proof fn lemma_with_entry<V>(s: Seq<(Seq<char>, V)>, k: Seq<char>, v: V)
    requires
        keys_unique(s),
    ensures
        keys_unique(with_entry(s, k, v)),
        lookup(with_entry(s, k, v), k) == Some(v),
        forall|k2: Seq<char>| k2 != k ==> #[trigger] lookup(with_entry(s, k, v), k2) == lookup(s, k2),
{
    lemma_key_index(s, k);
    let t = with_entry(s, k, v);
    match key_index(s, k) {
        Some(i) => {
            assert forall|a: int, b: int| 0 <= a < b < t.len() implies t[a].0 != t[b].0 by {
                assert(t[a].0 == s[a].0);
                assert(t[b].0 == s[b].0);
            }
            lemma_unique_key_index(t, k, i);
            assert forall|k2: Seq<char>| k2 != k implies #[trigger] lookup(t, k2) == lookup(s, k2) by {
                lemma_key_index(s, k2);
                if let Some(j) = key_index(s, k2) {
                    lemma_unique_key_index(t, k2, j);
                } else {
                    lemma_key_index(t, k2);
                    if let Some(j) = key_index(t, k2) {
                        assert(t[j].0 == s[j].0);
                    }
                }
            }
        },
        None => {
            assert forall|a: int, b: int| 0 <= a < b < t.len() implies t[a].0 != t[b].0 by {
                if b == s.len() {
                    assert(t[a] == s[a]);
                } else {
                    assert(t[a] == s[a]);
                    assert(t[b] == s[b]);
                }
            }
            lemma_unique_key_index(t, k, s.len() as int);
            assert forall|k2: Seq<char>| k2 != k implies #[trigger] lookup(t, k2) == lookup(s, k2) by {
                lemma_key_index(s, k2);
                if let Some(j) = key_index(s, k2) {
                    assert(t[j] == s[j]);
                    lemma_unique_key_index(t, k2, j);
                } else {
                    lemma_key_index(t, k2);
                    if let Some(j) = key_index(t, k2) {
                        if j < s.len() {
                            assert(t[j] == s[j]);
                        }
                    }
                }
            }
        },
    }
}

/// Removing a key keeps keys unique; the key then maps to nothing, and
/// other keys are unchanged.
pub proof fn lemma_without_key<V>(s: Seq<(Seq<char>, V)>, k: Seq<char>)
    requires
        keys_unique(s),
    ensures
        keys_unique(without_key(s, k)),
        lookup(without_key(s, k), k) is None,
        forall|k2: Seq<char>| k2 != k ==> #[trigger] lookup(without_key(s, k), k2) == lookup(s, k2),
{
    lemma_key_index(s, k);
    let t = without_key(s, k);
    match key_index(s, k) {
        Some(i) => {
            assert forall|a: int, b: int| 0 <= a < b < t.len() implies t[a].0 != t[b].0 by {
                let a2 = if a < i { a } else { a + 1 };
                let b2 = if b < i { b } else { b + 1 };
                assert(t[a] == s[a2]);
                assert(t[b] == s[b2]);
            }
            lemma_key_index(t, k);
            if let Some(j) = key_index(t, k) {
                let j2 = if j < i { j } else { j + 1 };
                assert(t[j] == s[j2]);
            }
            assert forall|k2: Seq<char>| k2 != k implies #[trigger] lookup(t, k2) == lookup(s, k2) by {
                lemma_key_index(s, k2);
                if let Some(j) = key_index(s, k2) {
                    let j1 = if j < i { j } else { j - 1 };
                    assert(j != i);
                    assert(t[j1] == s[j]);
                    lemma_unique_key_index(t, k2, j1);
                } else {
                    lemma_key_index(t, k2);
                    if let Some(j) = key_index(t, k2) {
                        let j2 = if j < i { j } else { j + 1 };
                        assert(t[j] == s[j2]);
                    }
                }
            }
        },
        None => {},
    }
}

/// One more member gives, at most, one more delivery.
proof fn lemma_deliveries_step(
    ms: Seq<u64>,
    clients: Seq<u64>,
    skip: Option<u64>,
    msg: Seq<char>,
    i: int,
)
    requires
        0 <= i < ms.len(),
    ensures
        deliveries(ms.take(i + 1), clients, skip, msg) == if clients.contains(ms[i]) && skip != Some(
            ms[i],
        ) {
            deliveries(ms.take(i), clients, skip, msg).push(ActionView::Deliver(ms[i], msg))
        } else {
            deliveries(ms.take(i), clients, skip, msg)
        },
{
    assert(ms.take(i + 1).drop_last() =~= ms.take(i));
    assert(ms.take(i + 1).last() == ms[i]);
}

// ---------------------------------------------------------------------------
// The server state
// ---------------------------------------------------------------------------

pub open spec fn opt_index(o: Option<usize>) -> Option<int> {
    match o {
        Some(i) => Some(i as int),
        None => None,
    }
}

impl ServerCore {
    fn empty() -> (r: Self)
        ensures
            r@ == (ServerView { clients: Seq::empty(), nicks: Seq::empty(), channels: Seq::empty() }),
            server_wf(r@),
    {
        let r = ServerCore { clients: Vec::new(), nicks: Vec::new(), channels: Vec::new() };
        assert(nicks_view(r.nicks@) =~= Seq::empty());
        assert(channels_view(r.channels@) =~= Seq::empty());
        r
    }
}

/// The state that all sessions share: the connected clients, who owns
/// which nickname, and who is in which channel. It is always well formed
/// (`server_wf`).
pub struct ServerState {
    core: ServerCore,
}

impl View for ServerState {
    type V = ServerView;

    closed spec fn view(&self) -> ServerView {
        self.core@
    }
}

impl ServerState {
    #[verifier::type_invariant]
    spec fn well_formed(self) -> bool {
        server_wf(self.core@)
    }
}

impl Default for ServerState {
    fn default() -> (r: Self)
        ensures
            r@ == (ServerView { clients: Seq::empty(), nicks: Seq::empty(), channels: Seq::empty() }),
            server_wf(r@),
    {
        ServerState { core: ServerCore::empty() }
    }
}

impl ServerState {
    /// Whether `id` is connected.
    pub fn has_client(&self, id: u64) -> (r: bool)
        ensures
            r == self@.clients.contains(id),
    {
        self.core.has_client(id)
    }

    /// The owner of nickname `k`, if any.
    pub fn nick_owner(&self, k: &str) -> (r: Option<u64>)
        ensures
            r == lookup(self@.nicks, k@),
    {
        self.core.nick_owner(k)
    }

    /// The members of channel `k`, if it exists.
    pub fn channel_members(&self, k: &str) -> (r: Option<Vec<u64>>)
        ensures
            match r {
                Some(ms) => lookup(self@.channels, k@) == Some(ms@),
                None => lookup(self@.channels, k@) is None,
            },
    {
        self.core.channel_members(k)
    }

    /// Registers a newly connected client.
    pub fn connect(&mut self, id: u64)
        ensures
            server_wf(final(self)@),
            final(self)@ == (ServerView {
                clients: set_add(old(self)@.clients, id),
                nicks: old(self)@.nicks,
                channels: old(self)@.channels,
            }),
    {
        proof {
            use_type_invariant(&*self);
        }
        let mut core = ServerCore::empty();
        std::mem::swap(&mut core, &mut self.core);
        core.connect(id);
        self.core = core;
    }

    /// Forgets a client that has gone: its nickname, its connection and its
    /// channel memberships.
    pub fn disconnect(&mut self, session: &mut SessionState, id: u64)
        ensures
            server_wf(final(self)@),
            (final(session)@, final(self)@) == disconnected(old(session)@, old(self)@, id),
    {
        proof {
            use_type_invariant(&*self);
        }
        let mut core = ServerCore::empty();
        std::mem::swap(&mut core, &mut self.core);
        core.disconnect(session, id);
        self.core = core;
    }

    /// Handles one line from client `client_id`: updates the session and the
    /// server state, and returns the lines to send and whether the client
    /// quits.
    pub fn handle_line(&mut self, session: &mut SessionState, client_id: u64, line: &str) -> (r:
        Outcome)
        ensures
            server_wf(final(self)@),
            (final(session)@, final(self)@, actions_view(r.actions@), r.quit) == line_step(
                old(session)@,
                old(self)@,
                client_id,
                line@,
            ),
    {
        proof {
            use_type_invariant(&*self);
        }
        let mut core = ServerCore::empty();
        std::mem::swap(&mut core, &mut self.core);
        let r = core.handle_line(session, client_id, line);
        self.core = core;
        r
    }
}

/// Where `x` occurs in `ms`, if it does.
fn index_of_member(ms: &Vec<u64>, x: u64) -> (r: Option<usize>)
    ensures
        opt_index(r) == member_index(ms@, x),
        r matches Some(i) ==> i < ms@.len(),
{
    let mut i: usize = 0;
    while i < ms.len()
        invariant
            i <= ms@.len(),
            forall|j: int| 0 <= j < i ==> #[trigger] ms@[j] != x,
        decreases ms@.len() - i,
    {
        if ms[i] == x {
            proof {
                lemma_member_index_at_pub(ms@, x, i as int);
            }
            return Some(i);
        }
        i = i + 1;
    }
    proof {
        lemma_member_index_at_pub(ms@, x, i as int);
    }
    None
}

impl ServerCore {
    fn client_index(&self, id: u64) -> (r: Option<usize>)
        ensures
            opt_index(r) == member_index(self@.clients, id),
    {
        index_of_member(&self.clients, id)
    }

    /// Whether `id` is connected.
    fn has_client(&self, id: u64) -> (r: bool)
        ensures
            r == self@.clients.contains(id),
    {
        proof {
            lemma_member_index(self@.clients, id);
        }
        self.client_index(id).is_some()
    }

    fn nick_index(&self, k: &str) -> (r: Option<usize>)
        ensures
            opt_index(r) == key_index(self@.nicks, k@),
            r matches Some(i) ==> i < self.nicks@.len(),
    {
        let ghost nv = self@.nicks;
        let mut i: usize = 0;
        while i < self.nicks.len()
            invariant
                nv == nicks_view(self.nicks@),
                i <= self.nicks@.len(),
                forall|j: int| 0 <= j < i ==> #[trigger] nv[j].0 != k@,
            decreases self.nicks@.len() - i,
        {
            if str_eq(self.nicks[i].0.as_str(), k) {
                proof {
                    lemma_key_index_at_pub(nv, k@, i as int);
                }
                return Some(i);
            }
            i = i + 1;
        }
        proof {
            lemma_key_index_at_pub(nv, k@, i as int);
        }
        None
    }

    fn channel_index(&self, k: &str) -> (r: Option<usize>)
        ensures
            opt_index(r) == key_index(self@.channels, k@),
            r matches Some(i) ==> i < self.channels@.len(),
    {
        let ghost cv = self@.channels;
        let mut i: usize = 0;
        while i < self.channels.len()
            invariant
                cv == channels_view(self.channels@),
                i <= self.channels@.len(),
                forall|j: int| 0 <= j < i ==> #[trigger] cv[j].0 != k@,
            decreases self.channels@.len() - i,
        {
            if str_eq(self.channels[i].0.as_str(), k) {
                proof {
                    lemma_key_index_at_pub(cv, k@, i as int);
                }
                return Some(i);
            }
            i = i + 1;
        }
        proof {
            lemma_key_index_at_pub(cv, k@, i as int);
        }
        None
    }

    /// The owner of nickname `k`, if any.
    fn nick_owner(&self, k: &str) -> (r: Option<u64>)
        ensures
            r == lookup(self@.nicks, k@),
    {
        match self.nick_index(k) {
            Some(i) => Some(self.nicks[i].1),
            None => None,
        }
    }

    /// The members of channel `k`, if it exists.
    fn channel_members(&self, k: &str) -> (r: Option<Vec<u64>>)
        ensures
            match r {
                Some(ms) => lookup(self@.channels, k@) == Some(ms@),
                None => lookup(self@.channels, k@) is None,
            },
    {
        match self.channel_index(k) {
            Some(i) => Some(self.channels[i].1.clone()),
            None => None,
        }
    }

    /// Registers a newly connected client.
    fn connect(&mut self, id: u64)
        requires
            server_wf(old(self)@),
        ensures
            server_wf(final(self)@),
            final(self)@ == (ServerView {
                clients: set_add(old(self)@.clients, id),
                nicks: old(self)@.nicks,
                channels: old(self)@.channels,
            }),
    {
        proof {
            lemma_set_add(self@.clients, id);
            lemma_member_index(self@.clients, id);
        }
        if self.client_index(id).is_none() {
            self.clients.push(id);
        }
    }

    fn set_nick(&mut self, k: String, id: u64)
        requires
            server_wf(old(self)@),
        ensures
            server_wf(final(self)@),
            final(self)@ == (ServerView {
                clients: old(self)@.clients,
                nicks: with_entry(old(self)@.nicks, k@, id),
                channels: old(self)@.channels,
            }),
    {
        proof {
            lemma_with_entry(self@.nicks, k@, id);
        }
        let ghost kv = k@;
        match self.nick_index(k.as_str()) {
            Some(i) => {
                self.nicks.remove(i);
                self.nicks.insert(i, (k, id));
            },
            None => {
                self.nicks.push((k, id));
            },
        }
        assert(nicks_view(self.nicks@) =~= with_entry(old(self)@.nicks, kv, id));
    }

    fn drop_nick(&mut self, k: &str)
        requires
            server_wf(old(self)@),
        ensures
            server_wf(final(self)@),
            final(self)@ == (ServerView {
                clients: old(self)@.clients,
                nicks: without_key(old(self)@.nicks, k@),
                channels: old(self)@.channels,
            }),
    {
        proof {
            lemma_without_key(self@.nicks, k@);
        }
        if let Some(i) = self.nick_index(k) {
            self.nicks.remove(i);
        }
        assert(nicks_view(self.nicks@) =~= without_key(old(self)@.nicks, k@));
    }

    /// Adds `id` to channel `channel` (creating it), returning its members.
    fn join(&mut self, channel: String, id: u64) -> (r: Vec<u64>)
        requires
            server_wf(old(self)@),
        ensures
            server_wf(final(self)@),
            r@ == set_add(members_of(old(self)@, channel@), id),
            final(self)@ == (ServerView {
                clients: old(self)@.clients,
                nicks: old(self)@.nicks,
                channels: with_entry(old(self)@.channels, channel@, r@),
            }),
    {
        let ghost cv = channel@;
        let ghost old_v = self@;
        match self.channel_index(channel.as_str()) {
            Some(i) => {
                proof {
                    lemma_key_index(old_v.channels, cv);
                    lemma_set_add(old_v.channels[i as int].1, id);
                    lemma_member_index(old_v.channels[i as int].1, id);
                }
                let (_name, mut ms) = self.channels.remove(i);
                if index_of_member(&ms, id).is_none() {
                    ms.push(id);
                }
                let r = ms.clone();
                proof {
                    lemma_with_entry(old_v.channels, cv, ms@);
                }
                self.channels.insert(i, (channel, ms));
                assert(channels_view(self.channels@) =~= with_entry(old_v.channels, cv, r@));
                proof {
                    let nv = self@.channels;
                    assert forall|a: int| 0 <= a < nv.len() implies members_unique(#[trigger] nv[a].1) by {
                        if a != i {
                            assert(nv[a] == old_v.channels[a]);
                        }
                    }
                }
                r
            },
            None => {
                proof {
                    lemma_key_index(old_v.channels, cv);
                }
                let mut ms: Vec<u64> = Vec::new();
                ms.push(id);
                let r = ms.clone();
                proof {
                    lemma_with_entry(old_v.channels, cv, ms@);
                    assert(set_add(Seq::<u64>::empty(), id) =~= seq![id]);
                }
                self.channels.push((channel, ms));
                assert(channels_view(self.channels@) =~= with_entry(old_v.channels, cv, r@));
                proof {
                    let nv = self@.channels;
                    assert forall|a: int| 0 <= a < nv.len() implies members_unique(#[trigger] nv[a].1) by {
                        if a < old_v.channels.len() {
                            assert(nv[a] == old_v.channels[a]);
                        }
                    }
                }
                r
            },
        }
    }
}

pub proof fn lemma_member_index_at_pub(ms: Seq<u64>, x: u64, n: int)
    requires
        0 <= n <= ms.len(),
        forall|j: int| 0 <= j < n ==> #[trigger] ms[j] != x,
        n < ms.len() ==> ms[n] == x,
    ensures
        member_index(ms, x) == if n < ms.len() {
            Some(n)
        } else {
            None::<int>
        },
    decreases n,
{
    if n > 0 {
        assert forall|j: int| 0 <= j < n - 1 implies #[trigger] ms.drop_first()[j] != x by {
            assert(ms.drop_first()[j] == ms[j + 1]);
        }
        if n < ms.len() {
            assert(ms.drop_first()[n - 1] == ms[n]);
        }
        lemma_member_index_at_pub(ms.drop_first(), x, n - 1);
    }
}

pub proof fn lemma_key_index_at_pub<V>(s: Seq<(Seq<char>, V)>, k: Seq<char>, n: int)
    requires
        0 <= n <= s.len(),
        forall|j: int| 0 <= j < n ==> #[trigger] s[j].0 != k,
        n < s.len() ==> s[n].0 == k,
    ensures
        key_index(s, k) == if n < s.len() {
            Some(n)
        } else {
            None::<int>
        },
    decreases n,
{
    if n > 0 {
        assert forall|j: int| 0 <= j < n - 1 implies #[trigger] s.drop_first()[j].0 != k by {
            assert(s.drop_first()[j] == s[j + 1]);
        }
        if n < s.len() {
            assert(s.drop_first()[n - 1] == s[n]);
        }
        lemma_key_index_at_pub(s.drop_first(), k, n - 1);
    }
}


// ---------------------------------------------------------------------------
// Connecting and disconnecting
// ---------------------------------------------------------------------------

/// What a client's departure leaves: its nickname released, itself no longer
/// connected, and no longer a member of any channel.
pub open spec fn disconnected(s: SessionView, v: ServerView, id: u64) -> (SessionView, ServerView) {
    (
        SessionView { nick: None, user: s.user, registered: s.registered },
        ServerView {
            clients: set_del(v.clients, id),
            nicks: match s.nick {
                Some(n) => without_key(v.nicks, n),
                None => v.nicks,
            },
            channels: Seq::new(
                v.channels.len(),
                |i: int| (v.channels[i].0, set_del(v.channels[i].1, id)),
            ),
        },
    )
}

impl ServerCore {
    /// Forgets a client that has gone: its nickname, its connection and its
    /// channel memberships.
    fn disconnect(&mut self, session: &mut SessionState, id: u64)
        requires
            server_wf(old(self)@),
        ensures
            server_wf(final(self)@),
            (final(session)@, final(self)@) == disconnected(old(session)@, old(self)@, id),
    {
        let ghost v0 = self@;
        let ghost s0 = session@;
        if let Some(nick) = session.nick.take() {
            self.drop_nick(nick.as_str());
        }
        let ghost v1 = self@;
        proof {
            lemma_set_del(v1.clients, id);
            lemma_member_index(v1.clients, id);
        }
        if let Some(i) = index_of_member(&self.clients, id) {
            self.clients.remove(i);
        }
        let ghost v2 = self@;
        let mut i: usize = 0;
        while i < self.channels.len()
            invariant
                i <= self.channels@.len(),
                self@.clients == v2.clients,
                self@.nicks == v2.nicks,
                self@.channels.len() == v2.channels.len(),
                v2.channels == v0.channels,
                server_wf(v0),
                forall|j: int|
                    0 <= j < i ==> #[trigger] self@.channels[j] == (
                        v0.channels[j].0,
                        set_del(v0.channels[j].1, id),
                    ),
                forall|j: int| i <= j < self@.channels.len() ==> #[trigger] self@.channels[j] == v0.channels[j],
            decreases self.channels@.len() - i,
        {
            let ghost before_vec = self.channels@;
            proof {
                lemma_set_del(v0.channels[i as int].1, id);
                lemma_member_index(v0.channels[i as int].1, id);
            }
            let (name, mut ms) = self.channels.remove(i);
            let ghost old_ms = ms@;
            let ghost name_v = name@;
            if let Some(k) = index_of_member(&ms, id) {
                ms.remove(k);
            }
            assert(ms@ == set_del(old_ms, id));
            self.channels.insert(i, (name, ms));
            proof {
                assert(self.channels@ == before_vec.remove(i as int).insert(i as int, self.channels@[i as int]));
                assert(channels_view(before_vec)[i as int] == (name_v, old_ms));
                assert forall|j: int| 0 <= j < self@.channels.len() && j != i implies #[trigger] self@.channels[j] == channels_view(before_vec)[j] by {
                    assert(self.channels@[j] == before_vec[j]);
                }
                assert(self@.channels[i as int] == (name_v, set_del(old_ms, id)));
            }
            i = i + 1;
        }
        proof {
            let (s3, v3) = disconnected(s0, v0, id);
            assert(self@.channels =~= v3.channels);
            assert(session@ == s3);
            let c = self@.channels;
            assert forall|a: int| 0 <= a < c.len() implies members_unique(#[trigger] c[a].1) by {
                lemma_set_del(v0.channels[a].1, id);
            }
            assert forall|a: int, b: int| 0 <= a < b < c.len() implies c[a].0 != c[b].0 by {
                assert(c[a].0 == v0.channels[a].0);
                assert(c[b].0 == v0.channels[b].0);
            }
        }
    }
}


// ---------------------------------------------------------------------------
// Handling a line
// ---------------------------------------------------------------------------

/// `nick!user@localhost` for this session, with `*` and `unknown` for what
/// is not known yet.
pub fn prefixed_nick(state: &SessionState) -> (r: String)
    ensures
        r@ == sender_prefix(state@),
{
    let nick: &str = match &state.nick {
        Some(n) => n.as_str(),
        None => "*",
    };
    let user: &str = match &state.user {
        Some(u) => u.as_str(),
        None => "unknown",
    };
    String::from_str(nick).concat("!").concat(user).concat("@localhost")
}

fn reply_action(text: String) -> (r: Action)
    ensures
        r@ == ActionView::Reply(text@),
{
    Action::Reply(text)
}

/// A vector holding one reply.
fn one_reply(text: String) -> (r: Vec<Action>)
    ensures
        actions_view(r@) == reply(text@),
{
    let mut v: Vec<Action> = Vec::new();
    v.push(reply_action(text));
    assert(actions_view(v@) =~= reply(text@));
    v
}

fn no_actions() -> (r: Vec<Action>)
    ensures
        actions_view(r@) == Seq::<ActionView>::empty(),
{
    let v: Vec<Action> = Vec::new();
    assert(actions_view(v@) =~= Seq::<ActionView>::empty());
    v
}

/// Appends an action.
fn push_action(v: &mut Vec<Action>, a: Action)
    ensures
        actions_view(final(v)@) == actions_view(old(v)@).push(a@),
{
    v.push(a);
    assert(actions_view(v@) =~= actions_view(old(v)@).push(a@));
}

/// The lines that greet a newly registered client.
fn welcome_actions(nick: &str) -> (r: Vec<Action>)
    ensures
        actions_view(r@) == welcome(nick@),
{
    let mut v: Vec<Action> = Vec::new();
    push_action(
        &mut v,
        Action::Reply(
            String::from_str(":").concat(SERVER_NAME).concat(" 001 ").concat(nick).concat(
                " :Welcome to Foxy IRCd",
            ),
        ),
    );
    push_action(
        &mut v,
        Action::Reply(
            String::from_str(":").concat(SERVER_NAME).concat(" 002 ").concat(nick).concat(
                " :Your host is ",
            ).concat(SERVER_NAME),
        ),
    );
    push_action(
        &mut v,
        Action::Reply(
            String::from_str(":").concat(SERVER_NAME).concat(" 003 ").concat(nick).concat(
                " :This server was created recently",
            ),
        ),
    );
    push_action(
        &mut v,
        Action::Reply(
            String::from_str(":").concat(SERVER_NAME).concat(" 004 ").concat(nick).concat(
                " ",
            ).concat(SERVER_NAME).concat(" 0.1 ioCnosit kmn"),
        ),
    );
    assert(actions_view(v@) =~= welcome(nick@));
    v
}

/// Completes registration once both a nickname and a user name are known.
fn register_if_ready(session: &mut SessionState) -> (r: Vec<Action>)
    ensures
        (final(session)@, actions_view(r@)) == register_step(old(session)@),
{
    if session.registered || session.nick.is_none() || session.user.is_none() {
        return no_actions();
    }
    session.registered = true;
    match &session.nick {
        Some(nick) => welcome_actions(nick.as_str()),
        None => no_actions(),
    }
}

/// The replies to `CAP`.
fn cap_actions(args: &Vec<String>) -> (r: Vec<Action>)
    ensures
        actions_view(r@) == cap_replies(strings_view(args@)),
{
    let ghost a = strings_view(args@);
    if args.len() == 0 {
        return one_reply(
            String::from_str(":").concat(SERVER_NAME).concat(" 461 * CAP :Not enough parameters"),
        );
    }
    assert(a[0] == args@[0]@);
    let sub = to_ascii_uppercase(args[0].as_str());
    if str_eq(sub.as_str(), "LS") {
        one_reply(String::from_str(":").concat(SERVER_NAME).concat(" CAP * LS :").concat(CAPABILITIES))
    } else if str_eq(sub.as_str(), "REQ") {
        if args.len() > 1 {
            assert(a[1] == args@[1]@);
            one_reply(
                String::from_str(":").concat(SERVER_NAME).concat(" CAP * ACK :").concat(
                    args[1].as_str(),
                ),
            )
        } else {
            one_reply(
                String::from_str(":").concat(SERVER_NAME).concat(
                    " 461 * CAP :Not enough parameters",
                ),
            )
        }
    } else if str_eq(sub.as_str(), "END") {
        no_actions()
    } else {
        let extra: &str = if args.len() > 1 {
            args[1].as_str()
        } else {
            ""
        };
        proof {
            if args.len() > 1 {
                assert(a[1] == args@[1]@);
            }
        }
        one_reply(String::from_str(":").concat(SERVER_NAME).concat(" CAP * NAK :").concat(extra))
    }
}

/// The reply to `PING`.
fn ping_actions(args: &Vec<String>) -> (r: Vec<Action>)
    ensures
        actions_view(r@) == reply(
            "PONG :"@ + (if strings_view(args@).len() > 0 {
                strings_view(args@)[0]
            } else {
                server_name()
            }),
        ),
{
    let payload: &str = if args.len() > 0 {
        args[0].as_str()
    } else {
        SERVER_NAME
    };
    one_reply(String::from_str("PONG :").concat(payload))
}

/// A delivery of `msg` to each connected member, leaving out `skip`.
fn deliver_all(clients: &ServerCore, members: &Vec<u64>, skip: Option<u64>, msg: &String) -> (r: Vec<
    Action,
>)
    ensures
        actions_view(r@) == deliveries(members@, clients@.clients, skip, msg@),
{
    let mut v: Vec<Action> = Vec::new();
    let mut i: usize = 0;
    assert(members@.take(0) =~= Seq::<u64>::empty());
    assert(actions_view(v@) =~= Seq::<ActionView>::empty());
    while i < members.len()
        invariant
            i <= members@.len(),
            actions_view(v@) == deliveries(members@.take(i as int), clients@.clients, skip, msg@),
        decreases members@.len() - i,
    {
        let m = members[i];
        proof {
            lemma_deliveries_step(members@, clients@.clients, skip, msg@, i as int);
        }
        let skipped = match skip {
            Some(s) => s == m,
            None => false,
        };
        if clients.has_client(m) && !skipped {
            push_action(&mut v, Action::Deliver(m, msg.clone()));
        }
        i = i + 1;
    }
    assert(members@.take(members@.len() as int) =~= members@);
    v
}

impl ServerCore {
    /// `NICK`.
    fn nick_command(&mut self, session: &mut SessionState, id: u64, args: &Vec<String>) -> (r: Vec<
        Action,
    >)
        requires
            server_wf(old(self)@),
        ensures
            server_wf(final(self)@),
            (final(session)@, final(self)@, actions_view(r@)) == nick_step(
                old(session)@,
                old(self)@,
                id,
                strings_view(args@),
            ),
    {
        let ghost a = strings_view(args@);
        if args.len() == 0 {
            return one_reply(
                String::from_str(":").concat(SERVER_NAME).concat(" 431 * :No nickname given"),
            );
        }
        assert(a[0] == args@[0]@);
        let nick = args[0].clone();
        if let Some(owner) = self.nick_owner(nick.as_str()) {
            if owner != id {
                return one_reply(
                    String::from_str(":").concat(SERVER_NAME).concat(" 433 * ").concat(
                        nick.as_str(),
                    ).concat(" :Nickname is already in use"),
                );
            }
        }
        let old_nick = session.nick.take();
        session.nick = Some(nick.clone());
        if let Some(old) = old_nick {
            self.drop_nick(old.as_str());
        }
        self.set_nick(nick, id);
        register_if_ready(session)
    }

    /// `JOIN`.
    fn join_command(
        &mut self,
        session: &SessionState,
        id: u64,
        tags: Option<&str>,
        args: &Vec<String>,
    ) -> (r: Vec<Action>)
        requires
            server_wf(old(self)@),
        ensures
            server_wf(final(self)@),
            (final(self)@, actions_view(r@)) == join_step(
                session@,
                old(self)@,
                id,
                opt_str_view(tags),
                strings_view(args@),
            ),
    {
        let ghost a = strings_view(args@);
        if !session.registered {
            return one_reply(
                String::from_str(":").concat(SERVER_NAME).concat(" 451 * :You have not registered"),
            );
        }
        let nick_or_star: &str = match &session.nick {
            Some(n) => n.as_str(),
            None => "*",
        };
        if args.len() == 0 {
            return one_reply(
                String::from_str(":").concat(SERVER_NAME).concat(" 461 ").concat(nick_or_star).concat(
                    " JOIN :Not enough parameters",
                ),
            );
        }
        assert(a[0] == args@[0]@);
        let channel = to_ascii_lowercase(args[0].as_str());
        let ghost before = self@;
        let members = self.join(channel.clone(), id);
        let sender = prefixed_nick(session);
        let tag_text: &str = match tags {
            Some(t) => t,
            None => "",
        };
        let untrimmed = String::from_str(tag_text).concat(" :").concat(sender.as_str()).concat(
            " JOIN :",
        ).concat(channel.as_str());
        let msg = trim_owned(untrimmed.as_str());
        let r = deliver_all(self, &members, None, &msg);
        assert(self@.clients == before.clients);
        r
    }

    /// `PRIVMSG`.
    fn privmsg_command(&self, session: &SessionState, id: u64, tags: Option<&str>, args: &Vec<String>) -> (r: Vec<Action>)
        ensures
            actions_view(r@) == privmsg_step(
                session@,
                self@,
                id,
                opt_str_view(tags),
                strings_view(args@),
            ),
    {
        let ghost a = strings_view(args@);
        if !session.registered {
            return one_reply(
                String::from_str(":").concat(SERVER_NAME).concat(" 451 * :You have not registered"),
            );
        }
        let nick_or_star: &str = match &session.nick {
            Some(n) => n.as_str(),
            None => "*",
        };
        if args.len() < 2 {
            return one_reply(
                String::from_str(":").concat(SERVER_NAME).concat(" 461 ").concat(nick_or_star).concat(
                    " PRIVMSG :Not enough parameters",
                ),
            );
        }
        assert(a[0] == args@[0]@);
        assert(a[1] == args@[1]@);
        let target = to_ascii_lowercase(args[0].as_str());
        let text = args[1].as_str();
        let sender = prefixed_nick(session);
        let raw = match tags {
            Some(t) => String::from_str(t).concat(" :").concat(sender.as_str()).concat(" PRIVMSG ").concat(
                target.as_str(),
            ).concat(" :").concat(text),
            None => String::from_str(":").concat(sender.as_str()).concat(" PRIVMSG ").concat(
                target.as_str(),
            ).concat(" :").concat(text),
        };
        if starts_with_char(target.as_str(), '#') {
            match self.channel_members(target.as_str()) {
                Some(ms) => deliver_all(self, &ms, Some(id), &raw),
                None => no_actions(),
            }
        } else {
            match self.nick_owner(target.as_str()) {
                Some(owner) => {
                    if self.has_client(owner) {
                        let mut v: Vec<Action> = Vec::new();
                        push_action(&mut v, Action::Deliver(owner, raw));
                        assert(actions_view(v@) =~= seq![ActionView::Deliver(owner, raw@)]);
                        v
                    } else {
                        no_actions()
                    }
                },
                None => one_reply(
                    String::from_str(":").concat(SERVER_NAME).concat(" 401 ").concat(
                        nick_or_star,
                    ).concat(" ").concat(target.as_str()).concat(" :No such nick/channel"),
                ),
            }
        }
    }

    /// Handles one line from client `client_id`: updates the session and the
    /// server state, and returns the lines to send and whether the client
    /// quits.
    fn handle_line(&mut self, session: &mut SessionState, client_id: u64, line: &str) -> (r:
        Outcome)
        requires
            server_wf(old(self)@),
        ensures
            server_wf(final(self)@),
            (final(session)@, final(self)@, actions_view(r.actions@), r.quit) == line_step(
                old(session)@,
                old(self)@,
                client_id,
                line@,
            ),
    {
        let (tags, cmd, args) = parse_irc_line(line);
        let c = cmd.as_str();
        if c.unicode_len() == 0 {
            return Outcome { actions: no_actions(), quit: false };
        }
        if str_eq(c, "CAP") {
            Outcome { actions: cap_actions(&args), quit: false }
        } else if str_eq(c, "PING") {
            Outcome { actions: ping_actions(&args), quit: false }
        } else if str_eq(c, "NICK") {
            let actions = self.nick_command(session, client_id, &args);
            Outcome { actions, quit: false }
        } else if str_eq(c, "USER") {
            let actions = if args.len() < 4 {
                one_reply(
                    String::from_str(":").concat(SERVER_NAME).concat(
                        " 461 * USER :Not enough parameters",
                    ),
                )
            } else if session.registered {
                one_reply(
                    String::from_str(":").concat(SERVER_NAME).concat(" 462 * :You may not reregister"),
                )
            } else {
                assert(strings_view(args@)[0] == args@[0]@);
                session.user = Some(args[0].clone());
                register_if_ready(session)
            };
            Outcome { actions, quit: false }
        } else if str_eq(c, "JOIN") {
            let actions = self.join_command(session, client_id, tags, &args);
            Outcome { actions, quit: false }
        } else if str_eq(c, "PRIVMSG") {
            let actions = self.privmsg_command(session, client_id, tags, &args);
            Outcome { actions, quit: false }
        } else if str_eq(c, "QUIT") {
            Outcome { actions: no_actions(), quit: true }
        } else {
            let nick_or_star: &str = match &session.nick {
                Some(n) => n.as_str(),
                None => "*",
            };
            let text = String::from_str(":").concat(SERVER_NAME).concat(" 421 ").concat(
                nick_or_star,
            ).concat(" ").concat(c).concat(" :Unknown command");
            Outcome { actions: one_reply(text), quit: false }
        }
    }
}


// ---------------------------------------------------------------------------
// Laws
// ---------------------------------------------------------------------------

/// The session's nickname, if any, is owned by the session's client.
pub open spec fn owns_own_nick(s: SessionView, v: ServerView, id: u64) -> bool {
    s.nick matches Some(k) ==> lookup(v.nicks, k) == Some(id)
}

/// A registered session knows its nickname and user name.
pub open spec fn registration_complete(s: SessionView) -> bool {
    s.registered ==> s.nick is Some && s.user is Some
}

/// Every delivery goes to a connected member other than `skip`.
proof fn lemma_deliveries_targets(
    ms: Seq<u64>,
    clients: Seq<u64>,
    skip: Option<u64>,
    msg: Seq<char>,
)
    ensures
        forall|i: int|
            0 <= i < deliveries(ms, clients, skip, msg).len() ==> (#[trigger] deliveries(
                ms,
                clients,
                skip,
                msg,
            )[i] matches ActionView::Deliver(m, t) && clients.contains(m) && skip != Some(m)
                && ms.contains(m) && t == msg),
    decreases ms.len(),
{
    if ms.len() > 0 {
        let q = ms.drop_last();
        lemma_deliveries_targets(q, clients, skip, msg);
        let d = deliveries(ms, clients, skip, msg);
        let dq = deliveries(q, clients, skip, msg);
        assert forall|i: int| 0 <= i < d.len() implies (#[trigger] d[i] matches ActionView::Deliver(
            m,
            t,
        ) && clients.contains(m) && skip != Some(m) && ms.contains(m) && t == msg) by {
            if i < dq.len() {
                assert(d[i] == dq[i]);
                if let ActionView::Deliver(m, t) = dq[i] {
                    let j = choose|j: int| 0 <= j < q.len() && q[j] == m;
                    assert(ms[j] == m);
                }
            } else {
                assert(ms[ms.len() - 1] == ms.last());
            }
        }
    }
}

/// Law: handling a line keeps the server state well formed (nothing listed
/// twice).
pub proof fn law_step_keeps_wf(
    s: SessionView,
    v: ServerView,
    id: u64,
    tags: Option<Seq<char>>,
    cmd: Seq<char>,
    args: Seq<Seq<char>>,
)
    requires
        server_wf(v),
    ensures
        server_wf(step(s, v, id, tags, cmd, args).1),
{
    if cmd == "NICK"@ && args.len() > 0 {
        let nicks1 = match s.nick {
            Some(old) => without_key(v.nicks, old),
            None => v.nicks,
        };
        if let Some(old) = s.nick {
            lemma_without_key(v.nicks, old);
        }
        lemma_with_entry(nicks1, args[0], id);
    }
    if cmd == "JOIN"@ && s.registered && args.len() > 0 {
        let channel = lower_all(args[0]);
        let old_ms = members_of(v, channel);
        lemma_key_index(v.channels, channel);
        assert(members_unique(old_ms));
        lemma_set_add(old_ms, id);
        let members = set_add(old_ms, id);
        lemma_with_entry(v.channels, channel, members);
        let c = with_entry(v.channels, channel, members);
        assert forall|a: int| 0 <= a < c.len() implies members_unique(#[trigger] c[a].1) by {
            match key_index(v.channels, channel) {
                Some(i) => {
                    if a != i {
                        assert(c[a] == v.channels[a]);
                    }
                },
                None => {
                    if a < v.channels.len() {
                        assert(c[a] == v.channels[a]);
                    }
                },
            }
        }
    }
}

/// Law: a nickname that another client owns is never taken over, as long as
/// the session's own nickname is its own.
pub proof fn law_nick_not_taken_over(
    s: SessionView,
    v: ServerView,
    id: u64,
    tags: Option<Seq<char>>,
    cmd: Seq<char>,
    args: Seq<Seq<char>>,
    n: Seq<char>,
    owner: u64,
)
    requires
        server_wf(v),
        owns_own_nick(s, v, id),
        lookup(v.nicks, n) == Some(owner),
        owner != id,
    ensures
        lookup(step(s, v, id, tags, cmd, args).1.nicks, n) == Some(owner),
{
    if cmd == "NICK"@ && args.len() > 0 {
        let nick = args[0];
        if !(lookup(v.nicks, nick) is Some && lookup(v.nicks, nick)->0 != id) {
            assert(nick != n);
            let nicks1 = match s.nick {
                Some(old) => without_key(v.nicks, old),
                None => v.nicks,
            };
            if let Some(old) = s.nick {
                lemma_without_key(v.nicks, old);
                assert(old != n);
            }
            lemma_with_entry(nicks1, nick, id);
        }
    }
}

/// Law: the session's nickname stays its own, registration is never undone
/// and is complete, and the welcome is sent exactly when registration
/// completes.
pub proof fn law_session_invariants(
    s: SessionView,
    v: ServerView,
    id: u64,
    tags: Option<Seq<char>>,
    cmd: Seq<char>,
    args: Seq<Seq<char>>,
)
    requires
        server_wf(v),
        owns_own_nick(s, v, id),
        registration_complete(s),
    ensures
        ({
            let (s1, v1, out, _) = step(s, v, id, tags, cmd, args);
            &&& owns_own_nick(s1, v1, id)
            &&& registration_complete(s1)
            &&& (s.registered ==> s1.registered)
            &&& (!s.registered && s1.registered ==> out == welcome(s1.nick->0))
        }),
{
    if cmd == "NICK"@ && args.len() > 0 {
        let nick = args[0];
        let nicks1 = match s.nick {
            Some(old) => without_key(v.nicks, old),
            None => v.nicks,
        };
        if let Some(old) = s.nick {
            lemma_without_key(v.nicks, old);
        }
        lemma_with_entry(nicks1, nick, id);
    }
}

/// Law: a client that has not registered can neither join a channel nor send
/// a message; it is told so and nothing changes.
pub proof fn law_unregistered_refused(
    s: SessionView,
    v: ServerView,
    id: u64,
    tags: Option<Seq<char>>,
    cmd: Seq<char>,
    args: Seq<Seq<char>>,
)
    requires
        !s.registered,
        cmd == "JOIN"@ || cmd == "PRIVMSG"@,
    ensures
        step(s, v, id, tags, cmd, args) == (
            s,
            v,
            reply(":"@ + server_name() + " 451 * :You have not registered"@),
            false,
        ),
{
    reveal_strlit("CAP");
    reveal_strlit("PING");
    reveal_strlit("NICK");
    reveal_strlit("USER");
    reveal_strlit("JOIN");
    reveal_strlit("PRIVMSG");
    assert("JOIN"@.len() > 0);
    assert("PRIVMSG"@.len() > 0);
    assert("JOIN"@.len() != "CAP"@.len());
    assert("JOIN"@[0] != "PING"@[0] && "JOIN"@[0] != "NICK"@[0] && "JOIN"@[0] != "USER"@[0]);
    assert("JOIN"@ != "CAP"@ && "JOIN"@ != "PING"@ && "JOIN"@ != "NICK"@ && "JOIN"@ != "USER"@);
    assert("PRIVMSG"@.len() != "CAP"@.len() && "PRIVMSG"@.len() != "PING"@.len());
    assert("PRIVMSG"@ != "CAP"@ && "PRIVMSG"@ != "PING"@ && "PRIVMSG"@ != "NICK"@
        && "PRIVMSG"@ != "USER"@ && "PRIVMSG"@ != "JOIN"@);
}

/// Law: lines are only delivered to connected clients, and a message to a
/// channel never goes back to its sender.
pub proof fn law_deliveries(
    s: SessionView,
    v: ServerView,
    id: u64,
    tags: Option<Seq<char>>,
    cmd: Seq<char>,
    args: Seq<Seq<char>>,
)
    ensures
        ({
            let out = step(s, v, id, tags, cmd, args).2;
            &&& forall|i: int|
                0 <= i < out.len() ==> (#[trigger] out[i] matches ActionView::Deliver(m, _)
                    ==> v.clients.contains(m))
            &&& (cmd == "PRIVMSG"@ && args.len() >= 2 && lower_all(args[0]).len() > 0
                && lower_all(args[0])[0] == '#') ==> forall|i: int|
                0 <= i < out.len() ==> (#[trigger] out[i] matches ActionView::Deliver(m, _) ==> m
                    != id)
        }),
{
    reveal_strlit("CAP");
    reveal_strlit("PING");
    reveal_strlit("NICK");
    reveal_strlit("USER");
    reveal_strlit("JOIN");
    reveal_strlit("PRIVMSG");
    assert("PRIVMSG"@.len() != "CAP"@.len() && "PRIVMSG"@.len() != "PING"@.len());
    assert("PRIVMSG"@ != "CAP"@ && "PRIVMSG"@ != "PING"@ && "PRIVMSG"@ != "NICK"@
        && "PRIVMSG"@ != "USER"@ && "PRIVMSG"@ != "JOIN"@);
    if cmd == "JOIN"@ && s.registered && args.len() > 0 {
        let channel = lower_all(args[0]);
        let members = set_add(members_of(v, channel), id);
        let msg = trim_spec(
            or_default(tags, ""@) + " :"@ + sender_prefix(s) + " JOIN :"@ + channel,
        );
        lemma_deliveries_targets(members, v.clients, None, msg);
    }
    if cmd == "PRIVMSG"@ && s.registered && args.len() >= 2 {
        let target = lower_all(args[0]);
        let raw = privmsg_line(s, tags, target, args[1]);
        if let Some(ms) = lookup(v.channels, target) {
            lemma_deliveries_targets(ms, v.clients, Some(id), raw);
        }
    }
}

/// Law: a registered client that joins a channel is a member of it
/// afterwards, with every member it had before.
pub proof fn law_join_makes_member(
    s: SessionView,
    v: ServerView,
    id: u64,
    tags: Option<Seq<char>>,
    args: Seq<Seq<char>>,
)
    requires
        server_wf(v),
        s.registered,
        args.len() > 0,
    ensures
        ({
            let v1 = step(s, v, id, tags, "JOIN"@, args).1;
            let channel = lower_all(args[0]);
            &&& lookup(v1.channels, channel) matches Some(ms) && ms.contains(id)
            &&& forall|m: u64| #[trigger] members_of(v, channel).contains(m) ==> members_of(
                v1,
                channel,
            ).contains(m)
        }),
{
    reveal_strlit("CAP");
    reveal_strlit("PING");
    reveal_strlit("NICK");
    reveal_strlit("USER");
    reveal_strlit("JOIN");
    assert("JOIN"@.len() > 0);
    assert("JOIN"@.len() != "CAP"@.len());
    assert("JOIN"@[0] != "PING"@[0] && "JOIN"@[0] != "NICK"@[0] && "JOIN"@[0] != "USER"@[0]);
    assert("JOIN"@ != "CAP"@ && "JOIN"@ != "PING"@ && "JOIN"@ != "NICK"@ && "JOIN"@ != "USER"@);
    let channel = lower_all(args[0]);
    let old_ms = members_of(v, channel);
    lemma_key_index(v.channels, channel);
    assert(members_unique(old_ms));
    lemma_set_add(old_ms, id);
    lemma_with_entry(v.channels, channel, set_add(old_ms, id));
}

/// Law: registration completes exactly when a nickname and a user name are
/// both known and it has not completed yet; it then keeps both names and
/// sends the four welcome lines, and it never sends them a second time.
pub proof fn law_registration(s: SessionView)
    ensures
        s.registered || s.nick is None || s.user is None ==> register_step(s) == (
            s,
            Seq::<ActionView>::empty(),
        ),
        !(s.registered || s.nick is None || s.user is None) ==> {
            let (s1, out) = register_step(s);
            &&& s1.registered
            &&& s1.nick == s.nick
            &&& s1.user == s.user
            &&& out == welcome(s.nick->0)
            &&& out.len() == 4
            &&& out[0] == ActionView::Reply(
                ":"@ + server_name() + " 001 "@ + s.nick->0 + " :Welcome to Foxy IRCd"@,
            )
        },
        register_step(register_step(s).0).1 == Seq::<ActionView>::empty(),
{
}

/// The command names that `step` tells apart are all different and none is
/// empty.
proof fn lemma_command_names()
    ensures
        "CAP"@.len() > 0 && "NICK"@.len() > 0 && "PRIVMSG"@.len() > 0,
        "NICK"@ != "CAP"@ && "NICK"@ != "PING"@,
        "PRIVMSG"@ != "CAP"@ && "PRIVMSG"@ != "PING"@ && "PRIVMSG"@ != "NICK"@
            && "PRIVMSG"@ != "USER"@ && "PRIVMSG"@ != "JOIN"@,
        "REQ"@ != "LS"@,
{
    reveal_strlit("CAP");
    reveal_strlit("PING");
    reveal_strlit("NICK");
    reveal_strlit("USER");
    reveal_strlit("JOIN");
    reveal_strlit("PRIVMSG");
    reveal_strlit("REQ");
    reveal_strlit("LS");
    assert("NICK"@.len() != "CAP"@.len());
    assert("NICK"@[0] != "PING"@[0]);
    assert("PRIVMSG"@.len() != "CAP"@.len() && "PRIVMSG"@.len() != "PING"@.len());
    assert("PRIVMSG"@.len() != "NICK"@.len() && "PRIVMSG"@.len() != "USER"@.len());
    assert("PRIVMSG"@.len() != "JOIN"@.len());
    assert("REQ"@.len() != "LS"@.len());
}

/// Every connected member other than the one left out gets the message.
proof fn lemma_deliveries_cover(ms: Seq<u64>, clients: Seq<u64>, skip: Option<u64>, msg: Seq<char>)
    ensures
        forall|m: u64|
            #![trigger ms.contains(m)]
            ms.contains(m) && clients.contains(m) && skip != Some(m) ==> exists|i: int|
                0 <= i < deliveries(ms, clients, skip, msg).len() && deliveries(
                    ms,
                    clients,
                    skip,
                    msg,
                )[i] == ActionView::Deliver(m, msg),
    decreases ms.len(),
{
    if ms.len() > 0 {
        let q = ms.drop_last();
        lemma_deliveries_cover(q, clients, skip, msg);
        let d = deliveries(ms, clients, skip, msg);
        let dq = deliveries(q, clients, skip, msg);
        assert forall|m: u64|
            ms.contains(m) && clients.contains(m) && skip != Some(m) implies exists|i: int|
            0 <= i < d.len() && d[i] == ActionView::Deliver(m, msg) by {
            let j = choose|j: int| 0 <= j < ms.len() && ms[j] == m;
            if j < ms.len() - 1 {
                assert(q[j] == m);
                assert(q.contains(m));
                let i = choose|i: int| 0 <= i < dq.len() && dq[i] == ActionView::Deliver(m, msg);
                assert(d[i] == dq[i]);
            } else {
                assert(d[dq.len() as int] == ActionView::Deliver(m, msg));
            }
        }
    }
}

/// With no member listed twice, no member gets the message twice.
proof fn lemma_deliveries_once(ms: Seq<u64>, clients: Seq<u64>, skip: Option<u64>, msg: Seq<char>)
    requires
        members_unique(ms),
    ensures
        forall|i: int, j: int|
            0 <= i < j < deliveries(ms, clients, skip, msg).len() ==> #[trigger] deliveries(
                ms,
                clients,
                skip,
                msg,
            )[i] != #[trigger] deliveries(ms, clients, skip, msg)[j],
    decreases ms.len(),
{
    if ms.len() > 0 {
        let q = ms.drop_last();
        assert(members_unique(q)) by {
            assert forall|a: int, b: int| 0 <= a < b < q.len() implies q[a] != q[b] by {
                assert(q[a] == ms[a] && q[b] == ms[b]);
            }
        }
        lemma_deliveries_once(q, clients, skip, msg);
        lemma_deliveries_targets(q, clients, skip, msg);
        let d = deliveries(ms, clients, skip, msg);
        let dq = deliveries(q, clients, skip, msg);
        let m = ms.last();
        assert forall|i: int, j: int| 0 <= i < j < d.len() implies d[i] != d[j] by {
            if j < dq.len() {
                assert(d[i] == dq[i] && d[j] == dq[j]);
            } else {
                assert(d[i] == dq[i]);
                if let ActionView::Deliver(x, _) = dq[i] {
                    let k = choose|k: int| 0 <= k < q.len() && q[k] == x;
                    assert(ms[k] == x);
                    assert(ms[ms.len() - 1] == m);
                }
            }
        }
    }
}

/// Law: a registered client's message to an existing channel goes, once
/// each, to every connected member of the channel but the sender, whether or
/// not the sender is a member, and to nobody else; the line names the
/// sender as `nick!user@localhost`, the channel in lower case, and the text.
/// Nothing else changes.
pub proof fn law_privmsg_to_channel(
    s: SessionView,
    v: ServerView,
    id: u64,
    tags: Option<Seq<char>>,
    args: Seq<Seq<char>>,
    ms: Seq<u64>,
)
    requires
        server_wf(v),
        s.registered,
        args.len() >= 2,
        lower_all(args[0]).len() > 0,
        lower_all(args[0])[0] == '#',
        lookup(v.channels, lower_all(args[0])) == Some(ms),
    ensures
        ({
            let (s1, v1, out, quit) = step(s, v, id, tags, "PRIVMSG"@, args);
            let line = match tags {
                Some(t) => t + " :"@,
                None => ":"@,
            } + or_default(s.nick, "*"@) + "!"@ + or_default(s.user, "unknown"@)
                + "@localhost"@ + " PRIVMSG "@ + lower_all(args[0]) + " :"@ + args[1];
            &&& s1 == s
            &&& v1 == v
            &&& !quit
            &&& forall|i: int|
                0 <= i < out.len() ==> (#[trigger] out[i] matches ActionView::Deliver(m, t) && t
                    == line && ms.contains(m) && m != id && v.clients.contains(m))
            &&& forall|m: u64|
                #![trigger ms.contains(m)]
                ms.contains(m) && m != id && v.clients.contains(m) ==> exists|i: int|
                    0 <= i < out.len() && out[i] == ActionView::Deliver(m, line)
            &&& forall|i: int, j: int| 0 <= i < j < out.len() ==> #[trigger] out[i] != #[trigger] out[j]
        }),
{
    lemma_command_names();
    let target = lower_all(args[0]);
    let raw = privmsg_line(s, tags, target, args[1]);
    let line = match tags {
        Some(t) => t + " :"@,
        None => ":"@,
    } + or_default(s.nick, "*"@) + "!"@ + or_default(s.user, "unknown"@) + "@localhost"@
        + " PRIVMSG "@ + target + " :"@ + args[1];
    assert(raw =~= line);
    lemma_key_index(v.channels, target);
    assert(members_unique(ms));
    lemma_deliveries_targets(ms, v.clients, Some(id), raw);
    lemma_deliveries_cover(ms, v.clients, Some(id), raw);
    lemma_deliveries_once(ms, v.clients, Some(id), raw);
}

/// Law: a `NICK` that no other client's nickname stands in the way of gives
/// the session that nickname, makes the client its owner, frees the
/// session's previous nickname (whether registered or not), and leaves every
/// other nickname as it was; one that another client owns changes nothing
/// and is refused with 433.
pub proof fn law_nick_change(
    s: SessionView,
    v: ServerView,
    id: u64,
    tags: Option<Seq<char>>,
    args: Seq<Seq<char>>,
)
    requires
        server_wf(v),
        args.len() > 0,
    ensures
        ({
            let (s1, v1, out, quit) = step(s, v, id, tags, "NICK"@, args);
            let nick = args[0];
            &&& !quit
            &&& v1.clients == v.clients && v1.channels == v.channels
            &&& (lookup(v.nicks, nick) matches Some(o) && o != id) ==> (s1 == s && v1 == v && out
                == seq![
                ActionView::Reply(
                    ":"@ + SERVER_NAME@ + " 433 * "@ + nick + " :Nickname is already in use"@,
                ),
            ])
            &&& !(lookup(v.nicks, nick) matches Some(o) && o != id) ==> {
                &&& s1.nick == Some(nick)
                &&& lookup(v1.nicks, nick) == Some(id)
                &&& (s.nick matches Some(prev) ==> (prev != nick ==> lookup(v1.nicks, prev) is None))
                &&& forall|k: Seq<char>|
                    k != nick && s.nick != Some(k) ==> #[trigger] lookup(v1.nicks, k) == lookup(
                        v.nicks,
                        k,
                    )
            }
        }),
{
    lemma_command_names();
    let nick = args[0];
    let nicks1 = match s.nick {
        Some(prev) => without_key(v.nicks, prev),
        None => v.nicks,
    };
    if let Some(prev) = s.nick {
        lemma_without_key(v.nicks, prev);
    }
    lemma_with_entry(nicks1, nick, id);
}

/// Law: `CAP REQ` with a capability list acknowledges exactly that list,
/// whole, and changes nothing.
pub proof fn law_cap_req_acknowledges(
    s: SessionView,
    v: ServerView,
    id: u64,
    tags: Option<Seq<char>>,
    args: Seq<Seq<char>>,
)
    requires
        args.len() > 1,
        upper_all(args[0]) == "REQ"@,
    ensures
        step(s, v, id, tags, "CAP"@, args) == (
            s,
            v,
            seq![ActionView::Reply(":"@ + SERVER_NAME@ + " CAP * ACK :"@ + args[1])],
            false,
        ),
{
    lemma_command_names();
}

/// Law: once a client has gone, it is not connected, not a member of any
/// channel, and its nickname is free.
pub proof fn law_disconnect_forgets(s: SessionView, v: ServerView, id: u64)
    requires
        server_wf(v),
    ensures
        ({
            let (s1, v1) = disconnected(s, v, id);
            &&& !v1.clients.contains(id)
            &&& forall|i: int| 0 <= i < v1.channels.len() ==> !(#[trigger] v1.channels[i].1).contains(id)
            &&& (s.nick matches Some(k) ==> lookup(v1.nicks, k) is None)
            &&& s1.nick is None
        }),
{
    lemma_set_del(v.clients, id);
    let (s1, v1) = disconnected(s, v, id);
    assert forall|i: int| 0 <= i < v1.channels.len() implies !(#[trigger] v1.channels[i].1).contains(id) by {
        lemma_set_del(v.channels[i].1, id);
    }
    if let Some(k) = s.nick {
        lemma_without_key(v.nicks, k);
    }
}


// ---------------------------------------------------------------------------
// Reading lines
// ---------------------------------------------------------------------------

/// The bytes of a line without the CRs and LFs at its end.
pub open spec fn strip_line_end(b: Seq<u8>) -> Seq<u8>
    decreases b.len(),
{
    if b.len() > 0 && (b.last() == 10 || b.last() == 13) {
        strip_line_end(b.drop_last())
    } else {
        b
    }
}

/// Turns the bytes read for one line into text: the CRs and LFs at its end
/// dropped, invalid UTF-8 replaced.
pub fn decode_line(buf: &[u8]) -> (r: String)
    ensures
        r@ == lossy_utf8(strip_line_end(buf@)),
{
    let mut n = buf.len();
    assert(buf@.take(n as int) =~= buf@);
    while n > 0 && (buf[n - 1] == 10 || buf[n - 1] == 13)
        invariant
            n <= buf@.len(),
            strip_line_end(buf@) == strip_line_end(buf@.take(n as int)),
        decreases n,
    {
        proof {
            assert(buf@.take(n as int).drop_last() =~= buf@.take(n - 1));
        }
        n = n - 1;
    }
    let line = &buf[0..n];
    assert(line@ == buf@.take(n as int));
    from_utf8_lossy(line)
}

/// The notice that greets every new connection.
pub fn ready_notice() -> (r: String)
    ensures
        r@ == ":"@ + server_name() + " NOTICE * :Foxy IRCd ready"@,
{
    String::from_str(":").concat(SERVER_NAME).concat(" NOTICE * :Foxy IRCd ready")
}

} // verus!
