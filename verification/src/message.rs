//! RFC 1459 messages: their components, their wire form, and a `Message`
//! type that holds a whole message in one buffer.
use std::ops::Range;
use vstd::prelude::*;
use vstd::bytes::{spec_u32_from_le_bytes, spec_u32_to_le_bytes, u32_from_le_bytes, u32_to_le_bytes};

use crate::case::{ascii_upcase, upcase, upcase_all};
use crate::text::{debug_quoted, decimal_digits, from_utf8_lossy, lossy_utf8, quoted_debug, three_wide, zero_padded};
use vstd::string::StringExecFns;

pub mod parse;
pub mod roundtrip;

use parse::{
    AT, BANG, COLON, CR, LF, SPACE, DIGIT_ZERO, nulcrlf, nulcrlfspace, nulcrlfspaceatbang,
    is_nulcrlfspace, is_nulcrlfspaceatbang, param_error, trailing_param_error, validate_param,
    validate_trailing_param, find_space_or_end, skip_spaces, tags_parse, name_or_nick_parse,
    user_parse, host_parse, digit_value, no_space_before_stop, component_stops, first_of,
    leading_spaces, lemma_first_of, lemma_leading_spaces, lemma_find_space_or_end,
    find_idx_of_space_or_end, skip_leading_space, parse_tags, parse_source_name_or_nick,
    parse_source_user, parse_source_host, parse_digit, source_stops,
};

verus! {

// ---------------------------------------------------------------------------
// The mathematical model of a message
// ---------------------------------------------------------------------------

/// What a `Source` stands for.
pub enum SourceView {
    Server { name: Seq<u8> },
    Client { nick: Seq<u8>, user: Option<Seq<u8>>, host: Seq<u8> },
}

/// What a `Command` stands for.
pub enum CommandView {
    Numeric(u32),
    Textual(Seq<u8>),
}

/// What a `Message` stands for: the bytes sent over the wire and the
/// components that they encode.
pub struct MessageView {
    pub raw: Seq<u8>,
    pub source: Option<SourceView>,
    pub command: CommandView,
    pub params: Seq<Seq<u8>>,
    pub trailer: bool,
}

/// The wire form of a source: `:name ` or `:nick[!user]@host `.
pub open spec fn source_wire(s: SourceView) -> Seq<u8> {
    match s {
        SourceView::Server { name } => seq![COLON] + name + seq![SPACE],
        SourceView::Client { nick, user, host } => seq![COLON] + nick + (match user {
            Some(u) => seq![BANG] + u,
            None => Seq::empty(),
        }) + seq![AT] + host + seq![SPACE],
    }
}

pub open spec fn opt_source_wire(s: Option<SourceView>) -> Seq<u8> {
    match s {
        Some(s) => source_wire(s),
        None => Seq::empty(),
    }
}

/// The three decimal digits of `x` (for `x` below 1000).
pub open spec fn three_digits(x: u32) -> Seq<u8> {
    seq![(48 + x / 100) as u8, (48 + x / 10 % 10) as u8, (48 + x % 10) as u8]
}

/// The wire form of a command: a numeric as three digits, a textual command
/// as it is.
pub open spec fn command_wire(c: CommandView) -> Seq<u8> {
    match c {
        CommandView::Numeric(x) => three_digits(x),
        CommandView::Textual(t) => t,
    }
}

/// The wire form of the parameters: each one after a space, the last one
/// after ` :` when it is a trailer.
pub open spec fn params_wire(params: Seq<Seq<u8>>, trailer: bool) -> Seq<u8>
    decreases params.len(),
{
    if params.len() == 0 {
        Seq::empty()
    } else {
        params_wire(params.drop_last(), false) + seq![SPACE] + (if trailer {
            seq![COLON]
        } else {
            Seq::empty()
        }) + params.last()
    }
}

/// The complete wire form of a message, `"\r\n"` included.
pub open spec fn wire(
    source: Option<SourceView>,
    command: CommandView,
    params: Seq<Seq<u8>>,
    trailer: bool,
) -> Seq<u8> {
    opt_source_wire(source) + command_wire(command) + params_wire(params, trailer) + seq![CR, LF]
}

/// A command as it is stored in a message: textual commands folded to upper
/// case.
pub open spec fn folded(c: CommandView) -> CommandView {
    match c {
        CommandView::Numeric(x) => CommandView::Numeric(x),
        CommandView::Textual(t) => CommandView::Textual(upcase_all(t)),
    }
}

pub open spec fn has_nulcrlfspaceatbang(s: Seq<u8>) -> bool {
    exists|i: int| 0 <= i < s.len() && nulcrlfspaceatbang(#[trigger] s[i])
}

pub open spec fn has_nulcrlfspace(s: Seq<u8>) -> bool {
    exists|i: int| 0 <= i < s.len() && nulcrlfspace(#[trigger] s[i])
}

/// Why a source cannot be sent, if it cannot: a NUL, CR, LF, space, `@` or
/// `!` in one of its parts.
pub open spec fn source_error(s: SourceView) -> Option<&'static str> {
    match s {
        SourceView::Server { name } => if has_nulcrlfspaceatbang(name) {
            Some("invalid character in server prefix")
        } else {
            None
        },
        SourceView::Client { nick, user, host } => if has_nulcrlfspaceatbang(nick) {
            Some("invalid character in client nickname")
        } else if has_nulcrlfspaceatbang(
            match user {
                Some(u) => u,
                None => Seq::empty(),
            },
        ) {
            Some("invalid character in client username")
        } else if has_nulcrlfspaceatbang(host) {
            Some("invalid character in client hostname")
        } else {
            None
        },
    }
}

pub open spec fn opt_source_error(s: Option<SourceView>) -> Option<&'static str> {
    match s {
        Some(s) => source_error(s),
        None => None,
    }
}

/// Why a command cannot be sent, if it cannot: a number outside 1..=999, or
/// a NUL, CR, LF or space in a textual command.
pub open spec fn command_error(c: CommandView) -> Option<&'static str> {
    match c {
        CommandView::Numeric(x) => if x == 0 || x > 999 {
            Some("Invalid command number")
        } else {
            None
        },
        CommandView::Textual(t) => if has_nulcrlfspace(t) {
            Some("invalid character in command name")
        } else {
            None
        },
    }
}

/// The error of the first parameter that cannot be sent, if any; the last
/// parameter is checked as a trailer when `trailer` holds.
pub open spec fn params_error(params: Seq<Seq<u8>>, trailer: bool) -> Option<&'static str>
    decreases params.len(),
{
    if params.len() == 0 {
        None
    } else {
        let e = if params.len() == 1 && trailer {
            trailing_param_error(params[0])
        } else {
            param_error(params[0])
        };
        if e is Some {
            e
        } else {
            params_error(params.drop_first(), trailer)
        }
    }
}

/// The error that assembling these components gives, if any: the source is
/// checked first, then the command, then the parameters in order.
pub open spec fn assembly_error(
    source: Option<SourceView>,
    command: CommandView,
    params: Seq<Seq<u8>>,
    trailer: bool,
) -> Option<&'static str> {
    if opt_source_error(source) is Some {
        opt_source_error(source)
    } else if command_error(command) is Some {
        command_error(command)
    } else {
        params_error(params, trailer)
    }
}

pub open spec fn round_up_8(n: int) -> int {
    (n + 7) / 8 * 8
}

/// The size of the buffer that a message with these components occupies: its
/// wire form, padded to a multiple of 8, then 8 bytes per parameter.
pub open spec fn buffer_len(
    source: Option<SourceView>,
    command: CommandView,
    params: Seq<Seq<u8>>,
    trailer: bool,
) -> int {
    round_up_8(wire(source, command, params, trailer).len() as int) + 8 * params.len()
}

/// A message with these components would fit in a buffer whose offsets are
/// `u32` (the offsets are checked only once the source and the command have
/// been found valid).
pub open spec fn assembly_fits(
    source: Option<SourceView>,
    command: CommandView,
    params: Seq<Seq<u8>>,
    trailer: bool,
) -> bool {
    opt_source_error(source) is None && command_error(command) is None ==> buffer_len(
        source,
        command,
        params,
        trailer,
    ) <= u32::MAX
}

/// The message that assembling these (valid) components gives.
pub open spec fn assembled(
    source: Option<SourceView>,
    command: CommandView,
    params: Seq<Seq<u8>>,
    trailer: bool,
) -> MessageView {
    MessageView {
        raw: wire(source, folded(command), params, trailer),
        source,
        command: folded(command),
        params,
        trailer,
    }
}

pub open spec fn slices_view(s: Seq<&[u8]>) -> Seq<Seq<u8>> {
    Seq::new(s.len(), |i: int| s[i]@)
}

// ---------------------------------------------------------------------------
// Sources
// ---------------------------------------------------------------------------

/// The source (AKA prefix) of a message.
#[derive(PartialEq, Eq, PartialOrd, Ord, Debug)]
pub enum Source<'a> {
    /// Message came from a server.
    Server { name: &'a [u8] },
    /// Message came from a client.
    Client { nick: &'a [u8], user: Option<&'a [u8]>, host: &'a [u8] },
}

impl<'a> View for Source<'a> {
    type V = SourceView;

    open spec fn view(&self) -> SourceView {
        match *self {
            Source::Server { name } => SourceView::Server { name: name@ },
            Source::Client { nick, user, host } => SourceView::Client {
                nick: nick@,
                user: match user {
                    Some(u) => Some(u@),
                    None => None,
                },
                host: host@,
            },
        }
    }
}

pub open spec fn opt_source_view(s: Option<Source>) -> Option<SourceView> {
    match s {
        Some(s) => Some(s@),
        None => None,
    }
}

pub open spec fn opt_source_ref_view(s: Option<&Source>) -> Option<SourceView> {
    match s {
        Some(s) => Some(s@),
        None => None,
    }
}

/// Whether any byte of `s` is a NUL, CR, LF, space, `@` or `!`.
fn contains_nulcrlfspaceatbang(s: &[u8]) -> (r: bool)
    ensures
        r == has_nulcrlfspaceatbang(s@),
{
    let mut i: usize = 0;
    while i < s.len()
        invariant
            i <= s@.len(),
            forall|j: int| 0 <= j < i ==> !nulcrlfspaceatbang(#[trigger] s@[j]),
        decreases s@.len() - i,
    {
        if is_nulcrlfspaceatbang(s[i]) {
            return true;
        }
        i = i + 1;
    }
    false
}

/// Whether any byte of `s` is a NUL, CR, LF or space.
fn contains_nulcrlfspace(s: &[u8]) -> (r: bool)
    ensures
        r == has_nulcrlfspace(s@),
{
    let mut i: usize = 0;
    while i < s.len()
        invariant
            i <= s@.len(),
            forall|j: int| 0 <= j < i ==> !nulcrlfspace(#[trigger] s@[j]),
        decreases s@.len() - i,
    {
        if is_nulcrlfspace(s[i]) {
            return true;
        }
        i = i + 1;
    }
    false
}

/// The spec of `Source::parse`: the source of a line that starts with `:`,
/// and the rest of the line after the spaces that follow it.
pub open spec fn source_parse(line: Seq<u8>) -> Option<(Option<SourceView>, Seq<u8>)> {
    if line.len() == 0 || line[0] != COLON {
        Some((None, line))
    } else {
        match find_space_or_end(line) {
            None => None,
            Some(split) => match skip_spaces(line.skip(split)) {
                None => None,
                Some(rest) => match name_or_nick_parse(line.subrange(1, split)) {
                    None => None,
                    Some((first, finale, l)) => if finale == SPACE {
                        Some((Some(SourceView::Server { name: first }), rest))
                    } else if finale == BANG {
                        match user_parse(l) {
                            None => None,
                            Some((second, finale2, l2)) => if finale2 != AT {
                                None
                            } else {
                                match host_parse(l2) {
                                    None => None,
                                    Some((host, _)) => Some(
                                        (
                                            Some(
                                                SourceView::Client {
                                                    nick: first,
                                                    user: Some(second),
                                                    host,
                                                },
                                            ),
                                            rest,
                                        ),
                                    ),
                                }
                            },
                        }
                    } else {
                        match host_parse(l) {
                            None => None,
                            Some((host, _)) => Some(
                                (Some(SourceView::Client { nick: first, user: None, host }), rest),
                            ),
                        }
                    },
                },
            },
        }
    }
}

/// A sequence with no space in it is a fit input for the source parsers.
proof fn lemma_no_space_fit(s: Seq<u8>)
    requires
        forall|i: int| 0 <= i < s.len() ==> #[trigger] s[i] != SPACE,
    ensures
        no_space_before_stop(s),
{
    lemma_first_of(s, source_stops());
}

impl<'a> Source<'a> {
    /// The number of bytes this Source would require to encode into a message,
    /// including leading colon and trailing space.
    fn raw_len(&self) -> (r: usize)
        requires
            source_wire(self@).len() <= u32::MAX,
        ensures
            r == source_wire(self@).len(),
    {
        match self {
            Source::Server { name } => name.len() + 2,
            Source::Client { nick, user: None, host } => nick.len() + host.len() + 3,
            Source::Client { nick, user: Some(user), host } => nick.len() + user.len() + host.len()
                + 4,
        }
    }

    /// Encodes this Source into a message, and returns its `IntSource`
    /// equivalent.
    fn inter(&self, buf: &mut Vec<u8>) -> (r: IntSource)
        requires
            old(buf)@.len() + source_wire(self@).len() <= u32::MAX,
        ensures
            final(buf)@ == old(buf)@ + source_wire(self@),
            r.within(final(buf)@.len() as int),
            r.view_in(final(buf)@) == self@,
    {
        buf.push(COLON);
        match self {
            Source::Server { name } => {
                let name_r = inter_bytes(buf, name);
                let ghost after_name = buf@;
                buf.push(SPACE);
                let r = IntSource::Server { name: name_r };
                proof {
                    assert(buf@ == after_name + seq![SPACE]);
                    lemma_span_extend(after_name, seq![SPACE], name_r);
                    assert(buf@ == old(buf)@ + source_wire(self@));
                }
                r
            },
            Source::Client { nick, user, host } => {
                let nick_r = inter_bytes(buf, nick);
                let ghost after_nick = buf@;
                let user_r = match user {
                    Some(user) => {
                        buf.push(BANG);
                        Some(inter_bytes(buf, user))
                    },
                    None => None,
                };
                let ghost after_user = buf@;
                buf.push(AT);
                let host_r = inter_bytes(buf, host);
                let ghost after_host = buf@;
                buf.push(SPACE);
                proof {
                    let ups: Seq<u8> = match *user {
                        Some(u) => seq![BANG] + u@,
                        None => Seq::empty(),
                    };
                    assert(after_user == after_nick + ups);
                    assert(after_host == after_user + seq![AT] + host@);
                    assert(buf@ == after_host + seq![SPACE]);
                    lemma_span_extend(after_nick, ups + seq![AT] + host@ + seq![SPACE], nick_r);
                    assert(after_nick + (ups + seq![AT] + host@ + seq![SPACE]) == buf@);
                    if user_r is Some {
                        lemma_span_extend(after_user, seq![AT] + host@ + seq![SPACE], user_r->0);
                        assert(after_user + (seq![AT] + host@ + seq![SPACE]) == buf@);
                    }
                    lemma_span_extend(after_host, seq![SPACE], host_r);
                    assert(buf@ == old(buf)@ + source_wire(self@));
                }
                IntSource::Client { nick: nick_r, user: user_r, host: host_r }
            },
        }
    }

    /// Validates this source, ensuring that it can be sent in a Message. Very
    /// lax; only checks for stray NUL, CR, LF, space, @, and !.
    fn validate(&self) -> (r: Result<(), &'static str>)
        ensures
            r == parse::as_unit_result(source_error(self@)),
    {
        match self {
            Source::Server { name } => {
                if contains_nulcrlfspaceatbang(name) {
                    Err("invalid character in server prefix")
                } else {
                    Ok(())
                }
            },
            Source::Client { nick, user, host } => {
                let empty: &[u8] = &[];
                let user_bytes: &[u8] = match user {
                    Some(u) => u,
                    None => empty,
                };
                assert(empty@ == Seq::<u8>::empty());
                if contains_nulcrlfspaceatbang(nick) {
                    Err("invalid character in client nickname")
                } else if contains_nulcrlfspaceatbang(user_bytes) {
                    Err("invalid character in client username")
                } else if contains_nulcrlfspaceatbang(host) {
                    Err("invalid character in client hostname")
                } else {
                    Ok(())
                }
            },
        }
    }

    /// Parse part of a raw message into a `Source`, or determine that it lacks
    /// a `Source`.
    fn parse(line: &'a [u8]) -> (r: Option<(Option<Source<'a>>, &'a [u8])>)
        ensures
            match r {
                None => source_parse(line@) is None,
                Some((s, rest)) => source_parse(line@) == Some((opt_source_view(s), rest@)),
            },
    {
        if line.len() == 0 || line[0] != COLON {
            return Some((None, line));
        }
        let split = find_idx_of_space_or_end(line)?;
        proof {
            lemma_find_space_or_end(line@);
            assert(!component_stops().contains(COLON)) by {
                if component_stops().contains(COLON) {
                    let i = choose|i: int| 0 <= i < 3 && component_stops()[i] == COLON;
                }
            }
            assert(split >= 1);
        }
        let after = &line[split..line.len()];
        assert(after@ == line@.skip(split as int));
        let rest = skip_leading_space(after)?;
        let inner = &line[1..split];
        proof {
            assert forall|i: int| 0 <= i < inner@.len() implies #[trigger] inner@[i] != SPACE by {
                assert(inner@[i] == line@[i + 1]);
                assert(!component_stops().contains(line@[i + 1]));
                assert(component_stops()[2] == SPACE);
            }
            lemma_no_space_fit(inner@);
            lemma_first_of(inner@, source_stops());
        }
        let (first, finale, l) = parse_source_name_or_nick(inner)?;
        if finale == SPACE {
            return Some((Some(Source::Server { name: first }), rest));
        }
        proof {
            let k = first_of(inner@, source_stops());
            assert forall|i: int| 0 <= i < l@.len() implies #[trigger] l@[i] != SPACE by {
                assert(l@[i] == inner@[k + 1 + i]);
            }
            lemma_no_space_fit(l@);
        }
        let (second, finale, l) = if finale == BANG {
            let (s, f, l2) = parse_source_user(l)?;
            proof {
                let k = first_of(l@, source_stops());
                lemma_first_of(l@, source_stops());
                assert forall|i: int| 0 <= i < l2@.len() implies #[trigger] l2@[i] != SPACE by {
                    if k < l@.len() {
                        assert(l2@[i] == l@[k + 1 + i]);
                    }
                }
                lemma_no_space_fit(l2@);
            }
            (Some(s), f, l2)
        } else {
            (None, finale, l)
        };
        if finale != AT {
            None
        } else {
            let (host, _l) = parse_source_host(l)?;
            Some((Some(Source::Client { nick: first, user: second, host }), rest))
        }
    }
}

/// The internal version of `Source`. Refers to its data by `Range`.
#[derive(Debug, Hash)]
enum IntSource {
    Server { name: Range<u32> },
    Client { nick: Range<u32>, user: Option<Range<u32>>, host: Range<u32> },
}

/// The bytes of `buf` that `r` covers.
spec fn span(buf: Seq<u8>, r: Range<u32>) -> Seq<u8> {
    buf.subrange(r.start as int, r.end as int)
}

spec fn span_within(r: Range<u32>, len: int) -> bool {
    r.start <= r.end && r.end <= len
}

/// Bytes taken from the front part of a concatenation come from that part.
proof fn lemma_subrange_of_prefix(a: Seq<u8>, b: Seq<u8>, x: int, y: int)
    requires
        0 <= x <= y <= a.len(),
    ensures
        (a + b).subrange(x, y) == a.subrange(x, y),
{
    assert((a + b).subrange(x, y) =~= a.subrange(x, y));
}

/// Reading back a `u32` written in little-endian order gives it back.
proof fn lemma_le_roundtrip(x: u32)
    ensures
        spec_u32_to_le_bytes(x).len() == 4,
        spec_u32_from_le_bytes(spec_u32_to_le_bytes(x)) == x,
{
    vstd::bytes::lemma_auto_spec_u32_to_from_le_bytes();
    assert(spec_u32_to_le_bytes(x).len() == 4);
}

/// Appending bytes to a buffer leaves what a span covers unchanged.
proof fn lemma_span_extend(buf: Seq<u8>, more: Seq<u8>, r: Range<u32>)
    requires
        span_within(r, buf.len() as int),
    ensures
        span(buf + more, r) == span(buf, r),
        span_within(r, (buf + more).len() as int),
{
    assert(span(buf + more, r) =~= span(buf, r));
}

impl IntSource {
    spec fn within(&self, len: int) -> bool {
        match *self {
            IntSource::Server { name } => span_within(name, len),
            IntSource::Client { nick, user, host } => {
                &&& span_within(nick, len)
                &&& span_within(host, len)
                &&& (user matches Some(u) ==> span_within(u, len))
            },
        }
    }

    spec fn view_in(&self, buf: Seq<u8>) -> SourceView {
        match *self {
            IntSource::Server { name } => SourceView::Server { name: span(buf, name) },
            IntSource::Client { nick, user, host } => SourceView::Client {
                nick: span(buf, nick),
                user: match user {
                    Some(u) => Some(span(buf, u)),
                    None => None,
                },
                host: span(buf, host),
            },
        }
    }

    proof fn lemma_extend(&self, buf: Seq<u8>, more: Seq<u8>)
        requires
            self.within(buf.len() as int),
        ensures
            self.within((buf + more).len() as int),
            self.view_in(buf + more) == self.view_in(buf),
    {
        match *self {
            IntSource::Server { name } => {
                lemma_span_extend(buf, more, name);
            },
            IntSource::Client { nick, user, host } => {
                lemma_span_extend(buf, more, nick);
                lemma_span_extend(buf, more, host);
                if let Some(u) = user {
                    lemma_span_extend(buf, more, u);
                }
            },
        }
    }

    /// Borrow this `IntSource` for outside use.
    fn extract<'a>(&self, buf: &'a [u8]) -> (r: Source<'a>)
        requires
            self.within(buf@.len() as int),
        ensures
            r@ == self.view_in(buf@),
    {
        match self {
            IntSource::Server { name } => Source::Server { name: extract_bytes(buf, name) },
            IntSource::Client { nick, user, host } => Source::Client {
                nick: extract_bytes(buf, nick),
                user: match user {
                    Some(x) => Some(extract_bytes(buf, x)),
                    None => None,
                },
                host: extract_bytes(buf, host),
            },
        }
    }
}

/// Copy some bytes into a buffer, and return the `Range` occupied.
///
/// Note: Like the other ranges in this file, this is a range of `u32`, not
/// `usize`. IRC messages are normally limited to **510 bytes**, so a 4GiB
/// message is purely ridiculous.
fn inter_bytes(buf: &mut Vec<u8>, bytes: &[u8]) -> (r: Range<u32>)
    requires
        old(buf)@.len() + bytes@.len() <= u32::MAX,
    ensures
        final(buf)@ == old(buf)@ + bytes@,
        r.start == old(buf)@.len(),
        r.end == final(buf)@.len(),
        span(final(buf)@, r) == bytes@,
{
    let staato = buf.len() as u32;
    buf.extend_from_slice(bytes);
    proof {
        assert(buf@ =~= old(buf)@ + bytes@);
    }
    let owari = buf.len() as u32;
    proof {
        assert(span(buf@, staato..owari) =~= bytes@);
    }
    staato..owari
}

/// Extract a `Range<u32>` from a slice.
fn extract_bytes<'a>(buf: &'a [u8], range: &Range<u32>) -> (r: &'a [u8])
    requires
        span_within(*range, buf@.len() as int),
    ensures
        r@ == span(buf@, *range),
{
    &buf[range.start as usize..range.end as usize]
}


// ---------------------------------------------------------------------------
// Commands
// ---------------------------------------------------------------------------

/// A command component of a message.
#[derive(PartialEq, Eq, PartialOrd, Ord, Debug)]
pub enum Command<'a> {
    /// A numeric command (e.g. 375 = the start of the MOTD)
    Numeric(u32),
    /// A textual command. This will *always* have been folded to uppercase.
    Textual(&'a [u8]),
}

impl<'a> View for Command<'a> {
    type V = CommandView;

    open spec fn view(&self) -> CommandView {
        match *self {
            Command::Numeric(x) => CommandView::Numeric(x),
            Command::Textual(t) => CommandView::Textual(t@),
        }
    }
}

/// The spec of `Command::parse`: the first word of a non-empty line (a
/// numeric if it is exactly three decimal digits) and the rest of the line
/// after the spaces that follow it.
pub open spec fn command_parse(line: Seq<u8>) -> Option<(CommandView, Seq<u8>)> {
    if line.len() == 0 {
        None
    } else {
        match find_space_or_end(line) {
            None => None,
            Some(split) => match skip_spaces(line.skip(split)) {
                None => None,
                Some(rest) => {
                    let word = line.take(split);
                    if word.len() == 3 && digit_value(word[0]) is Some && digit_value(word[1]) is Some
                        && digit_value(word[2]) is Some {
                        Some(
                            (
                                CommandView::Numeric(
                                    (digit_value(word[0])->0 * 100 + digit_value(word[1])->0 * 10
                                        + digit_value(word[2])->0) as u32,
                                ),
                                rest,
                            ),
                        )
                    } else {
                        Some((CommandView::Textual(word), rest))
                    }
                },
            },
        }
    }
}

impl<'a> Command<'a> {
    /// Encodes this Command into a buffer. Intermediate step before `inter`
    /// can be called. Folds case and checks validity.
    fn bufferize(&self) -> (r: Result<Vec<u8>, &'static str>)
        ensures
            match r {
                Ok(v) => command_error(self@) is None && v@ == command_wire(folded(self@)),
                Err(e) => command_error(self@) == Some(e),
            },
    {
        match self {
            Command::Numeric(x) => {
                let x = *x;
                if x == 0 || x > 999 {
                    Err("Invalid command number")
                } else {
                    let mut v: Vec<u8> = Vec::with_capacity(3);
                    v.push((DIGIT_ZERO as u32 + x / 100) as u8);
                    v.push((DIGIT_ZERO as u32 + x / 10 % 10) as u8);
                    v.push((DIGIT_ZERO as u32 + x % 10) as u8);
                    assert(v@ == three_digits(x));
                    Ok(v)
                }
            },
            Command::Textual(x) => {
                if contains_nulcrlfspace(x) {
                    return Err("invalid character in command name");
                }
                let mut buf: Vec<u8> = Vec::with_capacity(x.len());
                let mut i: usize = 0;
                while i < x.len()
                    invariant
                        i <= x@.len(),
                        buf@ == upcase_all(x@.take(i as int)),
                    decreases x@.len() - i,
                {
                    buf.push(upcase(x[i]));
                    i = i + 1;
                    assert(buf@ =~= upcase_all(x@.take(i as int)));
                }
                assert(x@.take(x@.len() as int) =~= x@);
                Ok(buf)
            },
        }
    }

    /// Encodes this Command into a message, and returns its `IntCommand`
    /// equivalent.
    ///
    /// Weird implementation detail: assumes that it has already been folded
    /// and bufferized into the provided buffer.
    fn inter(&self, me_buf: Vec<u8>, out_buf: &mut Vec<u8>) -> (r: IntCommand)
        requires
            me_buf@ == command_wire(folded(self@)),
            old(out_buf)@.len() + me_buf@.len() <= u32::MAX,
        ensures
            final(out_buf)@ == old(out_buf)@ + me_buf@,
            r.within(final(out_buf)@.len() as int),
            r.view_in(final(out_buf)@) == folded(self@),
    {
        let range = inter_bytes(out_buf, me_buf.as_slice());
        match self {
            Command::Numeric(x) => IntCommand::Numeric(*x, range),
            Command::Textual(_) => IntCommand::Textual(range),
        }
    }

    /// Parse part of a raw message into a `Command`.
    fn parse(line: &'a [u8]) -> (r: Option<(Command<'a>, &'a [u8])>)
        ensures
            match r {
                None => command_parse(line@) is None,
                Some((c, rest)) => command_parse(line@) == Some((c@, rest@)),
            },
    {
        if line.len() == 0 {
            return None;
        }
        let split = find_idx_of_space_or_end(line)?;
        proof {
            lemma_find_space_or_end(line@);
        }
        let after = &line[split..line.len()];
        assert(after@ == line@.skip(split as int));
        let rest = skip_leading_space(after)?;
        let word = &line[0..split];
        assert(word@ == line@.take(split as int));
        if word.len() == 3 {
            let a = parse_digit(word[0]);
            let b = parse_digit(word[1]);
            let c = parse_digit(word[2]);
            match (a, b, c) {
                (Some(a), Some(b), Some(c)) => {
                    return Some((Command::Numeric(a * 100 + b * 10 + c), rest));
                },
                _ => {},
            }
        }
        Some((Command::Textual(word), rest))
    }
}

/// The internal version of `Command`. Refers to its data by `Range`.
#[derive(Debug, Hash)]
enum IntCommand {
    Numeric(u32, Range<u32>),
    Textual(Range<u32>),
}

impl IntCommand {
    spec fn within(&self, len: int) -> bool {
        match *self {
            IntCommand::Numeric(_, r) => span_within(r, len),
            IntCommand::Textual(r) => span_within(r, len),
        }
    }

    spec fn view_in(&self, buf: Seq<u8>) -> CommandView {
        match *self {
            IntCommand::Numeric(x, _) => CommandView::Numeric(x),
            IntCommand::Textual(r) => CommandView::Textual(span(buf, r)),
        }
    }

    proof fn lemma_extend(&self, buf: Seq<u8>, more: Seq<u8>)
        requires
            self.within(buf.len() as int),
        ensures
            self.within((buf + more).len() as int),
            self.view_in(buf + more) == self.view_in(buf),
    {
        match *self {
            IntCommand::Numeric(_, r) => lemma_span_extend(buf, more, r),
            IntCommand::Textual(r) => lemma_span_extend(buf, more, r),
        }
    }

    /// Borrow this `IntCommand` for outside use.
    fn extract<'a>(&self, buf: &'a [u8]) -> (r: Command<'a>)
        requires
            self.within(buf@.len() as int),
        ensures
            r@ == self.view_in(buf@),
    {
        match self {
            IntCommand::Numeric(x, _) => Command::Numeric(*x),
            IntCommand::Textual(x) => Command::Textual(extract_bytes(buf, x)),
        }
    }
}


// ---------------------------------------------------------------------------
// Lemmas on the wire form
// ---------------------------------------------------------------------------

/// The wire form of the parameters is as long as the parameters, one space
/// before each, and one colon for a trailer.
proof fn lemma_params_wire_len(ps: Seq<Seq<u8>>, t: bool)
    ensures
        params_wire(ps, t).len() == params_wire(ps, false).len() + (if t && ps.len() > 0 {
            1int
        } else {
            0int
        }),
{
}

/// Taking one more parameter adds a space and that parameter.
proof fn lemma_params_wire_step(ps: Seq<Seq<u8>>, i: int)
    requires
        0 <= i < ps.len(),
    ensures
        params_wire(ps.take(i + 1), false) == params_wire(ps.take(i), false) + seq![SPACE] + ps[i],
        forall|t: bool|
            #[trigger] params_wire(ps.take(i + 1), t) == params_wire(ps.take(i), false) + seq![
                SPACE,
            ] + (if t {
                seq![COLON]
            } else {
                Seq::empty()
            }) + ps[i],
{
    assert(ps.take(i + 1).drop_last() =~= ps.take(i));
    assert(ps.take(i + 1).last() == ps[i]);
    assert(params_wire(ps.take(i + 1), false) =~= params_wire(ps.take(i), false) + seq![SPACE]
        + ps[i]);
}

/// A prefix of the parameters takes no more room than all of them.
proof fn lemma_params_wire_prefix_len(ps: Seq<Seq<u8>>, i: int)
    requires
        0 <= i <= ps.len(),
    ensures
        params_wire(ps.take(i), false).len() <= params_wire(ps, false).len(),
    decreases ps.len(),
{
    if i == ps.len() {
        assert(ps.take(i) =~= ps);
    } else {
        let q = ps.drop_last();
        assert(ps.take(i) =~= q.take(i));
        lemma_params_wire_prefix_len(q, i);
    }
}

/// Checking the parameters from index `n` on gives the same error as checking
/// all of them, when the first `n` are fine; the `n`th gives its own error.
proof fn lemma_params_error_skip(ps: Seq<Seq<u8>>, t: bool, n: int)
    requires
        0 <= n < ps.len(),
    ensures
        ({
            let e = if n == ps.len() - 1 && t {
                trailing_param_error(ps[n])
            } else {
                param_error(ps[n])
            };
            &&& e is Some ==> params_error(ps.skip(n), t) == e
            &&& e is None ==> params_error(ps.skip(n), t) == params_error(ps.skip(n + 1), t)
        }),
{
    assert(ps.skip(n)[0] == ps[n]);
    assert(ps.skip(n).drop_first() =~= ps.skip(n + 1));
}

// ---------------------------------------------------------------------------
// Messages
// ---------------------------------------------------------------------------

/// Encapsulates an RFC 1459 message. Holds a single buffer which, among other
/// things, contains the message in encoded form. Can efficiently return slices
/// to individual components of the message, or a slice to the message as it
/// should be sent over the wire.
///
/// The buffer holds the wire form of the message, zero padding up to a
/// multiple of 8 bytes, then for each parameter its start and end offsets as
/// two little-endian `u32`s.
#[derive(Debug, Hash)]
pub struct Message {
    buf: Vec<u8>,
    source: Option<IntSource>,
    command: IntCommand,
    param_data_range: Range<u32>,
    raw_message_len: u32,  // the part of buf that isn't param_data array
    trailer: bool,
}

/// The start offset that entry `i` of the parameter table at `base` holds.
spec fn table_start(buf: Seq<u8>, base: int, i: int) -> u32 {
    spec_u32_from_le_bytes(buf.subrange(base + 8 * i, base + 8 * i + 4))
}

/// The end offset that entry `i` of the parameter table at `base` holds.
spec fn table_end(buf: Seq<u8>, base: int, i: int) -> u32 {
    spec_u32_from_le_bytes(buf.subrange(base + 8 * i + 4, base + 8 * i + 8))
}

/// The parameters that the `count` entries of the table at `base` point to.
spec fn table_params(buf: Seq<u8>, base: int, count: int) -> Seq<Seq<u8>> {
    Seq::new(
        count as nat,
        |i: int| buf.subrange(table_start(buf, base, i) as int, table_end(buf, base, i) as int),
    )
}

/// What a buffer laid out as a message holds.
spec fn layout_view(
    buf: Seq<u8>,
    source: Option<IntSource>,
    command: IntCommand,
    table: Range<u32>,
    raw_len: u32,
    trailer: bool,
) -> MessageView {
    MessageView {
        raw: buf.take(raw_len as int),
        source: match source {
            Some(s) => Some(s.view_in(buf)),
            None => None,
        },
        command: command.view_in(buf),
        params: table_params(buf, table.start as int, (table.end - table.start) / 8),
        trailer,
    }
}

/// The layout of a message's buffer, and what it encodes: the wire form of
/// valid components, with the textual command folded.
spec fn layout_ok(
    buf: Seq<u8>,
    source: Option<IntSource>,
    command: IntCommand,
    table: Range<u32>,
    raw_len: u32,
    trailer: bool,
) -> bool {
    let v = layout_view(buf, source, command, table, raw_len, trailer);
    let raw = raw_len as int;
    &&& table.start <= table.end
    &&& buf.len() == table.end
    &&& raw <= table.start
    &&& (table.end - table.start) % 8 == 0
    &&& (source matches Some(s) ==> s.within(raw))
    &&& command.within(raw)
    &&& forall|i: int|
        0 <= i < (table.end - table.start) / 8 ==> #[trigger] table_start(buf, table.start as int, i)
            <= table_end(buf, table.start as int, i) <= raw
    &&& v.raw == wire(v.source, v.command, v.params, v.trailer)
    &&& assembly_error(v.source, v.command, v.params, v.trailer) is None
    &&& folded(v.command) == v.command
    &&& !(v.trailer && v.params.len() == 0)
}

impl Message {
    spec fn param_start(&self, i: int) -> u32 {
        table_start(self.buf@, self.param_data_range.start as int, i)
    }

    spec fn param_end(&self, i: int) -> u32 {
        table_end(self.buf@, self.param_data_range.start as int, i)
    }

    #[verifier::type_invariant]
    spec fn wf(self) -> bool {
        layout_ok(
            self.buf@,
            self.source,
            self.command,
            self.param_data_range,
            self.raw_message_len,
            self.trailer,
        )
    }
}

impl View for Message {
    type V = MessageView;

    closed spec fn view(&self) -> MessageView {
        layout_view(
            self.buf@,
            self.source,
            self.command,
            self.param_data_range,
            self.raw_message_len,
            self.trailer,
        )
    }
}

/// Folding a folded command changes nothing.
pub(crate) proof fn lemma_folded_idempotent(c: CommandView)
    ensures
        folded(folded(c)) == folded(c),
{
    if let CommandView::Textual(t) = c {
        assert(upcase_all(upcase_all(t)) =~= upcase_all(t));
    }
}

/// Folding a command neither creates nor removes an error.
pub(crate) proof fn lemma_folded_error(c: CommandView)
    ensures
        command_error(folded(c)) == command_error(c),
{
    if let CommandView::Textual(t) = c {
        let u = upcase_all(t);
        if has_nulcrlfspace(t) {
            let i = choose|i: int| 0 <= i < t.len() && nulcrlfspace(#[trigger] t[i]);
            assert(u[i] == ascii_upcase(t[i]));
        }
        if has_nulcrlfspace(u) {
            let i = choose|i: int| 0 <= i < u.len() && nulcrlfspace(#[trigger] u[i]);
            assert(u[i] == ascii_upcase(t[i]));
        }
    }
}

impl Message {
    /// Makes a new `Message` from provided component parts.
    ///
    /// It panics where a trailer is asked for with no parameters, and where the
    /// message would not fit offsets of 32 bits; those inputs are left out.
    #[verifier::rlimit(30)]
    pub fn assemble(
        source: Option<&Source>,
        command: &Command,
        params: &[&[u8]],
        trailer: bool,
    ) -> (r: Result<Message, &'static str>)
        requires
            !(trailer && params@.len() == 0),
            assembly_fits(opt_source_ref_view(source), command@, slices_view(params@), trailer),
        ensures
            match r {
                Ok(m) => {
                    &&& assembly_error(
                        opt_source_ref_view(source),
                        command@,
                        slices_view(params@),
                        trailer,
                    ) is None
                    &&& m@ == assembled(
                        opt_source_ref_view(source),
                        command@,
                        slices_view(params@),
                        trailer,
                    )
                },
                Err(e) => assembly_error(
                    opt_source_ref_view(source),
                    command@,
                    slices_view(params@),
                    trailer,
                ) == Some(e),
            },
    {
        let ghost sv = opt_source_ref_view(source);
        let ghost pv = slices_view(params@);
        let ghost cv = folded(command@);
        if let Some(s) = source {
            if let Err(e) = s.validate() {
                return Err(e);
            }
        }
        let command_buf = match command.bufferize() {
            Err(e) => return Err(e),
            Ok(v) => v,
        };
        proof {
            lemma_folded_error(command@);
            lemma_params_wire_len(pv, trailer);
        }
        let ghost whole = wire(sv, cv, pv, trailer);
        assert(whole.len() == opt_source_wire(sv).len() + command_wire(cv).len() + params_wire(
            pv,
            trailer,
        ).len() + 2);
        assert(whole.len() <= round_up_8(whole.len() as int));
        let source_len: usize = match source {
            Some(s) => s.raw_len(),
            None => 0,
        };
        let params_len = params_wire_len(params);
        let message_len = source_len + command_buf.len() + params_len + if trailer {
            3
        } else {
            2
        };
        assert(message_len == whole.len());
        let param_base = (message_len + 7) / 8 * 8;
        let buf_len = param_base + params.len() * 8;
        let (mut buf, interred_source, interred_command, interred_params) = match encode_raw(
            source,
            command,
            command_buf,
            params,
            trailer,
            buf_len,
        ) {
            Err(e) => return Err(e),
            Ok(x) => x,
        };
        let ghost raw_buf = buf@;
        buf.resize(param_base, 0);
        let ghost padded = buf@;
        proof {
            if param_base == raw_buf.len() {
                assert(padded =~= raw_buf);
            }
            assert(padded.subrange(0, raw_buf.len() as int) == raw_buf);
        }
        append_param_table(&mut buf, &interred_params);
        proof {
            assert(buf@.subrange(0, raw_buf.len() as int) =~= padded.subrange(
                0,
                raw_buf.len() as int,
            ));
            lemma_final_layout(
                buf@,
                raw_buf,
                param_base as int,
                interred_source,
                interred_command,
                interred_params@,
                sv,
                cv,
                pv,
            );
            assert((buf_len - param_base) / 8 == params@.len());
            lemma_folded_idempotent(command@);
        }
        let table = (param_base as u32)..(buf_len as u32);
        assert(layout_view(buf@, interred_source, interred_command, table, message_len as u32, trailer)
            == assembled(sv, command@, pv, trailer));
        assert(layout_ok(buf@, interred_source, interred_command, table, message_len as u32, trailer));
        let m = Message {
            buf,
            source: interred_source,
            command: interred_command,
            param_data_range: table,
            raw_message_len: message_len as u32,
            trailer,
        };
        assert(m@ == assembled(sv, command@, pv, trailer));
        Ok(m)
    }
}

/// `raw` holds the given components where the interred ranges say.
spec fn encoded_at(
    raw: Seq<u8>,
    is: Option<IntSource>,
    ic: IntCommand,
    ip: Seq<Range<u32>>,
    sv: Option<SourceView>,
    cv: CommandView,
    pv: Seq<Seq<u8>>,
) -> bool {
    &&& match is {
        Some(s) => s.within(raw.len() as int) && sv == Some(s.view_in(raw)),
        None => sv is None,
    }
    &&& ic.within(raw.len() as int)
    &&& ic.view_in(raw) == cv
    &&& ip.len() == pv.len()
    &&& forall|j: int|
        0 <= j < ip.len() ==> span_within(#[trigger] ip[j], raw.len() as int) && span(raw, ip[j])
            == pv[j]
}

/// Appending bytes keeps the components where they were.
proof fn lemma_encoded_extend(
    raw: Seq<u8>,
    more: Seq<u8>,
    is: Option<IntSource>,
    ic: IntCommand,
    ip: Seq<Range<u32>>,
    sv: Option<SourceView>,
    cv: CommandView,
    pv: Seq<Seq<u8>>,
)
    requires
        encoded_at(raw, is, ic, ip, sv, cv, pv),
    ensures
        encoded_at(raw + more, is, ic, ip, sv, cv, pv),
{
    if is is Some {
        is->0.lemma_extend(raw, more);
    }
    ic.lemma_extend(raw, more);
    assert forall|j: int| 0 <= j < ip.len() implies span_within(
        #[trigger] ip[j],
        (raw + more).len() as int,
    ) && span(raw + more, ip[j]) == pv[j] by {
        lemma_span_extend(raw, more, ip[j]);
    }
}

/// Once the padding and the parameter table follow the wire form, the buffer
/// describes the components.
proof fn lemma_final_layout(
    fb: Seq<u8>,
    raw: Seq<u8>,
    base: int,
    is: Option<IntSource>,
    ic: IntCommand,
    ip: Seq<Range<u32>>,
    sv: Option<SourceView>,
    cv: CommandView,
    pv: Seq<Seq<u8>>,
)
    requires
        encoded_at(raw, is, ic, ip, sv, cv, pv),
        fb.len() == base + 8 * ip.len(),
        fb.subrange(0, raw.len() as int) == raw,
        raw.len() <= base,
        table_holds(fb, base, ip, ip.len() as int),
    ensures
        encoded_at(fb, is, ic, ip, sv, cv, pv),
        fb.take(raw.len() as int) == raw,
        table_params(fb, base, ip.len() as int) == pv,
        forall|j: int|
            0 <= j < ip.len() ==> #[trigger] table_start(fb, base, j) <= table_end(fb, base, j)
                <= raw.len(),
{
    let more = fb.skip(raw.len() as int);
    assert(fb =~= raw + more);
    lemma_encoded_extend(raw, more, is, ic, ip, sv, cv, pv);
    assert forall|j: int| 0 <= j < ip.len() implies table_start(fb, base, j) == ip[j].start
        && table_end(fb, base, j) == ip[j].end by {
        lemma_le_roundtrip(ip[j].start);
        lemma_le_roundtrip(ip[j].end);
    }
    assert forall|j: int| 0 <= j < ip.len() implies #[trigger] table_params(
        fb,
        base,
        ip.len() as int,
    )[j] == pv[j] by {
        lemma_span_extend(raw, more, ip[j]);
    }
    assert forall|j: int| 0 <= j < ip.len() implies #[trigger] table_start(fb, base, j)
        <= table_end(fb, base, j) <= raw.len() by {}
    assert(table_params(fb, base, ip.len() as int) =~= pv);
    assert(fb.take(raw.len() as int) =~= raw);
}

/// Writes the wire form of the components into a new buffer, validating the
/// parameters on the way, and returns where each component lies.
fn encode_raw(
    source: Option<&Source>,
    command: &Command,
    command_buf: Vec<u8>,
    params: &[&[u8]],
    trailer: bool,
    capacity: usize,
) -> (r: Result<(Vec<u8>, Option<IntSource>, IntCommand, Vec<Range<u32>>), &'static str>)
    requires
        !(trailer && params@.len() == 0),
        command_buf@ == command_wire(folded(command@)),
        wire(opt_source_ref_view(source), folded(command@), slices_view(params@), trailer).len()
            <= u32::MAX,
    ensures
        match r {
            Ok((raw, is, ic, ip)) => {
                &&& params_error(slices_view(params@), trailer) is None
                &&& raw@ == wire(
                    opt_source_ref_view(source),
                    folded(command@),
                    slices_view(params@),
                    trailer,
                )
                &&& encoded_at(
                    raw@,
                    is,
                    ic,
                    ip@,
                    opt_source_ref_view(source),
                    folded(command@),
                    slices_view(params@),
                )
            },
            Err(e) => params_error(slices_view(params@), trailer) == Some(e),
        },
{
    let ghost sv = opt_source_ref_view(source);
    let ghost pv = slices_view(params@);
    let ghost cv = folded(command@);
    let mut buf: Vec<u8> = Vec::with_capacity(capacity);
    let interred_source: Option<IntSource> = match source {
        Some(s) => Some(s.inter(&mut buf)),
        None => None,
    };
    let ghost after_source = buf@;
    let interred_command = command.inter(command_buf, &mut buf);
    let ghost after_command = buf@;
    proof {
        if interred_source is Some {
            interred_source->0.lemma_extend(after_source, command_wire(cv));
        }
        assert(after_command =~= after_source + command_wire(cv));
    }
    let interred_params = match inter_params(&mut buf, params, trailer) {
        Err(e) => return Err(e),
        Ok(v) => v,
    };
    let ghost after_params = buf@;
    proof {
        let pw = params_wire(pv, trailer);
        assert(after_params =~= after_command + pw);
        if interred_source is Some {
            interred_source->0.lemma_extend(after_command, pw);
        }
        interred_command.lemma_extend(after_command, pw);
        assert(encoded_at(after_params, interred_source, interred_command, interred_params@, sv, cv, pv));
    }
    buf.push(CR);
    buf.push(LF);
    proof {
        assert(buf@ =~= after_params + seq![CR, LF]);
        lemma_encoded_extend(
            after_params,
            seq![CR, LF],
            interred_source,
            interred_command,
            interred_params@,
            sv,
            cv,
            pv,
        );
        assert(buf@ =~= wire(sv, cv, pv, trailer));
    }
    Ok((buf, interred_source, interred_command, interred_params))
}

/// The length of the wire form of `params`, colon of a trailer left out.
fn params_wire_len(params: &[&[u8]]) -> (r: usize)
    requires
        params_wire(slices_view(params@), false).len() <= u32::MAX,
    ensures
        r == params_wire(slices_view(params@), false).len(),
{
    let ghost pv = slices_view(params@);
    let mut params_len: usize = 0;
    let mut i: usize = 0;
    while i < params.len()
        invariant
            i <= params@.len(),
            pv == slices_view(params@),
            params_len == params_wire(pv.take(i as int), false).len(),
            params_wire(pv, false).len() <= u32::MAX,
        decreases params@.len() - i,
    {
        proof {
            lemma_params_wire_step(pv, i as int);
            lemma_params_wire_prefix_len(pv, i + 1);
        }
        params_len = params_len + params[i].len() + 1;
        i = i + 1;
    }
    assert(pv.take(params@.len() as int) =~= pv);
    params_len
}

/// Validates the parameters and appends their wire form to `buf`, returning
/// the ranges that they occupy.
fn inter_params(buf: &mut Vec<u8>, params: &[&[u8]], trailer: bool) -> (r: Result<
    Vec<Range<u32>>,
    &'static str,
>)
    requires
        !(trailer && params@.len() == 0),
        old(buf)@.len() + params_wire(slices_view(params@), trailer).len() <= u32::MAX,
    ensures
        match r {
            Ok(ip) => {
                &&& params_error(slices_view(params@), trailer) is None
                &&& final(buf)@ == old(buf)@ + params_wire(slices_view(params@), trailer)
                &&& ip@.len() == params@.len()
                &&& forall|j: int|
                    0 <= j < ip@.len() ==> span_within(#[trigger] ip@[j], final(buf)@.len() as int)
                        && span(final(buf)@, ip@[j]) == slices_view(params@)[j]
            },
            Err(e) => params_error(slices_view(params@), trailer) == Some(e),
        },
{
    let ghost pv = slices_view(params@);
    let ghost start = buf@;
    let mut interred_params: Vec<Range<u32>> = Vec::with_capacity(params.len());
    let mut n: usize = 0;
    assert(pv.take(0) =~= Seq::<Seq<u8>>::empty());
    assert(pv.skip(0) =~= pv);
    proof {
        lemma_params_wire_len(pv, trailer);
    }
    while n < params.len()
        invariant
            n <= params@.len(),
            pv == slices_view(params@),
            !(trailer && params@.len() == 0),
            start.len() + params_wire(pv, trailer).len() <= u32::MAX,
            params_wire(pv, trailer).len() >= params_wire(pv, false).len(),
            buf@ == start + params_wire(pv.take(n as int), trailer && n == params@.len()),
            interred_params@.len() == n,
            forall|j: int|
                0 <= j < n ==> span_within(#[trigger] interred_params@[j], buf@.len() as int)
                    && span(buf@, interred_params@[j]) == pv[j],
            params_error(pv, trailer) == params_error(pv.skip(n as int), trailer),
        decreases params@.len() - n,
    {
        let param = params[n];
        let ghost before = buf@;
        proof {
            lemma_params_wire_step(pv, n as int);
            lemma_params_error_skip(pv, trailer, n as int);
            lemma_params_wire_prefix_len(pv, n + 1);
            lemma_params_wire_len(pv.take(n + 1), trailer && n + 1 == params@.len());
            if n + 1 == params@.len() {
                assert(pv.take(n + 1) =~= pv);
            }
        }
        buf.push(SPACE);
        if n == params.len() - 1 && trailer {
            buf.push(COLON);
            if let Err(e) = validate_trailing_param(param) {
                return Err(e);
            }
        } else {
            if let Err(e) = validate_param(param) {
                return Err(e);
            }
        }
        let r = inter_bytes(buf, param);
        proof {
            let more = buf@.subrange(before.len() as int, buf@.len() as int);
            assert(buf@ =~= before + more);
            assert forall|j: int| 0 <= j < n implies span_within(
                #[trigger] interred_params@[j],
                buf@.len() as int,
            ) && span(buf@, interred_params@[j]) == pv[j] by {
                lemma_span_extend(before, more, interred_params@[j]);
            }
            assert(buf@ =~= start + params_wire(pv.take(n + 1), trailer && n + 1 == params@.len()));
        }
        interred_params.push(r);
        n = n + 1;
    }
    assert(pv.take(params@.len() as int) =~= pv);
    assert(pv.skip(params@.len() as int) =~= Seq::<Seq<u8>>::empty());
    Ok(interred_params)
}

/// The first `k` entries of the table at `base` hold the first `k` ranges.
spec fn table_holds(buf: Seq<u8>, base: int, ranges: Seq<Range<u32>>, k: int) -> bool {
    forall|j: int|
        0 <= j < k ==> {
            &&& buf.subrange(base + 8 * j, base + 8 * j + 4) == spec_u32_to_le_bytes(
                #[trigger] ranges[j].start,
            )
            &&& buf.subrange(base + 8 * j + 4, base + 8 * j + 8) == spec_u32_to_le_bytes(
                ranges[j].end,
            )
        }
}

/// Appending the entry of range `k` extends the table by one entry.
proof fn lemma_table_step(before: Seq<u8>, base: int, ranges: Seq<Range<u32>>, k: int)
    requires
        0 <= base,
        0 <= k < ranges.len(),
        before.len() == base + 8 * k,
        table_holds(before, base, ranges, k),
    ensures
        ({
            let after = before + spec_u32_to_le_bytes(ranges[k].start) + spec_u32_to_le_bytes(
                ranges[k].end,
            );
            &&& after.len() == base + 8 * (k + 1)
            &&& after.subrange(0, base) == before.subrange(0, base)
            &&& table_holds(after, base, ranges, k + 1)
        }),
{
    lemma_le_roundtrip(ranges[k].start);
    lemma_le_roundtrip(ranges[k].end);
    let added = spec_u32_to_le_bytes(ranges[k].start) + spec_u32_to_le_bytes(ranges[k].end);
    let after = before + spec_u32_to_le_bytes(ranges[k].start) + spec_u32_to_le_bytes(ranges[k].end);
    assert(after =~= before + added);
    lemma_subrange_of_prefix(before, added, 0, base);
    assert forall|j: int| 0 <= j < k + 1 implies {
        &&& after.subrange(base + 8 * j, base + 8 * j + 4) == spec_u32_to_le_bytes(
            #[trigger] ranges[j].start,
        )
        &&& after.subrange(base + 8 * j + 4, base + 8 * j + 8) == spec_u32_to_le_bytes(
            ranges[j].end,
        )
    } by {
        lemma_table_entry(before, added, base, ranges, k, j);
    }
}

/// One entry of the table after appending the entry of range `k`.
proof fn lemma_table_entry(
    before: Seq<u8>,
    added: Seq<u8>,
    base: int,
    ranges: Seq<Range<u32>>,
    k: int,
    j: int,
)
    requires
        0 <= base,
        0 <= j <= k < ranges.len(),
        before.len() == base + 8 * k,
        table_holds(before, base, ranges, k),
        added == spec_u32_to_le_bytes(ranges[k].start) + spec_u32_to_le_bytes(ranges[k].end),
        spec_u32_to_le_bytes(ranges[k].start).len() == 4,
        spec_u32_to_le_bytes(ranges[k].end).len() == 4,
    ensures
        (before + added).subrange(base + 8 * j, base + 8 * j + 4) == spec_u32_to_le_bytes(
            ranges[j].start,
        ),
        (before + added).subrange(base + 8 * j + 4, base + 8 * j + 8) == spec_u32_to_le_bytes(
            ranges[j].end,
        ),
{
    if j < k {
        let _ = ranges[j].start;
        lemma_subrange_of_prefix(before, added, base + 8 * j, base + 8 * j + 4);
        lemma_subrange_of_prefix(before, added, base + 8 * j + 4, base + 8 * j + 8);
    } else {
        assert((before + added).subrange(base + 8 * j, base + 8 * j + 4) =~= spec_u32_to_le_bytes(
            ranges[k].start,
        ));
        assert((before + added).subrange(base + 8 * j + 4, base + 8 * j + 8)
            =~= spec_u32_to_le_bytes(ranges[k].end));
    }
}

/// Appends, for each range, its start and end as little-endian `u32`s.
fn append_param_table(buf: &mut Vec<u8>, ranges: &Vec<Range<u32>>)
    requires
        old(buf)@.len() + 8 * ranges@.len() <= u32::MAX,
    ensures
        final(buf)@.len() == old(buf)@.len() + 8 * ranges@.len(),
        final(buf)@.subrange(0, old(buf)@.len() as int) == old(buf)@,
        table_holds(final(buf)@, old(buf)@.len() as int, ranges@, ranges@.len() as int),
{
    let ghost base = old(buf)@.len() as int;
    let ghost head = old(buf)@;
    let mut k: usize = 0;
    assert(head.subrange(0, base) =~= head);
    while k < ranges.len()
        invariant
            k <= ranges@.len(),
            base == head.len(),
            base + 8 * ranges@.len() <= u32::MAX,
            buf@.len() == base + 8 * k,
            buf@.subrange(0, base) == head,
            table_holds(buf@, base, ranges@, k as int),
        decreases ranges@.len() - k,
    {
        let ghost before = buf@;
        let start_bytes = u32_to_le_bytes(ranges[k].start);
        let end_bytes = u32_to_le_bytes(ranges[k].end);
        buf.extend_from_slice(start_bytes.as_slice());
        buf.extend_from_slice(end_bytes.as_slice());
        proof {
            lemma_table_step(before, base, ranges@, k as int);
            assert(buf@ =~= before + start_bytes@ + end_bytes@);
        }
        k = k + 1;
    }
}


// ---------------------------------------------------------------------------
// Parsing a whole line
// ---------------------------------------------------------------------------

/// Each step of the parameter parser consumes at least one byte.
pub proof fn lemma_params_progress(line: Seq<u8>, split: int)
    requires
        line.len() > 0,
        find_space_or_end(line) == Some(split),
    ensures
        skip_spaces(line.skip(split)) matches Some(rest) ==> rest.len() < line.len(),
{
    lemma_find_space_or_end(line);
    lemma_leading_spaces(line.skip(split));
    if split == 0 {
        assert(line.skip(0) =~= line);
        assert(line[0] == SPACE);
    }
}

/// The spec of the parameter loop of `Message::parse`: parameters separated
/// by spaces, the last one a trailer when it follows a colon.
pub open spec fn params_parse(line: Seq<u8>) -> Option<(Seq<Seq<u8>>, bool)>
    decreases line.len(),
{
    if line.len() == 0 {
        Some((Seq::empty(), false))
    } else if line[0] == COLON {
        Some((seq![line.drop_first()], true))
    } else {
        match find_space_or_end(line) {
            None => None,
            Some(split) => match skip_spaces(line.skip(split)) {
                None => None,
                Some(rest) => {
                    proof {
                        lemma_params_progress(line, split);
                    }
                    match params_parse(rest) {
                        None => None,
                        Some((ps, t)) => Some((seq![line.take(split)] + ps, t)),
                    }
                },
            },
        }
    }
}

/// The spec of `Message::parse`: optional tags (dropped), optional source,
/// command, parameters.
pub open spec fn message_parse(line: Seq<u8>) -> Option<
    (Option<SourceView>, CommandView, Seq<Seq<u8>>, bool),
> {
    match tags_parse(line) {
        None => None,
        Some((_, l1)) => match source_parse(l1) {
            None => None,
            Some((s, l2)) => match command_parse(l2) {
                None => None,
                Some((c, l3)) => match params_parse(l3) {
                    None => None,
                    Some((ps, t)) => Some((s, c, ps, t)),
                },
            },
        },
    }
}

/// The components that `line` parses into, if any, can be assembled: they
/// are valid and fit offsets of 32 bits. (Parsing panics on other lines.)
pub open spec fn parse_assembles(line: Seq<u8>) -> bool {
    message_parse(line) matches Some((s, c, ps, t)) ==> assembly_error(s, c, ps, t) is None
        && assembly_fits(s, c, ps, t)
}

/// A parsed trailer always comes with a parameter.
proof fn lemma_params_parse_trailer(line: Seq<u8>)
    ensures
        params_parse(line) matches Some((ps, t)) ==> (t ==> ps.len() > 0),
    decreases line.len(),
{
    if line.len() > 0 && line[0] != COLON {
        if let Some(split) = find_space_or_end(line) {
            if let Some(rest) = skip_spaces(line.skip(split)) {
                lemma_params_progress(line, split);
                lemma_params_parse_trailer(rest);
            }
        }
    }
}

impl Message {
    /// Parse an input line into a `Message`. The line must have had its
    /// newline stripped, as well as its optional carriage return. The caller
    /// must detect and skip an empty message.
    ///
    /// Lines whose components cannot be assembled (see `parse_assembles`)
    /// make it panic, and are left out; `try_parse` takes any line.
    pub fn parse(line: &[u8]) -> (r: Option<Message>)
        requires
            parse_assembles(line@),
        ensures
            match r {
                None => message_parse(line@) is None,
                Some(m) => message_parse(line@) matches Some((s, c, ps, t)) && m@ == assembled(
                    s,
                    c,
                    ps,
                    t,
                ),
            },
    {
        let (source, command, params, trailer) = parse_components(line)?;
        proof {
            lemma_params_parse_trailer_of(line@);
        }
        let m = Message::assemble(source.as_ref(), &command, params.as_slice(), trailer);
        match m {
            Ok(m) => Some(m),
            Err(_) => {
                assert(false);
                None
            },
        }
    }

    /// Parse an input line into a `Message`, like `parse`, but answer `None`
    /// also for a line whose components are invalid or too large to
    /// assemble, where `parse` would panic.
    pub fn try_parse(line: &[u8]) -> (r: Option<Message>)
        ensures
            match r {
                None => !(message_parse(line@) matches Some((s, c, ps, t)) && assembly_error(
                    s,
                    c,
                    ps,
                    t,
                ) is None && buffer_len(s, c, ps, t) <= u32::MAX),
                Some(m) => message_parse(line@) matches Some((s, c, ps, t)) && m@ == assembled(
                    s,
                    c,
                    ps,
                    t,
                ),
            },
    {
        let (source, command, params, trailer) = parse_components(line)?;
        proof {
            lemma_params_parse_trailer_of(line@);
        }
        if !buffer_fits(source.as_ref(), &command, params.as_slice(), trailer) {
            return None;
        }
        match Message::assemble(source.as_ref(), &command, params.as_slice(), trailer) {
            Ok(m) => Some(m),
            Err(_) => None,
        }
    }
}

/// Whether a message with these components fits a buffer with offsets of
/// 32 bits.
fn buffer_fits(source: Option<&Source>, command: &Command, params: &[&[u8]], trailer: bool) -> (r:
    bool)
    ensures
        r == (buffer_len(opt_source_ref_view(source), command@, slices_view(params@), trailer)
            <= u32::MAX),
{
    let ghost sv = opt_source_ref_view(source);
    let ghost pv = slices_view(params@);
    let ghost total = wire(sv, command@, pv, trailer).len() as int;
    let max: u64 = 0xffff_ffff;
    proof {
        lemma_params_wire_len(pv, trailer);
        assert(total <= round_up_8(total));
        assert(buffer_len(sv, command@, pv, trailer) >= total);
    }
    let source_len: u64 = match source {
        None => 0,
        Some(Source::Server { name }) => {
            if name.len() as u64 > max {
                return false;
            }
            name.len() as u64 + 2
        },
        Some(Source::Client { nick, user, host }) => {
            if nick.len() as u64 > max || host.len() as u64 > max {
                return false;
            }
            let u: u64 = match user {
                Some(u) => {
                    if u.len() as u64 > max {
                        return false;
                    }
                    u.len() as u64 + 1
                },
                None => 0,
            };
            nick.len() as u64 + host.len() as u64 + 3 + u
        },
    };
    assert(source_len == opt_source_wire(sv).len());
    let command_len: u64 = match command {
        Command::Numeric(_) => 3,
        Command::Textual(t) => {
            if t.len() as u64 > max {
                return false;
            }
            t.len() as u64
        },
    };
    assert(command_len == command_wire(command@).len());
    let mut acc: u64 = source_len + command_len;
    if acc > max {
        return false;
    }
    let mut i: usize = 0;
    assert(pv.take(0) =~= Seq::<Seq<u8>>::empty());
    while i < params.len()
        invariant
            i <= params@.len(),
            pv == slices_view(params@),
            acc <= max,
            acc == source_len + command_len + params_wire(pv.take(i as int), false).len(),
            total == source_len + command_len + params_wire(pv, false).len() + (if trailer
                && pv.len() > 0 {
                1int
            } else {
                0int
            }) + 2,
            max == 0xffff_ffff,
            sv == opt_source_ref_view(source),
            total == wire(sv, command@, pv, trailer).len(),
            buffer_len(sv, command@, pv, trailer) >= total,
        decreases params@.len() - i,
    {
        proof {
            lemma_params_wire_step(pv, i as int);
            lemma_params_wire_prefix_len(pv, i + 1);
        }
        let n = params[i].len() as u64;
        if n > max {
            return false;
        }
        assert(pv[i as int] == params@[i as int]@);
        acc = acc + n + 1;
        assert(acc == source_len + command_len + params_wire(pv.take(i + 1), false).len());
        if acc > max {
            assert(total >= acc);
            return false;
        }
        i = i + 1;
    }
    assert(pv.take(params@.len() as int) =~= pv);
    if trailer && params.len() > 0 {
        acc = acc + 1;
    }
    acc = acc + 2;
    let padded = (acc + 7) / 8 * 8;
    assert(padded == round_up_8(total));
    let count = params.len() as u64;
    if count > max {
        return false;
    }
    padded + 8 * count <= max
}

/// A parsed line with a trailer has parameters.
proof fn lemma_params_parse_trailer_of(line: Seq<u8>)
    ensures
        message_parse(line) matches Some((s, c, ps, t)) ==> (t ==> ps.len() > 0),
{
    match tags_parse(line) {
        None => {},
        Some((_, l1)) => match source_parse(l1) {
            None => {},
            Some((s, l2)) => match command_parse(l2) {
                None => {},
                Some((c, l3)) => {
                    lemma_params_parse_trailer(l3);
                },
            },
        },
    }
}

/// The components of a line: its source, command, parameters and whether
/// the last one is a trailer.
fn parse_components(line: &[u8]) -> (r: Option<(Option<Source<'_>>, Command<'_>, Vec<&[u8]>, bool)>)
    ensures
        match r {
            None => message_parse(line@) is None,
            Some((s, c, ps, t)) => message_parse(line@) == Some(
                (opt_source_view(s), c@, slices_view(ps@), t),
            ),
        },
{
    let (_tags, line1) = parse_tags(line)?;
    let (source, line2) = Source::parse(line1)?;
    let (command, line3) = Command::parse(line2)?;
    let ghost whole = line@;
    assert(message_parse(whole) == match params_parse(line3@) {
        Some((ps, t)) => Some((opt_source_view(source), command@, ps, t)),
        None => None,
    });
    let mut cur = line3;
    let mut params: Vec<&[u8]> = Vec::new();
    let mut trailer = false;
    assert(slices_view(params@) =~= Seq::<Seq<u8>>::empty());
    loop
        invariant_except_break
            !trailer,
            params_parse(line3@) == match params_parse(cur@) {
                Some((ps, t)) => Some((slices_view(params@) + ps, t)),
                None => None,
            },
        invariant
            whole == line@,
            message_parse(whole) == match params_parse(line3@) {
                Some((ps, t)) => Some((opt_source_view(source), command@, ps, t)),
                None => None,
            },
        ensures
            params_parse(line3@) == Some((slices_view(params@), trailer)),
        decreases cur@.len(),
    {
        if cur.len() == 0 {
            assert(slices_view(params@) + Seq::<Seq<u8>>::empty() =~= slices_view(params@));
            break;
        }
        if cur[0] == COLON {
            let ghost before = slices_view(params@);
            params.push(&cur[1..cur.len()]);
            trailer = true;
            assert(slices_view(params@) =~= before + seq![cur@.drop_first()]);
            break;
        }
        let split = find_idx_of_space_or_end(cur)?;
        proof {
            lemma_find_space_or_end(cur@);
        }
        let ghost before = slices_view(params@);
        let word = &cur[0..split];
        let after = &cur[split..cur.len()];
        assert(after@ == cur@.skip(split as int));
        let rest = skip_leading_space(after)?;
        proof {
            lemma_params_progress(cur@, split as int);
        }
        params.push(word);
        proof {
            assert(word@ == cur@.take(split as int));
            assert(slices_view(params@) =~= before + seq![word@]);
            match params_parse(rest@) {
                Some((ps, t)) => {
                    assert(before + (seq![word@] + ps) =~= slices_view(params@) + ps);
                },
                None => {},
            }
        }
        cur = rest;
    }
    Some((source, command, params, trailer))
}

impl Message {
    /// Returns the exact bytes to send over the wire to transmit this
    /// message. Includes the trailing `"\r\n"`.
    ///
    /// They are always the wire form of the message's components, which are
    /// always valid, with the textual command folded to upper case: they end
    /// in CR LF, and no byte before that is a NUL, CR or LF.
    pub fn get_raw(&self) -> (r: &[u8])
        ensures
            r@ == self@.raw,
            r@ == wire(self@.source, self@.command, self@.params, self@.trailer),
            assembly_error(self@.source, self@.command, self@.params, self@.trailer) is None,
            !(self@.trailer && self@.params.len() == 0),
            r@.len() >= 2 && r@[r@.len() - 2] == 13 && r@[r@.len() - 1] == 10,
            crate::message::roundtrip::free_of_nulcrlf(r@.take(r@.len() - 2)),
    {
        proof {
            use_type_invariant(self);
            crate::message::roundtrip::law_wire_framing(
                self@.source,
                self@.command,
                self@.params,
                self@.trailer,
            );
        }
        let b = self.buf.as_slice();
        &b[0..self.raw_message_len as usize]
    }

    /// Returns the source (AKA prefix) specification of the message, if any.
    pub fn get_source(&self) -> (r: Option<Source<'_>>)
        ensures
            opt_source_view(r) == self@.source,
    {
        proof {
            use_type_invariant(self);
        }
        match &self.source {
            Some(x) => Some(x.extract(self.buf.as_slice())),
            None => None,
        }
    }

    /// Returns the command for this message. A textual command is always
    /// folded to upper case.
    pub fn get_command(&self) -> (r: Command<'_>)
        ensures
            r@ == self@.command,
            folded(r@) == r@,
    {
        proof {
            use_type_invariant(self);
        }
        self.command.extract(self.buf.as_slice())
    }

    /// Returns the number of additional parameters in this message.
    pub fn get_param_count(&self) -> (r: u32)
        ensures
            r == self@.params.len(),
    {
        proof {
            use_type_invariant(self);
        }
        (self.param_data_range.end - self.param_data_range.start) / 8
    }

    /// Returns the nth parameter.
    pub fn get_nth_param(&self, n: u32) -> (r: Option<&[u8]>)
        ensures
            match r {
                Some(p) => n < self@.params.len() && p@ == self@.params[n as int],
                None => n >= self@.params.len(),
            },
    {
        proof {
            use_type_invariant(self);
        }
        let buf = self.buf.as_slice();
        let param_list = extract_bytes(buf, &self.param_data_range);
        if n >= (param_list.len() / 8) as u32 {
            None
        } else {
            let at = (n * 8) as usize;
            let ghost base = self.param_data_range.start as int;
            assert(param_list@.subrange(at as int, at + 4) =~= buf@.subrange(
                base + 8 * n,
                base + 8 * n + 4,
            ));
            assert(param_list@.subrange(at + 4, at + 8) =~= buf@.subrange(
                base + 8 * n + 4,
                base + 8 * n + 8,
            ));
            let start = u32_from_le_bytes(&param_list[at..at + 4]);
            let end = u32_from_le_bytes(&param_list[at + 4..at + 8]);
            assert(start == self.param_start(n as int));
            assert(end == self.param_end(n as int));
            Some(extract_bytes(buf, &(start..end)))
        }
    }

    /// Returns whether the last parameter in this message follows a colon.
    /// **YOU MUST NOT USE THIS INFORMATION TO CHANGE HOW YOU HANDLE AN
    /// INCOMING MESSAGE!**
    pub fn has_trailer(&self) -> (r: bool)
        ensures
            r == self@.trailer,
    {
        self.trailer
    }
}

// ---------------------------------------------------------------------------
// Text for debugging
// ---------------------------------------------------------------------------

/// Bytes shown as quoted text, invalid UTF-8 replaced.
pub open spec fn quoted_bytes(b: Seq<u8>) -> Seq<char> {
    quoted_debug(lossy_utf8(b))
}

/// How a source is described for debugging.
pub open spec fn source_debug(s: SourceView) -> Seq<char> {
    match s {
        SourceView::Server { name } => "Source::Server { name: "@ + quoted_bytes(name) + " }"@,
        SourceView::Client { nick, user, host } => "Source::Client { nick: "@ + quoted_bytes(nick)
            + ", user: "@ + match user {
            Some(u) => "Some("@ + quoted_bytes(u) + ")"@,
            None => "None"@,
        } + ", host: "@ + quoted_bytes(host) + " }"@,
    }
}

/// How a command is described for debugging: a number zero-filled to three
/// digits, a text quoted.
pub open spec fn command_debug(c: CommandView) -> Seq<char> {
    match c {
        CommandView::Numeric(x) => "Command::Numeric("@ + zero_padded(decimal_digits(x as nat), 3)
            + ")"@,
        CommandView::Textual(t) => "Command::Textual("@ + quoted_bytes(t) + ")"@,
    }
}

/// Quoted text of some bytes.
fn quote_bytes(b: &[u8]) -> (r: String)
    ensures
        r@ == quoted_bytes(b@),
{
    let t = from_utf8_lossy(b);
    debug_quoted(t.as_str())
}

impl<'a> Source<'a> {
    /// Describes this source for debugging, its parts shown as quoted text.
    pub fn debug_text(&self) -> (r: String)
        ensures
            r@ == source_debug(self@),
    {
        match self {
            Source::Server { name } => String::from_str("Source::Server { name: ").concat(
                quote_bytes(name).as_str(),
            ).concat(" }"),
            Source::Client { nick, user, host } => {
                let u = match user {
                    Some(u) => String::from_str("Some(").concat(quote_bytes(u).as_str()).concat(
                        ")",
                    ),
                    None => String::from_str("None"),
                };
                String::from_str("Source::Client { nick: ").concat(
                    quote_bytes(nick).as_str(),
                ).concat(", user: ").concat(u.as_str()).concat(", host: ").concat(
                    quote_bytes(host).as_str(),
                ).concat(" }")
            },
        }
    }
}

impl<'a> Command<'a> {
    /// Describes this command for debugging.
    pub fn debug_text(&self) -> (r: String)
        ensures
            r@ == command_debug(self@),
    {
        match self {
            Command::Numeric(x) => String::from_str("Command::Numeric(").concat(
                three_wide(*x).as_str(),
            ).concat(")"),
            Command::Textual(t) => String::from_str("Command::Textual(").concat(
                quote_bytes(t).as_str(),
            ).concat(")"),
        }
    }
}

impl Message {
    /// Describes this message for debugging: its raw text, quoted.
    pub fn debug_text(&self) -> (r: String)
        ensures
            r@ == quoted_bytes(self@.raw),
    {
        quote_bytes(self.get_raw())
    }
}

} // verus!
