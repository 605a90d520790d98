//! The wire form of a message parses back into its components.
use vstd::prelude::*;

use crate::message::{
    CommandView, SourceView, assembly_error, command_error, command_parse, command_wire, folded,
    has_nulcrlfspace, has_nulcrlfspaceatbang, lemma_folded_error, message_parse, opt_source_error,
    opt_source_wire, params_error, params_parse, params_wire, source_error, source_parse,
    source_wire, three_digits, wire,
};
use crate::message::parse::{
    AT, BANG, COLON, SPACE, component_stops, digit_value, find_space_or_end, first_of,
    host_parse, lemma_first_of, lemma_first_of_at, leading_spaces, name_or_nick_parse, nulcrlf,
    nulcrlfspace, nulcrlfspaceatbang, param_error, skip_spaces, source_stops, tags_parse,
    trailing_param_error, user_parse,
};

verus! {

/// A command reads back as itself after the source (if any) in the wire
/// form: a textual command that is not three digits, not empty unless it
/// stands first and parameters follow, and (when it stands first) not
/// starting with `:` or `@`.
pub open spec fn command_reads_back(
    source: Option<SourceView>,
    command: CommandView,
    params: Seq<Seq<u8>>,
) -> bool {
    match command {
        CommandView::Numeric(_) => true,
        CommandView::Textual(w) => {
            &&& !(w.len() == 3 && digit_value(w[0]) is Some && digit_value(w[1]) is Some
                && digit_value(w[2]) is Some)
            &&& (w.len() == 0 ==> source is None && params.len() > 0)
            &&& (source is None && w.len() > 0 ==> w[0] != COLON && w[0] != AT)
        },
    }
}

proof fn lemma_component_stops(b: u8)
    ensures
        component_stops().contains(b) <==> (b == 13 || b == 0 || b == 32),
{
    if b == 13 {
        assert(component_stops()[0] == b);
    } else if b == 0 {
        assert(component_stops()[1] == b);
    } else if b == 32 {
        assert(component_stops()[2] == b);
    } else if component_stops().contains(b) {
        let i = choose|i: int| 0 <= i < 3 && component_stops()[i] == b;
    }
}

proof fn lemma_source_stops(b: u8)
    ensures
        source_stops().contains(b) <==> (b == 13 || b == 0 || b == 33 || b == 64 || b == 32),
{
    if b == 13 {
        assert(source_stops()[0] == b);
    } else if b == 0 {
        assert(source_stops()[1] == b);
    } else if b == 33 {
        assert(source_stops()[2] == b);
    } else if b == 64 {
        assert(source_stops()[3] == b);
    } else if b == 32 {
        assert(source_stops()[4] == b);
    } else if source_stops().contains(b) {
        let i = choose|i: int| 0 <= i < 5 && source_stops()[i] == b;
    }
}

/// Scanning a concatenation whose first part holds no stop byte.
proof fn lemma_first_of_concat(a: Seq<u8>, b: Seq<u8>, stops: Seq<u8>)
    requires
        forall|j: int| 0 <= j < a.len() ==> !stops.contains(#[trigger] a[j]),
    ensures
        first_of(a + b, stops) == a.len() + first_of(b, stops),
{
    lemma_first_of(b, stops);
    let k = first_of(b, stops);
    let s = a + b;
    assert forall|j: int| 0 <= j < a.len() + k implies !stops.contains(#[trigger] s[j]) by {
        if j >= a.len() {
            assert(s[j] == b[j - a.len()]);
        }
    }
    if a.len() + k < s.len() {
        assert(s[a.len() + k] == b[k]);
    }
    lemma_first_of_at(s, stops, a.len() + k);
}

/// A part of a valid source holds no source stop byte.
proof fn lemma_clean_source_part(x: Seq<u8>)
    requires
        !has_nulcrlfspaceatbang(x),
    ensures
        forall|j: int| 0 <= j < x.len() ==> !source_stops().contains(#[trigger] x[j]),
        forall|j: int| 0 <= j < x.len() ==> !component_stops().contains(#[trigger] x[j]),
        first_of(x, source_stops()) == x.len(),
{
    assert forall|j: int| 0 <= j < x.len() implies !source_stops().contains(#[trigger] x[j]) by {
        lemma_source_stops(x[j]);
        assert(!nulcrlfspaceatbang(x[j]));
    }
    assert forall|j: int| 0 <= j < x.len() implies !component_stops().contains(#[trigger] x[j]) by {
        lemma_component_stops(x[j]);
        assert(!nulcrlfspaceatbang(x[j]));
    }
    lemma_first_of_at(x, source_stops(), x.len() as int);
}

/// The spaces before a byte that is no space.
proof fn lemma_one_space(rest: Seq<u8>)
    requires
        rest.len() == 0 || rest[0] != SPACE,
    ensures
        leading_spaces(seq![SPACE] + rest) == 1,
        leading_spaces(rest) == 0,
{
    assert(leading_spaces(rest) == 0);
    let l = seq![SPACE] + rest;
    assert(l.drop_first() =~= rest);
    assert(l[0] == SPACE);
    assert(leading_spaces(l) == 1 + leading_spaces(l.drop_first()));
}


/// How the first parameter appears in the wire form.
pub open spec fn first_item(ps: Seq<Seq<u8>>, t: bool) -> Seq<u8> {
    if ps.len() == 1 && t {
        seq![COLON] + ps[0]
    } else {
        ps[0]
    }
}

/// The wire form of the parameters, read from the front.
proof fn lemma_params_wire_front(ps: Seq<Seq<u8>>, t: bool)
    requires
        ps.len() > 0,
    ensures
        params_wire(ps, t) == seq![SPACE] + first_item(ps, t) + params_wire(ps.drop_first(), t),
    decreases ps.len(),
{
    if ps.len() == 1 {
        assert(ps.drop_last() =~= Seq::<Seq<u8>>::empty());
        assert(ps.drop_first() =~= Seq::<Seq<u8>>::empty());
        assert(params_wire(ps.drop_last(), false) =~= Seq::<u8>::empty());
        assert(params_wire(ps.drop_first(), t) =~= Seq::<u8>::empty());
        assert(ps.last() == ps[0]);
        if t {
            assert(params_wire(ps, t) =~= seq![SPACE] + first_item(ps, t));
        } else {
            assert(params_wire(ps, t) =~= seq![SPACE] + first_item(ps, t));
        }
    } else {
        let q = ps.drop_last();
        lemma_params_wire_front(q, false);
        assert(first_item(q, false) == ps[0]);
        assert(q.drop_first() =~= ps.drop_first().drop_last());
        assert(ps.drop_first().last() == ps.last());
        assert(params_wire(ps, t) =~= seq![SPACE] + first_item(ps, t) + params_wire(
            ps.drop_first(),
            t,
        ));
    }
}

/// Valid parameters: the first one is fine, and so are the others.
proof fn lemma_params_error_front(ps: Seq<Seq<u8>>, t: bool)
    requires
        ps.len() > 0,
        params_error(ps, t) is None,
    ensures
        params_error(ps.drop_first(), t) is None,
        ps.len() == 1 && t ==> trailing_param_error(ps[0]) is None,
        !(ps.len() == 1 && t) ==> param_error(ps[0]) is None,
{
}

/// The wire form of valid parameters starts with a space, then a byte that is
/// neither a space, a CR nor a NUL.
proof fn lemma_params_wire_head(ps: Seq<Seq<u8>>, t: bool)
    requires
        ps.len() > 0,
        params_error(ps, t) is None,
    ensures
        params_wire(ps, t).len() >= 2,
        params_wire(ps, t)[0] == SPACE,
        params_wire(ps, t)[1] != SPACE,
        params_wire(ps, t)[1] != 13,
        params_wire(ps, t)[1] != 0,
{
    lemma_params_wire_front(ps, t);
    lemma_params_error_front(ps, t);
    let w = params_wire(ps, t);
    if !(ps.len() == 1 && t) {
        let p = ps[0];
        assert(p.len() > 0);
        assert(!nulcrlfspace(p[0]));
        assert(w[1] == p[0]);
    } else {
        assert(w[1] == COLON);
    }
}

/// Valid parameters read back from their wire form (its first space left
/// out).
proof fn lemma_params_read_back(ps: Seq<Seq<u8>>, t: bool)
    requires
        ps.len() > 0,
        params_error(ps, t) is None,
    ensures
        params_parse(params_wire(ps, t).drop_first()) == Some((ps, t)),
    decreases ps.len(),
{
    lemma_params_wire_front(ps, t);
    lemma_params_error_front(ps, t);
    let item = first_item(ps, t);
    let rest_w = params_wire(ps.drop_first(), t);
    let text = params_wire(ps, t).drop_first();
    assert(text =~= item + rest_w);
    if ps.len() == 1 && t {
        assert(rest_w =~= Seq::<u8>::empty());
        assert(text[0] == COLON);
        assert(text.drop_first() =~= ps[0]);
        assert(ps =~= seq![ps[0]]);
        assert(params_parse(text) == Some((seq![text.drop_first()], true)));
    } else {
        let p = ps[0];
        assert(item == p);
        assert forall|j: int| 0 <= j < p.len() implies !component_stops().contains(#[trigger] p[j]) by {
            lemma_component_stops(p[j]);
            assert(!nulcrlfspace(p[j]));
        }
        lemma_first_of_concat(p, rest_w, component_stops());
        if ps.len() == 1 {
            assert(rest_w =~= Seq::<u8>::empty());
            assert(first_of(rest_w, component_stops()) == 0);
            assert(find_space_or_end(text) == Some(p.len() as int));
            assert(text.skip(p.len() as int) =~= rest_w);
            lemma_one_space(rest_w);
            assert(skip_spaces(rest_w) == Some(rest_w));
            assert(rest_w.skip(0) =~= rest_w);
            assert(text.take(p.len() as int) =~= p);
            assert(ps =~= seq![p] + Seq::<Seq<u8>>::empty());
            assert(text[0] == p[0]);
            assert(params_parse(Seq::<u8>::empty()) == Some((Seq::<Seq<u8>>::empty(), false)));
            assert(params_parse(text) == Some((seq![p] + Seq::<Seq<u8>>::empty(), false)));
        } else {
            let q = ps.drop_first();
            lemma_params_wire_head(q, t);
            lemma_component_stops(rest_w[0]);
            assert(first_of(rest_w, component_stops()) == 0);
            assert(text[p.len() as int] == SPACE);
            assert(find_space_or_end(text) == Some(p.len() as int));
            assert(text.skip(p.len() as int) =~= rest_w);
            assert(rest_w =~= seq![SPACE] + rest_w.drop_first());
            lemma_one_space(rest_w.drop_first());
            assert(skip_spaces(rest_w) == Some(rest_w.skip(1)));
            assert(rest_w.skip(1) =~= rest_w.drop_first());
            lemma_params_read_back(q, t);
            assert(text.take(p.len() as int) =~= p);
            assert(ps =~= seq![p] + q);
            assert(text[0] == p[0]);
            assert(params_parse(text) == Some((seq![p] + q, t)));
        }
    }
}


/// The three digits of a command number read back as that number.
proof fn lemma_three_digits(x: u32)
    requires
        1 <= x <= 999,
    ensures
        three_digits(x).len() == 3,
        forall|j: int| 0 <= j < 3 ==> 48 <= #[trigger] three_digits(x)[j] <= 57,
        digit_value(three_digits(x)[0]) == Some(x / 100),
        digit_value(three_digits(x)[1]) == Some(x / 10 % 10),
        digit_value(three_digits(x)[2]) == Some(x % 10),
        (x / 100) * 100 + (x / 10 % 10) * 10 + x % 10 == x,
{
    assert((x / 100) * 100 + (x / 10 % 10) * 10 + x % 10 == x) by (nonlinear_arith)
        requires
            1 <= x <= 999,
    ;
    assert(x / 100 <= 9) by (nonlinear_arith)
        requires
            x <= 999,
    ;
}

/// A valid command followed by the wire form of valid parameters reads back
/// as that command and those parameters.
proof fn lemma_command_read_back(
    s: Option<SourceView>,
    c: CommandView,
    ps: Seq<Seq<u8>>,
    t: bool,
)
    requires
        command_error(c) is None,
        params_error(ps, t) is None,
        !(t && ps.len() == 0),
        command_reads_back(s, c, ps),
    ensures
        command_parse(command_wire(c) + params_wire(ps, t)) matches Some((c2, rest)) && c2 == c
            && params_parse(rest) == Some((ps, t)),
{
    let cw = command_wire(c);
    let pw = params_wire(ps, t);
    let line = cw + pw;
    assert forall|j: int| 0 <= j < cw.len() implies !component_stops().contains(#[trigger] cw[j]) by {
        lemma_component_stops(cw[j]);
        match c {
            CommandView::Numeric(x) => {
                lemma_three_digits(x);
            },
            CommandView::Textual(w) => {
                assert(!nulcrlfspace(w[j]));
            },
        }
    }
    lemma_first_of_concat(cw, pw, component_stops());
    if ps.len() == 0 {
        assert(pw =~= Seq::<u8>::empty());
        assert(line =~= cw);
        assert(first_of(pw, component_stops()) == 0);
        assert(find_space_or_end(line) == Some(cw.len() as int));
        assert(line.skip(cw.len() as int) =~= Seq::<u8>::empty());
        lemma_one_space(Seq::<u8>::empty());
        assert(skip_spaces(Seq::<u8>::empty()) == Some(Seq::<u8>::empty().skip(0)));
        assert(Seq::<u8>::empty().skip(0) =~= Seq::<u8>::empty());
    } else {
        lemma_params_wire_head(ps, t);
        lemma_component_stops(pw[0]);
        assert(first_of(pw, component_stops()) == 0);
        assert(line[cw.len() as int] == SPACE);
        assert(find_space_or_end(line) == Some(cw.len() as int));
        assert(line.skip(cw.len() as int) =~= pw);
        assert(pw =~= seq![SPACE] + pw.drop_first());
        lemma_one_space(pw.drop_first());
        assert(skip_spaces(pw) == Some(pw.skip(1)));
        assert(pw.skip(1) =~= pw.drop_first());
        lemma_params_read_back(ps, t);
    }
    assert(line.take(cw.len() as int) =~= cw);
    match c {
        CommandView::Numeric(x) => {
            lemma_three_digits(x);
        },
        CommandView::Textual(w) => {},
    }
}

/// The body of a valid client source (`nick[!user]@host`) reads back.
proof fn lemma_client_read_back(nick: Seq<u8>, user: Option<Seq<u8>>, host: Seq<u8>)
    requires
        source_error(SourceView::Client { nick, user, host }) is None,
    ensures
        host_parse(host) == Some((host, Seq::<u8>::empty())),
        user is None ==> name_or_nick_parse(nick + seq![AT] + host) == Some((nick, AT, host)),
        user is Some ==> name_or_nick_parse(nick + (seq![BANG] + user->0) + seq![AT] + host)
            == Some((nick, BANG, user->0 + seq![AT] + host)),
        user is Some ==> user_parse(user->0 + seq![AT] + host) == Some((user->0, AT, host)),
{
    lemma_clean_source_part(nick);
    lemma_clean_source_part(host);
    lemma_source_stops(BANG);
    lemma_source_stops(AT);
    let hp = seq![AT] + host;
    match user {
        Some(u) => {
            assert(!has_nulcrlfspaceatbang(u));
            lemma_clean_source_part(u);
            let inner = nick + (seq![BANG] + u) + seq![AT] + host;
            assert(inner =~= nick + (seq![BANG] + u + hp));
            lemma_first_of_concat(nick, seq![BANG] + u + hp, source_stops());
            assert(first_of(seq![BANG] + u + hp, source_stops()) == 0);
            assert(inner[nick.len() as int] == BANG);
            assert(inner.take(nick.len() as int) =~= nick);
            let l = inner.skip(nick.len() as int + 1);
            assert(l =~= u + hp);
            assert(u + seq![AT] + host =~= u + hp);
            lemma_first_of_concat(u, hp, source_stops());
            assert(first_of(hp, source_stops()) == 0);
            assert(l[u.len() as int] == AT);
            assert(l.take(u.len() as int) =~= u);
            assert(l.skip(u.len() as int + 1) =~= host);
        },
        None => {
            let inner = nick + seq![AT] + host;
            assert(inner =~= nick + hp);
            lemma_first_of_concat(nick, hp, source_stops());
            assert(first_of(hp, source_stops()) == 0);
            assert(inner[nick.len() as int] == AT);
            assert(inner.take(nick.len() as int) =~= nick);
            assert(inner.skip(nick.len() as int + 1) =~= host);
        },
    }
}

/// A valid source, followed by text that starts with neither a space, a CR
/// nor a NUL, reads back as that source and that text.
proof fn lemma_source_read_back(sv: SourceView, rest: Seq<u8>)
    requires
        source_error(sv) is None,
        rest.len() == 0 || (rest[0] != SPACE && rest[0] != 13 && rest[0] != 0),
    ensures
        source_parse(source_wire(sv) + rest) == Some((Some(sv), rest)),
{
    let inner = match sv {
        SourceView::Server { name } => name,
        SourceView::Client { nick, user, host } => nick + (match user {
            Some(u) => seq![BANG] + u,
            None => Seq::empty(),
        }) + seq![AT] + host,
    };
    let line = source_wire(sv) + rest;
    assert(line =~= (seq![COLON] + inner) + (seq![SPACE] + rest));
    assert forall|j: int| 0 <= j < inner.len() implies !component_stops().contains(
        #[trigger] inner[j],
    ) by {
        lemma_component_stops(inner[j]);
        match sv {
            SourceView::Server { name } => {
                lemma_clean_source_part(name);
            },
            SourceView::Client { nick, user, host } => {
                lemma_clean_source_part(nick);
                lemma_clean_source_part(host);
                if j < nick.len() {
                    assert(inner[j] == nick[j]);
                } else if user is Some && j < nick.len() + 1 + user->0.len() {
                    assert(!has_nulcrlfspaceatbang(user->0));
                    lemma_clean_source_part(user->0);
                    if j > nick.len() {
                        assert(inner[j] == user->0[j - nick.len() - 1]);
                    }
                } else {
                    let off: int = nick.len() + match user {
                        Some(u) => 1 + u.len() as int,
                        None => 0int,
                    };
                    if j > off {
                        assert(inner[j] == host[j - off - 1]);
                    }
                }
            },
        }
    }
    let head = seq![COLON] + inner;
    lemma_component_stops(COLON);
    assert forall|j: int| 0 <= j < head.len() implies !component_stops().contains(#[trigger] head[j]) by {
        if j > 0 {
            assert(head[j] == inner[j - 1]);
        }
    }
    lemma_component_stops(SPACE);
    lemma_first_of_concat(head, seq![SPACE] + rest, component_stops());
    assert(first_of(seq![SPACE] + rest, component_stops()) == 0);
    let split: int = inner.len() as int + 1;
    assert(line[split] == SPACE);
    assert(find_space_or_end(line) == Some(split));
    assert(line.skip(split) =~= seq![SPACE] + rest);
    lemma_one_space(rest);
    assert(skip_spaces(seq![SPACE] + rest) == Some((seq![SPACE] + rest).skip(1)));
    assert((seq![SPACE] + rest).skip(1) =~= rest);
    assert(line.subrange(1, split) =~= inner);
    match sv {
        SourceView::Server { name } => {
            lemma_clean_source_part(name);
        },
        SourceView::Client { nick, user, host } => {
            lemma_client_read_back(nick, user, host);
        },
    }
}

/// Law: parsing the wire form of valid components (less its final `"\r\n"`)
/// gives those components back, the command folded to upper case, whenever
/// the command reads back as itself (see `command_reads_back`).
pub proof fn law_parse_reads_back_assembly(
    s: Option<SourceView>,
    c: CommandView,
    ps: Seq<Seq<u8>>,
    t: bool,
)
    requires
        assembly_error(s, c, ps, t) is None,
        !(t && ps.len() == 0),
        command_reads_back(s, folded(c), ps),
    ensures
        ({
            let w = wire(s, folded(c), ps, t);
            message_parse(w.take(w.len() - 2)) == Some((s, folded(c), ps, t))
        }),
{
    let fc = folded(c);
    lemma_folded_error(c);
    let w = wire(s, fc, ps, t);
    let cw = command_wire(fc);
    let pw = params_wire(ps, t);
    let rest0 = cw + pw;
    let line = w.take(w.len() - 2);
    assert(line =~= opt_source_wire(s) + rest0);
    lemma_command_read_back(s, fc, ps, t);
    if ps.len() > 0 {
        lemma_params_wire_head(ps, t);
    }
    assert(rest0.len() > 0);
    if cw.len() > 0 {
        assert(rest0[0] == cw[0]);
        match fc {
            CommandView::Numeric(x) => {
                lemma_three_digits(x);
            },
            CommandView::Textual(wd) => {
                assert(!nulcrlfspace(wd[0]));
            },
        }
    } else {
        assert(rest0[0] == pw[0]);
    }
    match s {
        Some(sv) => {
            lemma_source_read_back(sv, rest0);
            assert(line[0] == COLON);
        },
        None => {
            assert(line =~= rest0);
        },
    }
}

/// Law: the wire form of a message fixes all its components (the command
/// as folded), so the raw bytes alone tell two messages apart.
pub proof fn law_wire_identifies_message(
    s1: Option<SourceView>,
    c1: CommandView,
    ps1: Seq<Seq<u8>>,
    t1: bool,
    s2: Option<SourceView>,
    c2: CommandView,
    ps2: Seq<Seq<u8>>,
    t2: bool,
)
    requires
        assembly_error(s1, c1, ps1, t1) is None,
        !(t1 && ps1.len() == 0),
        command_reads_back(s1, folded(c1), ps1),
        assembly_error(s2, c2, ps2, t2) is None,
        !(t2 && ps2.len() == 0),
        command_reads_back(s2, folded(c2), ps2),
        wire(s1, folded(c1), ps1, t1) == wire(s2, folded(c2), ps2, t2),
    ensures
        s1 == s2,
        folded(c1) == folded(c2),
        ps1 == ps2,
        t1 == t2,
{
    law_parse_reads_back_assembly(s1, c1, ps1, t1);
    law_parse_reads_back_assembly(s2, c2, ps2, t2);
}

/// Law: a valid source, followed by nothing or by the rest of a line that
/// starts with neither a space, a CR nor a NUL, reads back as that source
/// and that rest.
pub proof fn law_source_reads_back(sv: SourceView, rest: Seq<u8>)
    requires
        source_error(sv) is None,
        rest.len() == 0 || (rest[0] != SPACE && rest[0] != 13 && rest[0] != 0),
    ensures
        source_parse(source_wire(sv) + rest) == Some((Some(sv), rest)),
{
    lemma_source_read_back(sv, rest);
}

/// Law: the wire form of a source takes its parts' lengths plus its
/// punctuation: a colon and a space, a `!` before a user name, an `@`
/// before a host.
pub proof fn law_source_wire_len(sv: SourceView)
    ensures
        source_wire(sv).len() == match sv {
            SourceView::Server { name } => name.len() + 2,
            SourceView::Client { nick, user, host } => nick.len() + host.len() + 3 + match user {
                Some(u) => u.len() + 1,
                None => 0,
            },
        },
{
}

/// No byte of `s` is a NUL, CR or LF.
pub open spec fn free_of_nulcrlf(s: Seq<u8>) -> bool {
    forall|i: int| 0 <= i < s.len() ==> !nulcrlf(#[trigger] s[i])
}

proof fn lemma_concat_clean(a: Seq<u8>, b: Seq<u8>)
    requires
        free_of_nulcrlf(a),
        free_of_nulcrlf(b),
    ensures
        free_of_nulcrlf(a + b),
{
    assert forall|i: int| 0 <= i < (a + b).len() implies !nulcrlf(#[trigger] (a + b)[i]) by {
        if i < a.len() {
            assert((a + b)[i] == a[i]);
        } else {
            assert((a + b)[i] == b[i - a.len()]);
        }
    }
}

proof fn lemma_source_wire_clean(sv: SourceView)
    requires
        source_error(sv) is None,
    ensures
        free_of_nulcrlf(source_wire(sv)),
{
    let colon = seq![COLON];
    let space = seq![SPACE];
    assert(free_of_nulcrlf(colon));
    assert(free_of_nulcrlf(space));
    match sv {
        SourceView::Server { name } => {
            lemma_concat_clean(colon, name);
            lemma_concat_clean(colon + name, space);
        },
        SourceView::Client { nick, user, host } => {
            let at = seq![AT];
            assert(free_of_nulcrlf(at));
            let mid: Seq<u8> = match user {
                Some(u) => {
                    let bang = seq![BANG];
                    assert(free_of_nulcrlf(bang));
                    assert(free_of_nulcrlf(u));
                    lemma_concat_clean(bang, u);
                    bang + u
                },
                None => {
                    assert(free_of_nulcrlf(Seq::<u8>::empty()));
                    Seq::empty()
                },
            };
            lemma_concat_clean(colon, nick);
            lemma_concat_clean(colon + nick, mid);
            lemma_concat_clean(colon + nick + mid, at);
            lemma_concat_clean(colon + nick + mid + at, host);
            lemma_concat_clean(colon + nick + mid + at + host, space);
        },
    }
}

proof fn lemma_command_wire_clean(c: CommandView)
    requires
        command_error(c) is None,
    ensures
        free_of_nulcrlf(command_wire(c)),
{
    if let CommandView::Numeric(x) = c {
        lemma_three_digits(x);
    }
}

proof fn lemma_params_wire_clean(ps: Seq<Seq<u8>>, t: bool)
    requires
        params_error(ps, t) is None,
    ensures
        free_of_nulcrlf(params_wire(ps, t)),
    decreases ps.len(),
{
    if ps.len() > 0 {
        lemma_params_wire_front(ps, t);
        lemma_params_error_front(ps, t);
        lemma_params_wire_clean(ps.drop_first(), t);
        let p = ps[0];
        assert(free_of_nulcrlf(p)) by {
            assert forall|i: int| 0 <= i < p.len() implies !nulcrlf(#[trigger] p[i]) by {
                if !(ps.len() == 1 && t) {
                    assert(!nulcrlfspace(p[i]));
                }
            }
        }
        let f = first_item(ps, t);
        if ps.len() == 1 && t {
            assert(free_of_nulcrlf(seq![COLON]));
            lemma_concat_clean(seq![COLON], p);
        }
        assert(free_of_nulcrlf(f));
        assert(free_of_nulcrlf(seq![SPACE]));
        lemma_concat_clean(seq![SPACE], f);
        lemma_concat_clean(seq![SPACE] + f, params_wire(ps.drop_first(), t));
    } else {
        assert(params_wire(ps, t) =~= Seq::<u8>::empty());
    }
}

/// Law: the wire form of valid components ends in CR LF, and no byte before
/// that is a NUL, a CR or an LF.
pub proof fn law_wire_framing(s: Option<SourceView>, c: CommandView, ps: Seq<Seq<u8>>, t: bool)
    requires
        assembly_error(s, c, ps, t) is None,
    ensures
        ({
            let w = wire(s, c, ps, t);
            &&& w.len() >= 2
            &&& w[w.len() - 2] == 13
            &&& w[w.len() - 1] == 10
            &&& free_of_nulcrlf(w.take(w.len() - 2))
        }),
{
    let sw = opt_source_wire(s);
    match s {
        Some(sv) => {
            lemma_source_wire_clean(sv);
        },
        None => {
            assert(sw =~= Seq::<u8>::empty());
        },
    }
    lemma_command_wire_clean(c);
    lemma_params_wire_clean(ps, t);
    let cw = command_wire(c);
    let pw = params_wire(ps, t);
    lemma_concat_clean(sw, cw);
    lemma_concat_clean(sw + cw, pw);
    let w = wire(s, c, ps, t);
    assert(w =~= (sw + cw + pw) + seq![13u8, 10u8]);
    assert(w.take(w.len() - 2) =~= sw + cw + pw);
}

} // verus!
