//! The command line: the options the server takes, the text that explains
//! them, and what a given command line asks the server to do.
use vstd::prelude::*;
use vstd::string::StringExecFns;
use vstd::utf8::is_ascii_chars;

use crate::server::opt_string_view;
use crate::session::{str_eq, strings_view};

verus! {

broadcast use vstd::string::group_string_axioms;

// ---------------------------------------------------------------------------
// getopts
// ---------------------------------------------------------------------------

#[verifier::external_type_specification]
#[verifier::external_body]
pub struct ExOptions(getopts::Options);

#[verifier::external_type_specification]
#[verifier::external_body]
pub struct ExMatches(getopts::Matches);

/// How an option is given on the command line.
pub enum OptionKind {
    /// A flag without an argument, at most once (`optflag`).
    Flag,
    /// An option with an argument, any number of times (`optmulti`).
    Multi,
    /// An option with an argument, at most once (`optopt`).
    Single,
}

/// One declared option: short name, long name, description, argument hint
/// and kind.
pub type OptionDecl = (Seq<char>, Seq<char>, Seq<char>, Seq<char>, OptionKind);

/// For each option name, what each of its occurrences carried: `Some` of the
/// argument, or `None` for an occurrence without one.
pub type OptionValues = Map<Seq<char>, Seq<Option<Seq<char>>>>;

/// The options declared in a `getopts::Options`, in the order of declaration.
pub uninterp spec fn declared_options(opts: getopts::Options) -> Seq<OptionDecl>;

/// Whether a `getopts::Options` still has the parsing style that
/// `Options::new` gives it (floating free arguments, not long-only).
pub uninterp spec fn default_style(opts: getopts::Options) -> bool;

/// What a `getopts::Matches` holds: the values given for each option name.
pub uninterp spec fn matched_values(m: getopts::Matches) -> OptionValues;

/// Why getopts refused a command line, with the option's name: the cases
/// of `getopts::Fail`.
pub enum ParseFailure {
    ArgumentMissing(String),
    UnrecognizedOption(String),
    OptionMissing(String),
    OptionDuplicated(String),
    UnexpectedArgument(String),
}

pub enum ParseFailureView {
    ArgumentMissing(Seq<char>),
    UnrecognizedOption(Seq<char>),
    OptionMissing(Seq<char>),
    OptionDuplicated(Seq<char>),
    UnexpectedArgument(Seq<char>),
}

impl View for ParseFailure {
    type V = ParseFailureView;

    open spec fn view(&self) -> ParseFailureView {
        match self {
            ParseFailure::ArgumentMissing(n) => ParseFailureView::ArgumentMissing(n@),
            ParseFailure::UnrecognizedOption(n) => ParseFailureView::UnrecognizedOption(n@),
            ParseFailure::OptionMissing(n) => ParseFailureView::OptionMissing(n@),
            ParseFailure::OptionDuplicated(n) => ParseFailureView::OptionDuplicated(n@),
            ParseFailure::UnexpectedArgument(n) => ParseFailureView::UnexpectedArgument(n@),
        }
    }
}

/// What `Options::parse` makes of the arguments under these declarations:
/// the values given for each name, or why it refused them.
pub uninterp spec fn getopts_parse(decls: Seq<OptionDecl>, args: Seq<Seq<char>>) -> Result<
    OptionValues,
    ParseFailureView,
>;

/// The text that `Options::usage` writes for these declarations under the
/// given brief.
pub uninterp spec fn getopts_usage(decls: Seq<OptionDecl>, brief: Seq<char>) -> Seq<char>;

/// Names that getopts accepts without panicking, kept to ASCII so that a
/// name's length in bytes is its length in characters: a short name of at
/// most one character, a long name of none or at least two, and not both
/// empty.
pub open spec fn well_named(short: Seq<char>, long: Seq<char>) -> bool {
    &&& short.len() <= 1
    &&& long.len() != 1
    &&& short.len() + long.len() > 0
    &&& is_ascii_chars(short)
    &&& is_ascii_chars(long)
}

pub open spec fn all_well_named(decls: Seq<OptionDecl>) -> bool {
    forall|i: int| 0 <= i < decls.len() ==> well_named(#[trigger] decls[i].0, decls[i].1)
}

/// The names by which the declared options can be asked for.
pub open spec fn option_names(decls: Seq<OptionDecl>) -> Set<Seq<char>> {
    Set::new(
        |n: Seq<char>|
            n.len() > 0 && exists|i: int|
                0 <= i < decls.len() && (#[trigger] decls[i].0 == n || decls[i].1 == n),
    )
}

/// `getopts::Options::new`: no options declared yet, default style.
#[verifier::external_body]
fn options_new() -> (o: getopts::Options)
    ensures
        declared_options(o) == Seq::<OptionDecl>::empty(),
        default_style(o),
{
    getopts::Options::new()
}

/// `getopts::Options::optflag`: declares a flag (no hint) after the others.
/// It panics on malformed names, which `requires` leaves out.
#[verifier::external_body]
fn declare_flag(opts: &mut getopts::Options, short: &str, long: &str, desc: &str)
    requires
        well_named(short@, long@),
    ensures
        declared_options(*final(opts)) == declared_options(*old(opts)).push(
            (short@, long@, desc@, Seq::<char>::empty(), OptionKind::Flag),
        ),
        default_style(*final(opts)) == default_style(*old(opts)),
{
    opts.optflag(short, long, desc);
}

/// `getopts::Options::optmulti`: declares a repeatable option with an
/// argument after the others. It panics on malformed names, which `requires`
/// leaves out.
#[verifier::external_body]
fn declare_multi(opts: &mut getopts::Options, short: &str, long: &str, desc: &str, hint: &str)
    requires
        well_named(short@, long@),
    ensures
        declared_options(*final(opts)) == declared_options(*old(opts)).push(
            (short@, long@, desc@, hint@, OptionKind::Multi),
        ),
        default_style(*final(opts)) == default_style(*old(opts)),
{
    opts.optmulti(short, long, desc, hint);
}

/// `getopts::Options::optopt`: declares an option with an argument, given at
/// most once, after the others. It panics on malformed names, which
/// `requires` leaves out.
#[verifier::external_body]
fn declare_single(opts: &mut getopts::Options, short: &str, long: &str, desc: &str, hint: &str)
    requires
        well_named(short@, long@),
    ensures
        declared_options(*final(opts)) == declared_options(*old(opts)).push(
            (short@, long@, desc@, hint@, OptionKind::Single),
        ),
        default_style(*final(opts)) == default_style(*old(opts)),
{
    opts.optopt(short, long, desc, hint);
}

/// `getopts::Options::parse`: gives what the named result says, a refusal
/// converted case for case from `getopts::Fail`, and matches that answer to
/// the names of the declared options. It panics on malformed names, which
/// `requires` leaves out; the named result is claimed for the default style
/// only.
#[verifier::external_body]
fn parse_options(opts: &getopts::Options, args: &Vec<String>) -> (r: Result<
    getopts::Matches,
    ParseFailure,
>)
    requires
        default_style(*opts),
        all_well_named(declared_options(*opts)),
    ensures
        match getopts_parse(declared_options(*opts), strings_view(args@)) {
            Ok(vals) => r matches Ok(m) && matched_values(m) == vals && vals.dom() == option_names(
                declared_options(*opts),
            ),
            Err(e) => r matches Err(f) && f@ == e,
        },
{
    match opts.parse(args) {
        Ok(m) => Ok(m),
        Err(getopts::Fail::ArgumentMissing(n)) => Err(ParseFailure::ArgumentMissing(n)),
        Err(getopts::Fail::UnrecognizedOption(n)) => Err(ParseFailure::UnrecognizedOption(n)),
        Err(getopts::Fail::OptionMissing(n)) => Err(ParseFailure::OptionMissing(n)),
        Err(getopts::Fail::OptionDuplicated(n)) => Err(ParseFailure::OptionDuplicated(n)),
        Err(getopts::Fail::UnexpectedArgument(n)) => Err(ParseFailure::UnexpectedArgument(n)),
    }
}

/// `getopts::Options::usage`: the help text for the declared options under
/// the given brief. It is claimed for the default style only.
#[verifier::external_body]
fn options_usage(opts: &getopts::Options, brief: &str) -> (r: String)
    requires
        default_style(*opts),
        all_well_named(declared_options(*opts)),
    ensures
        r@ == getopts_usage(declared_options(*opts), brief@),
{
    opts.usage(brief)
}

/// The message that `getopts::Fail` displays for a refusal.
pub open spec fn failure_message(f: ParseFailureView) -> Seq<char> {
    match f {
        ParseFailureView::ArgumentMissing(n) => "Argument to option '"@ + n + "' missing"@,
        ParseFailureView::UnrecognizedOption(n) => "Unrecognized option: '"@ + n + "'"@,
        ParseFailureView::OptionMissing(n) => "Required option '"@ + n + "' missing"@,
        ParseFailureView::OptionDuplicated(n) => "Option '"@ + n + "' given more than once"@,
        ParseFailureView::UnexpectedArgument(n) => "Option '"@ + n
            + "' does not take an argument"@,
    }
}

impl ParseFailure {
    /// The message for this refusal, as getopts words it.
    pub fn message(&self) -> (r: String)
        ensures
            r@ == failure_message(self@),
    {
        match self {
            ParseFailure::ArgumentMissing(n) => String::from_str("Argument to option '").concat(
                n.as_str(),
            ).concat("' missing"),
            ParseFailure::UnrecognizedOption(n) => String::from_str(
                "Unrecognized option: '",
            ).concat(n.as_str()).concat("'"),
            ParseFailure::OptionMissing(n) => String::from_str("Required option '").concat(
                n.as_str(),
            ).concat("' missing"),
            ParseFailure::OptionDuplicated(n) => String::from_str("Option '").concat(
                n.as_str(),
            ).concat("' given more than once"),
            ParseFailure::UnexpectedArgument(n) => String::from_str("Option '").concat(
                n.as_str(),
            ).concat("' does not take an argument"),
        }
    }
}

/// The first occurrence's argument, if the option was given and carried one.
pub open spec fn first_value(v: Seq<Option<Seq<char>>>) -> Option<Seq<char>> {
    if v.len() > 0 {
        v[0]
    } else {
        None
    }
}

/// The arguments of all occurrences that carried one, in order.
pub open spec fn given_values(v: Seq<Option<Seq<char>>>) -> Seq<Seq<char>>
    decreases v.len(),
{
    if v.len() == 0 {
        Seq::empty()
    } else {
        let rest = given_values(v.drop_last());
        match v.last() {
            Some(s) => rest.push(s),
            None => rest,
        }
    }
}

/// `getopts::Matches::opt_present`: whether the option occurred. It panics
/// on a name that no option answers to, which `requires` leaves out.
#[verifier::external_body]
fn option_present(m: &getopts::Matches, name: &str) -> (r: bool)
    requires
        matched_values(*m).dom().contains(name@),
    ensures
        r == (matched_values(*m)[name@].len() > 0),
{
    m.opt_present(name)
}

/// `getopts::Matches::opt_str`: the argument of the option's first
/// occurrence. It panics on a name that no option answers to, which
/// `requires` leaves out.
#[verifier::external_body]
fn option_text(m: &getopts::Matches, name: &str) -> (r: Option<String>)
    requires
        matched_values(*m).dom().contains(name@),
    ensures
        opt_string_view(r) == first_value(matched_values(*m)[name@]),
{
    m.opt_str(name)
}

/// `getopts::Matches::opt_strs`: the arguments of all the option's
/// occurrences. It panics on a name that no option answers to, which
/// `requires` leaves out.
#[verifier::external_body]
fn option_texts(m: &getopts::Matches, name: &str) -> (r: Vec<String>)
    requires
        matched_values(*m).dom().contains(name@),
    ensures
        strings_view(r@) == given_values(matched_values(*m)[name@]),
{
    m.opt_strs(name)
}

// ---------------------------------------------------------------------------
// Outside numbers
// ---------------------------------------------------------------------------

/// `num_cpus::get`: the number of CPUs this process may use, which its
/// documentation promises is at least one.
#[verifier::external_body]
fn cpu_count() -> (n: usize)
    ensures
        n >= 1,
{
    num_cpus::get()
}

/// The value of a run of decimal digits.
pub open spec fn digits_value(d: Seq<char>) -> nat
    decreases d.len(),
{
    if d.len() == 0 {
        0
    } else {
        digits_value(d.drop_last()) * 10 + ((d.last() as int - '0' as int) as nat)
    }
}

pub open spec fn all_digits(d: Seq<char>) -> bool {
    forall|i: int| 0 <= i < d.len() ==> '0' <= #[trigger] d[i] <= '9'
}

/// The number that `str::parse::<usize>` reads: an optional `+`, then one
/// or more decimal digits, and nothing else.
pub open spec fn decimal_text(s: Seq<char>) -> Option<nat> {
    let d = if s.len() > 0 && s[0] == '+' {
        s.drop_first()
    } else {
        s
    };
    if d.len() > 0 && all_digits(d) {
        Some(digits_value(d))
    } else {
        None
    }
}

/// A run of digits never reads as less than any of its beginnings.
proof fn lemma_digits_value_prefix(d: Seq<char>, k: int)
    requires
        all_digits(d),
        0 <= k <= d.len(),
    ensures
        digits_value(d.take(k)) <= digits_value(d),
    decreases d.len(),
{
    if k < d.len() {
        let p = d.drop_last();
        assert(all_digits(p)) by {
            assert forall|i: int| 0 <= i < p.len() implies '0' <= #[trigger] p[i] <= '9' by {
                assert(p[i] == d[i]);
            }
        }
        lemma_digits_value_prefix(p, k);
        assert(p.take(k) =~= d.take(k));
        assert(d.last() == d[d.len() - 1]);
    } else {
        assert(d.take(k) =~= d);
    }
}

/// Reads a `usize` as `str::parse::<usize>` does: an optional `+`, then
/// one or more decimal digits, and nothing else; `None` where the text is
/// not such a number or the number does not fit.
fn parse_usize(s: &str) -> (r: Option<usize>)
    ensures
        match r {
            Some(n) => decimal_text(s@) == Some(n as nat),
            None => decimal_text(s@) matches Some(v) ==> v > usize::MAX,
        },
{
    let cs = crate::text::chars_of(s);
    let n = cs.len();
    let mut i: usize = 0;
    if n > 0 && cs[0] == '+' {
        i = 1;
    }
    let ghost d = if s@.len() > 0 && s@[0] == '+' {
        s@.drop_first()
    } else {
        s@
    };
    assert(d =~= cs@.subrange(i as int, n as int));
    if i == n {
        return None;
    }
    let start = i;
    let mut v: usize = 0;
    assert(d.len() > 0);
    assert(cs@.subrange(start as int, start as int) =~= Seq::<char>::empty());
    while i < n
        invariant
            start <= i <= n,
            start < n,
            n == cs@.len(),
            cs@ == s@,
            d == cs@.subrange(start as int, n as int),
            decimal_text(s@) == if all_digits(d) {
                Some(digits_value(d))
            } else {
                None
            },
            all_digits(cs@.subrange(start as int, i as int)),
            v == digits_value(cs@.subrange(start as int, i as int)),
        decreases n - i,
    {
        let c = cs[i];
        let ghost next = cs@.subrange(start as int, i + 1);
        assert(next.drop_last() =~= cs@.subrange(start as int, i as int));
        assert(next.last() == c);
        assert(d[i - start] == c);
        if !('0' <= c && c <= '9') {
            return None;
        }
        assert(all_digits(next)) by {
            assert forall|j: int| 0 <= j < next.len() implies '0' <= #[trigger] next[j] <= '9' by {
                if j < next.len() - 1 {
                    assert(next[j] == cs@.subrange(start as int, i as int)[j]);
                }
            }
        }
        let digit = (c as u32 - 48) as usize;
        assert(digit == c as int - '0' as int);
        if v > (usize::MAX - digit) / 10 {
            proof {
                assert(v * 10 + digit > usize::MAX) by (nonlinear_arith)
                    requires
                        v > (usize::MAX - digit) / 10,
                        digit <= 9,
                ;
                if all_digits(d) {
                    assert(d.take(i + 1 - start) =~= next);
                    lemma_digits_value_prefix(d, i + 1 - start);
                }
            }
            return None;
        }
        assert(v * 10 + digit <= usize::MAX) by (nonlinear_arith)
            requires
                v <= (usize::MAX - digit) / 10,
                digit <= 9,
        ;
        v = v * 10 + digit;
        i = i + 1;
    }
    Some(v)
}

// ---------------------------------------------------------------------------
// The server's options
// ---------------------------------------------------------------------------

pub const LISTEN_HELP: &'static str =
    "Listen for non-TLS connections on a given address and port. May be given more than once.";

pub const LISTEN_TLS_HELP: &'static str =
    "Listen for TLS connections on a given address and port. May be given more than once.";

pub const DB_DIR_HELP: &'static str =
    "Specify a directory to use as a database. If given more than once, they are in descending order of priority, and only the first one will be written to.";

pub const THREADS_HELP: &'static str = "Specify the number of reactor threads to use.";

pub const THREADS_HINT: &'static str = "NUM | \"auto\" (default 1)";

/// The options the server takes, in the order the help text lists them.
pub open spec fn server_option_decls() -> Seq<OptionDecl> {
    seq![
        ("h"@, "help"@, ""@, Seq::<char>::empty(), OptionKind::Flag),
        ("?"@, "usage"@, "Print what you're reading now."@, Seq::<char>::empty(), OptionKind::Flag),
        ("l"@, "listen"@, LISTEN_HELP@, "ADDR:PORT"@, OptionKind::Multi),
        ("s"@, "listen-tls"@, LISTEN_TLS_HELP@, "ADDR:PORT"@, OptionKind::Multi),
        ("d"@, "db-dir"@, DB_DIR_HELP@, "PATH"@, OptionKind::Multi),
        ("t"@, "threads"@, THREADS_HELP@, THREADS_HINT@, OptionKind::Single),
    ]
}

/// Declares the server's options.
pub fn server_options() -> (o: getopts::Options)
    ensures
        declared_options(o) == server_option_decls(),
        default_style(o),
        all_well_named(declared_options(o)),
{
    proof {
        reveal_strlit("h");
        reveal_strlit("help");
        reveal_strlit("?");
        reveal_strlit("usage");
        reveal_strlit("l");
        reveal_strlit("listen");
        reveal_strlit("s");
        reveal_strlit("listen-tls");
        reveal_strlit("d");
        reveal_strlit("db-dir");
        reveal_strlit("t");
        reveal_strlit("threads");
    }
    let mut opts = options_new();
    declare_flag(&mut opts, "h", "help", "");
    declare_flag(&mut opts, "?", "usage", "Print what you're reading now.");
    declare_multi(&mut opts, "l", "listen", LISTEN_HELP, "ADDR:PORT");
    declare_multi(&mut opts, "s", "listen-tls", LISTEN_TLS_HELP, "ADDR:PORT");
    declare_multi(&mut opts, "d", "db-dir", DB_DIR_HELP, "PATH");
    declare_single(&mut opts, "t", "threads", THREADS_HELP, THREADS_HINT);
    assert(declared_options(opts) =~= server_option_decls());
    opts
}

// ---------------------------------------------------------------------------
// The help text
// ---------------------------------------------------------------------------

pub const USAGE_HEAD: &'static str = "\nUsage: ";

pub const USAGE_TAIL: &'static str =
    " options...\n\nFoxy IRCd is IRC server software written in Rust.";

pub const DEFAULT_LISTENER_NOTE: &'static str =
    "\nIf NO -l options are given, the default is:\n\n  -l [::]:6667\n";

pub const TLS_NOTE: &'static str =
    "\nTLS listeners can be requested with -s/--listen-tls but require a future TLS\nbackend integration.\n";

/// The brief that heads the option list.
pub open spec fn usage_brief(program_name: Seq<char>) -> Seq<char> {
    USAGE_HEAD@ + program_name + USAGE_TAIL@
}

/// The whole help text: the option list under its brief, then what is
/// listened on by default and how TLS stands.
pub open spec fn usage_page(program_name: Seq<char>) -> Seq<char> {
    getopts_usage(server_option_decls(), usage_brief(program_name)) + DEFAULT_LISTENER_NOTE@
        + TLS_NOTE@
}

/// The help text for a program run under `program_name`.
pub fn usage_text(program_name: &str) -> (r: String)
    ensures
        r@ == usage_page(program_name@),
{
    let opts = server_options();
    let mut brief = String::from_str(USAGE_HEAD);
    brief.append(program_name);
    brief.append(USAGE_TAIL);
    let mut text = options_usage(&opts, brief.as_str());
    text.append(DEFAULT_LISTENER_NOTE);
    text.append(TLS_NOTE);
    text
}

// ---------------------------------------------------------------------------
// What a command line asks for
// ---------------------------------------------------------------------------

pub const NEED_ARGUMENT: &'static str =
    "At least one argument is required. If you really mean to start with the default listeners and runtime, and no database, pass '--' as the only argument.";

pub const BAD_THREADS: &'static str = "Invalid number of threads specified.";

pub const DEFAULT_LISTENER: &'static str = "[::]:6667";

/// The number of reactor threads asked for: one by default or for "1", the
/// CPU count for "auto", else the number written, which must not be zero.
pub open spec fn thread_choice(arg: Option<Seq<char>>, cpus: nat) -> Option<nat> {
    match arg {
        None => Some(1),
        Some(t) => if t == "1"@ {
            Some(1)
        } else if t == "auto"@ {
            Some(cpus)
        } else {
            match decimal_text(t) {
                Some(n) => if n == 0 || n > usize::MAX {
                    None
                } else {
                    Some(n)
                },
                None => None,
            }
        },
    }
}

pub open spec fn opt_usize_view(r: Option<usize>) -> Option<nat> {
    match r {
        Some(n) => Some(n as nat),
        None => None,
    }
}

pub open spec fn opt_text_view(s: Option<&str>) -> Option<Seq<char>> {
    match s {
        Some(s) => Some(s@),
        None => None,
    }
}

/// The number of reactor threads that `-t` asks for, `cpus` standing for
/// "auto"; `None` where the text names no usable count.
pub fn thread_count(arg: Option<&str>, cpus: usize) -> (r: Option<usize>)
    ensures
        opt_usize_view(r) == thread_choice(opt_text_view(arg), cpus as nat),
{
    match arg {
        None => Some(1),
        Some(t) => {
            if str_eq(t, "1") {
                Some(1)
            } else if str_eq(t, "auto") {
                Some(cpus)
            } else {
                match parse_usize(t) {
                    Some(n) => if n == 0 {
                        None
                    } else {
                        Some(n)
                    },
                    None => None,
                }
            }
        },
    }
}

/// What a command line asks the server to do.
#[derive(Debug)]
pub enum Launch {
    /// Print the message, if any, and the help text, and stop.
    Usage(Option<String>),
    /// Start with this many reactor threads, listening on these addresses
    /// (as written, not yet resolved), plain and TLS.
    Run { threads: usize, listen: Vec<String>, listen_tls: Vec<String> },
}

pub enum LaunchView {
    Usage(Option<Seq<char>>),
    Run(nat, Seq<Seq<char>>, Seq<Seq<char>>),
}

impl View for Launch {
    type V = LaunchView;

    open spec fn view(&self) -> LaunchView {
        match self {
            Launch::Usage(m) => LaunchView::Usage(opt_string_view(*m)),
            Launch::Run { threads, listen, listen_tls } => LaunchView::Run(
                *threads as nat,
                strings_view(listen@),
                strings_view(listen_tls@),
            ),
        }
    }
}

pub open spec fn present(vals: OptionValues, name: Seq<char>) -> bool {
    vals[name].len() > 0
}

/// What the server's options were given, as read out of parsed arguments.
pub struct GivenOptions {
    /// Whether `-?` or `-h` was given.
    pub help: bool,
    /// The argument of `-t`, if given.
    pub threads: Option<String>,
    /// Whether `-l` was given.
    pub listen_given: bool,
    /// Whether `-s` was given.
    pub listen_tls_given: bool,
    /// The arguments of `-l`, in order.
    pub listen: Vec<String>,
    /// The arguments of `-s`, in order.
    pub listen_tls: Vec<String>,
}

pub struct GivenView {
    pub help: bool,
    pub threads: Option<Seq<char>>,
    pub listen_given: bool,
    pub listen_tls_given: bool,
    pub listen: Seq<Seq<char>>,
    pub listen_tls: Seq<Seq<char>>,
}

impl View for GivenOptions {
    type V = GivenView;

    open spec fn view(&self) -> GivenView {
        GivenView {
            help: self.help,
            threads: opt_string_view(self.threads),
            listen_given: self.listen_given,
            listen_tls_given: self.listen_tls_given,
            listen: strings_view(self.listen@),
            listen_tls: strings_view(self.listen_tls@),
        }
    }
}

/// What parsed values say of the server's options.
pub open spec fn given_of(vals: OptionValues) -> GivenView {
    GivenView {
        help: present(vals, "?"@) || present(vals, "h"@),
        threads: first_value(vals["t"@]),
        listen_given: present(vals, "l"@),
        listen_tls_given: present(vals, "s"@),
        listen: given_values(vals["l"@]),
        listen_tls: given_values(vals["s"@]),
    }
}

/// The plain listeners: the default one where neither `-l` nor `-s` was
/// given, then each `-l` in order.
pub open spec fn plain_listeners(g: GivenView) -> Seq<Seq<char>> {
    let default: Seq<Seq<char>> = if !g.listen_given && !g.listen_tls_given {
        seq![DEFAULT_LISTENER@]
    } else {
        Seq::empty()
    };
    default + g.listen
}

/// What the given options ask for, `cpus` standing for the CPU count: help
/// where asked for, a complaint where the thread count is unusable, else a
/// start.
pub open spec fn launch_given(g: GivenView, cpus: nat) -> LaunchView {
    if g.help {
        LaunchView::Usage(None)
    } else {
        match thread_choice(g.threads, cpus) {
            None => LaunchView::Usage(Some(BAD_THREADS@)),
            Some(n) => LaunchView::Run(n, plain_listeners(g), g.listen_tls),
        }
    }
}

/// Decides what the given options ask for, `cpus` standing for "auto".
pub fn launch_from(given: GivenOptions, cpus: usize) -> (r: Launch)
    ensures
        r@ == launch_given(given@, cpus as nat),
{
    let ghost g = given@;
    if given.help {
        return Launch::Usage(None);
    }
    let arg: Option<&str> = match &given.threads {
        Some(t) => Some(t.as_str()),
        None => None,
    };
    let threads = match thread_count(arg, cpus) {
        Some(n) => n,
        None => return Launch::Usage(Some(String::from_str(BAD_THREADS))),
    };
    let GivenOptions { listen_given, listen_tls_given, listen: mut given_listen, listen_tls, .. } =
        given;
    let mut listen: Vec<String> = Vec::new();
    if !listen_given && !listen_tls_given {
        listen.push(String::from_str(DEFAULT_LISTENER));
    }
    let ghost before = listen@;
    let ghost given_seq = given_listen@;
    listen.append(&mut given_listen);
    assert(strings_view(listen@) =~= strings_view(before) + strings_view(given_seq));
    assert(strings_view(listen@) == plain_listeners(g));
    Launch::Run { threads, listen, listen_tls }
}

/// Reads what the server's options were given.
fn read_given(m: &getopts::Matches) -> (g: GivenOptions)
    requires
        matched_values(*m).dom() == option_names(server_option_decls()),
    ensures
        g@ == given_of(matched_values(*m)),
{
    proof {
        reveal_strlit("?");
        reveal_strlit("h");
        reveal_strlit("t");
        reveal_strlit("l");
        reveal_strlit("s");
        assert(server_option_decls()[1].0 == "?"@);
        assert(server_option_decls()[0].0 == "h"@);
        assert(server_option_decls()[5].0 == "t"@);
        assert(server_option_decls()[2].0 == "l"@);
        assert(server_option_decls()[3].0 == "s"@);
    }
    let help = option_present(m, "?") || option_present(m, "h");
    GivenOptions {
        help,
        threads: option_text(m, "t"),
        listen_given: option_present(m, "l"),
        listen_tls_given: option_present(m, "s"),
        listen: option_texts(m, "l"),
        listen_tls: option_texts(m, "s"),
    }
}

/// Whether the thread count asked for is "auto".
fn wants_cpu_count(given: &GivenOptions) -> (r: bool)
    ensures
        r == (given@.threads == Some("auto"@)),
{
    match &given.threads {
        Some(t) => str_eq(t.as_str(), "auto"),
        None => false,
    }
}

/// Reads a command line (the program's name first): with no argument after
/// the name, or options that getopts refuses, the answer is a message (the
/// refusal's own in the second case) and the help text; otherwise
/// it is what the options ask for, with the CPU count, where "auto" asks for
/// it, as the machine reports it.
pub fn plan_invocation(args: &Vec<String>) -> (r: Launch)
    ensures
        args@.len() <= 1 ==> r@ == LaunchView::Usage(Some(NEED_ARGUMENT@)),
        args@.len() > 1 ==> match getopts_parse(server_option_decls(), strings_view(args@).drop_first()) {
            Err(e) => r@ == LaunchView::Usage(Some(failure_message(e))),
            Ok(vals) => exists|cpus: nat| cpus >= 1 && r@ == launch_given(given_of(vals), cpus),
        },
{
    if args.len() <= 1 {
        return Launch::Usage(Some(String::from_str(NEED_ARGUMENT)));
    }
    let mut rest: Vec<String> = Vec::new();
    let mut i: usize = 1;
    while i < args.len()
        invariant
            1 <= i <= args@.len(),
            rest@ == args@.subrange(1, i as int),
        decreases args@.len() - i,
    {
        rest.push(args[i].clone());
        i = i + 1;
        assert(rest@ =~= args@.subrange(1, i as int));
    }
    assert(strings_view(rest@) =~= strings_view(args@).drop_first());
    let opts = server_options();
    let m = match parse_options(&opts, &rest) {
        Ok(m) => m,
        Err(f) => return Launch::Usage(Some(f.message())),
    };
    let given = read_given(&m);
    // The CPU count is asked for only where it is wanted.
    let cpus: usize = if wants_cpu_count(&given) {
        cpu_count()
    } else {
        1
    };
    launch_from(given, cpus)
}

/// Law: a start always asks for at least one reactor thread, and for no
/// more than a `usize` holds, whatever the options and the CPU count.
pub proof fn law_start_has_threads(g: GivenView, cpus: nat)
    requires
        1 <= cpus <= usize::MAX,
    ensures
        launch_given(g, cpus) matches LaunchView::Run(n, _, _) ==> 1 <= n <= usize::MAX,
{
}

/// Law: with `-t auto` (and no request for help), the start uses exactly
/// the CPU count it is given as its thread count, whatever that count is,
/// with the listeners as given.
pub proof fn law_auto_threads_use_cpu_count(g: GivenView, cpus: nat)
    requires
        !g.help,
        g.threads == Some("auto"@),
        1 <= cpus <= usize::MAX,
    ensures
        launch_given(g, cpus) == LaunchView::Run(cpus, plain_listeners(g), g.listen_tls),
{
    reveal_strlit("auto");
    reveal_strlit("1");
    assert("auto"@ != "1"@) by {
        assert("auto"@.len() != "1"@.len());
    }
}

} // verus!
