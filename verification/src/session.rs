//! The line protocol that the server speaks with each client: splitting a
//! line into tags, command and arguments, and the state that a session and
//! the server keep.
use vstd::prelude::*;
use vstd::string::{StrSliceExecFns, StringExecFns};

use crate::text::{
    chars_of, find_char, find_char_in, lemma_find_char, to_ascii_uppercase, trim_range,
    trim_spec, trim_start_range, trim_start_spec, unicode_whitespace, upper_all, leading_ws,
    lemma_leading_ws,
};

verus! {

broadcast use vstd::string::group_string_axioms;

// ---------------------------------------------------------------------------
// Splitting a line
// ---------------------------------------------------------------------------

/// The arguments that follow the command: words separated by spaces, the
/// last one everything after a leading colon.
pub open spec fn irc_args(rest: Seq<char>) -> Seq<Seq<char>>
    decreases rest.len(),
{
    if rest.len() == 0 {
        Seq::empty()
    } else if rest[0] == ':' {
        seq![rest.drop_first()]
    } else {
        match find_char(rest, ' ') {
            Some(i) => {
                proof {
                    lemma_args_progress(rest, i);
                }
                seq![rest.take(i)] + irc_args(trim_start_spec(rest.skip(i + 1)))
            },
            None => seq![rest],
        }
    }
}

pub proof fn lemma_args_progress(rest: Seq<char>, i: int)
    requires
        find_char(rest, ' ') == Some(i),
    ensures
        trim_start_spec(rest.skip(i + 1)).len() < rest.len(),
{
    lemma_find_char(rest, ' ');
    lemma_leading_ws(rest.skip(i + 1));
}

/// A run of spaces and then text that starts with no white space: the run is
/// all the leading white space.
proof fn lemma_leading_spaces_run(k: nat, rest: Seq<char>)
    requires
        rest.len() == 0 || !unicode_whitespace(rest[0]),
    ensures
        leading_ws(Seq::new(k, |i: int| ' ') + rest) == k,
    decreases k,
{
    let s = Seq::new(k, |i: int| ' ') + rest;
    if k == 0 {
        assert(s =~= rest);
    } else {
        assert(s[0] == ' ');
        assert(s.drop_first() =~= Seq::new((k - 1) as nat, |i: int| ' ') + rest);
        lemma_leading_spaces_run((k - 1) as nat, rest);
    }
}

/// Law: a run of spaces between arguments is skipped whole: a word without
/// spaces (and not starting with `:`), then one space or more, then text
/// that starts with no white space, splits into that word and the arguments
/// of that text. So no argument but the trailing one comes out empty.
pub proof fn law_args_skip_space_runs(w: Seq<char>, k: nat, rest: Seq<char>)
    requires
        w.len() > 0,
        w[0] != ':',
        forall|i: int| 0 <= i < w.len() ==> #[trigger] w[i] != ' ',
        rest.len() == 0 || !unicode_whitespace(rest[0]),
    ensures
        irc_args(w + seq![' '] + Seq::new(k, |i: int| ' ') + rest) == seq![w] + irc_args(rest),
{
    let line = w + seq![' '] + Seq::new(k, |i: int| ' ') + rest;
    let n = w.len() as int;
    assert forall|j: int| 0 <= j < n implies #[trigger] line[j] == w[j] by {}
    assert(line[n] == ' ');
    lemma_find_char(line, ' ');
    match find_char(line, ' ') {
        Some(i) => {
            if i < n {
                assert(line[i] == w[i]);
            }
            if i > n {
                assert(line[n] != ' ');
            }
        },
        None => {
            assert(line[n] != ' ');
        },
    }
    assert(find_char(line, ' ') == Some(n));
    assert(line.take(n) =~= w);
    let after = Seq::new(k, |i: int| ' ') + rest;
    assert(line.skip(n + 1) =~= after);
    lemma_leading_spaces_run(k, rest);
    assert(trim_start_spec(after) =~= rest);
    assert(line[0] == w[0]);
}

/// What `parse_irc_line` gives for a line: the tags (with their `@`) when the
/// trimmed line starts with `@` and has a space, the command in upper case
/// (empty for a blank line), and the arguments.
pub open spec fn irc_line_parse(line: Seq<char>) -> (Option<Seq<char>>, Seq<char>, Seq<Seq<char>>) {
    let rest0 = trim_spec(line);
    let tagged = rest0.len() > 0 && rest0[0] == '@' && find_char(rest0, ' ') is Some;
    let tags = if tagged {
        Some(rest0.take(find_char(rest0, ' ')->0))
    } else {
        None
    };
    let rest1 = if tagged {
        trim_start_spec(rest0.skip(find_char(rest0, ' ')->0 + 1))
    } else {
        rest0
    };
    if rest1.len() == 0 {
        (tags, Seq::empty(), Seq::empty())
    } else {
        match find_char(rest1, ' ') {
            Some(i) => (tags, upper_all(rest1.take(i)), irc_args(trim_start_spec(rest1.skip(i + 1)))),
            None => (tags, upper_all(rest1), Seq::empty()),
        }
    }
}

pub open spec fn strings_view(v: Seq<String>) -> Seq<Seq<char>> {
    Seq::new(v.len(), |i: int| v[i]@)
}

pub open spec fn opt_str_view(s: Option<&str>) -> Option<Seq<char>> {
    match s {
        Some(s) => Some(s@),
        None => None,
    }
}

/// Splits a client line into its tags, its command (folded to upper case)
/// and its arguments.
pub fn parse_irc_line(line: &str) -> (r: (Option<&str>, String, Vec<String>))
    ensures
        (opt_str_view(r.0), r.1@, strings_view(r.2@)) == irc_line_parse(line@),
{
    let cs = chars_of(line);
    let ghost l = line@;
    let (lo0, hi) = trim_range(&cs, 0, cs.len());
    let ghost rest0 = l.subrange(lo0 as int, hi as int);
    assert(l.subrange(0, l.len() as int) =~= l);
    let mut lo = lo0;
    let mut tags: Option<&str> = None;
    if lo < hi && cs[lo] == '@' {
        if let Some(i) = find_char_in(&cs, lo, hi, ' ') {
            tags = Some(line.substring_char(lo, i));
            lo = trim_start_range(&cs, i + 1, hi);
            proof {
                assert(rest0.take(i - lo0) =~= l.subrange(lo0 as int, i as int));
                assert(rest0.skip(i - lo0 + 1) =~= l.subrange(i + 1, hi as int));
            }
        }
    }
    let ghost rest1 = l.subrange(lo as int, hi as int);
    assert(rest1 == irc_line_parse_rest1(l));
    if lo == hi {
        return (tags, String::new(), Vec::new());
    }
    let cmd;
    match find_char_in(&cs, lo, hi, ' ') {
        Some(i) => {
            cmd = to_ascii_uppercase(line.substring_char(lo, i));
            proof {
                assert(rest1.take(i - lo) =~= l.subrange(lo as int, i as int));
                assert(rest1.skip(i - lo + 1) =~= l.subrange(i + 1, hi as int));
            }
            lo = trim_start_range(&cs, i + 1, hi);
        },
        None => {
            cmd = to_ascii_uppercase(line.substring_char(lo, hi));
            lo = hi;
        },
    }
    let ghost rest2 = l.subrange(lo as int, hi as int);
    let mut args: Vec<String> = Vec::new();
    assert(strings_view(args@) + irc_args(rest2) =~= irc_args(rest2));
    while lo < hi
        invariant_except_break
            lo <= hi,
            lo >= hi ==> l.subrange(lo as int, hi as int) =~= Seq::<char>::empty(),
            irc_args(rest2) == strings_view(args@) + irc_args(l.subrange(lo as int, hi as int)),
        invariant
            hi <= cs@.len(),
            cs@ == l,
            l == line@,
        ensures
            irc_args(rest2) == strings_view(args@),
        decreases hi - lo,
    {
        let ghost cur = l.subrange(lo as int, hi as int);
        let ghost before = strings_view(args@);
        if cs[lo] == ':' {
            let a = line.substring_char(lo + 1, hi).to_owned();
            args.push(a);
            proof {
                assert(cur.drop_first() =~= l.subrange(lo + 1, hi as int));
                assert(strings_view(args@) =~= before + seq![cur.drop_first()]);
            }
            break;
        }
        match find_char_in(&cs, lo, hi, ' ') {
            Some(i) => {
                let a = line.substring_char(lo, i).to_owned();
                args.push(a);
                let next = trim_start_range(&cs, i + 1, hi);
                proof {
                    assert(cur.take(i - lo) =~= l.subrange(lo as int, i as int));
                    assert(cur.skip(i - lo + 1) =~= l.subrange(i + 1, hi as int));
                    lemma_args_progress(cur, i - lo);
                    assert(strings_view(args@) =~= before + seq![cur.take(i - lo)]);
                    assert(before + (seq![cur.take(i - lo)] + irc_args(
                        l.subrange(next as int, hi as int),
                    )) =~= strings_view(args@) + irc_args(l.subrange(next as int, hi as int)));
                }
                lo = next;
            },
            None => {
                let a = line.substring_char(lo, hi).to_owned();
                args.push(a);
                proof {
                    assert(strings_view(args@) =~= before + seq![cur]);
                }
                break;
            },
        }
    }
    (tags, cmd, args)
}

/// The text that `parse_irc_line` reads the command from.
pub open spec fn irc_line_parse_rest1(line: Seq<char>) -> Seq<char> {
    let rest0 = trim_spec(line);
    if rest0.len() > 0 && rest0[0] == '@' && find_char(rest0, ' ') is Some {
        trim_start_spec(rest0.skip(find_char(rest0, ' ')->0 + 1))
    } else {
        rest0
    }
}


// ---------------------------------------------------------------------------
// Small exec helpers
// ---------------------------------------------------------------------------

/// Whether two strings hold the same characters.
pub fn str_eq(a: &str, b: &str) -> (r: bool)
    ensures
        r == (a@ == b@),
{
    let x = chars_of(a);
    let y = chars_of(b);
    if x.len() != y.len() {
        return false;
    }
    let mut i: usize = 0;
    while i < x.len()
        invariant
            x@ == a@,
            y@ == b@,
            x@.len() == y@.len(),
            i <= x@.len(),
            forall|j: int| 0 <= j < i ==> x@[j] == y@[j],
        decreases x@.len() - i,
    {
        if x[i] != y[i] {
            return false;
        }
        i = i + 1;
    }
    assert(a@ =~= b@);
    true
}

// ---------------------------------------------------------------------------
// Keyed lists
// ---------------------------------------------------------------------------

/// Index of the entry with key `k`, if any (the first one).
pub open spec fn key_index<V>(s: Seq<(Seq<char>, V)>, k: Seq<char>) -> Option<int>
    decreases s.len(),
{
    if s.len() == 0 {
        None
    } else if s[0].0 == k {
        Some(0)
    } else {
        match key_index(s.drop_first(), k) {
            Some(i) => Some(i + 1),
            None => None,
        }
    }
}

/// The value under key `k`, if any.
pub open spec fn lookup<V>(s: Seq<(Seq<char>, V)>, k: Seq<char>) -> Option<V> {
    match key_index(s, k) {
        Some(i) => Some(s[i].1),
        None => None,
    }
}

/// `s` with the value under `k` set to `v` (added at the end if new).
pub open spec fn with_entry<V>(s: Seq<(Seq<char>, V)>, k: Seq<char>, v: V) -> Seq<(Seq<char>, V)> {
    match key_index(s, k) {
        Some(i) => s.update(i, (k, v)),
        None => s.push((k, v)),
    }
}

/// `s` without the entry under `k`.
pub open spec fn without_key<V>(s: Seq<(Seq<char>, V)>, k: Seq<char>) -> Seq<(Seq<char>, V)> {
    match key_index(s, k) {
        Some(i) => s.remove(i),
        None => s,
    }
}

/// No key occurs twice.
pub open spec fn keys_unique<V>(s: Seq<(Seq<char>, V)>) -> bool {
    forall|i: int, j: int| 0 <= i < j < s.len() ==> s[i].0 != s[j].0
}

pub proof fn lemma_key_index<V>(s: Seq<(Seq<char>, V)>, k: Seq<char>)
    ensures
        match key_index(s, k) {
            Some(i) => 0 <= i < s.len() && s[i].0 == k && forall|j: int|
                0 <= j < i ==> #[trigger] s[j].0 != k,
            None => forall|j: int| 0 <= j < s.len() ==> #[trigger] s[j].0 != k,
        },
    decreases s.len(),
{
    if s.len() > 0 && s[0].0 != k {
        lemma_key_index(s.drop_first(), k);
        assert forall|j: int| 0 < j < s.len() implies #[trigger] s[j] == s.drop_first()[j - 1] by {}
    }
}

proof fn lemma_key_index_at<V>(s: Seq<(Seq<char>, V)>, k: Seq<char>, n: int)
    requires
        0 <= n <= s.len(),
        forall|j: int| 0 <= j < n ==> #[trigger] s[j].0 != k,
        n < s.len() ==> s[n].0 == k,
    ensures
        key_index(s, k) == if n < s.len() {
            Some(n)
        } else {
            None::<int>
        },
    decreases n,
{
    if n > 0 {
        assert forall|j: int| 0 <= j < n - 1 implies #[trigger] s.drop_first()[j].0 != k by {
            assert(s.drop_first()[j] == s[j + 1]);
        }
        if n < s.len() {
            assert(s.drop_first()[n - 1] == s[n]);
        }
        lemma_key_index_at(s.drop_first(), k, n - 1);
    }
}

/// With unique keys, the entry under `k` is the one that has key `k`.
pub proof fn lemma_unique_key_index<V>(s: Seq<(Seq<char>, V)>, k: Seq<char>, i: int)
    requires
        keys_unique(s),
        0 <= i < s.len(),
        s[i].0 == k,
    ensures
        key_index(s, k) == Some(i),
{
    lemma_key_index_at(s, k, i);
}

/// Index of `x` in `ms`, if it occurs.
pub open spec fn member_index(ms: Seq<u64>, x: u64) -> Option<int>
    decreases ms.len(),
{
    if ms.len() == 0 {
        None
    } else if ms[0] == x {
        Some(0)
    } else {
        match member_index(ms.drop_first(), x) {
            Some(i) => Some(i + 1),
            None => None,
        }
    }
}

/// `ms` with `x` added at the end, unless it is there already.
pub open spec fn set_add(ms: Seq<u64>, x: u64) -> Seq<u64> {
    if member_index(ms, x) is Some {
        ms
    } else {
        ms.push(x)
    }
}

/// `ms` without (the first occurrence of) `x`.
pub open spec fn set_del(ms: Seq<u64>, x: u64) -> Seq<u64> {
    match member_index(ms, x) {
        Some(i) => ms.remove(i),
        None => ms,
    }
}

pub open spec fn members_unique(ms: Seq<u64>) -> bool {
    forall|i: int, j: int| 0 <= i < j < ms.len() ==> ms[i] != ms[j]
}

pub proof fn lemma_member_index(ms: Seq<u64>, x: u64)
    ensures
        match member_index(ms, x) {
            Some(i) => 0 <= i < ms.len() && ms[i] == x && forall|j: int|
                0 <= j < i ==> #[trigger] ms[j] != x,
            None => forall|j: int| 0 <= j < ms.len() ==> #[trigger] ms[j] != x,
        },
        member_index(ms, x) is Some <==> ms.contains(x),
    decreases ms.len(),
{
    if ms.len() > 0 && ms[0] != x {
        lemma_member_index(ms.drop_first(), x);
        assert forall|j: int| 0 < j < ms.len() implies #[trigger] ms[j] == ms.drop_first()[j - 1] by {}
    }
    if ms.contains(x) {
        let j = choose|j: int| 0 <= j < ms.len() && ms[j] == x;
    }
}

proof fn lemma_member_index_at(ms: Seq<u64>, x: u64, n: int)
    requires
        0 <= n <= ms.len(),
        forall|j: int| 0 <= j < n ==> #[trigger] ms[j] != x,
        n < ms.len() ==> ms[n] == x,
    ensures
        member_index(ms, x) == if n < ms.len() {
            Some(n)
        } else {
            None::<int>
        },
    decreases n,
{
    if n > 0 {
        assert forall|j: int| 0 <= j < n - 1 implies #[trigger] ms.drop_first()[j] != x by {
            assert(ms.drop_first()[j] == ms[j + 1]);
        }
        if n < ms.len() {
            assert(ms.drop_first()[n - 1] == ms[n]);
        }
        lemma_member_index_at(ms.drop_first(), x, n - 1);
    }
}

/// Adding keeps members unique and makes `x` a member.
pub proof fn lemma_set_add(ms: Seq<u64>, x: u64)
    requires
        members_unique(ms),
    ensures
        members_unique(set_add(ms, x)),
        set_add(ms, x).contains(x),
        forall|y: u64| #[trigger] set_add(ms, x).contains(y) <==> ms.contains(y) || y == x,
{
    lemma_member_index(ms, x);
    if !ms.contains(x) {
        assert(ms.push(x)[ms.len() as int] == x);
        assert forall|y: u64| #[trigger] ms.push(x).contains(y) implies ms.contains(y) || y == x by {
            let j = choose|j: int| 0 <= j < ms.push(x).len() && ms.push(x)[j] == y;
            if j < ms.len() {
                assert(ms[j] == y);
            }
        }
        assert forall|y: u64| ms.contains(y) implies #[trigger] ms.push(x).contains(y) by {
            let j = choose|j: int| 0 <= j < ms.len() && ms[j] == y;
            assert(ms.push(x)[j] == y);
        }
    }
}

/// Deleting from unique members removes `x` and nothing else.
pub proof fn lemma_set_del(ms: Seq<u64>, x: u64)
    requires
        members_unique(ms),
    ensures
        members_unique(set_del(ms, x)),
        !set_del(ms, x).contains(x),
        forall|y: u64| y != x ==> (#[trigger] set_del(ms, x).contains(y) <==> ms.contains(y)),
{
    lemma_member_index(ms, x);
    match member_index(ms, x) {
        Some(i) => {
            let r = ms.remove(i);
            assert forall|a: int, b: int| 0 <= a < b < r.len() implies r[a] != r[b] by {
                let a2 = if a < i { a } else { a + 1 };
                let b2 = if b < i { b } else { b + 1 };
                assert(r[a] == ms[a2]);
                assert(r[b] == ms[b2]);
            }
            assert forall|y: u64| r.contains(y) implies ms.contains(y) && y != x by {
                let j = choose|j: int| 0 <= j < r.len() && r[j] == y;
                let j2 = if j < i { j } else { j + 1 };
                assert(ms[j2] == y);
            }
            assert forall|y: u64| y != x && ms.contains(y) implies #[trigger] r.contains(y) by {
                let j = choose|j: int| 0 <= j < ms.len() && ms[j] == y;
                if j < i {
                    assert(r[j] == y);
                } else {
                    assert(j != i);
                    assert(r[j - 1] == y);
                }
            }
        },
        None => {},
    }
}


} // verus!
