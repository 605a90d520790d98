//! The functions in this module are either questions or parsers. Questions
//! are yes-or-no questions about a single byte. Parsers attempt to parse an
//! input slice in a certain format, and return `Some(..., rest of line)` if
//! successful, `None` if invalid. Parsers parsing optional components, such
//! as the message tags, can also return `Some` or `None` *within* the outer
//! `Some`.
//!
//! Every parser is specified by a spec function of the same shape over
//! `Seq<u8>`, built on two scanning primitives: `first_of` (where the first
//! byte out of a stop set sits) and `leading_spaces`.
use vstd::prelude::*;

verus! {

pub const NUL: u8 = 0;
pub const CR: u8 = 13;
pub const LF: u8 = 10;
pub const SPACE: u8 = 32;
pub const BANG: u8 = 33;
pub const COLON: u8 = 58;
pub const AT: u8 = 64;
pub const DIGIT_ZERO: u8 = 48;
pub const DIGIT_NINE: u8 = 57;

// ---------------------------------------------------------------------------
// Byte classes
// ---------------------------------------------------------------------------

pub open spec fn nulcrlf(x: u8) -> bool {
    x == 0 || x == 13 || x == 10
}

pub open spec fn nulcrlfspace(x: u8) -> bool {
    nulcrlf(x) || x == 32
}

pub open spec fn nulcrlfspaceatbang(x: u8) -> bool {
    nulcrlfspace(x) || x == 64 || x == 33
}

/// True for NUL, CR and LF.
pub fn is_nulcrlf(x: u8) -> (r: bool)
    ensures
        r == nulcrlf(x),
{
    x == 0 || x == CR || x == LF
}

/// True for NUL, CR, LF and space.
pub fn is_nulcrlfspace(x: u8) -> (r: bool)
    ensures
        r == nulcrlfspace(x),
{
    x == 0 || x == CR || x == LF || x == SPACE
}

/// True for NUL, CR, LF, space, `@` and `!`.
pub fn is_nulcrlfspaceatbang(x: u8) -> (r: bool)
    ensures
        r == nulcrlfspaceatbang(x),
{
    x == 0 || x == CR || x == LF || x == SPACE || x == AT || x == BANG
}

// ---------------------------------------------------------------------------
// Scanning primitives
// ---------------------------------------------------------------------------

/// Index of the first byte of `s` that occurs in `stops`, or `s.len()` when
/// no byte of `s` does.
pub open spec fn first_of(s: Seq<u8>, stops: Seq<u8>) -> int
    decreases s.len(),
{
    if s.len() == 0 {
        0
    } else if stops.contains(s[0]) {
        0
    } else {
        1 + first_of(s.drop_first(), stops)
    }
}

/// Number of spaces at the start of `s`.
pub open spec fn leading_spaces(s: Seq<u8>) -> int
    decreases s.len(),
{
    if s.len() == 0 {
        0
    } else if s[0] == 32 {
        1 + leading_spaces(s.drop_first())
    } else {
        0
    }
}

/// `first_of` is the index of the first stop byte.
pub proof fn lemma_first_of(s: Seq<u8>, stops: Seq<u8>)
    ensures
        0 <= first_of(s, stops) <= s.len(),
        forall|j: int| 0 <= j < first_of(s, stops) ==> !stops.contains(#[trigger] s[j]),
        first_of(s, stops) < s.len() ==> stops.contains(s[first_of(s, stops)]),
    decreases s.len(),
{
    if s.len() > 0 && !stops.contains(s[0]) {
        lemma_first_of(s.drop_first(), stops);
        assert forall|j: int| 0 <= j < first_of(s, stops) implies !stops.contains(#[trigger] s[j]) by {
            if j > 0 {
                assert(s[j] == s.drop_first()[j - 1]);
            }
        }
    }
}

/// Any index with no stop byte before it and a stop byte (or the end) at it
/// is `first_of`.
pub proof fn lemma_first_of_at(s: Seq<u8>, stops: Seq<u8>, n: int)
    requires
        0 <= n <= s.len(),
        forall|j: int| 0 <= j < n ==> !stops.contains(#[trigger] s[j]),
        n == s.len() || stops.contains(s[n]),
    ensures
        first_of(s, stops) == n,
    decreases n,
{
    if n > 0 {
        assert(!stops.contains(s[0]));
        assert forall|j: int| 0 <= j < n - 1 implies !stops.contains(#[trigger] s.drop_first()[j]) by {
            assert(s.drop_first()[j] == s[j + 1]);
        }
        if n < s.len() {
            assert(s.drop_first()[n - 1] == s[n]);
        }
        lemma_first_of_at(s.drop_first(), stops, n - 1);
    }
}

/// `leading_spaces` counts the spaces before the first other byte.
pub proof fn lemma_leading_spaces(s: Seq<u8>)
    ensures
        0 <= leading_spaces(s) <= s.len(),
        forall|j: int| 0 <= j < leading_spaces(s) ==> #[trigger] s[j] == 32,
        leading_spaces(s) < s.len() ==> s[leading_spaces(s)] != 32,
    decreases s.len(),
{
    if s.len() > 0 && s[0] == 32 {
        lemma_leading_spaces(s.drop_first());
        assert forall|j: int| 0 <= j < leading_spaces(s) implies #[trigger] s[j] == 32 by {
            if j > 0 {
                assert(s[j] == s.drop_first()[j - 1]);
            }
        }
    }
}

/// Any index with only spaces before it and another byte (or the end) at it
/// is `leading_spaces`.
pub proof fn lemma_leading_spaces_at(s: Seq<u8>, n: int)
    requires
        0 <= n <= s.len(),
        forall|j: int| 0 <= j < n ==> #[trigger] s[j] == 32,
        n == s.len() || s[n] != 32,
    ensures
        leading_spaces(s) == n,
    decreases n,
{
    if n > 0 {
        assert forall|j: int| 0 <= j < n - 1 implies #[trigger] s.drop_first()[j] == 32 by {
            assert(s.drop_first()[j] == s[j + 1]);
        }
        if n < s.len() {
            assert(s.drop_first()[n - 1] == s[n]);
        }
        lemma_leading_spaces_at(s.drop_first(), n - 1);
    }
}

/// The bytes that end a middle component: CR, NUL and space.
pub open spec fn component_stops() -> Seq<u8> {
    seq![13u8, 0u8, 32u8]
}

/// The bytes that end a part of a source: CR, NUL, `!`, `@` and space.
pub open spec fn source_stops() -> Seq<u8> {
    seq![13u8, 0u8, 33u8, 64u8, 32u8]
}

// ---------------------------------------------------------------------------
// Validation
// ---------------------------------------------------------------------------

/// The error that `validate_param` gives for `p`, if any.
pub open spec fn param_error(p: Seq<u8>) -> Option<&'static str> {
    if p.len() == 0 {
        Some("Invalid empty param")
    } else if exists|i: int| 0 <= i < p.len() && nulcrlfspace(#[trigger] p[i]) {
        Some("Invalid byte in param")
    } else if p[0] == 58 {
        Some("Invalid colon in param")
    } else {
        None
    }
}

/// The error that `validate_trailing_param` gives for `p`, if any.
pub open spec fn trailing_param_error(p: Seq<u8>) -> Option<&'static str> {
    if exists|i: int| 0 <= i < p.len() && nulcrlf(#[trigger] p[i]) {
        Some("Invalid byte in param")
    } else {
        None
    }
}

pub open spec fn as_unit_result(e: Option<&'static str>) -> Result<(), &'static str> {
    match e {
        Some(e) => Err(e),
        None => Ok(()),
    }
}

/// Checks that `param` can be sent as a middle parameter: not empty, no NUL,
/// CR, LF or space, and no leading colon.
pub fn validate_param(param: &[u8]) -> (r: Result<(), &'static str>)
    ensures
        r == as_unit_result(param_error(param@)),
{
    if param.len() == 0 {
        return Err("Invalid empty param");
    }
    let mut n: usize = 0;
    while n < param.len()
        invariant
            n <= param@.len(),
            forall|i: int| 0 <= i < n ==> !nulcrlfspace(#[trigger] param@[i]),
        decreases param@.len() - n,
    {
        if is_nulcrlfspace(param[n]) {
            return Err("Invalid byte in param");
        }
        n = n + 1;
    }
    if param[0] == COLON {
        Err("Invalid colon in param")
    } else {
        Ok(())
    }
}

/// Checks that `param` can be sent as a trailing parameter: no NUL, CR or LF.
pub fn validate_trailing_param(param: &[u8]) -> (r: Result<(), &'static str>)
    ensures
        r == as_unit_result(trailing_param_error(param@)),
{
    let mut n: usize = 0;
    while n < param.len()
        invariant
            n <= param@.len(),
            forall|i: int| 0 <= i < n ==> !nulcrlf(#[trigger] param@[i]),
        decreases param@.len() - n,
    {
        if is_nulcrlf(param[n]) {
            return Err("Invalid byte in param");
        }
        n = n + 1;
    }
    Ok(())
}

// ---------------------------------------------------------------------------
// Parsers
// ---------------------------------------------------------------------------

/// Where the current component of `line` ends: at its first space, or at its
/// end; `None` when a CR or NUL comes first.
pub open spec fn find_space_or_end(line: Seq<u8>) -> Option<int> {
    let k = first_of(line, component_stops());
    if k == line.len() {
        Some(k)
    } else if line[k] == 32 {
        Some(k)
    } else {
        None
    }
}

/// `line` without its leading spaces; `None` when the first other byte is a
/// CR or NUL.
pub open spec fn skip_spaces(line: Seq<u8>) -> Option<Seq<u8>> {
    let k = leading_spaces(line);
    if k < line.len() && (line[k] == 13 || line[k] == 0) {
        None
    } else {
        Some(line.skip(k))
    }
}

pub fn find_idx_of_space_or_end(line: &[u8]) -> (r: Option<usize>)
    ensures
        match r {
            Some(n) => find_space_or_end(line@) == Some(n as int),
            None => find_space_or_end(line@) is None,
        },
{
    let mut n: usize = 0;
    while n < line.len()
        invariant
            n <= line@.len(),
            forall|j: int| 0 <= j < n ==> !component_stops().contains(#[trigger] line@[j]),
        decreases line@.len() - n,
    {
        let b = line[n];
        if b == CR || b == 0 {
            proof {
                assert(component_stops()[0] == 13u8);
                assert(component_stops()[1] == 0u8);
                lemma_first_of_at(line@, component_stops(), n as int);
            }
            return None;
        } else if b == SPACE {
            proof {
                assert(component_stops()[2] == 32u8);
                lemma_first_of_at(line@, component_stops(), n as int);
            }
            return Some(n);
        }
        proof {
            assert(!component_stops().contains(b)) by {
                if component_stops().contains(b) {
                    let i = choose|i: int| 0 <= i < 3 && component_stops()[i] == b;
                }
            }
        }
        n = n + 1;
    }
    proof {
        lemma_first_of_at(line@, component_stops(), n as int);
    }
    Some(line.len())
}

pub fn skip_leading_space(line: &[u8]) -> (r: Option<&[u8]>)
    ensures
        match r {
            Some(rest) => skip_spaces(line@) == Some(rest@),
            None => skip_spaces(line@) is None,
        },
{
    let mut n: usize = 0;
    while n < line.len()
        invariant
            n <= line@.len(),
            forall|j: int| 0 <= j < n ==> #[trigger] line@[j] == 32,
        decreases line@.len() - n,
    {
        let b = line[n];
        if b == CR || b == 0 {
            proof {
                lemma_leading_spaces_at(line@, n as int);
            }
            return None;
        } else if b != SPACE {
            proof {
                lemma_leading_spaces_at(line@, n as int);
            }
            return Some(&line[n..line.len()]);
        }
        n = n + 1;
    }
    proof {
        lemma_leading_spaces_at(line@, n as int);
    }
    Some(&line[line.len()..line.len()])
}

/// The spec of `parse_tags`: the tags (without their `@`) if `line` starts
/// with `@`, and the rest of the line.
pub open spec fn tags_parse(line: Seq<u8>) -> Option<(Option<Seq<u8>>, Seq<u8>)> {
    if line.len() == 0 || line[0] != 64 {
        Some((None, line))
    } else {
        match find_space_or_end(line) {
            None => None,
            Some(split) => match skip_spaces(line.skip(split)) {
                None => None,
                Some(rest) => Some((Some(line.subrange(1, split)), rest)),
            },
        }
    }
}

/// `find_space_or_end` never stops before a byte that is not a stop byte.
pub proof fn lemma_find_space_or_end(line: Seq<u8>)
    ensures
        find_space_or_end(line) matches Some(k) ==> {
            &&& 0 <= k <= line.len()
            &&& (k < line.len() ==> line[k] == 32)
            &&& forall|j: int| 0 <= j < k ==> !component_stops().contains(#[trigger] line[j])
        },
{
    lemma_first_of(line, component_stops());
}

pub fn parse_tags(line: &[u8]) -> (r: Option<(Option<&[u8]>, &[u8])>)
    ensures
        match r {
            None => tags_parse(line@) is None,
            Some((tags, rest)) => tags_parse(line@) == Some(
                (
                    match tags {
                        Some(t) => Some(t@),
                        None => None,
                    },
                    rest@,
                ),
            ),
        },
{
    if line.len() == 0 || line[0] != AT {
        Some((None, line))
    } else {
        let split = find_idx_of_space_or_end(line)?;
        proof {
            lemma_find_space_or_end(line@);
            assert(!component_stops().contains(64u8)) by {
                if component_stops().contains(64u8) {
                    let i = choose|i: int| 0 <= i < 3 && component_stops()[i] == 64u8;
                }
            }
        }
        let after = &line[split..line.len()];
        assert(after@ == line@.skip(split as int));
        let rest = skip_leading_space(after)?;
        Some((Some(&line[1..split]), rest))
    }
}

/// `line` has no space before its first CR, NUL, `!` or `@` (the source
/// parsers are only meant for the text between the leading colon and the
/// first space, and fail loudly otherwise).
pub open spec fn no_space_before_stop(line: Seq<u8>) -> bool {
    let k = first_of(line, source_stops());
    k == line.len() || line[k] != 32
}

/// The spec of `parse_source_name_or_nick`: splits at the first `@` or `!`,
/// returning what comes before, the splitting byte and what comes after; or
/// the whole line, a space and nothing when there is no such byte.
pub open spec fn name_or_nick_parse(line: Seq<u8>) -> Option<(Seq<u8>, u8, Seq<u8>)> {
    let k = first_of(line, source_stops());
    if k == line.len() {
        Some((line, 32u8, Seq::empty()))
    } else if line[k] == 64 || line[k] == 33 {
        Some((line.take(k), line[k], line.skip(k + 1)))
    } else {
        None
    }
}

/// The spec of `parse_source_user`: splits at the first `@`; fails on a `!`.
pub open spec fn user_parse(line: Seq<u8>) -> Option<(Seq<u8>, u8, Seq<u8>)> {
    let k = first_of(line, source_stops());
    if k == line.len() {
        Some((line, 32u8, Seq::empty()))
    } else if line[k] == 64 {
        Some((line.take(k), 64u8, line.skip(k + 1)))
    } else {
        None
    }
}

/// The spec of `parse_source_host`: the whole line, if it has no `!` or `@`.
pub open spec fn host_parse(line: Seq<u8>) -> Option<(Seq<u8>, Seq<u8>)> {
    let k = first_of(line, source_stops());
    if k == line.len() {
        Some((line, Seq::empty()))
    } else {
        None
    }
}

/// The stop byte `b` at `line[n]`, after `n` bytes that are no stop bytes, is
/// where `first_of` for the source stops lies.
proof fn lemma_source_stop_at(line: Seq<u8>, n: int)
    requires
        0 <= n < line.len(),
        forall|j: int| 0 <= j < n ==> !source_stops().contains(#[trigger] line[j]),
        line[n] == 13 || line[n] == 0 || line[n] == 33 || line[n] == 64 || line[n] == 32,
    ensures
        first_of(line, source_stops()) == n,
{
    let b = line[n];
    if b == 13 {
        assert(source_stops()[0] == b);
    } else if b == 0 {
        assert(source_stops()[1] == b);
    } else if b == 33 {
        assert(source_stops()[2] == b);
    } else if b == 64 {
        assert(source_stops()[3] == b);
    } else {
        assert(source_stops()[4] == b);
    }
    lemma_first_of_at(line, source_stops(), n);
}

proof fn lemma_not_source_stop(b: u8)
    requires
        b != 13 && b != 0 && b != 33 && b != 64 && b != 32,
    ensures
        !source_stops().contains(b),
{
    if source_stops().contains(b) {
        let i = choose|i: int| 0 <= i < 5 && source_stops()[i] == b;
    }
}

pub fn parse_source_name_or_nick(line: &[u8]) -> (r: Option<(&[u8], u8, &[u8])>)
    requires
        no_space_before_stop(line@),
    ensures
        match r {
            None => name_or_nick_parse(line@) is None,
            Some((a, b, c)) => name_or_nick_parse(line@) == Some((a@, b, c@)),
        },
{
    let mut i: usize = 0;
    while i < line.len()
        invariant
            i <= line@.len(),
            no_space_before_stop(line@),
            forall|j: int| 0 <= j < i ==> !source_stops().contains(#[trigger] line@[j]),
        decreases line@.len() - i,
    {
        let b = line[i];
        if b == CR || b == 0 {
            proof {
                lemma_source_stop_at(line@, i as int);
            }
            return None;
        } else if b == AT || b == BANG {
            proof {
                lemma_source_stop_at(line@, i as int);
            }
            return Some((&line[0..i], b, &line[i + 1..line.len()]));
        } else if b == SPACE {
            proof {
                lemma_source_stop_at(line@, i as int);
            }
            assert(false);
        }
        proof {
            lemma_not_source_stop(b);
        }
        i = i + 1;
    }
    proof {
        lemma_first_of_at(line@, source_stops(), i as int);
    }
    assert(line@.subrange(0, line@.len() as int) == line@);
    Some((&line[0..line.len()], SPACE, &line[line.len()..line.len()]))
}

pub fn parse_source_user(line: &[u8]) -> (r: Option<(&[u8], u8, &[u8])>)
    requires
        no_space_before_stop(line@),
    ensures
        match r {
            None => user_parse(line@) is None,
            Some((a, b, c)) => user_parse(line@) == Some((a@, b, c@)),
        },
{
    let mut i: usize = 0;
    while i < line.len()
        invariant
            i <= line@.len(),
            no_space_before_stop(line@),
            forall|j: int| 0 <= j < i ==> !source_stops().contains(#[trigger] line@[j]),
        decreases line@.len() - i,
    {
        let b = line[i];
        if b == CR || b == 0 || b == BANG {
            proof {
                lemma_source_stop_at(line@, i as int);
            }
            return None;
        } else if b == AT {
            proof {
                lemma_source_stop_at(line@, i as int);
            }
            return Some((&line[0..i], b, &line[i + 1..line.len()]));
        } else if b == SPACE {
            proof {
                lemma_source_stop_at(line@, i as int);
            }
            assert(false);
        }
        proof {
            lemma_not_source_stop(b);
        }
        i = i + 1;
    }
    proof {
        lemma_first_of_at(line@, source_stops(), i as int);
    }
    assert(line@.subrange(0, line@.len() as int) == line@);
    Some((&line[0..line.len()], SPACE, &line[line.len()..line.len()]))
}

pub fn parse_source_host(line: &[u8]) -> (r: Option<(&[u8], &[u8])>)
    requires
        no_space_before_stop(line@),
    ensures
        match r {
            None => host_parse(line@) is None,
            Some((a, c)) => host_parse(line@) == Some((a@, c@)),
        },
{
    let mut i: usize = 0;
    while i < line.len()
        invariant
            i <= line@.len(),
            no_space_before_stop(line@),
            forall|j: int| 0 <= j < i ==> !source_stops().contains(#[trigger] line@[j]),
        decreases line@.len() - i,
    {
        let b = line[i];
        if b == CR || b == 0 || b == BANG || b == AT {
            proof {
                lemma_source_stop_at(line@, i as int);
            }
            return None;
        } else if b == SPACE {
            proof {
                lemma_source_stop_at(line@, i as int);
            }
            assert(false);
        }
        proof {
            lemma_not_source_stop(b);
        }
        i = i + 1;
    }
    proof {
        lemma_first_of_at(line@, source_stops(), i as int);
    }
    Some((line, &line[line.len()..line.len()]))
}

/// The value of an ASCII decimal digit.
pub open spec fn digit_value(d: u8) -> Option<u32> {
    if 48 <= d <= 57 {
        Some((d - 48) as u32)
    } else {
        None
    }
}

pub fn parse_digit(digit: u8) -> (r: Option<u32>)
    ensures
        r == digit_value(digit),
{
    if digit >= DIGIT_ZERO && digit <= DIGIT_NINE {
        Some((digit - DIGIT_ZERO) as u32)
    } else {
        None
    }
}

} // verus!
