//! The database: which paths it serves, the cache of what it has read (or
//! found missing), and the decoding of stored data.
use std::sync::Arc;
use vstd::prelude::*;
use vstd::string::{StrSliceExecFns, StringExecFns};

use crate::session::{
    key_index, keys_unique, lemma_key_index, lemma_unique_key_index, lookup, str_eq, with_entry,
};
use crate::server::{lemma_key_index_at_pub, lemma_with_entry, opt_index};
use crate::text::{find_char, lemma_find_char, starts_with_char};

verus! {

broadcast use vstd::string::group_string_axioms;

// ---------------------------------------------------------------------------
// Stored data
// ---------------------------------------------------------------------------

#[verifier::external_type_specification]
#[verifier::external_body]
pub struct ExJsonValue(serde_json::Value);

#[verifier::external_type_specification]
#[verifier::external_body]
pub struct ExJsonError(serde_json::Error);

/// What `serde_json::from_slice::<serde_json::Value>` makes of these bytes:
/// the value they hold as JSON text, or `None` where it refuses them.
pub uninterp spec fn json_parse(bytes: Seq<u8>) -> Option<serde_json::Value>;

/// `serde_json::from_slice::<serde_json::Value>`: parses JSON text. Its
/// answer depends on the bytes alone, and the contract names it.
#[verifier::external_body]
fn json_from_slice(bytes: &[u8]) -> (r: Result<serde_json::Value, serde_json::Error>)
    ensures
        match json_parse(bytes@) {
            Some(v) => r == Ok::<serde_json::Value, serde_json::Error>(v),
            None => r is Err,
        },
{
    serde_json::from_slice(bytes)
}

/// The message of a `serde_json::Error` (its `Display` form). Nothing is
/// claimed of the text.
#[verifier::external_body]
fn json_error_text(e: &serde_json::Error) -> String {
    format!("{}", e)
}

/// Decodes a stored datum; on failure, says why.
pub fn parse_datum(bytes: &[u8]) -> (r: Result<serde_json::Value, String>)
    ensures
        match json_parse(bytes@) {
            Some(v) => r == Ok::<serde_json::Value, String>(v),
            None => r is Err,
        },
{
    match json_from_slice(bytes) {
        Ok(v) => Ok(v),
        Err(e) => Err(json_error_text(&e)),
    }
}

/// `PartialEq::eq` on `serde_json::Value`: equal data compare equal (the
/// impl is derived, and its numbers are never NaN, so it is reflexive).
/// When two different values compare equal (for instance `0.0` and `-0.0`)
/// is serde_json's derived comparison; the contract leaves it unsaid, since
/// a value of that type is opaque here and no name ranges over it.
#[verifier::external_body]
fn json_equal(a: &serde_json::Value, b: &serde_json::Value) -> (r: bool)
    ensures
        *a == *b ==> r,
{
    a == b
}

/// `Arc::clone`: another pointer to the same value.
#[verifier::external_body]
fn arc_clone<T>(a: &Arc<T>) -> (r: Arc<T>)
    ensures
        r == *a,
{
    Arc::clone(a)
}

// ---------------------------------------------------------------------------
// Paths
// ---------------------------------------------------------------------------

/// One component of a path, as `std::path::Path::components` splits it.
pub enum PathPart {
    Prefix,
    RootDir,
    CurDir,
    ParentDir,
    /// A normal segment; `None` when it is not valid UTF-8.
    Normal(Option<String>),
}

/// `std::path::Path::components`, each component converted to a `PathPart`
/// (a normal segment by `OsStr::to_str`). How a path splits depends on the
/// platform; the contract states what std's documentation gives on every
/// platform:
/// - a path that starts with `/` has a root (on Windows `/` is a separator
///   too), so its first component is a prefix or the root, not a normal one;
/// - a relative path without `\` or `:` has no Windows prefix and only `/`
///   as separator, so its components are its pieces between slashes, with
///   empty pieces dropped, a `.` piece dropped except at the start (where it
///   is `CurDir`), a `..` piece `ParentDir`, and every other piece `Normal`.
/// Paths with `\` or `:` split differently on different platforms, and
/// nothing is claimed of them.
#[verifier::external_body]
fn path_components(path: &str) -> (r: Vec<PathPart>)
    ensures
        path@.len() > 0 && path@[0] == '/' ==> parts_view(r@).len() > 0 && parts_view(r@)[0]
            is Other,
        plain_relative(path@) ==> parts_view(r@) == pieces_parts(slash_pieces(path@), true),
{
    std::path::Path::new(path).components().map(|c| match c {
        std::path::Component::Prefix(_) => PathPart::Prefix,
        std::path::Component::RootDir => PathPart::RootDir,
        std::path::Component::CurDir => PathPart::CurDir,
        std::path::Component::ParentDir => PathPart::ParentDir,
        std::path::Component::Normal(s) => PathPart::Normal(s.to_str().map(String::from)),
    }).collect()
}

/// A path whose splitting every platform agrees on: relative (not starting
/// with `/`), and free of `\` and `:`.
pub open spec fn plain_relative(p: Seq<char>) -> bool {
    &&& !(p.len() > 0 && p[0] == '/')
    &&& forall|i: int| 0 <= i < p.len() ==> #[trigger] p[i] != '\\' && p[i] != ':'
}

/// The pieces of `s` between slashes, in order, empty pieces included.
pub open spec fn slash_pieces(s: Seq<char>) -> Seq<Seq<char>>
    decreases s.len(),
{
    match find_char(s, '/') {
        None => seq![s],
        Some(i) => {
            proof {
                lemma_find_char(s, '/');
            }
            seq![s.take(i)] + slash_pieces(s.skip(i + 1))
        },
    }
}

pub open spec fn is_dot(p: Seq<char>) -> bool {
    p.len() == 1 && p[0] == '.'
}

pub open spec fn is_dot_dot(p: Seq<char>) -> bool {
    p.len() == 2 && p[0] == '.' && p[1] == '.'
}

/// The components of a plain relative path, from its pieces between
/// slashes (`at_start` when the first piece starts the path).
pub open spec fn pieces_parts(pieces: Seq<Seq<char>>, at_start: bool) -> Seq<PathPartView>
    decreases pieces.len(),
{
    if pieces.len() == 0 {
        Seq::empty()
    } else {
        let p = pieces[0];
        let rest = pieces_parts(pieces.drop_first(), false);
        if p.len() == 0 || (is_dot(p) && !at_start) {
            rest
        } else if is_dot(p) || is_dot_dot(p) {
            seq![PathPartView::Other] + rest
        } else {
            seq![PathPartView::Normal(Some(p))] + rest
        }
    }
}

/// Whether no piece that becomes a component starts with a dot: every
/// piece is empty, a `.` that is dropped, or starts with something else.
pub open spec fn pieces_clean(pieces: Seq<Seq<char>>, at_start: bool) -> bool {
    forall|i: int|
        0 <= i < pieces.len() && (#[trigger] pieces[i]).len() > 0 && !(is_dot(pieces[i]) && (i
            > 0 || !at_start)) ==> pieces[i][0] != '.'
}

/// What a path component stands for.
pub enum PathPartView {
    Other,
    Normal(Option<Seq<char>>),
}

pub open spec fn part_view(p: PathPart) -> PathPartView {
    match p {
        PathPart::Normal(Some(s)) => PathPartView::Normal(Some(s@)),
        PathPart::Normal(None) => PathPartView::Normal(None),
        _ => PathPartView::Other,
    }
}

pub open spec fn parts_view(v: Seq<PathPart>) -> Seq<PathPartView> {
    Seq::new(v.len(), |i: int| part_view(v[i]))
}

/// The error of the first unacceptable component, if any: only normal,
/// UTF-8 segments that do not start with a dot are accepted.
pub open spec fn components_error(parts: Seq<PathPartView>) -> Option<&'static str>
    decreases parts.len(),
{
    if parts.len() == 0 {
        None
    } else {
        match parts[0] {
            PathPartView::Normal(None) => Some("path contains non-UTF8 data"),
            PathPartView::Normal(Some(seg)) => if seg.len() > 0 && seg[0] == '.' {
                Some("path segment must not start with dot")
            } else {
                components_error(parts.drop_first())
            },
            PathPartView::Other => Some("path must be relative and must not contain . or .."),
        }
    }
}

/// The checks on the text of a path, before it is split: not empty, not a
/// backup (`~`), and ending in `.cj`.
pub open spec fn path_text_error(path: Seq<char>) -> Option<&'static str> {
    if path.len() == 0 {
        Some("invalid empty path")
    } else if path.last() == '~' {
        Some("invalid backup path")
    } else if !(path.len() >= 3 && path[path.len() - 3] == '.' && path[path.len() - 2] == 'c'
        && path[path.len() - 1] == 'j') {
        Some("path must end in .cj")
    } else {
        None
    }
}

/// Checks the components of a path, in order.
pub fn validate_components(parts: &Vec<PathPart>) -> (r: Result<(), &'static str>)
    ensures
        r == crate::message::parse::as_unit_result(components_error(parts_view(parts@))),
{
    let ghost pv = parts_view(parts@);
    let mut i: usize = 0;
    assert(pv.skip(0) =~= pv);
    while i < parts.len()
        invariant
            i <= parts@.len(),
            pv == parts_view(parts@),
            components_error(pv) == components_error(pv.skip(i as int)),
        decreases parts@.len() - i,
    {
        assert(pv.skip(i as int)[0] == part_view(parts@[i as int]));
        assert(pv.skip(i as int).drop_first() =~= pv.skip(i + 1));
        match &parts[i] {
            PathPart::Normal(Some(seg)) => {
                if starts_with_char(seg.as_str(), '.') {
                    return Err("path segment must not start with dot");
                }
            },
            PathPart::Normal(None) => {
                return Err("path contains non-UTF8 data");
            },
            _ => {
                return Err("path must be relative and must not contain . or ..");
            },
        }
        i = i + 1;
    }
    assert(pv.skip(i as int) =~= Seq::<PathPartView>::empty());
    Ok(())
}

pub const RELATIVE_ERROR: &'static str = "path must be relative and must not contain . or ..";

/// What `validate_path` answers, where every platform agrees on it: the
/// text errors; a path starting with `/` is not relative; a plain relative
/// path is judged by its pieces between slashes. `None` for the paths with
/// `\` or `:` past the text checks, which split differently on different
/// platforms.
pub open spec fn path_verdict(p: Seq<char>) -> Option<Result<(), &'static str>> {
    if path_text_error(p) is Some {
        Some(Err(path_text_error(p)->0))
    } else if p[0] == '/' {
        Some(Err(RELATIVE_ERROR))
    } else if plain_relative(p) {
        Some(
            crate::message::parse::as_unit_result(
                components_error(pieces_parts(slash_pieces(p), true)),
            ),
        )
    } else {
        None
    }
}

/// Checks that `path` may name a datum: not empty, not a backup, ending in
/// `.cj`, relative, and with no component that is `.`, `..` or starts with a
/// dot. Where every platform agrees (see `path_verdict`) the answer is
/// exact; a plain relative path passes exactly when none of its pieces
/// between slashes starts with a dot, a `.` after the first piece aside
/// (std drops those). Otherwise the answer is `Ok` or a component error.
pub fn validate_path(path: &str) -> (r: Result<(), &'static str>)
    ensures
        path_verdict(path@) matches Some(v) ==> r == v,
        path_text_error(path@) is None && plain_relative(path@) ==> (r is Ok <==> pieces_clean(
            slash_pieces(path@),
            true,
        )),
        r is Ok || r == Err::<(), &'static str>(path_text_error(path@)->0) || r == Err::<
            (),
            &'static str,
        >("path contains non-UTF8 data") || r == Err::<(), &'static str>(
            "path segment must not start with dot",
        ) || r == Err::<(), &'static str>(RELATIVE_ERROR),
{
    let n = path.unicode_len();
    if n == 0 {
        return Err("invalid empty path");
    }
    if path.get_char(n - 1) == '~' {
        return Err("invalid backup path");
    }
    if !(n >= 3 && path.get_char(n - 3) == '.' && path.get_char(n - 2) == 'c' && path.get_char(
        n - 1,
    ) == 'j') {
        return Err("path must end in .cj");
    }
    let parts = path_components(path);
    let r = validate_components(&parts);
    proof {
        lemma_components_error_values(parts_view(parts@));
        lemma_pieces_clean(slash_pieces(path@), true);
        if path@[0] == '/' {
            let pv = parts_view(parts@);
            assert(pv[0] is Other);
        }
    }
    r
}

/// Law: a path that starts with `/` is refused as not relative; a plain
/// relative path with a `..` piece is refused; a path with no `/`, `\`
/// or `:` that passes the text checks and does not start with a dot is
/// accepted.
pub proof fn law_path_refusals(p: Seq<char>)
    requires
        path_text_error(p) is None,
    ensures
        p[0] == '/' ==> path_verdict(p) == Some(Err::<(), &'static str>(RELATIVE_ERROR)),
        plain_relative(p) && (exists|i: int|
            0 <= i < slash_pieces(p).len() && is_dot_dot(#[trigger] slash_pieces(p)[i]))
            ==> path_verdict(p) matches Some(Err(_)),
        plain_relative(p) && p[0] != '.' && (forall|i: int| 0 <= i < p.len() ==> #[trigger] p[i]
            != '/') ==> path_verdict(p) == Some(Ok::<(), &'static str>(())),
{
    lemma_pieces_clean(slash_pieces(p), true);
    lemma_find_char(p, '/');
    if plain_relative(p) && (exists|i: int|
        0 <= i < slash_pieces(p).len() && is_dot_dot(#[trigger] slash_pieces(p)[i])) {
        let i = choose|i: int| 0 <= i < slash_pieces(p).len() && is_dot_dot(
            #[trigger] slash_pieces(p)[i],
        );
        assert(!pieces_clean(slash_pieces(p), true));
    }
    if plain_relative(p) && p[0] != '.' && (forall|i: int| 0 <= i < p.len() ==> #[trigger] p[i]
        != '/') {
        assert(find_char(p, '/') is None);
        assert(slash_pieces(p) == seq![p]);
        assert(pieces_clean(slash_pieces(p), true));
    }
}

/// A plain relative path's components pass exactly when its pieces are
/// clean.
pub proof fn lemma_pieces_clean(pieces: Seq<Seq<char>>, at_start: bool)
    ensures
        components_error(pieces_parts(pieces, at_start)) is None <==> pieces_clean(
            pieces,
            at_start,
        ),
    decreases pieces.len(),
{
    if pieces.len() > 0 {
        let p = pieces[0];
        let tail = pieces.drop_first();
        lemma_pieces_clean(tail, false);
        let rest = pieces_parts(tail, false);
        assert forall|i: int| 0 < i < pieces.len() implies #[trigger] pieces[i] == tail[i - 1] by {}
        if pieces_clean(pieces, at_start) {
            assert forall|j: int|
                0 <= j < tail.len() && (#[trigger] tail[j]).len() > 0 && !(is_dot(tail[j]) && (
                j > 0 || !false)) implies tail[j][0] != '.' by {
                assert(pieces[j + 1] == tail[j]);
            }
        }
        if pieces_clean(tail, false) && !pieces_clean(pieces, at_start) {
            let i = choose|i: int|
                0 <= i < pieces.len() && (#[trigger] pieces[i]).len() > 0 && !(is_dot(pieces[i])
                    && (i > 0 || !at_start)) && pieces[i][0] == '.';
            if i > 0 {
                assert(tail[i - 1] == pieces[i]);
            }
        }
        if p.len() == 0 || (is_dot(p) && !at_start) {
        } else if is_dot(p) || is_dot_dot(p) {
            assert((seq![PathPartView::Other] + rest)[0] == PathPartView::Other);
        } else {
            let s = seq![PathPartView::Normal(Some(p))] + rest;
            assert(s[0] == PathPartView::Normal(Some(p)));
            assert(s.drop_first() =~= rest);
        }
    }
}

/// A component error is one of the three component messages.
proof fn lemma_components_error_values(parts: Seq<PathPartView>)
    ensures
        components_error(parts) is None || components_error(parts) == Some(
            "path contains non-UTF8 data",
        ) || components_error(parts) == Some("path segment must not start with dot")
            || components_error(parts) == Some(
            "path must be relative and must not contain . or ..",
        ),
    decreases parts.len(),
{
    if parts.len() > 0 {
        lemma_components_error_values(parts.drop_first());
    }
}


// ---------------------------------------------------------------------------
// The cache
// ---------------------------------------------------------------------------

/// Once the cache holds this many entries, a lookup that finds nothing
/// purges the remembered misses.
pub const NONE_PURGE_THRESHOLD: usize = 1024;

/// The list behind the cache.
struct CacheCore<T> {
    entries: Vec<(String, Option<Arc<T>>)>,
}

pub open spec fn entries_view<T>(v: Seq<(String, Option<Arc<T>>)>) -> Seq<(Seq<char>, Option<Arc<T>>)> {
    Seq::new(v.len(), |i: int| (v[i].0@, v[i].1))
}

impl<T> View for CacheCore<T> {
    type V = Seq<(Seq<char>, Option<Arc<T>>)>;

    closed spec fn view(&self) -> Seq<(Seq<char>, Option<Arc<T>>)> {
        entries_view(self.entries@)
    }
}

/// The entries that hold a datum, in order.
pub open spec fn keep_somes<T>(s: Seq<(Seq<char>, Option<Arc<T>>)>) -> Seq<(Seq<char>, Option<Arc<T>>)>
    decreases s.len(),
{
    if s.len() == 0 {
        Seq::empty()
    } else if s.last().1 is Some {
        keep_somes(s.drop_last()).push(s.last())
    } else {
        keep_somes(s.drop_last())
    }
}

/// The cache after a lookup that found nothing: the misses forgotten once
/// there are enough entries.
pub open spec fn purged<T>(s: Seq<(Seq<char>, Option<Arc<T>>)>) -> Seq<(Seq<char>, Option<Arc<T>>)> {
    if s.len() >= NONE_PURGE_THRESHOLD {
        keep_somes(s)
    } else {
        s
    }
}

/// What a read finds before it goes to the files.
pub enum CacheLookup<T> {
    /// The path may not name a datum, for this reason.
    Refused(&'static str),
    /// The cache remembers this for the path: a datum, or that there is none.
    Cached(Option<Arc<T>>),
    /// The cache knows nothing of the path.
    Missing,
}

impl<T> CacheCore<T> {
    /// An empty cache.
    fn new() -> (r: Self)
        ensures
            r@ == Seq::<(Seq<char>, Option<Arc<T>>)>::empty(),
    {
        let r = CacheCore { entries: Vec::new() };
        assert(r@ =~= Seq::<(Seq<char>, Option<Arc<T>>)>::empty());
        r
    }

    /// The number of entries.
    fn len(&self) -> (r: usize)
        ensures
            r == self@.len(),
    {
        self.entries.len()
    }

    /// Forgets everything.
    fn clear(&mut self)
        ensures
            final(self)@ == Seq::<(Seq<char>, Option<Arc<T>>)>::empty(),
    {
        self.entries.clear();
        assert(self@ =~= Seq::<(Seq<char>, Option<Arc<T>>)>::empty());
    }

    fn index(&self, path: &str) -> (r: Option<usize>)
        ensures
            opt_index(r) == key_index(self@, path@),
            r matches Some(i) ==> i < self.entries@.len(),
    {
        let ghost v = self@;
        let mut i: usize = 0;
        while i < self.entries.len()
            invariant
                v == entries_view(self.entries@),
                i <= self.entries@.len(),
                forall|j: int| 0 <= j < i ==> #[trigger] v[j].0 != path@,
            decreases self.entries@.len() - i,
        {
            if str_eq(self.entries[i].0.as_str(), path) {
                proof {
                    lemma_key_index_at_pub(v, path@, i as int);
                }
                return Some(i);
            }
            i = i + 1;
        }
        proof {
            lemma_key_index_at_pub(v, path@, i as int);
        }
        None
    }

    /// What the cache remembers for `path`: nothing, a miss (`Some(None)`),
    /// or the datum.
    fn get(&self, path: &str) -> (r: Option<Option<Arc<T>>>)
        ensures
            r == lookup(self@, path@),
    {
        match self.index(path) {
            Some(i) => match &self.entries[i].1 {
                Some(a) => Some(Some(arc_clone(a))),
                None => Some(None),
            },
            None => None,
        }
    }

    /// Looks `path` up for a read: refused exactly where `validate_path`
    /// refuses it, else what the cache remembers for it, if anything.
    fn find(&self, path: &str) -> (r: CacheLookup<T>)
        ensures
            path_verdict(path@) matches Some(Err(e)) ==> r == CacheLookup::<T>::Refused(e),
            path_verdict(path@) == Some(Ok::<(), &'static str>(())) ==> match lookup(
                self@,
                path@,
            ) {
                Some(v) => r == CacheLookup::<T>::Cached(v),
                None => r is Missing,
            },
            !(r is Refused) ==> path_text_error(path@) is None && match lookup(self@, path@) {
                Some(v) => r == CacheLookup::<T>::Cached(v),
                None => r is Missing,
            },
    {
        match validate_path(path) {
            Err(e) => CacheLookup::Refused(e),
            Ok(()) => match self.get(path) {
                Some(v) => CacheLookup::Cached(v),
                None => CacheLookup::Missing,
            },
        }
    }

    /// Remembers `value` for `path`, unless something is remembered for it
    /// already (set meanwhile by someone else); returns what is remembered
    /// afterwards.
    fn put_if_absent(&mut self, path: String, value: Option<Arc<T>>) -> (r: Option<Arc<T>>)
        requires
            keys_unique(old(self)@),
        ensures
            keys_unique(final(self)@),
            match lookup(old(self)@, path@) {
                Some(cur) => r == cur && final(self)@ == old(self)@,
                None => r == value && final(self)@ == with_entry(old(self)@, path@, value),
            },
    {
        proof {
            lemma_key_index(self@, path@);
            lemma_with_entry(self@, path@, value);
        }
        match self.index(path.as_str()) {
            Some(i) => match &self.entries[i].1 {
                Some(a) => Some(arc_clone(a)),
                None => None,
            },
            None => {
                let ghost k = path@;
                let r = match &value {
                    Some(a) => Some(arc_clone(a)),
                    None => None,
                };
                self.entries.push((path, value));
                assert(self@ =~= with_entry(old(self)@, k, r));
                r
            },
        }
    }

    /// Stores `datum` for `path`.
    fn set(&mut self, path: String, datum: Arc<T>)
        requires
            keys_unique(old(self)@),
        ensures
            keys_unique(final(self)@),
            final(self)@ == with_entry(old(self)@, path@, Some(datum)),
    {
        proof {
            lemma_with_entry(self@, path@, Some(datum));
        }
        let ghost k = path@;
        let ghost d = datum;
        match self.index(path.as_str()) {
            Some(i) => {
                self.entries.remove(i);
                self.entries.insert(i, (path, Some(datum)));
            },
            None => {
                self.entries.push((path, Some(datum)));
            },
        }
        assert(self@ =~= with_entry(old(self)@, k, Some(d)));
    }

    /// Stores `datum` under `path` exactly where the path passes
    /// `validate_path`; otherwise refuses it and leaves the cache as it was.
    fn insert(&mut self, path: &str, datum: Arc<T>) -> (r: Result<(), &'static str>)
        requires
            keys_unique(old(self)@),
        ensures
            keys_unique(final(self)@),
            r is Ok ==> path_text_error(path@) is None && final(self)@ == with_entry(
                old(self)@,
                path@,
                Some(datum),
            ),
            r is Err ==> final(self)@ == old(self)@,
            path_verdict(path@) matches Some(v) ==> r == v,
    {
        match validate_path(path) {
            Err(e) => Err(e),
            Ok(()) => {
                self.set(String::from_str(path), datum);
                Ok(())
            },
        }
    }

    /// Settles what was fetched for `path` after the cache was found not to
    /// hold it: remembers it unless something was remembered meanwhile,
    /// returns what is remembered now, and where that is no datum, purges the
    /// misses once the cache is full.
    fn store_fetched(&mut self, path: String, fetched: Option<Arc<T>>) -> (r: Option<Arc<T>>)
        requires
            keys_unique(old(self)@),
        ensures
            keys_unique(final(self)@),
            match lookup(old(self)@, path@) {
                Some(cur) => r == cur && final(self)@ == if cur is None {
                    purged(old(self)@)
                } else {
                    old(self)@
                },
                None => r == fetched && final(self)@ == if fetched is None {
                    purged(with_entry(old(self)@, path@, fetched))
                } else {
                    with_entry(old(self)@, path@, fetched)
                },
            },
    {
        let out = self.put_if_absent(path, fetched);
        if out.is_none() {
            self.purge_nones_if_needed();
        }
        out
    }

    /// Forgets the remembered misses once the cache holds
    /// `NONE_PURGE_THRESHOLD` entries or more.
    fn purge_nones_if_needed(&mut self)
        requires
            keys_unique(old(self)@),
        ensures
            keys_unique(final(self)@),
            final(self)@ == purged(old(self)@),
    {
        if self.entries.len() < NONE_PURGE_THRESHOLD {
            return;
        }
        let ghost before = self@;
        assert(before.len() == self.entries@.len());
        let mut kept: Vec<(String, Option<Arc<T>>)> = Vec::new();
        let mut i: usize = 0;
        assert(before.take(0) =~= Seq::<(Seq<char>, Option<Arc<T>>)>::empty());
        assert(entries_view(kept@) =~= keep_somes(before.take(0)));
        assert(before.skip(0) =~= before);
        while self.entries.len() > 0
            invariant
                i <= before.len(),
                before.len() <= usize::MAX,
                i + self.entries@.len() == before.len(),
                entries_view(self.entries@) == before.skip(i as int),
                entries_view(kept@) == keep_somes(before.take(i as int)),
            decreases self.entries@.len(),
        {
            let ghost cur = self.entries@;
            let e = self.entries.remove(0);
            proof {
                assert(before.take(i + 1).drop_last() =~= before.take(i as int));
                assert(before.take(i + 1).last() == before[i as int]);
                assert(before.skip(i as int)[0] == before[i as int]);
                assert(entries_view(cur)[0] == (e.0@, e.1));
                assert(self.entries@ == cur.remove(0));
                assert forall|j: int| 0 <= j < self.entries@.len() implies #[trigger] entries_view(
                    self.entries@,
                )[j] == before.skip(i + 1)[j] by {
                    assert(self.entries@[j] == cur[j + 1]);
                    assert(entries_view(cur)[j + 1] == before.skip(i as int)[j + 1]);
                }
                assert(entries_view(self.entries@) =~= before.skip(i + 1));
            }
            if e.1.is_some() {
                let ghost kv = kept@;
                kept.push(e);
                assert(entries_view(kept@) =~= entries_view(kv).push(before[i as int]));
            }
            i = i + 1;
        }
        assert(before.take(i as int) =~= before);
        self.entries = kept;
        proof {
            lemma_keep_somes(before);
        }
    }
}

/// What the cache remembers for each path: the datum, or that there is
/// none. No path is listed twice (`keys_unique`).
pub struct DbCache<T> {
    core: CacheCore<T>,
}

impl<T> View for DbCache<T> {
    type V = Seq<(Seq<char>, Option<Arc<T>>)>;

    closed spec fn view(&self) -> Seq<(Seq<char>, Option<Arc<T>>)> {
        self.core@
    }
}

impl<T> DbCache<T> {
    #[verifier::type_invariant]
    spec fn well_formed(self) -> bool {
        keys_unique(self.core@)
    }
}

impl<T> DbCache<T> {
    /// An empty cache.
    pub fn new() -> (r: Self)
        ensures
            keys_unique(r@),
            r@ == Seq::<(Seq<char>, Option<Arc<T>>)>::empty(),
    {
        DbCache { core: CacheCore::new() }
    }

    /// The number of entries.
    pub fn len(&self) -> (r: usize)
        ensures
            r == self@.len(),
    {
        self.core.len()
    }

    /// Forgets everything.
    pub fn clear(&mut self)
        ensures
            keys_unique(final(self)@),
            final(self)@ == Seq::<(Seq<char>, Option<Arc<T>>)>::empty(),
    {
        proof {
            use_type_invariant(&*self);
        }
        let mut core = CacheCore::new();
        std::mem::swap(&mut core, &mut self.core);
        core.clear();
        self.core = core;
    }

    /// What the cache remembers for `path`: nothing, a miss (`Some(None)`),
    /// or the datum.
    pub fn get(&self, path: &str) -> (r: Option<Option<Arc<T>>>)
        ensures
            r == lookup(self@, path@),
    {
        self.core.get(path)
    }

    /// Looks `path` up for a read: refused exactly where `validate_path`
    /// refuses it, else what the cache remembers for it, if anything.
    pub fn find(&self, path: &str) -> (r: CacheLookup<T>)
        ensures
            path_verdict(path@) matches Some(Err(e)) ==> r == CacheLookup::<T>::Refused(e),
            path_verdict(path@) == Some(Ok::<(), &'static str>(())) ==> match lookup(
                self@,
                path@,
            ) {
                Some(v) => r == CacheLookup::<T>::Cached(v),
                None => r is Missing,
            },
            !(r is Refused) ==> path_text_error(path@) is None && match lookup(self@, path@) {
                Some(v) => r == CacheLookup::<T>::Cached(v),
                None => r is Missing,
            },
    {
        self.core.find(path)
    }

    /// Remembers `value` for `path`, unless something is remembered for it
    /// already (set meanwhile by someone else); returns what is remembered
    /// afterwards.
    pub fn put_if_absent(&mut self, path: String, value: Option<Arc<T>>) -> (r: Option<Arc<T>>)
        ensures
            keys_unique(final(self)@),
            match lookup(old(self)@, path@) {
                Some(cur) => r == cur && final(self)@ == old(self)@,
                None => r == value && final(self)@ == with_entry(old(self)@, path@, value),
            },
    {
        proof {
            use_type_invariant(&*self);
        }
        let mut core = CacheCore::new();
        std::mem::swap(&mut core, &mut self.core);
        let r = core.put_if_absent(path, value);
        self.core = core;
        r
    }

    /// Stores `datum` for `path`.
    pub fn set(&mut self, path: String, datum: Arc<T>)
        ensures
            keys_unique(final(self)@),
            final(self)@ == with_entry(old(self)@, path@, Some(datum)),
    {
        proof {
            use_type_invariant(&*self);
        }
        let mut core = CacheCore::new();
        std::mem::swap(&mut core, &mut self.core);
        core.set(path, datum);
        self.core = core;
    }

    /// Stores `datum` under `path` exactly where the path passes
    /// `validate_path`; otherwise refuses it and leaves the cache as it was.
    pub fn insert(&mut self, path: &str, datum: Arc<T>) -> (r: Result<(), &'static str>)
        ensures
            keys_unique(final(self)@),
            r is Ok ==> path_text_error(path@) is None && final(self)@ == with_entry(
                old(self)@,
                path@,
                Some(datum),
            ),
            r is Err ==> final(self)@ == old(self)@,
            path_verdict(path@) matches Some(v) ==> r == v,
    {
        proof {
            use_type_invariant(&*self);
        }
        let mut core = CacheCore::new();
        std::mem::swap(&mut core, &mut self.core);
        let r = core.insert(path, datum);
        self.core = core;
        r
    }

    /// Settles what was fetched for `path` after the cache was found not to
    /// hold it: remembers it unless something was remembered meanwhile,
    /// returns what is remembered now, and where that is no datum, purges the
    /// misses once the cache is full.
    pub fn store_fetched(&mut self, path: String, fetched: Option<Arc<T>>) -> (r: Option<Arc<T>>)
        ensures
            keys_unique(final(self)@),
            match lookup(old(self)@, path@) {
                Some(cur) => r == cur && final(self)@ == if cur is None {
                    purged(old(self)@)
                } else {
                    old(self)@
                },
                None => r == fetched && final(self)@ == if fetched is None {
                    purged(with_entry(old(self)@, path@, fetched))
                } else {
                    with_entry(old(self)@, path@, fetched)
                },
            },
    {
        proof {
            use_type_invariant(&*self);
        }
        let mut core = CacheCore::new();
        std::mem::swap(&mut core, &mut self.core);
        let r = core.store_fetched(path, fetched);
        self.core = core;
        r
    }

    /// Forgets the remembered misses once the cache holds
    /// `NONE_PURGE_THRESHOLD` entries or more.
    pub fn purge_nones_if_needed(&mut self)
        ensures
            keys_unique(final(self)@),
            final(self)@ == purged(old(self)@),
    {
        proof {
            use_type_invariant(&*self);
        }
        let mut core = CacheCore::new();
        std::mem::swap(&mut core, &mut self.core);
        core.purge_nones_if_needed();
        self.core = core;
    }
}

/// What keeping the entries that hold a datum keeps.
pub proof fn lemma_keep_somes<T>(s: Seq<(Seq<char>, Option<Arc<T>>)>)
    requires
        keys_unique(s),
    ensures
        keys_unique(keep_somes(s)),
        forall|i: int|
            0 <= i < keep_somes(s).len() ==> (#[trigger] keep_somes(s)[i]).1 is Some && exists|
                j: int,
            |
                0 <= j < s.len() && s[j] == keep_somes(s)[i],
        forall|j: int|
            0 <= j < s.len() && (#[trigger] s[j]).1 is Some ==> exists|i: int|
                0 <= i < keep_somes(s).len() && keep_somes(s)[i] == s[j],
    decreases s.len(),
{
    if s.len() > 0 {
        let q = s.drop_last();
        assert forall|a: int, b: int| 0 <= a < b < q.len() implies q[a].0 != q[b].0 by {
            assert(q[a] == s[a]);
            assert(q[b] == s[b]);
        }
        lemma_keep_somes(q);
        let kq = keep_somes(q);
        let ks = keep_somes(s);
        assert forall|i: int| 0 <= i < kq.len() implies exists|j: int|
            0 <= j < s.len() && s[j] == #[trigger] kq[i] by {
            let j = choose|j: int| 0 <= j < q.len() && q[j] == kq[i];
            assert(s[j] == q[j]);
        }
        if s.last().1 is Some {
            assert forall|i: int| 0 <= i < kq.len() implies (#[trigger] kq[i]).0 != s.last().0 by {
                let j = choose|j: int| 0 <= j < q.len() && q[j] == kq[i];
                assert(s[j] == q[j]);
                assert(j < s.len() - 1);
            }
            assert forall|a: int, b: int| 0 <= a < b < ks.len() implies ks[a].0 != ks[b].0 by {
                if b == kq.len() {
                    assert(ks[a] == kq[a]);
                } else {
                    assert(ks[a] == kq[a]);
                    assert(ks[b] == kq[b]);
                }
            }
            assert forall|i: int| 0 <= i < ks.len() implies (#[trigger] ks[i]).1 is Some && exists|j: int|
                0 <= j < s.len() && s[j] == ks[i] by {
                if i < kq.len() {
                    assert(ks[i] == kq[i]);
                } else {
                    assert(s[s.len() - 1] == ks[i]);
                }
            }
            assert forall|j: int| 0 <= j < s.len() && (#[trigger] s[j]).1 is Some implies exists|i: int|
                0 <= i < ks.len() && ks[i] == s[j] by {
                if j < s.len() - 1 {
                    assert(q[j] == s[j]);
                    let i = choose|i: int| 0 <= i < kq.len() && kq[i] == q[j];
                    assert(ks[i] == kq[i]);
                } else {
                    assert(ks[kq.len() as int] == s[j]);
                }
            }
        } else {
            assert forall|j: int| 0 <= j < s.len() && (#[trigger] s[j]).1 is Some implies exists|i: int|
                0 <= i < ks.len() && ks[i] == s[j] by {
                assert(j < s.len() - 1);
                assert(q[j] == s[j]);
            }
        }
    }
}

/// Law: storing a datum makes it what the cache gives for that path, and
/// leaves every other path as it was.
pub proof fn law_cache_read_after_write<T>(
    c: Seq<(Seq<char>, Option<Arc<T>>)>,
    k: Seq<char>,
    v: Arc<T>,
    k2: Seq<char>,
)
    requires
        keys_unique(c),
    ensures
        lookup(with_entry(c, k, Some(v)), k) == Some(Some(v)),
        k2 != k ==> lookup(with_entry(c, k, Some(v)), k2) == lookup(c, k2),
{
    lemma_with_entry(c, k, Some(v));
}

/// Law: purging forgets the remembered misses and nothing else.
pub proof fn law_purge_keeps_data<T>(c: Seq<(Seq<char>, Option<Arc<T>>)>, k: Seq<char>)
    requires
        keys_unique(c),
    ensures
        lookup(keep_somes(c), k) == match lookup(c, k) {
            Some(Some(v)) => Some(Some(v)),
            _ => None::<Option<Arc<T>>>,
        },
{
    lemma_keep_somes(c);
    lemma_key_index(c, k);
    let ks = keep_somes(c);
    lemma_key_index(ks, k);
    match key_index(c, k) {
        Some(j) => {
            if c[j].1 is Some {
                let i = choose|i: int| 0 <= i < ks.len() && ks[i] == c[j];
                lemma_unique_key_index(ks, k, i);
            } else {
                if let Some(i) = key_index(ks, k) {
                    let j2 = choose|j2: int| 0 <= j2 < c.len() && c[j2] == ks[i];
                    lemma_unique_key_index(c, k, j2);
                }
            }
        },
        None => {
            if let Some(i) = key_index(ks, k) {
                let j2 = choose|j2: int| 0 <= j2 < c.len() && c[j2] == ks[i];
            }
        },
    }
}

/// Stores a datum under `path` exactly where the path passes
/// `validate_path`, and says whether the datum changed, so that the caller
/// knows whether to write it to the files. `same_as_stored` is the caller's
/// comparison of `datum` with the datum stored for `path`, if any: the datum
/// changed unless one was stored and it compared the same.
pub fn record_datum(
    cache: &mut DbCache<serde_json::Value>,
    path: &str,
    datum: Arc<serde_json::Value>,
    same_as_stored: bool,
) -> (r: Result<bool, &'static str>)
    ensures
        keys_unique(final(cache)@),
        r is Ok ==> path_text_error(path@) is None && final(cache)@ == with_entry(
            old(cache)@,
            path@,
            Some(datum),
        ),
        r is Err ==> final(cache)@ == old(cache)@,
        path_verdict(path@) matches Some(Err(e)) ==> r == Err::<bool, &'static str>(e),
        path_verdict(path@) == Some(Ok::<(), &'static str>(())) ==> r is Ok,
        r is Ok ==> r == Ok::<bool, &'static str>(
            !(lookup(old(cache)@, path@) matches Some(Some(_)) && same_as_stored),
        ),
{
    let stored = match cache.get(path) {
        Some(Some(_)) => true,
        _ => false,
    };
    match cache.insert(path, datum) {
        Err(e) => Err(e),
        Ok(()) => Ok(!(stored && same_as_stored)),
    }
}

/// Stores a datum as `record_datum` does, comparing it with the stored one
/// by serde_json's own equality (`json_equal`): the same datum as the stored
/// one is no change, a datum where none was stored is one.
pub fn insert_datum(
    cache: &mut DbCache<serde_json::Value>,
    path: &str,
    datum: Arc<serde_json::Value>,
) -> (r: Result<bool, &'static str>)
    ensures
        keys_unique(final(cache)@),
        r is Ok ==> path_text_error(path@) is None && final(cache)@ == with_entry(
            old(cache)@,
            path@,
            Some(datum),
        ),
        r is Err ==> final(cache)@ == old(cache)@,
        path_verdict(path@) matches Some(Err(e)) ==> r == Err::<bool, &'static str>(e),
        path_verdict(path@) == Some(Ok::<(), &'static str>(())) ==> r is Ok,
        r == Ok::<bool, &'static str>(false) ==> lookup(old(cache)@, path@) matches Some(Some(_)),
        r is Ok && lookup(old(cache)@, path@) == Some(Some(datum)) ==> r == Ok::<
            bool,
            &'static str,
        >(false),
{
    let same = match cache.get(path) {
        Some(Some(cur)) => json_equal(&*cur, &*datum),
        _ => false,
    };
    record_datum(cache, path, datum, same)
}

/// What trying one backing directory gave.
pub enum ReadOutcome {
    /// No file there.
    Missing,
    /// The file is there but could not be opened, for this reason.
    OpenFailed(String),
    /// The file was opened but could not be read, for this reason.
    ReadFailed(String),
    /// The file's bytes.
    Read(Vec<u8>),
}

/// What to do after trying one backing directory.
pub enum FsStep {
    /// The datum is found: stop here.
    Found(serde_json::Value),
    /// Warn that the attempt to do this (`open`, `read`, `parse`) failed,
    /// for this reason, and go on to the next directory.
    Warn(&'static str, String),
    /// Go on to the next directory quietly.
    Next,
}

/// Decides, for one backing directory, whether the read is over: a file
/// that was read and parses gives the datum; a missing file moves on
/// quietly; every other failure moves on with a warning.
pub fn fs_step(outcome: ReadOutcome) -> (r: FsStep)
    ensures
        match outcome {
            ReadOutcome::Missing => r is Next,
            ReadOutcome::OpenFailed(e) => r == FsStep::Warn("open", e),
            ReadOutcome::ReadFailed(e) => r == FsStep::Warn("read", e),
            ReadOutcome::Read(b) => match json_parse(b@) {
                Some(v) => r == FsStep::Found(v),
                None => r matches FsStep::Warn(verb, _) && verb == "parse",
            },
        },
{
    match outcome {
        ReadOutcome::Missing => FsStep::Next,
        ReadOutcome::OpenFailed(e) => FsStep::Warn("open", e),
        ReadOutcome::ReadFailed(e) => FsStep::Warn("read", e),
        ReadOutcome::Read(b) => match parse_datum(b.as_slice()) {
            Ok(v) => FsStep::Found(v),
            Err(e) => FsStep::Warn("parse", e),
        },
    }
}

/// `serde_json::to_vec` on a `Value`: its JSON text. Nothing is claimed of
/// the text, since no name ranges over an opaque value.
#[verifier::external_body]
fn json_to_vec(v: &serde_json::Value) -> Result<Vec<u8>, serde_json::Error> {
    serde_json::to_vec(v)
}

/// The JSON text a datum is stored as in the files; on failure, says why.
pub fn datum_text(v: &serde_json::Value) -> Result<Vec<u8>, String> {
    match json_to_vec(v) {
        Ok(t) => Ok(t),
        Err(e) => Err(json_error_text(&e)),
    }
}

} // verus!
