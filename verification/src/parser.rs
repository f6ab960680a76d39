//! The lexical extractor: comment stripping, import extraction (named,
//! default and lazy-loaded forms), export detection, module-path
//! resolution and local-usage detection, all as pure functions over text.

use vstd::prelude::*;
use vstd::string::*;
use crate::entity::{duplicate_imports, Entity, EntityModel, EntityType, ImportInfo, ImportModel};
use crate::strutil::{chars_of, is_prefix, is_suffix, str_starts_with, string_from_chars};
use crate::table::FileParseResult;

verus! {

/// Relies on char::is_alphanumeric: the result is a function of the
/// character alone.
pub uninterp spec fn is_alphanumeric_of(c: char) -> bool;

#[verifier::external_body]
pub fn char_is_alphanumeric(c: char) -> (r: bool)
    ensures
        r == is_alphanumeric_of(c),
{
    c.is_alphanumeric()
}

/// Relies on char::is_whitespace: the result is a function of the
/// character alone.
pub uninterp spec fn is_whitespace_of(c: char) -> bool;

#[verifier::external_body]
pub fn char_is_whitespace(c: char) -> (r: bool)
    ensures
        r == is_whitespace_of(c),
{
    c.is_whitespace()
}

/// A word character: a letter or digit, or an underscore.
pub open spec fn is_word_char(c: char) -> bool {
    is_alphanumeric_of(c) || c == '_'
}

/// The whitespace characters an import statement may contain between its
/// tokens.
pub open spec fn is_import_ws(c: char) -> bool {
    c == ' ' || c == '\t' || c == '\n' || c == '\r' || c == '\u{b}' || c == '\u{c}'
}

fn import_ws(c: char) -> (r: bool)
    ensures
        r == is_import_ws(c),
{
    c == ' ' || c == '\t' || c == '\n' || c == '\r' || c == '\u{b}' || c == '\u{c}'
}

/// The comment-stripper's state between characters.
#[derive(Clone, Copy, Debug, PartialEq, Eq, Structural)]
pub enum StripState {
    Code,
    CodeSlash,
    InString(char),
    InStringEscape(char),
    LineComment,
    BlockComment,
    BlockCommentStar,
}

/// One character's effect on the stripper: the next state and what is
/// emitted.
pub open spec fn strip_step(st: StripState, c: char) -> (StripState, Seq<char>) {
    match st {
        StripState::Code => {
            if c == '/' {
                (StripState::CodeSlash, Seq::empty())
            } else if c == '"' || c == '\'' || c == '`' {
                (StripState::InString(c), seq![c])
            } else {
                (StripState::Code, seq![c])
            }
        },
        StripState::CodeSlash => {
            if c == '/' {
                (StripState::LineComment, Seq::empty())
            } else if c == '*' {
                (StripState::BlockComment, Seq::empty())
            } else if c == '"' || c == '\'' || c == '`' {
                (StripState::InString(c), seq!['/', c])
            } else {
                (StripState::Code, seq!['/', c])
            }
        },
        StripState::InString(q) => {
            if c == '\\' {
                (StripState::InStringEscape(q), seq![c])
            } else if c == q {
                (StripState::Code, seq![c])
            } else {
                (StripState::InString(q), seq![c])
            }
        },
        StripState::InStringEscape(q) => (StripState::InString(q), seq![c]),
        StripState::LineComment => {
            if c == '\n' {
                (StripState::Code, seq![c])
            } else {
                (StripState::LineComment, Seq::empty())
            }
        },
        StripState::BlockComment => {
            if c == '*' {
                (StripState::BlockCommentStar, Seq::empty())
            } else {
                (StripState::BlockComment, Seq::empty())
            }
        },
        StripState::BlockCommentStar => {
            if c == '/' {
                (StripState::Code, Seq::empty())
            } else if c == '*' {
                (StripState::BlockCommentStar, Seq::empty())
            } else {
                (StripState::BlockComment, Seq::empty())
            }
        },
    }
}

/// What is still emitted when the text ends in the given state: a pending
/// slash that never became a comment.
pub open spec fn strip_eof(st: StripState) -> Seq<char> {
    match st {
        StripState::CodeSlash => seq!['/'],
        _ => Seq::empty(),
    }
}

/// The stripped remainder of `s`, starting in state `st`.
pub open spec fn strip_from(s: Seq<char>, st: StripState) -> Seq<char>
    decreases s.len(),
{
    if s.len() == 0 {
        strip_eof(st)
    } else {
        strip_step(st, s[0]).1 + strip_from(s.drop_first(), strip_step(st, s[0]).0)
    }
}

/// `s` with single-line and block comments removed; string contents —
/// including comment-like text inside them — are preserved.
pub open spec fn strip_comments_spec(s: Seq<char>) -> Seq<char> {
    strip_from(s, StripState::Code)
}

/// Strips `//` and `/* */` comments from source text, preserving strings.
pub fn strip_comments(content: &str) -> (r: String)
    ensures
        r@ == strip_comments_spec(content@),
{
    let v = chars_of(content);
    let mut out: Vec<char> = Vec::new();
    let mut st = StripState::Code;
    let mut i: usize = 0;
    proof {
        assert(content@.skip(0) =~= content@);
    }
    while i < v.len()
        invariant
            i <= v@.len(),
            v@ == content@,
            strip_comments_spec(content@) == out@ + strip_from(content@.skip(i as int), st),
        decreases v@.len() - i,
    {
        let c = v[i];
        let ghost st0 = st;
        let ghost out0 = out@;
        proof {
            assert(content@.skip(i as int)[0] == content@[i as int]);
            assert(content@.skip(i as int).drop_first() =~= content@.skip(i as int + 1));
        }
        match st {
            StripState::Code => {
                if c == '/' {
                    st = StripState::CodeSlash;
                } else if c == '"' || c == '\'' || c == '`' {
                    out.push(c);
                    st = StripState::InString(c);
                } else {
                    out.push(c);
                }
            },
            StripState::CodeSlash => {
                if c == '/' {
                    st = StripState::LineComment;
                } else if c == '*' {
                    st = StripState::BlockComment;
                } else if c == '"' || c == '\'' || c == '`' {
                    out.push('/');
                    out.push(c);
                    st = StripState::InString(c);
                } else {
                    out.push('/');
                    out.push(c);
                    st = StripState::Code;
                }
            },
            StripState::InString(q) => {
                if c == '\\' {
                    out.push(c);
                    st = StripState::InStringEscape(q);
                } else if c == q {
                    out.push(c);
                    st = StripState::Code;
                } else {
                    out.push(c);
                }
            },
            StripState::InStringEscape(q) => {
                out.push(c);
                st = StripState::InString(q);
            },
            StripState::LineComment => {
                if c == '\n' {
                    out.push(c);
                    st = StripState::Code;
                }
            },
            StripState::BlockComment => {
                if c == '*' {
                    st = StripState::BlockCommentStar;
                }
            },
            StripState::BlockCommentStar => {
                if c == '/' {
                    st = StripState::Code;
                } else if c == '*' {
                } else {
                    st = StripState::BlockComment;
                }
            },
        }
        proof {
            assert(st == strip_step(st0, c).0);
            assert(out@ =~= out0 + strip_step(st0, c).1);
        }
        i += 1;
    }
    proof {
        assert(content@.skip(v@.len() as int).len() == 0);
        assert(out@ + strip_from(content@.skip(v@.len() as int), st) == out@ + strip_eof(st));
    }
    match st {
        StripState::CodeSlash => {
            out.push('/');
            proof {
                assert(out@ =~= strip_comments_spec(content@));
            }
        },
        _ => {
            proof {
                assert(out@ + strip_eof(st) =~= out@);
                assert(out@ =~= strip_comments_spec(content@));
            }
        },
    }
    string_from_chars(&out)
}

/// The first position at or after `from` where `needle` occurs in `hay`.
pub open spec fn first_occ(hay: Seq<char>, needle: Seq<char>, from: int) -> Option<int>
    decreases hay.len() - from,
{
    if from < 0 || from + needle.len() > hay.len() {
        None
    } else if needle.len() == 0 {
        Some(from)
    } else if hay.subrange(from, from + needle.len() as int) == needle {
        Some(from)
    } else {
        first_occ(hay, needle, from + 1)
    }
}

/// Finds the first occurrence of `needle` in `hay` at or after `from`.
pub fn find_from(hay: &Vec<char>, needle: &Vec<char>, from: usize) -> (r: Option<usize>)
    ensures
        match r {
            Some(p) => first_occ(hay@, needle@, from as int) == Some(p as int) && p
                + needle@.len() <= hay@.len(),
            None => first_occ(hay@, needle@, from as int) is None,
        },
    decreases hay@.len() - from,
{
    if from > hay.len() {
        return None;
    }
    if needle.len() > hay.len() - from {
        return None;
    }
    if needle.len() == 0 {
        return Some(from);
    }
    let mut j: usize = 0;
    let mut matched = true;
    loop
        invariant_except_break
            from + needle@.len() <= hay@.len(),
            hay@.len() <= usize::MAX,
            j <= needle@.len(),
            matched,
            forall|x: int| 0 <= x < j ==> hay@[from + x] == needle@[x],
        ensures
            from + needle@.len() <= hay@.len(),
            matched ==> (forall|x: int| 0 <= x < needle@.len() ==> hay@[from + x] == needle@[x]),
            !matched ==> hay@.subrange(from as int, from + needle@.len() as int) != needle@,
        decreases needle@.len() - j,
    {
        if j >= needle.len() {
            break ;
        }
        if hay[from + j] != needle[j] {
            matched = false;
            proof {
                assert(hay@.subrange(from as int, from + needle@.len() as int)[j as int]
                    != needle@[j as int]);
            }
            break ;
        }
        j += 1;
    }
    if matched {
        proof {
            assert(hay@.subrange(from as int, from + needle@.len() as int) =~= needle@);
        }
        Some(from)
    } else {
        find_from(hay, needle, from + 1)
    }
}

/// The first position at or after `i` holding something other than import
/// whitespace (or the end of the text).
pub open spec fn skip_ws_spec(s: Seq<char>, i: int) -> int
    decreases s.len() - i,
{
    if i < 0 || i >= s.len() {
        i
    } else if is_import_ws(s[i]) {
        skip_ws_spec(s, i + 1)
    } else {
        i
    }
}

fn skip_ws(v: &Vec<char>, i: usize) -> (r: usize)
    requires
        i <= v@.len(),
    ensures
        r == skip_ws_spec(v@, i as int),
        i <= r <= v@.len(),
        r < v@.len() ==> !is_import_ws(v@[r as int]),
    decreases v@.len() - i,
{
    if i == v.len() {
        return i;
    }
    if import_ws(v[i]) {
        skip_ws(v, i + 1)
    } else {
        i
    }
}

/// `s` trimmed of leading and trailing whitespace.
pub open spec fn trim_start_spec(s: Seq<char>) -> Seq<char>
    decreases s.len(),
{
    if s.len() == 0 {
        s
    } else if is_whitespace_of(s[0]) {
        trim_start_spec(s.drop_first())
    } else {
        s
    }
}

pub open spec fn trim_end_spec(s: Seq<char>) -> Seq<char>
    decreases s.len(),
{
    if s.len() == 0 {
        s
    } else if is_whitespace_of(s.last()) {
        trim_end_spec(s.drop_last())
    } else {
        s
    }
}

pub open spec fn trim_spec(s: Seq<char>) -> Seq<char> {
    trim_end_spec(trim_start_spec(s))
}

/// Trims whitespace from both ends of a character sequence.
fn trim_chars(v: &Vec<char>, lo: usize, hi: usize) -> (r: (usize, usize))
    requires
        lo <= hi <= v@.len(),
    ensures
        lo <= r.0 <= r.1 <= hi,
        v@.subrange(r.0 as int, r.1 as int) == trim_spec(v@.subrange(lo as int, hi as int)),
{
    let mut a = lo;
    loop
        invariant
            lo <= a <= hi <= v@.len(),
            trim_start_spec(v@.subrange(lo as int, hi as int)) == trim_start_spec(
                v@.subrange(a as int, hi as int),
            ),
        ensures
            lo <= a <= hi,
            trim_start_spec(v@.subrange(lo as int, hi as int)) == trim_start_spec(
                v@.subrange(a as int, hi as int),
            ),
            a == hi || !is_whitespace_of(v@[a as int]),
        decreases hi - a,
    {
        if a >= hi {
            break ;
        }
        if !char_is_whitespace(v[a]) {
            break ;
        }
        proof {
            assert(v@.subrange(a as int, hi as int)[0] == v@[a as int]);
            assert(v@.subrange(a as int, hi as int).drop_first() =~= v@.subrange(
                a as int + 1,
                hi as int,
            ));
        }
        a += 1;
    }
    proof {
        if a < hi {
            assert(v@.subrange(a as int, hi as int)[0] == v@[a as int]);
        }
        assert(trim_start_spec(v@.subrange(a as int, hi as int)) == v@.subrange(
            a as int,
            hi as int,
        ));
    }
    let mut b = hi;
    loop
        invariant
            a <= b <= hi <= v@.len(),
            trim_end_spec(v@.subrange(a as int, hi as int)) == trim_end_spec(
                v@.subrange(a as int, b as int),
            ),
        ensures
            a <= b <= hi,
            trim_end_spec(v@.subrange(a as int, hi as int)) == trim_end_spec(
                v@.subrange(a as int, b as int),
            ),
            b == a || !is_whitespace_of(v@[b - 1]),
        decreases b,
    {
        if b <= a {
            break ;
        }
        if !char_is_whitespace(v[b - 1]) {
            break ;
        }
        proof {
            assert(v@.subrange(a as int, b as int).last() == v@[b - 1]);
            assert(v@.subrange(a as int, b as int).drop_last() =~= v@.subrange(
                a as int,
                b as int - 1,
            ));
        }
        b -= 1;
    }
    proof {
        if b > a {
            assert(v@.subrange(a as int, b as int).last() == v@[b - 1]);
        }
        assert(trim_end_spec(v@.subrange(a as int, b as int)) == v@.subrange(a as int, b as int));
    }
    (a, b)
}

/// The position of the last separator in a path, if any.
pub open spec fn last_slash(p: Seq<char>) -> Option<int>
    decreases p.len(),
{
    if p.len() == 0 {
        None
    } else if p.last() == '/' {
        Some(p.len() - 1)
    } else {
        last_slash(p.drop_last())
    }
}

/// The directory containing a file path: everything before the last
/// separator; a bare name lies in the empty directory; the root and the
/// empty path have none.
pub open spec fn parent_of(p: Seq<char>) -> Option<Seq<char>> {
    match last_slash(p) {
        None => if p.len() == 0 {
            None
        } else {
            Some(Seq::empty())
        },
        Some(k) => if k == 0 {
            if p.len() == 1 {
                None
            } else {
                Some(seq!['/'])
            }
        } else {
            Some(p.subrange(0, k))
        },
    }
}

/// Joining a relative path onto a directory.
pub open spec fn join_path(a: Seq<char>, b: Seq<char>) -> Seq<char> {
    if a.len() == 0 {
        b
    } else if a.last() == '/' {
        a + b
    } else {
        a + seq!['/'] + b
    }
}

/// The pieces of a path, split at every separator; empty pieces mark the
/// leading separator of an absolute path, doubled separators and a
/// trailing separator.
pub open spec fn path_pieces(p: Seq<char>) -> Seq<Seq<char>>
    decreases p.len(),
    via path_pieces_decreases
{
    match find_char(p, '/', 0) {
        None => seq![p],
        Some(k) => seq![p.subrange(0, k)] + path_pieces(p.skip(k + 1)),
    }
}

#[via_fn]
proof fn path_pieces_decreases(p: Seq<char>) {
    match find_char(p, '/', 0) {
        None => {},
        Some(k) => {
            lemma_find_char_bounds(p, '/', 0, k);
        },
    }
}

/// Folds path pieces left to right into canonical segment form: empty and
/// `.` pieces vanish; `..` removes the piece before it where one can be
/// removed — at the root of an absolute path it vanishes, at the front of
/// a relative path it stays.
pub open spec fn norm_fold(pieces: Seq<Seq<char>>, abs: bool) -> Seq<Seq<char>>
    decreases pieces.len(),
{
    if pieces.len() == 0 {
        Seq::empty()
    } else {
        let rest = norm_fold(pieces.drop_last(), abs);
        let last = pieces.last();
        if last.len() == 0 || last == "."@ {
            rest
        } else if last == ".."@ {
            if rest.len() > 0 && rest.last() != ".."@ {
                rest.drop_last()
            } else if abs {
                rest
            } else {
                rest.push(last)
            }
        } else {
            rest.push(last)
        }
    }
}

/// Path pieces reassembled with separators between them.
pub open spec fn join_pieces(pieces: Seq<Seq<char>>) -> Seq<char>
    decreases pieces.len(),
{
    if pieces.len() == 0 {
        Seq::empty()
    } else if pieces.len() == 1 {
        pieces[0]
    } else {
        join_pieces(pieces.drop_last()) + seq!['/'] + pieces.last()
    }
}

/// A path in canonical segment form: `.` pieces, `..` pieces where a
/// parent exists, empty pieces and trailing separators are collapsed, so
/// that two references to one file compare equal as strings.
pub open spec fn normalize_path(p: Seq<char>) -> Seq<char> {
    let abs = p.len() > 0 && p[0] == '/';
    let folded = norm_fold(path_pieces(p), abs);
    if abs {
        seq!['/'] + join_pieces(folded)
    } else {
        join_pieces(folded)
    }
}

proof fn lemma_path_pieces_nonempty(p: Seq<char>)
    ensures
        path_pieces(p).len() >= 1,
{
    match find_char(p, '/', 0) {
        None => {},
        Some(k) => {},
    }
}

proof fn lemma_join_pieces_cons(a: Seq<char>, rest: Seq<Seq<char>>)
    requires
        rest.len() >= 1,
    ensures
        join_pieces(seq![a] + rest) == a + seq!['/'] + join_pieces(rest),
    decreases rest.len(),
{
    if rest.len() == 1 {
        let q = seq![a] + rest;
        assert(q.drop_last() =~= seq![a]);
        assert(q.last() == rest[0]);
        assert(join_pieces(seq![a]) == a);
        assert(join_pieces(rest) == rest[0]);
    } else {
        let q = seq![a] + rest;
        assert(q.drop_last() =~= seq![a] + rest.drop_last());
        assert(q.last() == rest.last());
        lemma_join_pieces_cons(a, rest.drop_last());
        assert(join_pieces(q) == a + seq!['/'] + join_pieces(rest.drop_last()) + seq!['/']
            + rest.last());
        assert(a + seq!['/'] + join_pieces(rest.drop_last()) + seq!['/'] + rest.last() =~= a
            + seq!['/'] + (join_pieces(rest.drop_last()) + seq!['/'] + rest.last()));
    }
}

/// Splitting a path at its separators and rejoining the pieces gives the
/// path back.
proof fn lemma_join_split_roundtrip(r: Seq<char>)
    ensures
        join_pieces(path_pieces(r)) == r,
    decreases r.len(),
{
    match find_char(r, '/', 0) {
        None => {},
        Some(k) => {
            lemma_find_char_bounds(r, '/', 0, k);
            assert(r[k] == '/');
            lemma_join_split_roundtrip(r.skip(k + 1));
            lemma_path_pieces_nonempty(r.skip(k + 1));
            lemma_join_pieces_cons(r.subrange(0, k), path_pieces(r.skip(k + 1)));
            assert(r.subrange(0, k) + seq!['/'] + r.skip(k + 1) =~= r);
        },
    }
}

/// A path piece that canonical form keeps as it stands.
pub open spec fn plain_piece(x: Seq<char>) -> bool {
    x.len() > 0 && x != "."@ && x != ".."@
}

/// An absolute path already in canonical segment form: every piece after
/// the leading separator is plain.
pub open spec fn canonical_abs_path(p: Seq<char>) -> bool {
    &&& p.len() >= 1
    &&& p[0] == '/'
    &&& forall|i: int|
        1 <= i < path_pieces(p).len() ==> plain_piece(#[trigger] path_pieces(p)[i])
}

proof fn lemma_norm_fold_plain(q: Seq<Seq<char>>, abs: bool)
    requires
        q.len() >= 1,
        q[0].len() == 0,
        forall|i: int| 1 <= i < q.len() ==> plain_piece(#[trigger] q[i]),
    ensures
        norm_fold(q, abs) == q.skip(1),
    decreases q.len(),
{
    if q.len() == 1 {
        let e: Seq<Seq<char>> = Seq::empty();
        assert(q.drop_last() =~= e);
        assert(q.skip(1) =~= e);
        assert(norm_fold(e, abs) == e);
        assert(norm_fold(q.drop_last(), abs) == e);
        assert(q.last().len() == 0);
        assert(norm_fold(q, abs) == e);
    } else {
        assert(q.drop_last()[0].len() == 0);
        assert forall|i: int| 1 <= i < q.drop_last().len() implies plain_piece(
            #[trigger] q.drop_last()[i],
        ) by {
            assert(q.drop_last()[i] == q[i]);
        }
        lemma_norm_fold_plain(q.drop_last(), abs);
        assert(plain_piece(q[q.len() - 1]));
        assert(norm_fold(q, abs) == q.drop_last().skip(1).push(q.last()));
        assert(q.drop_last().skip(1).push(q.last()) =~= q.skip(1));
        assert(norm_fold(q, abs) =~~= q.skip(1));
    }
}

/// Canonical segment form is a fixed point of normalization: a scanned
/// file's path — absolute, every piece plain — is returned unchanged, so
/// a resolved import reference to it compares equal as a string.
pub proof fn lemma_normalize_canonical(p: Seq<char>)
    requires
        canonical_abs_path(p),
    ensures
        normalize_path(p) == p,
{
    assert(find_char(p, '/', 0) == Some(0int));
    let rest = p.skip(1);
    assert(path_pieces(p) == seq![p.subrange(0, 0)] + path_pieces(rest));
    assert(path_pieces(p)[0].len() == 0);
    lemma_path_pieces_nonempty(rest);
    lemma_norm_fold_plain(path_pieces(p), true);
    assert(path_pieces(p).skip(1) =~= path_pieces(rest));
    lemma_join_split_roundtrip(rest);
    assert(seq!['/'] + rest =~= p);
}

/// A resolved module path always carries a source-file extension.
pub open spec fn with_ts_ext(p: Seq<char>) -> Seq<char> {
    if is_suffix(".ts"@, p) || is_suffix(".tsx"@, p) {
        p
    } else {
        p + ".ts"@
    }
}

/// Where an import source points, resolved against the importing file:
/// a workspace alias maps into the shared library tree, a relative source
/// is taken from the importing file's directory, and anything else — an
/// external package — does not resolve. A resolved path is in canonical
/// segment form, so a reference to a scanned file equals that file's
/// scanned path.
pub open spec fn resolve_import_spec(
    importing_file: Seq<char>,
    import_source: Seq<char>,
    root: Seq<char>,
) -> Option<Seq<char>> {
    if is_prefix("@awork/"@, import_source) {
        Some(
            with_ts_ext(
                normalize_path(
                    join_path(
                        join_path(root, "libs/shared/src/lib"@),
                        import_source.skip("@awork/"@.len() as int),
                    ),
                ),
            ),
        )
    } else if is_prefix("./"@, import_source) || is_prefix("../"@, import_source) {
        match parent_of(importing_file) {
            None => None,
            Some(dir) => Some(with_ts_ext(normalize_path(join_path(dir, import_source)))),
        }
    } else {
        None
    }
}

/// The characters of `v` from `lo` to `hi`.
fn sub_chars(v: &Vec<char>, lo: usize, hi: usize) -> (r: Vec<char>)
    requires
        lo <= hi <= v@.len(),
    ensures
        r@ == v@.subrange(lo as int, hi as int),
{
    let mut r: Vec<char> = Vec::new();
    let mut i = lo;
    while i < hi
        invariant
            lo <= i <= hi <= v@.len(),
            r@ == v@.subrange(lo as int, i as int),
        decreases hi - i,
    {
        r.push(v[i]);
        proof {
            assert(r@ =~= v@.subrange(lo as int, i as int + 1));
        }
        i += 1;
    }
    r
}

/// The directory part of a path, as `parent_of` describes.
fn parent_dir(v: &Vec<char>) -> (r: Option<Vec<char>>)
    ensures
        match r {
            Some(d) => parent_of(v@) == Some(d@),
            None => parent_of(v@) is None,
        },
{
    let mut i = v.len();
    proof {
        assert(v@.take(v@.len() as int) =~= v@);
    }
    loop
        invariant
            i <= v@.len(),
            last_slash(v@) == last_slash(v@.take(i as int)),
        ensures
            i <= v@.len(),
            last_slash(v@) == last_slash(v@.take(i as int)),
            i == 0 || v@[i - 1] == '/',
        decreases i,
    {
        if i == 0 {
            break ;
        }
        if v[i - 1] == '/' {
            break ;
        }
        proof {
            assert(v@.take(i as int).last() == v@[i - 1]);
            assert(v@.take(i as int).drop_last() =~= v@.take(i as int - 1));
        }
        i -= 1;
    }
    proof {
        if i == 0 {
            assert(v@.take(0).len() == 0);
            assert(last_slash(v@) is None);
        } else {
            assert(v@.take(i as int).last() == v@[i - 1]);
            assert(last_slash(v@) == Some(i - 1int));
        }
    }
    if i == 0 {
        if v.len() == 0 {
            None
        } else {
            let r: Vec<char> = Vec::new();
            proof {
                assert(r@ =~= Seq::<char>::empty());
            }
            Some(r)
        }
    } else if i == 1 {
        if v.len() == 1 {
            None
        } else {
            let mut r: Vec<char> = Vec::new();
            r.push('/');
            proof {
                assert(r@ =~= seq!['/']);
            }
            Some(r)
        }
    } else {
        Some(sub_chars(v, 0, i - 1))
    }
}

/// Joins a relative path onto a directory.
fn join_vec(a: Vec<char>, b: &Vec<char>) -> (r: Vec<char>)
    ensures
        r@ == join_path(a@, b@),
{
    let ghost a0 = a@;
    let mut r = a;
    if r.len() > 0 && r[r.len() - 1] != '/' {
        r.push('/');
    }
    let ghost base = r@;
    let mut i: usize = 0;
    while i < b.len()
        invariant
            i <= b@.len(),
            r@ == base + b@.take(i as int),
        decreases b@.len() - i,
    {
        r.push(b[i]);
        proof {
            assert(r@ =~= base + b@.take(i as int + 1));
        }
        i += 1;
    }
    proof {
        assert(b@.take(b@.len() as int) =~= b@);
        assert(r@ =~= join_path(a0, b@)) by {
            if a0.len() == 0 {
                assert(base =~= a0);
            } else if a0.last() == '/' {
                assert(base =~= a0);
            } else {
                assert(base =~= a0 + seq!['/']);
            }
        }
    }
    r
}

/// Whether `v` ends with the characters of `p`.
fn vec_ends_with(v: &Vec<char>, p: &Vec<char>) -> (r: bool)
    ensures
        r == is_suffix(p@, v@),
{
    if p.len() > v.len() {
        return false;
    }
    let off = v.len() - p.len();
    let mut i: usize = 0;
    while i < p.len()
        invariant
            i <= p@.len(),
            p@.len() <= v@.len(),
            off == v@.len() - p@.len(),
            off + p@.len() <= usize::MAX,
            forall|j: int| 0 <= j < i ==> v@[off + j] == p@[j],
        decreases p@.len() - i,
    {
        if v[off + i] != p[i] {
            proof {
                assert(v@.subrange(v@.len() - p@.len(), v@.len() as int)[i as int] != p@[i as int]);
            }
            return false;
        }
        i += 1;
    }
    proof {
        assert(v@.subrange(v@.len() - p@.len(), v@.len() as int) =~= p@);
    }
    true
}

/// Splits a path at its separators, as `path_pieces` describes.
fn split_pieces_exec(v: &Vec<char>) -> (r: Vec<Vec<char>>)
    ensures
        char_views(r@) == path_pieces(v@),
    decreases v@.len(),
{
    let _vl = v.len();
    match find_char_exec(v, '/', 0) {
        None => {
            let piece = sub_chars(v, 0, v.len());
            proof {
                assert(piece@ =~= v@);
            }
            let mut r: Vec<Vec<char>> = Vec::new();
            r.push(piece);
            proof {
                assert(char_views(r@) =~= path_pieces(v@));
            }
            r
        },
        Some(k) => {
            let head = sub_chars(v, 0, k);
            let rest = sub_chars(v, k + 1, v.len());
            proof {
                assert(rest@ =~= v@.skip(k as int + 1));
            }
            let tail = split_pieces_exec(&rest);
            let mut r: Vec<Vec<char>> = Vec::new();
            r.push(head);
            let ghost r0 = r@;
            let ghost t0 = tail@;
            let mut t2 = tail;
            r.append(&mut t2);
            proof {
                assert(char_views(r@) =~= char_views(r0) + char_views(t0));
                assert(char_views(r@) =~= path_pieces(v@));
            }
            r
        },
    }
}

/// The piece is the current-directory marker.
fn piece_is_dot(piece: &Vec<char>) -> (r: bool)
    ensures
        r == (piece@ == "."@),
{
    proof {
        reveal_strlit(".");
    }
    if piece.len() == 1 && piece[0] == '.' {
        proof {
            assert(piece@ =~= "."@);
        }
        true
    } else {
        false
    }
}

/// The piece is the parent-directory marker.
fn piece_is_dotdot(piece: &Vec<char>) -> (r: bool)
    ensures
        r == (piece@ == ".."@),
{
    proof {
        reveal_strlit("..");
    }
    if piece.len() == 2 && piece[0] == '.' && piece[1] == '.' {
        proof {
            assert(piece@ =~= ".."@);
        }
        true
    } else {
        false
    }
}

/// Collapses path pieces into canonical segment form, as `norm_fold`
/// describes.
fn norm_fold_exec(pieces: &Vec<Vec<char>>, abs: bool) -> (r: Vec<Vec<char>>)
    ensures
        char_views(r@) == norm_fold(char_views(pieces@), abs),
{
    let mut out: Vec<Vec<char>> = Vec::new();
    let mut i: usize = 0;
    proof {
        assert(char_views(out@) =~= norm_fold(char_views(pieces@).take(0), abs));
    }
    while i < pieces.len()
        invariant
            i <= pieces@.len(),
            char_views(out@) == norm_fold(char_views(pieces@).take(i as int), abs),
        decreases pieces@.len() - i,
    {
        let piece = &pieces[i];
        let ghost prefix = char_views(pieces@).take(i as int + 1);
        proof {
            assert(prefix.drop_last() =~= char_views(pieces@).take(i as int));
            assert(prefix.last() == piece@);
        }
        let ghost out0 = out@;
        if piece.len() == 0 || piece_is_dot(piece) {
        } else if piece_is_dotdot(piece) {
            let keep_marker = out.len() == 0 || {
                let prev_is_dotdot = piece_is_dotdot(&out[out.len() - 1]);
                prev_is_dotdot
            };
            if !keep_marker {
                let popped = out.pop();
                proof {
                    assert(char_views(out@) =~= char_views(out0).drop_last());
                }
            } else if !abs {
                let copy = sub_chars(piece, 0, piece.len());
                proof {
                    assert(copy@ =~= piece@);
                }
                out.push(copy);
                proof {
                    assert(char_views(out@) =~= char_views(out0).push(piece@));
                }
            }
        } else {
            let copy = sub_chars(piece, 0, piece.len());
            proof {
                assert(copy@ =~= piece@);
            }
            out.push(copy);
            proof {
                assert(char_views(out@) =~= char_views(out0).push(piece@));
            }
        }
        i += 1;
    }
    proof {
        assert(char_views(pieces@).take(pieces@.len() as int) =~= char_views(pieces@));
    }
    out
}

/// Reassembles path pieces with separators, as `join_pieces` describes.
fn join_pieces_exec(pieces: &Vec<Vec<char>>) -> (r: Vec<char>)
    ensures
        r@ == join_pieces(char_views(pieces@)),
{
    let mut out: Vec<char> = Vec::new();
    let mut i: usize = 0;
    proof {
        assert(out@ =~= join_pieces(char_views(pieces@).take(0)));
    }
    while i < pieces.len()
        invariant
            i <= pieces@.len(),
            out@ == join_pieces(char_views(pieces@).take(i as int)),
        decreases pieces@.len() - i,
    {
        let ghost prefix = char_views(pieces@).take(i as int + 1);
        proof {
            assert(prefix.drop_last() =~= char_views(pieces@).take(i as int));
            assert(prefix.last() == pieces@[i as int]@);
            assert(prefix[0] == char_views(pieces@).take(i as int + 1)[0]);
        }
        let ghost out0 = out@;
        if i > 0 {
            out.push('/');
        }
        let piece = &pieces[i];
        let mut j: usize = 0;
        let ghost mid = out@;
        while j < piece.len()
            invariant
                j <= piece@.len(),
                out@ == mid + piece@.take(j as int),
            decreases piece@.len() - j,
        {
            out.push(piece[j]);
            proof {
                assert(out@ =~= mid + piece@.take(j as int + 1));
            }
            j += 1;
        }
        proof {
            assert(piece@.take(piece@.len() as int) =~= piece@);
            if i == 0 {
                assert(out@ =~= piece@);
                assert(prefix.len() == 1 && prefix[0] == piece@);
            } else {
                assert(out@ =~= out0 + seq!['/'] + piece@);
            }
            assert(out@ =~= join_pieces(prefix));
        }
        i += 1;
    }
    proof {
        assert(char_views(pieces@).take(pieces@.len() as int) =~= char_views(pieces@));
    }
    out
}

/// Rewrites a path into canonical segment form, as `normalize_path`
/// describes.
fn normalize_chars(v: &Vec<char>) -> (r: Vec<char>)
    ensures
        r@ == normalize_path(v@),
{
    let abs = v.len() > 0 && v[0] == '/';
    let pieces = split_pieces_exec(v);
    let folded = norm_fold_exec(&pieces, abs);
    let joined = join_pieces_exec(&folded);
    if abs {
        let mut out: Vec<char> = Vec::new();
        out.push('/');
        let ghost head = out@;
        let ghost j0 = joined@;
        let mut tail = joined;
        out.append(&mut tail);
        proof {
            assert(out@ =~= head + j0);
            assert(out@ =~= seq!['/'] + j0);
        }
        out
    } else {
        joined
    }
}

/// Rewrites a path into canonical segment form: `.` pieces, resolvable
/// `..` pieces, doubled and trailing separators are collapsed.
pub fn normalized_path(p: &str) -> (r: String)
    ensures
        r@ == normalize_path(p@),
{
    let v = chars_of(p);
    let n = normalize_chars(&v);
    string_from_chars(&n)
}

/// Resolves an import source against the importing file and the
/// repository root, as `resolve_import_spec` describes.
pub fn resolve_import_path(importing_file: &str, import_source: &str, root_path: &str) -> (r:
    Option<String>)
    ensures
        match r {
            Some(p) => resolve_import_spec(importing_file@, import_source@, root_path@) == Some(
                p@,
            ),
            None => resolve_import_spec(importing_file@, import_source@, root_path@) is None,
        },
{
    let src = chars_of(import_source);
    let base: Vec<char>;
    if str_starts_with(import_source, "@awork/") {
        let shared = chars_of("libs/shared/src/lib");
        proof {
            reveal_strlit("@awork/");
            reveal_strlit("libs/shared/src/lib");
        }
        let rest = sub_chars(&src, 7, src.len());
        proof {
            assert(rest@ =~= import_source@.skip("@awork/"@.len() as int));
        }
        let lib_dir = join_vec(chars_of(root_path), &shared);
        base = join_vec(lib_dir, &rest);
    } else if str_starts_with(import_source, "./") || str_starts_with(import_source, "../") {
        let file = chars_of(importing_file);
        match parent_dir(&file) {
            Some(dir) => {
                base = join_vec(dir, &src);
            },
            None => {
                return None;
            },
        }
    } else {
        return None;
    }
    let base_n = normalize_chars(&base);
    let ts = chars_of(".ts");
    let tsx = chars_of(".tsx");
    let mut out = base_n;
    if !vec_ends_with(&out, &ts) && !vec_ends_with(&out, &tsx) {
        let ghost pre = out@;
        proof {
            reveal_strlit(".ts");
        }
        out.push('.');
        out.push('t');
        out.push('s');
        proof {
            assert(".ts"@ =~= seq!['.', 't', 's']);
            assert(out@ =~= pre + ".ts"@);
        }
    }
    Some(string_from_chars(&out))
}

/// The end of the run of word characters beginning at `i`.
pub open spec fn word_run_end(s: Seq<char>, i: int) -> int
    decreases s.len() - i,
{
    if i < 0 || i >= s.len() {
        i
    } else if is_word_char(s[i]) {
        word_run_end(s, i + 1)
    } else {
        i
    }
}

fn word_run(v: &Vec<char>, i: usize) -> (r: usize)
    requires
        i <= v@.len(),
    ensures
        r == word_run_end(v@, i as int),
        i <= r <= v@.len(),
    decreases v@.len() - i,
{
    if i == v.len() {
        return i;
    }
    let c = v[i];
    if char_is_alphanumeric(c) || c == '_' {
        word_run(v, i + 1)
    } else {
        i
    }
}

/// The first position at or after `i` that holds no general whitespace.
pub open spec fn skip_uws_spec(s: Seq<char>, i: int) -> int
    decreases s.len() - i,
{
    if i < 0 || i >= s.len() {
        i
    } else if is_whitespace_of(s[i]) {
        skip_uws_spec(s, i + 1)
    } else {
        i
    }
}

fn skip_uws(v: &Vec<char>, i: usize) -> (r: usize)
    requires
        i <= v@.len(),
    ensures
        r == skip_uws_spec(v@, i as int),
        i <= r <= v@.len(),
    decreases v@.len() - i,
{
    if i == v.len() {
        return i;
    }
    if char_is_whitespace(v[i]) {
        skip_uws(v, i + 1)
    } else {
        i
    }
}

proof fn lemma_first_occ_bounds(hay: Seq<char>, needle: Seq<char>, from: int, p: int)
    requires
        first_occ(hay, needle, from) == Some(p),
    ensures
        from <= p,
        p + needle.len() <= hay.len(),
        0 <= p,
    decreases hay.len() - from,
{
    if from < 0 || from + needle.len() > hay.len() {
    } else if needle.len() == 0 {
    } else if hay.subrange(from, from + needle.len() as int) == needle {
    } else {
        lemma_first_occ_bounds(hay, needle, from + 1, p);
    }
}

/// The name declared by an `export <keyword> Name` occurrence in the line:
/// the first keyword occurrence standing alone as a word and followed by
/// whitespace whose following identifier is nonempty.
pub open spec fn export_name_from(line: Seq<char>, kw: Seq<char>, start: int) -> Option<Seq<char>>
    decreases line.len() - start,
    when kw.len() >= 1 && start >= 0
    via export_name_from_decreases
{
    match first_occ(line, kw, start) {
        None => None,
        Some(pos) => {
            let before_ok = pos == 0 || !is_word_char(line[pos - 1]);
            let after = pos + kw.len() as int;
            let after_ok = after < line.len() && is_whitespace_of(line[after]);
            if before_ok && after_ok {
                let id_lo = skip_uws_spec(line, after);
                let id_hi = word_run_end(line, id_lo);
                if id_hi > id_lo {
                    Some(line.subrange(id_lo, id_hi))
                } else {
                    export_name_from(line, kw, pos + kw.len() as int)
                }
            } else {
                export_name_from(line, kw, pos + kw.len() as int)
            }
        },
    }
}

#[via_fn]
proof fn export_name_from_decreases(line: Seq<char>, kw: Seq<char>, start: int) {
    match first_occ(line, kw, start) {
        None => {},
        Some(pos) => {
            lemma_first_occ_bounds(line, kw, start, pos);
        },
    }
}

fn export_name_search(line: &Vec<char>, kw: &Vec<char>, start: usize) -> (r: Option<(usize, usize)>)
    requires
        kw@.len() >= 1,
        start <= line@.len(),
    ensures
        match r {
            Some(b) => b.0 <= b.1 <= line@.len() && export_name_from(line@, kw@, start as int)
                == Some(line@.subrange(b.0 as int, b.1 as int)),
            None => export_name_from(line@, kw@, start as int) is None,
        },
    decreases line@.len() - start,
{
    let total = line.len();
    match find_from(line, kw, start) {
        None => None,
        Some(pos) => {
            proof {
                lemma_first_occ_bounds(line@, kw@, start as int, pos as int);
                assert(pos + kw@.len() <= total);
            }
            let before_ok = pos == 0 || {
                let c = line[pos - 1];
                !(char_is_alphanumeric(c) || c == '_')
            };
            let after = pos + kw.len();
            let after_ok = after < line.len() && char_is_whitespace(line[after]);
            if before_ok && after_ok {
                let id_lo = skip_uws(line, after);
                let id_hi = word_run(line, id_lo);
                if id_hi > id_lo {
                    return Some((id_lo, id_hi));
                }
            }
            export_name_search(line, kw, pos + kw.len())
        },
    }
}

/// Extracts the identifier declared after `keyword` in an export line:
/// the keyword must stand alone as a word and be followed by whitespace
/// and a nonempty identifier.
pub fn extract_export_name(line: &str, keyword: &str) -> (r: Option<String>)
    requires
        keyword@.len() >= 1,
    ensures
        match r {
            Some(s) => export_name_from(line@, keyword@, 0) == Some(s@),
            None => export_name_from(line@, keyword@, 0) is None,
        },
{
    let lv = chars_of(line);
    let kv = chars_of(keyword);
    match export_name_search(&lv, &kv, 0) {
        Some((lo, hi)) => {
            let part = sub_chars(&lv, lo, hi);
            Some(string_from_chars(&part))
        },
        None => None,
    }
}

/// The number of whole-word occurrences of `name` in `s`, scanning from
/// `from`: an occurrence counts when no word character directly precedes
/// or follows it.
pub open spec fn word_occurrences(s: Seq<char>, name: Seq<char>, from: int) -> int
    decreases s.len() - from,
    when name.len() >= 1 && from >= 0
    via word_occurrences_decreases
{
    match first_occ(s, name, from) {
        None => 0,
        Some(pos) => {
            let before_ok = pos == 0 || !is_word_char(s[pos - 1]);
            let fin = pos + name.len() as int;
            let after_ok = fin == s.len() || !is_word_char(s[fin]);
            if before_ok && after_ok {
                1 + word_occurrences(s, name, fin)
            } else {
                word_occurrences(s, name, pos + 1)
            }
        },
    }
}

#[via_fn]
proof fn word_occurrences_decreases(s: Seq<char>, name: Seq<char>, from: int) {
    match first_occ(s, name, from) {
        None => {},
        Some(pos) => {
            lemma_first_occ_bounds(s, name, from, pos);
        },
    }
}

fn count_word_occurrences(v: &Vec<char>, name: &Vec<char>, from: usize, so_far: usize) -> (r:
    usize)
    requires
        name@.len() >= 1,
        from <= v@.len(),
        so_far <= from,
    ensures
        r == so_far + word_occurrences(v@, name@, from as int),
        word_occurrences(v@, name@, from as int) >= 0,
    decreases v@.len() - from,
{
    let total = v.len();
    match find_from(v, name, from) {
        None => so_far,
        Some(pos) => {
            proof {
                lemma_first_occ_bounds(v@, name@, from as int, pos as int);
                assert(pos + name@.len() <= total);
            }
            let before_ok = pos == 0 || {
                let c = v[pos - 1];
                !(char_is_alphanumeric(c) || c == '_')
            };
            let fin = pos + name.len();
            let after_ok = fin == v.len() || {
                let c = v[fin];
                !(char_is_alphanumeric(c) || c == '_')
            };
            if before_ok && after_ok {
                count_word_occurrences(v, name, fin, so_far + 1)
            } else {
                count_word_occurrences(v, name, pos + 1, so_far)
            }
        },
    }
}

/// Whether a declaration is referred to elsewhere in its own file: its
/// name occurs as a whole word more than once (the declaration itself
/// being one occurrence).
pub fn is_entity_used_locally(content: &str, entity_name: &str) -> (r: bool)
    ensures
        entity_name@.len() >= 1 ==> r == (word_occurrences(content@, entity_name@, 0) > 1),
        entity_name@.len() == 0 ==> !r,
{
    let cv = chars_of(content);
    let nv = chars_of(entity_name);
    if nv.len() == 0 {
        return false;
    }
    let count = count_word_occurrences(&cv, &nv, 0, 0);
    count > 1
}


/// The first position at or after `i` holding character `c`.
pub open spec fn find_char(s: Seq<char>, c: char, i: int) -> Option<int>
    decreases s.len() - i,
{
    if i < 0 || i >= s.len() {
        None
    } else if s[i] == c {
        Some(i)
    } else {
        find_char(s, c, i + 1)
    }
}

/// The first position at or after `i` holding either quote character.
pub open spec fn find_quote(s: Seq<char>, i: int) -> Option<int>
    decreases s.len() - i,
{
    if i < 0 || i >= s.len() {
        None
    } else if s[i] == '\'' || s[i] == '"' {
        Some(i)
    } else {
        find_quote(s, i + 1)
    }
}

proof fn lemma_find_char_bounds(s: Seq<char>, c: char, i: int, p: int)
    requires
        find_char(s, c, i) == Some(p),
    ensures
        i <= p < s.len(),
        0 <= p,
        s[p] == c,
    decreases s.len() - i,
{
    if i < 0 || i >= s.len() {
    } else if s[i] == c {
    } else {
        lemma_find_char_bounds(s, c, i + 1, p);
    }
}

proof fn lemma_find_quote_bounds(s: Seq<char>, i: int, p: int)
    requires
        find_quote(s, i) == Some(p),
    ensures
        i <= p < s.len(),
        0 <= p,
    decreases s.len() - i,
{
    if i < 0 || i >= s.len() {
    } else if s[i] == '\'' || s[i] == '"' {
    } else {
        lemma_find_quote_bounds(s, i + 1, p);
    }
}

fn find_char_exec(v: &Vec<char>, c: char, i: usize) -> (r: Option<usize>)
    requires
        i <= v@.len(),
    ensures
        match r {
            Some(p) => find_char(v@, c, i as int) == Some(p as int) && i <= p < v@.len(),
            None => find_char(v@, c, i as int) is None,
        },
    decreases v@.len() - i,
{
    if i == v.len() {
        return None;
    }
    if v[i] == c {
        Some(i)
    } else {
        find_char_exec(v, c, i + 1)
    }
}

fn find_quote_exec(v: &Vec<char>, i: usize) -> (r: Option<usize>)
    requires
        i <= v@.len(),
    ensures
        match r {
            Some(p) => find_quote(v@, i as int) == Some(p as int) && i <= p < v@.len(),
            None => find_quote(v@, i as int) is None,
        },
    decreases v@.len() - i,
{
    if i == v.len() {
        return None;
    }
    if v[i] == '\'' || v[i] == '"' {
        Some(i)
    } else {
        find_quote_exec(v, i + 1)
    }
}

/// The word `w` stands at position `i` of `s`.
pub open spec fn lit_at(s: Seq<char>, i: int, w: Seq<char>) -> bool {
    0 <= i && i + w.len() <= s.len() && s.subrange(i, i + w.len() as int) == w
}

fn lit_at_exec(v: &Vec<char>, i: usize, w: &Vec<char>) -> (r: bool)
    ensures
        r == lit_at(v@, i as int, w@),
{
    if i > v.len() || w.len() > v.len() - i {
        return false;
    }
    let mut j: usize = 0;
    while j < w.len()
        invariant
            i + w@.len() <= v@.len(),
            v@.len() <= usize::MAX,
            j <= w@.len(),
            forall|x: int| 0 <= x < j ==> v@[i + x] == w@[x],
        decreases w@.len() - j,
    {
        if v[i + j] != w[j] {
            proof {
                assert(v@.subrange(i as int, i + w@.len() as int)[j as int] != w@[j as int]);
            }
            return false;
        }
        j += 1;
    }
    proof {
        assert(v@.subrange(i as int, i + w@.len() as int) =~= w@);
    }
    true
}

/// The pieces of a named-import statement at position `p` (the start of
/// the word "import"): the brace span holding the names, the quoted
/// module source, and the end of the match.
pub open spec fn match_named(s: Seq<char>, p: int) -> Option<(int, int, int, int, int)> {
    let j = skip_ws_spec(s, p + "import"@.len() as int);
    if !(j < s.len() && s[j] == '{') {
        None
    } else {
        match find_char(s, '}', j + 1) {
            None => None,
            Some(k) => if k == j + 1 {
                None
            } else {
                let f = skip_ws_spec(s, k + 1);
                if !lit_at(s, f, "from"@) {
                    None
                } else {
                    let q = skip_ws_spec(s, f + "from"@.len() as int);
                    if !(q < s.len() && (s[q] == '\'' || s[q] == '"')) {
                        None
                    } else {
                        match find_quote(s, q + 1) {
                            None => None,
                            Some(e) => if e == q + 1 {
                                None
                            } else {
                                Some((j + 1, k, q + 1, e, e + 1))
                            },
                        }
                    }
                }
            },
        }
    }
}

/// The pieces of a default-import statement at position `p`: the imported
/// identifier, the quoted module source, and the end of the match.
pub open spec fn match_default(s: Seq<char>, p: int) -> Option<(int, int, int, int, int)> {
    let j = skip_ws_spec(s, p + "import"@.len() as int);
    if j == p + "import"@.len() as int {
        None
    } else {
        let w = word_run_end(s, j);
        if w == j {
            None
        } else {
            let f = skip_ws_spec(s, w);
            if f == w || !lit_at(s, f, "from"@) {
                None
            } else {
                let q = skip_ws_spec(s, f + "from"@.len() as int);
                if !(q < s.len() && (s[q] == '\'' || s[q] == '"')) {
                    None
                } else {
                    match find_quote(s, q + 1) {
                        None => None,
                        Some(e) => if e == q + 1 {
                            None
                        } else {
                            Some((j, w, q + 1, e, e + 1))
                        },
                    }
                }
            }
        }
    }
}

/// The pieces of a lazy-loaded import at position `p`: the quoted module
/// source, the member name selected in the callback, and the end of the
/// match.
pub open spec fn match_lazy(s: Seq<char>, p: int) -> Option<(int, int, int, int, int)> {
    let j = skip_ws_spec(s, p + "import"@.len() as int);
    if !(j < s.len() && s[j] == '(') {
        None
    } else {
        let q = skip_ws_spec(s, j + 1);
        if !(q < s.len() && (s[q] == '\'' || s[q] == '"')) {
            None
        } else {
            match find_quote(s, q + 1) {
                None => None,
                Some(e) => if e == q + 1 {
                    None
                } else {
                    let cp = skip_ws_spec(s, e + 1);
                    if !(cp < s.len() && s[cp] == ')') {
                        None
                    } else if !lit_at(s, cp + 1, ".then"@) {
                        None
                    } else {
                        let op = skip_ws_spec(s, cp + 1 + ".then"@.len() as int);
                        if !(op < s.len() && s[op] == '(') {
                            None
                        } else {
                            let a1 = skip_ws_spec(s, op + 1);
                            let w1 = word_run_end(s, a1);
                            if w1 == a1 {
                                None
                            } else {
                                let ar = skip_ws_spec(s, w1);
                                if !lit_at(s, ar, "=>"@) {
                                    None
                                } else {
                                    let a2 = skip_ws_spec(s, ar + "=>"@.len() as int);
                                    let w2 = word_run_end(s, a2);
                                    if w2 == a2 || !(w2 < s.len() && s[w2] == '.') {
                                        None
                                    } else {
                                        let nlo = w2 + 1;
                                        let nhi = word_run_end(s, nlo);
                                        if nhi == nlo {
                                            None
                                        } else {
                                            let cl = skip_ws_spec(s, nhi);
                                            if !(cl < s.len() && s[cl] == ')') {
                                                None
                                            } else {
                                                Some((nlo, nhi, q + 1, e, cl + 1))
                                            }
                                        }
                                    }
                                }
                            }
                        }
                    }
                }
            }
        }
    }
}

/// The import reference one comma-separated name part contributes: the
/// part is trimmed, an empty part is dropped, and an alias keeps the
/// original name.
pub open spec fn part_to_imports(part: Seq<char>, path: Seq<char>) -> Seq<ImportModel> {
    let t = trim_spec(part);
    if t.len() == 0 {
        Seq::empty()
    } else {
        let nm = match first_occ(t, " as "@, 0) {
            Some(pos) => trim_spec(t.subrange(0, pos)),
            None => t,
        };
        seq![
            ImportModel {
                id: crate::entity::entity_id_spec(path, nm),
                name: nm,
                path: path,
            },
        ]
    }
}

/// The import references of a brace-enclosed name list, split on commas.
pub open spec fn split_names(names: Seq<char>, path: Seq<char>) -> Seq<ImportModel>
    decreases names.len(),
    via split_names_decreases
{
    match find_char(names, ',', 0) {
        None => part_to_imports(names, path),
        Some(c) => part_to_imports(names.subrange(0, c), path) + split_names(
            names.skip(c + 1),
            path,
        ),
    }
}

#[via_fn]
proof fn split_names_decreases(names: Seq<char>, path: Seq<char>) {
    match find_char(names, ',', 0) {
        None => {},
        Some(c) => {
            lemma_find_char_bounds(names, ',', 0, c);
        },
    }
}

/// All named imports found scanning from `from`: each statement whose
/// module source resolves contributes one reference per listed name.
pub open spec fn scan_named(s: Seq<char>, from: int, file: Seq<char>, root: Seq<char>) -> Seq<
    ImportModel,
>
    decreases s.len() - from,
    when from >= 0
    via scan_named_decreases
{
    match first_occ(s, "import"@, from) {
        None => Seq::empty(),
        Some(p) => match match_named(s, p) {
            Some(m) => {
                let raw = s.subrange(m.2, m.3);
                match resolve_import_spec(file, raw, root) {
                    None => scan_named(s, m.4, file, root),
                    Some(res) => split_names(s.subrange(m.0, m.1), res) + scan_named(
                        s,
                        m.4,
                        file,
                        root,
                    ),
                }
            },
            None => scan_named(s, p + 1, file, root),
        },
    }
}

/// All default imports found scanning from `from`; the keywords `type`
/// and `from` are never import names.
pub open spec fn scan_default(s: Seq<char>, from: int, file: Seq<char>, root: Seq<char>) -> Seq<
    ImportModel,
>
    decreases s.len() - from,
    when from >= 0
    via scan_default_decreases
{
    match first_occ(s, "import"@, from) {
        None => Seq::empty(),
        Some(p) => match match_default(s, p) {
            Some(m) => {
                let nm = s.subrange(m.0, m.1);
                let raw = s.subrange(m.2, m.3);
                if nm == "type"@ || nm == "from"@ {
                    scan_default(s, m.4, file, root)
                } else {
                    match resolve_import_spec(file, raw, root) {
                        None => scan_default(s, m.4, file, root),
                        Some(res) => seq![
                            ImportModel {
                                id: crate::entity::entity_id_spec(res, nm),
                                name: nm,
                                path: res,
                            },
                        ] + scan_default(s, m.4, file, root),
                    }
                }
            },
            None => scan_default(s, p + 1, file, root),
        },
    }
}

/// All lazy-loaded imports found scanning from `from`.
pub open spec fn scan_lazy(s: Seq<char>, from: int, file: Seq<char>, root: Seq<char>) -> Seq<
    ImportModel,
>
    decreases s.len() - from,
    when from >= 0
    via scan_lazy_decreases
{
    match first_occ(s, "import"@, from) {
        None => Seq::empty(),
        Some(p) => match match_lazy(s, p) {
            Some(m) => {
                let nm = s.subrange(m.0, m.1);
                let raw = s.subrange(m.2, m.3);
                match resolve_import_spec(file, raw, root) {
                    None => scan_lazy(s, m.4, file, root),
                    Some(res) => seq![
                        ImportModel {
                            id: crate::entity::entity_id_spec(res, nm),
                            name: nm,
                            path: res,
                        },
                    ] + scan_lazy(s, m.4, file, root),
                }
            },
            None => scan_lazy(s, p + 1, file, root),
        },
    }
}

proof fn lemma_skip_ws_bounds(s: Seq<char>, i: int)
    requires
        0 <= i <= s.len(),
    ensures
        i <= skip_ws_spec(s, i) <= s.len(),
    decreases s.len() - i,
{
    if i < s.len() && is_import_ws(s[i]) {
        lemma_skip_ws_bounds(s, i + 1);
    }
}

proof fn lemma_word_run_bounds(s: Seq<char>, i: int)
    requires
        0 <= i <= s.len(),
    ensures
        i <= word_run_end(s, i) <= s.len(),
    decreases s.len() - i,
{
    if i < s.len() && is_word_char(s[i]) {
        lemma_word_run_bounds(s, i + 1);
    }
}

/// A successful match begins after its "import" keyword and ends within
/// the text, strictly beyond where it began.
proof fn lemma_match_named_bounds(s: Seq<char>, p: int)
    requires
        0 <= p,
        p + "import"@.len() <= s.len(),
        match_named(s, p) is Some,
    ensures
        ({
            let m = match_named(s, p)->0;
            p < m.4 <= s.len() && 0 <= m.0 <= m.1 <= s.len() && 0 <= m.2 <= m.3 <= s.len()
        }),
{
    reveal_strlit("import");
    reveal_strlit("from");
    let j = skip_ws_spec(s, p + "import"@.len() as int);
    lemma_skip_ws_bounds(s, p + "import"@.len() as int);
    let k = find_char(s, '}', j + 1)->0;
    lemma_find_char_bounds(s, '}', j + 1, k);
    let f = skip_ws_spec(s, k + 1);
    lemma_skip_ws_bounds(s, k + 1);
    let q = skip_ws_spec(s, f + "from"@.len() as int);
    lemma_skip_ws_bounds(s, f + "from"@.len() as int);
    let e = find_quote(s, q + 1)->0;
    lemma_find_quote_bounds(s, q + 1, e);
}

proof fn lemma_match_default_bounds(s: Seq<char>, p: int)
    requires
        0 <= p,
        p + "import"@.len() <= s.len(),
        match_default(s, p) is Some,
    ensures
        ({
            let m = match_default(s, p)->0;
            p < m.4 <= s.len() && 0 <= m.0 <= m.1 <= s.len() && 0 <= m.2 <= m.3 <= s.len()
        }),
{
    reveal_strlit("import");
    reveal_strlit("from");
    let j = skip_ws_spec(s, p + "import"@.len() as int);
    lemma_skip_ws_bounds(s, p + "import"@.len() as int);
    let w = word_run_end(s, j);
    lemma_word_run_bounds(s, j);
    let f = skip_ws_spec(s, w);
    lemma_skip_ws_bounds(s, w);
    let q = skip_ws_spec(s, f + "from"@.len() as int);
    lemma_skip_ws_bounds(s, f + "from"@.len() as int);
    let e = find_quote(s, q + 1)->0;
    lemma_find_quote_bounds(s, q + 1, e);
}

proof fn lemma_match_lazy_bounds(s: Seq<char>, p: int)
    requires
        0 <= p,
        p + "import"@.len() <= s.len(),
        match_lazy(s, p) is Some,
    ensures
        ({
            let m = match_lazy(s, p)->0;
            p < m.4 <= s.len() && 0 <= m.0 <= m.1 <= s.len() && 0 <= m.2 <= m.3 <= s.len()
        }),
{
    reveal_strlit("import");
    reveal_strlit(".then");
    reveal_strlit("=>");
    let j = skip_ws_spec(s, p + "import"@.len() as int);
    lemma_skip_ws_bounds(s, p + "import"@.len() as int);
    let q = skip_ws_spec(s, j + 1);
    lemma_skip_ws_bounds(s, j + 1);
    let e = find_quote(s, q + 1)->0;
    lemma_find_quote_bounds(s, q + 1, e);
    let cp = skip_ws_spec(s, e + 1);
    lemma_skip_ws_bounds(s, e + 1);
    let op = skip_ws_spec(s, cp + 1 + ".then"@.len() as int);
    lemma_skip_ws_bounds(s, cp + 1 + ".then"@.len() as int);
    let a1 = skip_ws_spec(s, op + 1);
    lemma_skip_ws_bounds(s, op + 1);
    let w1 = word_run_end(s, a1);
    lemma_word_run_bounds(s, a1);
    let ar = skip_ws_spec(s, w1);
    lemma_skip_ws_bounds(s, w1);
    let a2 = skip_ws_spec(s, ar + "=>"@.len() as int);
    lemma_skip_ws_bounds(s, ar + "=>"@.len() as int);
    let w2 = word_run_end(s, a2);
    lemma_word_run_bounds(s, a2);
    let nhi = word_run_end(s, w2 + 1);
    lemma_word_run_bounds(s, w2 + 1);
    let cl = skip_ws_spec(s, nhi);
    lemma_skip_ws_bounds(s, nhi);
}

#[via_fn]
proof fn scan_named_decreases(s: Seq<char>, from: int, file: Seq<char>, root: Seq<char>) {
    reveal_strlit("import");
    match first_occ(s, "import"@, from) {
        None => {},
        Some(p) => {
            lemma_first_occ_bounds(s, "import"@, from, p);
            if match_named(s, p) is Some {
                lemma_match_named_bounds(s, p);
            }
        },
    }
}

#[via_fn]
proof fn scan_default_decreases(s: Seq<char>, from: int, file: Seq<char>, root: Seq<char>) {
    reveal_strlit("import");
    match first_occ(s, "import"@, from) {
        None => {},
        Some(p) => {
            lemma_first_occ_bounds(s, "import"@, from, p);
            if match_default(s, p) is Some {
                lemma_match_default_bounds(s, p);
            }
        },
    }
}

#[via_fn]
proof fn scan_lazy_decreases(s: Seq<char>, from: int, file: Seq<char>, root: Seq<char>) {
    reveal_strlit("import");
    match first_occ(s, "import"@, from) {
        None => {},
        Some(p) => {
            lemma_first_occ_bounds(s, "import"@, from, p);
            if match_lazy(s, p) is Some {
                lemma_match_lazy_bounds(s, p);
            }
        },
    }
}

/// Every import reference of the text, comments stripped first: the named
/// references in statement order, then the default ones, then the
/// lazy-loaded ones.
pub open spec fn extract_imports_spec(text: Seq<char>, file: Seq<char>, root: Seq<char>) -> Seq<
    ImportModel,
> {
    let t = strip_comments_spec(text);
    scan_named(t, 0, file, root) + scan_default(t, 0, file, root) + scan_lazy(t, 0, file, root)
}


/// The models of a list of import references.
pub open spec fn import_views(s: Seq<ImportInfo>) -> Seq<ImportModel> {
    Seq::new(s.len(), |i: int| s[i]@)
}

fn match_named_exec(v: &Vec<char>, p: usize) -> (r: Option<(usize, usize, usize, usize, usize)>)
    requires
        p + 6 <= v@.len(),
    ensures
        match r {
            Some(m) => match_named(v@, p as int) == Some(
                (m.0 as int, m.1 as int, m.2 as int, m.3 as int, m.4 as int),
            ) && m.0 <= m.1 <= v@.len() && m.2 <= m.3 <= v@.len() && p < m.4 <= v@.len(),
            None => match_named(v@, p as int) is None,
        },
{
    let _vl = v.len();
    proof {
        reveal_strlit("import");
        reveal_strlit("from");
    }
    let j = skip_ws(v, p + 6);
    if !(j < v.len() && v[j] == '{') {
        return None;
    }
    let k = match find_char_exec(v, '}', j + 1) {
        Some(k) => k,
        None => {
            return None;
        },
    };
    if k == j + 1 {
        return None;
    }
    let f = skip_ws(v, k + 1);
    let from_kw = chars_of("from");
    if !lit_at_exec(v, f, &from_kw) {
        return None;
    }
    let q = skip_ws(v, f + 4);
    if !(q < v.len() && (v[q] == '\'' || v[q] == '"')) {
        return None;
    }
    let e = match find_quote_exec(v, q + 1) {
        Some(e) => e,
        None => {
            return None;
        },
    };
    if e == q + 1 {
        return None;
    }
    Some((j + 1, k, q + 1, e, e + 1))
}

fn match_default_exec(v: &Vec<char>, p: usize) -> (r: Option<(usize, usize, usize, usize, usize)>)
    requires
        p + 6 <= v@.len(),
    ensures
        match r {
            Some(m) => match_default(v@, p as int) == Some(
                (m.0 as int, m.1 as int, m.2 as int, m.3 as int, m.4 as int),
            ) && m.0 <= m.1 <= v@.len() && m.2 <= m.3 <= v@.len() && p < m.4 <= v@.len(),
            None => match_default(v@, p as int) is None,
        },
{
    let _vl = v.len();
    proof {
        reveal_strlit("import");
        reveal_strlit("from");
    }
    let j = skip_ws(v, p + 6);
    if j == p + 6 {
        return None;
    }
    let w = word_run(v, j);
    if w == j {
        return None;
    }
    let f = skip_ws(v, w);
    let from_kw = chars_of("from");
    if f == w {
        return None;
    }
    if !lit_at_exec(v, f, &from_kw) {
        return None;
    }
    let q = skip_ws(v, f + 4);
    if !(q < v.len() && (v[q] == '\'' || v[q] == '"')) {
        return None;
    }
    let e = match find_quote_exec(v, q + 1) {
        Some(e) => e,
        None => {
            return None;
        },
    };
    if e == q + 1 {
        return None;
    }
    Some((j, w, q + 1, e, e + 1))
}

fn match_lazy_exec(v: &Vec<char>, p: usize) -> (r: Option<(usize, usize, usize, usize, usize)>)
    requires
        p + 6 <= v@.len(),
    ensures
        match r {
            Some(m) => match_lazy(v@, p as int) == Some(
                (m.0 as int, m.1 as int, m.2 as int, m.3 as int, m.4 as int),
            ) && m.0 <= m.1 <= v@.len() && m.2 <= m.3 <= v@.len() && p < m.4 <= v@.len(),
            None => match_lazy(v@, p as int) is None,
        },
{
    let _vl = v.len();
    proof {
        reveal_strlit("import");
        reveal_strlit(".then");
        reveal_strlit("=>");
    }
    let j = skip_ws(v, p + 6);
    if !(j < v.len() && v[j] == '(') {
        return None;
    }
    let q = skip_ws(v, j + 1);
    if !(q < v.len() && (v[q] == '\'' || v[q] == '"')) {
        return None;
    }
    let e = match find_quote_exec(v, q + 1) {
        Some(e) => e,
        None => {
            return None;
        },
    };
    if e == q + 1 {
        return None;
    }
    let cp = skip_ws(v, e + 1);
    if !(cp < v.len() && v[cp] == ')') {
        return None;
    }
    let then_kw = chars_of(".then");
    if !lit_at_exec(v, cp + 1, &then_kw) {
        return None;
    }
    let op = skip_ws(v, cp + 6);
    if !(op < v.len() && v[op] == '(') {
        return None;
    }
    let a1 = skip_ws(v, op + 1);
    let w1 = word_run(v, a1);
    if w1 == a1 {
        return None;
    }
    let ar = skip_ws(v, w1);
    let arrow_kw = chars_of("=>");
    if !lit_at_exec(v, ar, &arrow_kw) {
        return None;
    }
    let a2 = skip_ws(v, ar + 2);
    let w2 = word_run(v, a2);
    if w2 == a2 || !(w2 < v.len() && v[w2] == '.') {
        return None;
    }
    let nlo = w2 + 1;
    let nhi = word_run(v, nlo);
    if nhi == nlo {
        return None;
    }
    let cl = skip_ws(v, nhi);
    if !(cl < v.len() && v[cl] == ')') {
        return None;
    }
    Some((nlo, nhi, q + 1, e, cl + 1))
}

fn part_to_imports_exec(t: &Vec<char>, path: &String) -> (r: Vec<ImportInfo>)
    ensures
        import_views(r@) == part_to_imports(t@, path@),
{
    let (a, b) = trim_chars(t, 0, t.len());
    proof {
        assert(t@.subrange(0, t@.len() as int) =~= t@);
    }
    if a == b {
        let r: Vec<ImportInfo> = Vec::new();
        proof {
            assert(import_views(r@) =~= part_to_imports(t@, path@));
        }
        return r;
    }
    let tv = sub_chars(t, a, b);
    let as_kw = chars_of(" as ");
    let nm_vec: Vec<char>;
    match find_from(&tv, &as_kw, 0) {
        Some(pos) => {
            let (c, d) = trim_chars(&tv, 0, pos);
            proof {
                lemma_first_occ_bounds(tv@, " as "@, 0, pos as int);
            }
            nm_vec = sub_chars(&tv, c, d);
        },
        None => {
            nm_vec = tv;
        },
    }
    let name = string_from_chars(&nm_vec);
    let imp = ImportInfo::new(name, path.clone());
    let mut r: Vec<ImportInfo> = Vec::new();
    r.push(imp);
    proof {
        assert(import_views(r@) =~= part_to_imports(t@, path@));
    }
    r
}

fn split_names_exec(names: &Vec<char>, path: &String) -> (r: Vec<ImportInfo>)
    ensures
        import_views(r@) == split_names(names@, path@),
    decreases names@.len(),
{
    match find_char_exec(names, ',', 0) {
        None => part_to_imports_exec(names, path),
        Some(c) => {
            let _nl = names.len();
            let head_v = sub_chars(names, 0, c);
            let mut r = part_to_imports_exec(&head_v, path);
            let rest_v = sub_chars(names, c + 1, names.len());
            proof {
                assert(rest_v@ =~= names@.skip(c as int + 1));
            }
            let mut tail = split_names_exec(&rest_v, path);
            proof {
                assert(import_views(r@) + import_views(tail@) =~= split_names(names@, path@));
            }
            let ghost r0 = r@;
            let ghost t0 = tail@;
            r.append(&mut tail);
            proof {
                assert(import_views(r@) =~= import_views(r0) + import_views(t0));
            }
            r
        },
    }
}

fn scan_named_exec(v: &Vec<char>, from: usize, file: &str, root: &str) -> (r: Vec<ImportInfo>)
    requires
        from <= v@.len(),
    ensures
        import_views(r@) == scan_named(v@, from as int, file@, root@),
    decreases v@.len() - from,
{
    let _vl = v.len();
    let needle = chars_of("import");
    proof {
        reveal_strlit("import");
    }
    match find_from(v, &needle, from) {
        None => {
            let r: Vec<ImportInfo> = Vec::new();
            proof {
                assert(import_views(r@) =~= scan_named(v@, from as int, file@, root@));
            }
            r
        },
        Some(p) => {
            proof {
                lemma_first_occ_bounds(v@, "import"@, from as int, p as int);
            }
            match match_named_exec(v, p) {
                Some(m) => {
                    let raw_v = sub_chars(v, m.2, m.3);
                    let raw_s = string_from_chars(&raw_v);
                    match resolve_import_path(file, raw_s.as_str(), root) {
                        None => {
                            let r = scan_named_exec(v, m.4, file, root);
                            proof {
                                assert(import_views(r@) =~= scan_named(
                                    v@,
                                    from as int,
                                    file@,
                                    root@,
                                ));
                            }
                            r
                        },
                        Some(res) => {
                            let names_v = sub_chars(v, m.0, m.1);
                            let mut r = split_names_exec(&names_v, &res);
                            let mut tail = scan_named_exec(v, m.4, file, root);
                            let ghost r0 = r@;
                            let ghost t0 = tail@;
                            r.append(&mut tail);
                            proof {
                                assert(import_views(r@) =~= import_views(r0) + import_views(t0));
                                assert(import_views(r@) =~= scan_named(
                                    v@,
                                    from as int,
                                    file@,
                                    root@,
                                ));
                            }
                            r
                        },
                    }
                },
                None => {
                    let r = scan_named_exec(v, p + 1, file, root);
                    proof {
                        assert(import_views(r@) =~= scan_named(v@, from as int, file@, root@));
                    }
                    r
                },
            }
        },
    }
}

fn scan_default_exec(v: &Vec<char>, from: usize, file: &str, root: &str) -> (r: Vec<ImportInfo>)
    requires
        from <= v@.len(),
    ensures
        import_views(r@) == scan_default(v@, from as int, file@, root@),
    decreases v@.len() - from,
{
    let _vl = v.len();
    let needle = chars_of("import");
    proof {
        reveal_strlit("import");
        reveal_strlit("type");
        reveal_strlit("from");
    }
    match find_from(v, &needle, from) {
        None => {
            let r: Vec<ImportInfo> = Vec::new();
            proof {
                assert(import_views(r@) =~= scan_default(v@, from as int, file@, root@));
            }
            r
        },
        Some(p) => {
            proof {
                lemma_first_occ_bounds(v@, "import"@, from as int, p as int);
            }
            match match_default_exec(v, p) {
                Some(m) => {
                    let type_kw = chars_of("type");
                    let from_kw = chars_of("from");
                    let is_type = m.1 - m.0 == 4 && lit_at_exec(v, m.0, &type_kw);
                    let is_from = m.1 - m.0 == 4 && lit_at_exec(v, m.0, &from_kw);
                    proof {
                        if is_type {
                            assert(v@.subrange(m.0 as int, m.1 as int) =~= v@.subrange(
                                m.0 as int,
                                m.0 + 4int,
                            ));
                        }
                        if is_from {
                            assert(v@.subrange(m.0 as int, m.1 as int) =~= v@.subrange(
                                m.0 as int,
                                m.0 + 4int,
                            ));
                        }
                        if !is_type && v@.subrange(m.0 as int, m.1 as int) == "type"@ {
                            assert(m.1 - m.0 == 4);
                            assert(v@.subrange(m.0 as int, m.0 + 4int) =~= v@.subrange(
                                m.0 as int,
                                m.1 as int,
                            ));
                        }
                        if !is_from && v@.subrange(m.0 as int, m.1 as int) == "from"@ {
                            assert(m.1 - m.0 == 4);
                            assert(v@.subrange(m.0 as int, m.0 + 4int) =~= v@.subrange(
                                m.0 as int,
                                m.1 as int,
                            ));
                        }
                    }
                    if is_type || is_from {
                        let r = scan_default_exec(v, m.4, file, root);
                        proof {
                            assert(import_views(r@) =~= scan_default(
                                v@,
                                from as int,
                                file@,
                                root@,
                            ));
                        }
                        return r;
                    }
                    let raw_v = sub_chars(v, m.2, m.3);
                    let raw_s = string_from_chars(&raw_v);
                    match resolve_import_path(file, raw_s.as_str(), root) {
                        None => {
                            let r = scan_default_exec(v, m.4, file, root);
                            proof {
                                assert(import_views(r@) =~= scan_default(
                                    v@,
                                    from as int,
                                    file@,
                                    root@,
                                ));
                            }
                            r
                        },
                        Some(res) => {
                            let nm_v = sub_chars(v, m.0, m.1);
                            let name = string_from_chars(&nm_v);
                            let imp = ImportInfo::new(name, res);
                            let mut r: Vec<ImportInfo> = Vec::new();
                            r.push(imp);
                            let mut tail = scan_default_exec(v, m.4, file, root);
                            let ghost r0 = r@;
                            let ghost t0 = tail@;
                            r.append(&mut tail);
                            proof {
                                assert(import_views(r@) =~= import_views(r0) + import_views(t0));
                                assert(import_views(r@) =~= scan_default(
                                    v@,
                                    from as int,
                                    file@,
                                    root@,
                                ));
                            }
                            r
                        },
                    }
                },
                None => {
                    let r = scan_default_exec(v, p + 1, file, root);
                    proof {
                        assert(import_views(r@) =~= scan_default(v@, from as int, file@, root@));
                    }
                    r
                },
            }
        },
    }
}

fn scan_lazy_exec(v: &Vec<char>, from: usize, file: &str, root: &str) -> (r: Vec<ImportInfo>)
    requires
        from <= v@.len(),
    ensures
        import_views(r@) == scan_lazy(v@, from as int, file@, root@),
    decreases v@.len() - from,
{
    let _vl = v.len();
    let needle = chars_of("import");
    proof {
        reveal_strlit("import");
    }
    match find_from(v, &needle, from) {
        None => {
            let r: Vec<ImportInfo> = Vec::new();
            proof {
                assert(import_views(r@) =~= scan_lazy(v@, from as int, file@, root@));
            }
            r
        },
        Some(p) => {
            proof {
                lemma_first_occ_bounds(v@, "import"@, from as int, p as int);
            }
            match match_lazy_exec(v, p) {
                Some(m) => {
                    let raw_v = sub_chars(v, m.2, m.3);
                    let raw_s = string_from_chars(&raw_v);
                    match resolve_import_path(file, raw_s.as_str(), root) {
                        None => {
                            let r = scan_lazy_exec(v, m.4, file, root);
                            proof {
                                assert(import_views(r@) =~= scan_lazy(
                                    v@,
                                    from as int,
                                    file@,
                                    root@,
                                ));
                            }
                            r
                        },
                        Some(res) => {
                            let nm_v = sub_chars(v, m.0, m.1);
                            let name = string_from_chars(&nm_v);
                            let imp = ImportInfo::new(name, res);
                            let mut r: Vec<ImportInfo> = Vec::new();
                            r.push(imp);
                            let mut tail = scan_lazy_exec(v, m.4, file, root);
                            let ghost r0 = r@;
                            let ghost t0 = tail@;
                            r.append(&mut tail);
                            proof {
                                assert(import_views(r@) =~= import_views(r0) + import_views(t0));
                                assert(import_views(r@) =~= scan_lazy(
                                    v@,
                                    from as int,
                                    file@,
                                    root@,
                                ));
                            }
                            r
                        },
                    }
                },
                None => {
                    let r = scan_lazy_exec(v, p + 1, file, root);
                    proof {
                        assert(import_views(r@) =~= scan_lazy(v@, from as int, file@, root@));
                    }
                    r
                },
            }
        },
    }
}

/// The lexical extractor, configured with the repository root that
/// workspace-alias imports resolve against.
pub struct Parser {
    pub root_path: String,
}

impl Parser {
    pub fn new(root_path: &str) -> (r: Parser)
        ensures
            r.root_path@ == root_path@,
    {
        Parser { root_path: String::from_str(root_path) }
    }

    /// Every import reference of the file, as `extract_imports_spec`
    /// describes: named, default and lazy-loaded forms, with comments
    /// stripped first and module sources resolved to absolute paths.
    pub fn extract_imports(&self, content: &str, file_path: &str) -> (r: Vec<ImportInfo>)
        ensures
            import_views(r@) == extract_imports_spec(content@, file_path@, self.root_path@),
    {
        let stripped = strip_comments(content);
        let v = chars_of(stripped.as_str());
        let mut r = scan_named_exec(&v, 0, file_path, self.root_path.as_str());
        let mut d = scan_default_exec(&v, 0, file_path, self.root_path.as_str());
        let mut l = scan_lazy_exec(&v, 0, file_path, self.root_path.as_str());
        let ghost r0 = r@;
        let ghost d0 = d@;
        r.append(&mut d);
        proof {
            assert(import_views(r@) =~= import_views(r0) + import_views(d0));
        }
        let ghost rd0 = r@;
        let ghost l0 = l@;
        r.append(&mut l);
        proof {
            assert(import_views(r@) =~= import_views(rd0) + import_views(l0));
            assert(import_views(r@) =~= extract_imports_spec(
                content@,
                file_path@,
                self.root_path@,
            ));
        }
        r
    }
}


/// A line with any trailing carriage return removed.
pub open spec fn strip_cr(l: Seq<char>) -> Seq<char> {
    if l.len() > 0 && l.last() == '\r' {
        l.drop_last()
    } else {
        l
    }
}

/// The lines of a text, split on line feeds, each without a trailing
/// carriage return; a trailing line feed produces no final empty line.
pub open spec fn lines_of(s: Seq<char>) -> Seq<Seq<char>>
    decreases s.len(),
    via lines_of_decreases
{
    if s.len() == 0 {
        Seq::empty()
    } else {
        match find_char(s, '\n', 0) {
            None => seq![strip_cr(s)],
            Some(p) => seq![strip_cr(s.subrange(0, p))] + lines_of(s.skip(p + 1)),
        }
    }
}

#[via_fn]
proof fn lines_of_decreases(s: Seq<char>) {
    match find_char(s, '\n', 0) {
        None => {},
        Some(p) => {
            lemma_find_char_bounds(s, '\n', 0, p);
        },
    }
}

/// The views of a list of line buffers.
pub open spec fn char_views(s: Seq<Vec<char>>) -> Seq<Seq<char>> {
    Seq::new(s.len(), |i: int| s[i]@)
}

fn lines_exec(v: &Vec<char>) -> (r: Vec<Vec<char>>)
    ensures
        char_views(r@) == lines_of(v@),
    decreases v@.len(),
{
    let _vl = v.len();
    if v.len() == 0 {
        let r: Vec<Vec<char>> = Vec::new();
        proof {
            assert(char_views(r@) =~= lines_of(v@));
        }
        return r;
    }
    match find_char_exec(v, '\n', 0) {
        None => {
            let mut line = sub_chars(v, 0, v.len());
            proof {
                assert(line@ =~= v@);
            }
            if line.len() > 0 && line[line.len() - 1] == '\r' {
                let _ = line.pop();
            }
            proof {
                assert(line@ == strip_cr(v@));
            }
            let mut r: Vec<Vec<char>> = Vec::new();
            r.push(line);
            proof {
                assert(char_views(r@) =~= lines_of(v@));
            }
            r
        },
        Some(p) => {
            let mut line = sub_chars(v, 0, p);
            if line.len() > 0 && line[line.len() - 1] == '\r' {
                let _ = line.pop();
            }
            proof {
                assert(line@ == strip_cr(v@.subrange(0, p as int)));
            }
            let rest = sub_chars(v, p + 1, v.len());
            proof {
                assert(rest@ =~= v@.skip(p as int + 1));
            }
            let tail = lines_exec(&rest);
            let mut r: Vec<Vec<char>> = Vec::new();
            r.push(line);
            let ghost r0 = r@;
            let ghost t0 = tail@;
            let mut tail2 = tail;
            r.append(&mut tail2);
            proof {
                assert(char_views(r@) =~= char_views(r0) + char_views(t0));
                assert(char_views(r@) =~= lines_of(v@));
            }
            r
        },
    }
}

/// `w` occurs somewhere in `s`.
pub open spec fn has_substr(s: Seq<char>, w: Seq<char>) -> bool {
    first_occ(s, w, 0) is Some
}

fn has_substr_exec(v: &Vec<char>, w: &Vec<char>) -> (r: bool)
    ensures
        r == has_substr(v@, w@),
{
    match find_from(v, w, 0) {
        Some(_) => true,
        None => false,
    }
}

/// The entity a successful export detection contributes: its identity is
/// derived from the declaring file and the name; it starts out used
/// exactly when the name occurs in the file more than once.
#[verifier::opaque]
pub open spec fn decl_entity(
    nm: Seq<char>,
    kind: EntityType,
    text: Seq<char>,
    file: Seq<char>,
    deps: Seq<ImportModel>,
) -> EntityModel {
    EntityModel {
        id: crate::entity::entity_id_spec(file, nm),
        name: nm,
        kind: kind,
        file_path: file,
        deps: deps,
        used: word_occurrences(text, nm, 0) > 1,
    }
}

/// One export check on a line: when the guard holds and a name follows
/// the keyword, one entity of the given kind is declared.
#[verifier::opaque]
pub open spec fn decl_segment(
    cond: bool,
    t: Seq<char>,
    kw: Seq<char>,
    kind: EntityType,
    text: Seq<char>,
    file: Seq<char>,
    deps: Seq<ImportModel>,
) -> Seq<EntityModel> {
    if cond {
        match export_name_from(t, kw, 0) {
            Some(nm) => seq![decl_entity(nm, kind, text, file, deps)],
            None => Seq::empty(),
        }
    } else {
        Seq::empty()
    }
}

/// The entities one line of comment-stripped text declares, after
/// trimming: exported classes, enums, types, interfaces and functions,
/// and exported bindings — a binding holding a function expression counts
/// as a function, any other as a constant.
#[verifier::opaque]
pub open spec fn line_entities(
    line: Seq<char>,
    text: Seq<char>,
    file: Seq<char>,
    deps: Seq<ImportModel>,
) -> Seq<EntityModel> {
    let t = trim_spec(line);
    if t.len() == 0 {
        Seq::empty()
    } else {
        let ex = has_substr(t, "export"@);
        decl_segment(
            ex && has_substr(t, "class"@),
            t,
            "class"@,
            EntityType::Class,
            text,
            file,
            deps,
        ) + decl_segment(
            ex && has_substr(t, "enum"@),
            t,
            "enum"@,
            EntityType::Enum,
            text,
            file,
            deps,
        ) + decl_segment(
            ex && has_substr(t, "type"@) && !has_substr(t, "typeof"@),
            t,
            "type"@,
            EntityType::Type,
            text,
            file,
            deps,
        ) + decl_segment(
            ex && has_substr(t, "interface"@),
            t,
            "interface"@,
            EntityType::Interface,
            text,
            file,
            deps,
        ) + decl_segment(
            ex && has_substr(t, "function"@),
            t,
            "function"@,
            EntityType::Function,
            text,
            file,
            deps,
        ) + ({
            let binding_kind = if has_substr(t, "=>"@) || has_substr(t, "= function"@) {
                EntityType::Function
            } else {
                EntityType::Const
            };
            if is_prefix("export const"@, t) {
                decl_segment(true, t, "const"@, binding_kind, text, file, deps)
            } else if is_prefix("export let"@, t) {
                decl_segment(true, t, "let"@, binding_kind, text, file, deps)
            } else if is_prefix("export var"@, t) {
                decl_segment(true, t, "var"@, binding_kind, text, file, deps)
            } else {
                Seq::empty()
            }
        })
    }
}

/// The entities declared by the first `k` lines.
pub open spec fn entities_upto(
    lines: Seq<Seq<char>>,
    k: int,
    text: Seq<char>,
    file: Seq<char>,
    deps: Seq<ImportModel>,
) -> Seq<EntityModel>
    decreases k,
{
    if k <= 0 {
        Seq::empty()
    } else {
        entities_upto(lines, k - 1, text, file, deps) + line_entities(
            lines[k - 1],
            text,
            file,
            deps,
        )
    }
}

/// Everything a file declares: its comment-stripped lines are examined
/// one by one; every entity shares the file's import list.
pub open spec fn parse_entities_spec(text: Seq<char>, file: Seq<char>, root: Seq<char>) -> Seq<
    EntityModel,
> {
    let lines = lines_of(strip_comments_spec(text));
    entities_upto(lines, lines.len() as int, text, file, extract_imports_spec(text, file, root))
}

/// The views of a list of entities.
pub open spec fn entity_views(s: Seq<Entity>) -> Seq<EntityModel> {
    Seq::new(s.len(), |i: int| s[i]@)
}

/// Runs one export check on a trimmed line and appends the declared
/// entity, if any.
fn push_decl(
    entities: &mut Vec<Entity>,
    t: &Vec<char>,
    kw: &Vec<char>,
    cond: bool,
    kind: EntityType,
    content: &str,
    file_path: &str,
    imports: &Vec<ImportInfo>,
)
    requires
        kw@.len() >= 1,
    ensures
        entity_views(final(entities)@) == entity_views(old(entities)@) + decl_segment(
            cond,
            t@,
            kw@,
            kind,
            content@,
            file_path@,
            import_views(imports@),
        ),
{
    proof {
        reveal(decl_segment);
        reveal(decl_entity);
    }
    if !cond {
        proof {
            assert(entity_views(entities@) =~= entity_views(old(entities)@) + decl_segment(
                cond,
                t@,
                kw@,
                kind,
                content@,
                file_path@,
                import_views(imports@),
            ));
        }
        return ;
    }
    match export_name_search(t, kw, 0) {
        Some((lo, hi)) => {
            let nm_v = sub_chars(t, lo, hi);
            let name = string_from_chars(&nm_v);
            let used = is_entity_used_locally(content, name.as_str());
            let deps = duplicate_imports(imports);
            let ghost nm = name@;
            let mut e = Entity::new(name, kind, String::from_str(file_path), deps);
            e.used = used;
            proof {
                assert(nm.len() >= 1) by {
                    assert(export_name_from(t@, kw@, 0) == Some(t@.subrange(lo as int, hi as int)));
                    lemma_export_name_nonempty(t@, kw@, 0);
                }
                assert(e@.deps =~= import_views(imports@));
                assert(e@ =~~= decl_entity(
                    nm,
                    kind,
                    content@,
                    file_path@,
                    import_views(imports@),
                ));
            }
            entities.push(e);
            proof {
                assert(entity_views(entities@) =~= entity_views(old(entities)@) + decl_segment(
                    cond,
                    t@,
                    kw@,
                    kind,
                    content@,
                    file_path@,
                    import_views(imports@),
                ));
            }
        },
        None => {
            proof {
                assert(entity_views(entities@) =~= entity_views(old(entities)@) + decl_segment(
                    cond,
                    t@,
                    kw@,
                    kind,
                    content@,
                    file_path@,
                    import_views(imports@),
                ));
            }
        },
    }
}

proof fn lemma_skip_uws_bounds(s: Seq<char>, i: int)
    requires
        0 <= i <= s.len(),
    ensures
        i <= skip_uws_spec(s, i) <= s.len(),
    decreases s.len() - i,
{
    if i < s.len() && is_whitespace_of(s[i]) {
        lemma_skip_uws_bounds(s, i + 1);
    }
}

/// A detected export name is never empty.
proof fn lemma_export_name_nonempty(line: Seq<char>, kw: Seq<char>, start: int)
    requires
        kw.len() >= 1,
        start >= 0,
        export_name_from(line, kw, start) is Some,
    ensures
        export_name_from(line, kw, start)->0.len() >= 1,
    decreases line.len() - start,
{
    match first_occ(line, kw, start) {
        None => {},
        Some(pos) => {
            lemma_first_occ_bounds(line, kw, start, pos);
            let before_ok = pos == 0 || !is_word_char(line[pos - 1]);
            let after = pos + kw.len() as int;
            let after_ok = after < line.len() && is_whitespace_of(line[after]);
            if before_ok && after_ok {
                let id_lo = skip_uws_spec(line, after);
                lemma_skip_uws_bounds(line, after);
                let id_hi = word_run_end(line, id_lo);
                lemma_word_run_bounds(line, id_lo);
                if id_hi > id_lo {
                    assert(line.subrange(id_lo, id_hi).len() == id_hi - id_lo);
                } else {
                    lemma_export_name_nonempty(line, kw, pos + kw.len() as int);
                }
            } else {
                lemma_export_name_nonempty(line, kw, pos + kw.len() as int);
            }
        },
    }
}

/// Whether `v` begins with the characters of `p`.
fn vec_starts_with(v: &Vec<char>, p: &Vec<char>) -> (r: bool)
    ensures
        r == is_prefix(p@, v@),
{
    lit_at_exec(v, 0, p)
}

impl Parser {
    /// Parses one file's text: its import references and the entities its
    /// export lines declare, each entity carrying the file's import list
    /// and its local-usage flag.
    pub fn parse(&self, content: &str, file_path: &str) -> (r: FileParseResult)
        ensures
            import_views(r.imports@) == extract_imports_spec(
                content@,
                file_path@,
                self.root_path@,
            ),
            entity_views(r.entities@) == parse_entities_spec(
                content@,
                file_path@,
                self.root_path@,
            ),
            r@.coherent(),
    {
        let imports = self.extract_imports(content, file_path);
        let stripped = strip_comments(content);
        let sv = chars_of(stripped.as_str());
        let lines = lines_exec(&sv);
        let ghost lseq = lines_of(strip_comments_spec(content@));
        let ghost deps = import_views(imports@);
        let mut entities: Vec<Entity> = Vec::new();
        let mut i: usize = 0;
        while i < lines.len()
            invariant
                i <= lines@.len(),
                char_views(lines@) == lseq,
                deps == import_views(imports@),
                entity_views(entities@) == entities_upto(
                    lseq,
                    i as int,
                    content@,
                    file_path@,
                    deps,
                ),
            decreases lines@.len() - i,
        {
            proof {
                assert(lines@[i as int]@ == lseq[i as int]);
            }
            collect_line(&mut entities, &lines[i], content, file_path, &imports);
            i += 1;
        }
        proof {
            assert(lines@.len() == lseq.len());
        }
        let r = FileParseResult { entities, imports };
        proof {
            assert(r@.coherent()) by {
                assert forall|k: int| 0 <= k < r@.imports.len() implies (
                #[trigger] r@.imports[k]).coherent() by {
                    assert(r@.imports[k] == import_views(r.imports@)[k]);
                    assert(import_views(r.imports@)[k] == extract_imports_spec(
                        content@,
                        file_path@,
                        self.root_path@,
                    )[k]);
                    lemma_extract_imports_coherent(content@, file_path@, self.root_path@, k);
                }
                assert forall|k: int| 0 <= k < r@.entities.len() implies (
                #[trigger] r@.entities[k]).coherent() by {
                    assert(r@.entities[k] == entity_views(r.entities@)[k]);
                    lemma_parse_entities_coherent(content@, file_path@, self.root_path@, k);
                }
            }
        }
        r
    }
}

/// Examines one comment-stripped line and appends the entities it
/// declares, as `line_entities` describes.
#[verifier::rlimit(100)]
#[verifier::spinoff_prover]
fn collect_line(
    entities: &mut Vec<Entity>,
    lv: &Vec<char>,
    content: &str,
    file_path: &str,
    imports: &Vec<ImportInfo>,
)
    ensures
        entity_views(final(entities)@) == entity_views(old(entities)@) + line_entities(
            lv@,
            content@,
            file_path@,
            import_views(imports@),
        ),
{
    let kw_export = chars_of("export");
    let kw_class = chars_of("class");
    let kw_enum = chars_of("enum");
    let kw_type = chars_of("type");
    let kw_typeof = chars_of("typeof");
    let kw_interface = chars_of("interface");
    let kw_function = chars_of("function");
    let kw_arrow = chars_of("=>");
    let kw_eqfn = chars_of("= function");
    let kw_exp_const = chars_of("export const");
    let kw_exp_let = chars_of("export let");
    let kw_exp_var = chars_of("export var");
    let kw_const = chars_of("const");
    let kw_let = chars_of("let");
    let kw_var = chars_of("var");
    proof {
        reveal_strlit("export");
        reveal_strlit("class");
        reveal_strlit("enum");
        reveal_strlit("type");
        reveal_strlit("typeof");
        reveal_strlit("interface");
        reveal_strlit("function");
        reveal_strlit("=>");
        reveal_strlit("= function");
        reveal_strlit("export const");
        reveal_strlit("export let");
        reveal_strlit("export var");
        reveal_strlit("const");
        reveal_strlit("let");
        reveal_strlit("var");
    }
    let ghost line0 = lv@;
    let ghost deps = import_views(imports@);
    let (a, b) = trim_chars(lv, 0, lv.len());
    proof {
        assert(lv@.subrange(0, lv@.len() as int) =~= lv@);
    }
    let t = sub_chars(lv, a, b);
    let ghost base = entity_views(entities@);
    if t.len() > 0 {
        let ex = has_substr_exec(&t, &kw_export);
        let c1 = ex && has_substr_exec(&t, &kw_class);
        push_decl(entities, &t, &kw_class, c1, EntityType::Class, content, file_path, imports);
        let c2 = ex && has_substr_exec(&t, &kw_enum);
        push_decl(entities, &t, &kw_enum, c2, EntityType::Enum, content, file_path, imports);
        proof {
            assert(entity_views(entities@) =~= base + decl_segment(
                ex && has_substr(t@, "class"@),
                t@,
                "class"@,
                EntityType::Class,
                content@,
                file_path@,
                deps,
            ) + decl_segment(
                ex && has_substr(t@, "enum"@),
                t@,
                "enum"@,
                EntityType::Enum,
                content@,
                file_path@,
                deps,
            ));
        }
        let ghost base2 = entity_views(entities@);
        let c3 = ex && has_substr_exec(&t, &kw_type) && !has_substr_exec(&t, &kw_typeof);
        push_decl(entities, &t, &kw_type, c3, EntityType::Type, content, file_path, imports);
        let c4 = ex && has_substr_exec(&t, &kw_interface);
        push_decl(
            entities,
            &t,
            &kw_interface,
            c4,
            EntityType::Interface,
            content,
            file_path,
            imports,
        );
        proof {
            assert(entity_views(entities@) =~= base2 + decl_segment(
                ex && has_substr(t@, "type"@) && !has_substr(t@, "typeof"@),
                t@,
                "type"@,
                EntityType::Type,
                content@,
                file_path@,
                deps,
            ) + decl_segment(
                ex && has_substr(t@, "interface"@),
                t@,
                "interface"@,
                EntityType::Interface,
                content@,
                file_path@,
                deps,
            ));
        }
        let ghost base4 = entity_views(entities@);
        let c5 = ex && has_substr_exec(&t, &kw_function);
        push_decl(
            entities,
            &t,
            &kw_function,
            c5,
            EntityType::Function,
            content,
            file_path,
            imports,
        );
        let binding_kind = if has_substr_exec(&t, &kw_arrow) || has_substr_exec(&t, &kw_eqfn) {
            EntityType::Function
        } else {
            EntityType::Const
        };
        if vec_starts_with(&t, &kw_exp_const) {
            push_decl(entities, &t, &kw_const, true, binding_kind, content, file_path, imports);
        } else if vec_starts_with(&t, &kw_exp_let) {
            push_decl(entities, &t, &kw_let, true, binding_kind, content, file_path, imports);
        } else if vec_starts_with(&t, &kw_exp_var) {
            push_decl(entities, &t, &kw_var, true, binding_kind, content, file_path, imports);
        }
        proof {
            assert(t@ == trim_spec(line0));
            let seg6 = ({
                let binding = if has_substr(t@, "=>"@) || has_substr(t@, "= function"@) {
                    EntityType::Function
                } else {
                    EntityType::Const
                };
                if is_prefix("export const"@, t@) {
                    decl_segment(true, t@, "const"@, binding, content@, file_path@, deps)
                } else if is_prefix("export let"@, t@) {
                    decl_segment(true, t@, "let"@, binding, content@, file_path@, deps)
                } else if is_prefix("export var"@, t@) {
                    decl_segment(true, t@, "var"@, binding, content@, file_path@, deps)
                } else {
                    Seq::<EntityModel>::empty()
                }
            });
            assert(entity_views(entities@) =~= base4 + decl_segment(
                ex && has_substr(t@, "function"@),
                t@,
                "function"@,
                EntityType::Function,
                content@,
                file_path@,
                deps,
            ) + seg6);
            assert(entity_views(entities@) =~= base + line_entities(
                line0,
                content@,
                file_path@,
                deps,
            )) by {
                reveal(line_entities);
            }
        }
    } else {
        proof {
            assert(t@ == trim_spec(line0));
            assert(line_entities(line0, content@, file_path@, deps) =~= Seq::<
                EntityModel,
            >::empty()) by {
                reveal(line_entities);
            }
            assert(entity_views(entities@) =~= base + line_entities(
                line0,
                content@,
                file_path@,
                deps,
            ));
        }
    }
}

/// Every extracted import reference carries the identity derived from its
/// own resolved path and name.
proof fn lemma_scan_coherent_split(names: Seq<char>, path: Seq<char>, k: int)
    requires
        0 <= k < split_names(names, path).len(),
    ensures
        split_names(names, path)[k].coherent(),
    decreases names.len(),
{
    match find_char(names, ',', 0) {
        None => {},
        Some(c) => {
            lemma_find_char_bounds(names, ',', 0, c);
            let head = part_to_imports(names.subrange(0, c), path);
            if k >= head.len() {
                lemma_scan_coherent_split(names.skip(c + 1), path, k - head.len());
            }
        },
    }
}

proof fn lemma_scan_named_coherent(
    s: Seq<char>,
    from: int,
    file: Seq<char>,
    root: Seq<char>,
    k: int,
)
    requires
        from >= 0,
        0 <= k < scan_named(s, from, file, root).len(),
    ensures
        scan_named(s, from, file, root)[k].coherent(),
    decreases s.len() - from,
{
    match first_occ(s, "import"@, from) {
        None => {},
        Some(p) => {
            lemma_first_occ_bounds(s, "import"@, from, p);
            reveal_strlit("import");
            match match_named(s, p) {
                Some(m) => {
                    lemma_match_named_bounds(s, p);
                    let raw = s.subrange(m.2, m.3);
                    match resolve_import_spec(file, raw, root) {
                        None => {
                            lemma_scan_named_coherent(s, m.4, file, root, k);
                        },
                        Some(res) => {
                            let head = split_names(s.subrange(m.0, m.1), res);
                            if k < head.len() {
                                lemma_scan_coherent_split(s.subrange(m.0, m.1), res, k);
                            } else {
                                lemma_scan_named_coherent(s, m.4, file, root, k - head.len());
                            }
                        },
                    }
                },
                None => {
                    lemma_scan_named_coherent(s, p + 1, file, root, k);
                },
            }
        },
    }
}

proof fn lemma_scan_default_coherent(
    s: Seq<char>,
    from: int,
    file: Seq<char>,
    root: Seq<char>,
    k: int,
)
    requires
        from >= 0,
        0 <= k < scan_default(s, from, file, root).len(),
    ensures
        scan_default(s, from, file, root)[k].coherent(),
    decreases s.len() - from,
{
    match first_occ(s, "import"@, from) {
        None => {},
        Some(p) => {
            lemma_first_occ_bounds(s, "import"@, from, p);
            reveal_strlit("import");
            match match_default(s, p) {
                Some(m) => {
                    lemma_match_default_bounds(s, p);
                    let nm = s.subrange(m.0, m.1);
                    let raw = s.subrange(m.2, m.3);
                    if nm == "type"@ || nm == "from"@ {
                        lemma_scan_default_coherent(s, m.4, file, root, k);
                    } else {
                        match resolve_import_spec(file, raw, root) {
                            None => {
                                lemma_scan_default_coherent(s, m.4, file, root, k);
                            },
                            Some(res) => {
                                if k >= 1 {
                                    lemma_scan_default_coherent(s, m.4, file, root, k - 1);
                                }
                            },
                        }
                    }
                },
                None => {
                    lemma_scan_default_coherent(s, p + 1, file, root, k);
                },
            }
        },
    }
}

proof fn lemma_scan_lazy_coherent(
    s: Seq<char>,
    from: int,
    file: Seq<char>,
    root: Seq<char>,
    k: int,
)
    requires
        from >= 0,
        0 <= k < scan_lazy(s, from, file, root).len(),
    ensures
        scan_lazy(s, from, file, root)[k].coherent(),
    decreases s.len() - from,
{
    match first_occ(s, "import"@, from) {
        None => {},
        Some(p) => {
            lemma_first_occ_bounds(s, "import"@, from, p);
            reveal_strlit("import");
            match match_lazy(s, p) {
                Some(m) => {
                    lemma_match_lazy_bounds(s, p);
                    let raw = s.subrange(m.2, m.3);
                    match resolve_import_spec(file, raw, root) {
                        None => {
                            lemma_scan_lazy_coherent(s, m.4, file, root, k);
                        },
                        Some(res) => {
                            if k >= 1 {
                                lemma_scan_lazy_coherent(s, m.4, file, root, k - 1);
                            }
                        },
                    }
                },
                None => {
                    lemma_scan_lazy_coherent(s, p + 1, file, root, k);
                },
            }
        },
    }
}

proof fn lemma_extract_imports_coherent(text: Seq<char>, file: Seq<char>, root: Seq<char>, k: int)
    requires
        0 <= k < extract_imports_spec(text, file, root).len(),
    ensures
        extract_imports_spec(text, file, root)[k].coherent(),
{
    let t = strip_comments_spec(text);
    let a = scan_named(t, 0, file, root);
    let b = scan_default(t, 0, file, root);
    let c = scan_lazy(t, 0, file, root);
    if k < a.len() {
        lemma_scan_named_coherent(t, 0, file, root, k);
    } else if k < a.len() + b.len() {
        lemma_scan_default_coherent(t, 0, file, root, k - a.len());
    } else {
        lemma_scan_lazy_coherent(t, 0, file, root, k - a.len() - b.len());
    }
}

#[verifier::rlimit(100)]
proof fn lemma_decl_segment_coherent(
    cond: bool,
    t: Seq<char>,
    kw: Seq<char>,
    kind: EntityType,
    text: Seq<char>,
    file: Seq<char>,
    deps: Seq<ImportModel>,
    k: int,
)
    requires
        0 <= k < decl_segment(cond, t, kw, kind, text, file, deps).len(),
    ensures
        decl_segment(cond, t, kw, kind, text, file, deps)[k].coherent(),
{
    reveal(decl_segment);
    reveal(decl_entity);
}

#[verifier::rlimit(100)]
proof fn lemma_line_entities_coherent(
    line: Seq<char>,
    text: Seq<char>,
    file: Seq<char>,
    deps: Seq<ImportModel>,
    k: int,
)
    requires
        0 <= k < line_entities(line, text, file, deps).len(),
    ensures
        line_entities(line, text, file, deps)[k].coherent(),
{
    reveal(line_entities);
    let t = trim_spec(line);
    if t.len() != 0 {
        let ex = has_substr(t, "export"@);
        let s1 = decl_segment(ex && has_substr(t, "class"@), t, "class"@, EntityType::Class, text, file, deps);
        let s2 = decl_segment(ex && has_substr(t, "enum"@), t, "enum"@, EntityType::Enum, text, file, deps);
        let s3 = decl_segment(
            ex && has_substr(t, "type"@) && !has_substr(t, "typeof"@),
            t,
            "type"@,
            EntityType::Type,
            text,
            file,
            deps,
        );
        let s4 = decl_segment(ex && has_substr(t, "interface"@), t, "interface"@, EntityType::Interface, text, file, deps);
        let s5 = decl_segment(ex && has_substr(t, "function"@), t, "function"@, EntityType::Function, text, file, deps);
        let binding = if has_substr(t, "=>"@) || has_substr(t, "= function"@) {
            EntityType::Function
        } else {
            EntityType::Const
        };
        let s6 = if is_prefix("export const"@, t) {
            decl_segment(true, t, "const"@, binding, text, file, deps)
        } else if is_prefix("export let"@, t) {
            decl_segment(true, t, "let"@, binding, text, file, deps)
        } else if is_prefix("export var"@, t) {
            decl_segment(true, t, "var"@, binding, text, file, deps)
        } else {
            Seq::<EntityModel>::empty()
        };
        if k < s1.len() {
            lemma_decl_segment_coherent(ex && has_substr(t, "class"@), t, "class"@, EntityType::Class, text, file, deps, k);
        } else if k < s1.len() + s2.len() {
            lemma_decl_segment_coherent(ex && has_substr(t, "enum"@), t, "enum"@, EntityType::Enum, text, file, deps, k - s1.len());
        } else if k < s1.len() + s2.len() + s3.len() {
            lemma_decl_segment_coherent(
                ex && has_substr(t, "type"@) && !has_substr(t, "typeof"@),
                t,
                "type"@,
                EntityType::Type,
                text,
                file,
                deps,
                k - s1.len() - s2.len(),
            );
        } else if k < s1.len() + s2.len() + s3.len() + s4.len() {
            lemma_decl_segment_coherent(ex && has_substr(t, "interface"@), t, "interface"@, EntityType::Interface, text, file, deps, k - s1.len() - s2.len() - s3.len());
        } else if k < s1.len() + s2.len() + s3.len() + s4.len() + s5.len() {
            lemma_decl_segment_coherent(ex && has_substr(t, "function"@), t, "function"@, EntityType::Function, text, file, deps, k - s1.len() - s2.len() - s3.len() - s4.len());
        } else {
            let kk = k - s1.len() - s2.len() - s3.len() - s4.len() - s5.len();
            if is_prefix("export const"@, t) {
                lemma_decl_segment_coherent(true, t, "const"@, binding, text, file, deps, kk);
            } else if is_prefix("export let"@, t) {
                lemma_decl_segment_coherent(true, t, "let"@, binding, text, file, deps, kk);
            } else if is_prefix("export var"@, t) {
                lemma_decl_segment_coherent(true, t, "var"@, binding, text, file, deps, kk);
            }
        }
    }
}

#[verifier::rlimit(100)]
proof fn lemma_entities_upto_coherent(
    lines: Seq<Seq<char>>,
    n: int,
    text: Seq<char>,
    file: Seq<char>,
    deps: Seq<ImportModel>,
    k: int,
)
    requires
        0 <= k < entities_upto(lines, n, text, file, deps).len(),
    ensures
        entities_upto(lines, n, text, file, deps)[k].coherent(),
    decreases n,
{
    if n <= 0 {
    } else {
        let head = entities_upto(lines, n - 1, text, file, deps);
        if k < head.len() {
            lemma_entities_upto_coherent(lines, n - 1, text, file, deps, k);
        } else {
            lemma_line_entities_coherent(lines[n - 1], text, file, deps, k - head.len());
        }
    }
}

proof fn lemma_parse_entities_coherent(text: Seq<char>, file: Seq<char>, root: Seq<char>, k: int)
    requires
        0 <= k < parse_entities_spec(text, file, root).len(),
    ensures
        parse_entities_spec(text, file, root)[k].coherent(),
{
    let lines = lines_of(strip_comments_spec(text));
    lemma_entities_upto_coherent(
        lines,
        lines.len() as int,
        text,
        file,
        extract_imports_spec(text, file, root),
        k,
    );
}

} // verus!
