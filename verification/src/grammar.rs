//! The grammars of path patterns, request paths and domains.

use vstd::prelude::*;
use crate::error::RouteError;
use crate::text::{chars_of, is_whitespace, lowercase, to_lowercase, whitespace};

verus! {

/// Where the first `sep` stands in `s`, or `s.len()` if `s` has none.
pub open spec fn first_sep(s: Seq<char>, sep: char) -> int
    decreases s.len(),
{
    if s.len() == 0 || s[0] == sep {
        0
    } else {
        1 + first_sep(s.skip(1), sep)
    }
}

/// The pieces into which the occurrences of `sep` cut `s`: the text before
/// the first `sep`, then the pieces of the text after it. There is one piece
/// more than `s` has separators, and a piece may be empty.
pub open spec fn pieces(s: Seq<char>, sep: char) -> Seq<Seq<char>>
    decreases s.len(),
{
    let n = first_sep(s, sep);
    if 0 <= n < s.len() {
        seq![s.take(n)] + pieces(s.skip(n + 1), sep)
    } else {
        seq![s]
    }
}

/// The pieces `parts` put together again, with `sep` between each two.
pub open spec fn joined(parts: Seq<Seq<char>>, sep: char) -> Seq<char>
    decreases parts.len(),
{
    if parts.len() == 0 {
        Seq::empty()
    } else if parts.len() == 1 {
        parts[0]
    } else {
        parts[0] + seq![sep] + joined(parts.skip(1), sep)
    }
}

/// `first_sep` is the least index that holds `sep`.
pub proof fn lemma_first_sep(s: Seq<char>, sep: char, n: int)
    requires
        0 <= n <= s.len(),
        forall|k: int| 0 <= k < n ==> s[k] != sep,
        n == s.len() || s[n] == sep,
    ensures
        first_sep(s, sep) == n,
    decreases n,
{
    if n > 0 {
        let t = s.skip(1);
        assert forall|k: int| 0 <= k < n - 1 implies t[k] != sep by {
            assert(t[k] == s[k + 1]);
        }
        lemma_first_sep(t, sep, n - 1);
    }
}

/// What `first_sep` finds: an index within `s` or its length, no separator
/// before it, and a separator at it unless it is the length.
pub proof fn lemma_first_sep_finds(s: Seq<char>, sep: char)
    ensures
        0 <= first_sep(s, sep) <= s.len(),
        forall|k: int| 0 <= k < first_sep(s, sep) ==> s[k] != sep,
        first_sep(s, sep) < s.len() ==> s[first_sep(s, sep)] == sep,
    decreases s.len(),
{
    if s.len() == 0 || s[0] == sep {
    } else {
        let t = s.skip(1);
        lemma_first_sep_finds(t, sep);
        assert forall|k: int| 0 <= k < first_sep(s, sep) implies s[k] != sep by {
            if k > 0 {
                assert(t[k - 1] == s[k]);
            }
        }
        if first_sep(t, sep) < t.len() {
            assert(t[first_sep(t, sep)] == s[first_sep(t, sep) + 1]);
        }
    }
}

/// A text has at least one piece, and at least two if a separator stands
/// in it.
pub proof fn lemma_pieces_len(s: Seq<char>, sep: char)
    ensures
        pieces(s, sep).len() >= 1,
        (exists|i: int| 0 <= i < s.len() && s[i] == sep) ==> pieces(s, sep).len() >= 2,
    decreases s.len(),
{
    lemma_first_sep_finds(s, sep);
    let n = first_sep(s, sep);
    if n < s.len() {
        lemma_pieces_len(s.skip(n + 1), sep);
    }
}

/// The pieces named by `bounds`: for each pair, the characters of `s` from
/// its first index up to its second.
pub open spec fn cut(s: Seq<char>, bounds: Seq<(usize, usize)>) -> Seq<Seq<char>> {
    Seq::new(bounds.len(), |i: int| s.subrange(bounds[i].0 as int, bounds[i].1 as int))
}

/// Every pair of `bounds` is a range within a text of length `len`.
pub open spec fn in_bounds(bounds: Seq<(usize, usize)>, len: nat) -> bool {
    forall|i: int| 0 <= i < bounds.len() ==> (#[trigger] bounds[i]).0 <= bounds[i].1 <= len
}

/// Cuts the characters of `chars` from index `from` on at each `sep`, and
/// returns where each piece begins and ends.
pub fn split(chars: &Vec<char>, from: usize, sep: char) -> (bounds: Vec<(usize, usize)>)
    requires
        from <= chars@.len(),
    ensures
        in_bounds(bounds@, chars@.len()),
        cut(chars@, bounds@) == pieces(chars@.skip(from as int), sep),
{
    let n = chars.len();
    let mut bounds: Vec<(usize, usize)> = Vec::new();
    let mut start: usize = from;
    let mut pos: usize = from;
    proof {
        let whole = pieces(chars@.skip(from as int), sep);
        assert(cut(chars@, bounds@) + whole == whole);
    }
    while pos < n
        invariant
            n == chars@.len(),
            from <= start <= pos <= n,
            in_bounds(bounds@, chars@.len()),
            forall|k: int| start <= k < pos ==> chars@[k] != sep,
            pieces(chars@.skip(from as int), sep) == cut(chars@, bounds@) + pieces(
                chars@.skip(start as int),
                sep,
            ),
        decreases n - pos,
    {
        if chars[pos] == sep {
            proof {
                let rest = chars@.skip(start as int);
                lemma_first_sep(rest, sep, pos - start);
                assert(rest.take(pos - start) == chars@.subrange(start as int, pos as int));
                assert(rest.skip(pos - start + 1) == chars@.skip(pos + 1));
                let ghost grown = bounds@.push((start, pos));
                assert(cut(chars@, grown) == cut(chars@, bounds@) + seq![
                    chars@.subrange(start as int, pos as int),
                ]);
            }
            bounds.push((start, pos));
            start = pos + 1;
        }
        pos = pos + 1;
    }
    proof {
        let rest = chars@.skip(start as int);
        lemma_first_sep(rest, sep, n - start);
        assert(rest == chars@.subrange(start as int, n as int));
        let ghost grown = bounds@.push((start, n));
        assert(cut(chars@, grown) == cut(chars@, bounds@) + seq![rest]);
    }
    bounds.push((start, n));
    bounds
}

/// The three characters that open a placeholder: `:` for an integer, `#`
/// for a string, `;` for a float.
pub open spec fn is_marker(c: char) -> bool {
    c == ':' || c == '#' || c == ';'
}

/// A character that may stand in a literal segment or a placeholder name.
pub open spec fn is_name_char(c: char) -> bool {
    c != '/' && !is_marker(c) && !is_whitespace(c)
}

/// A literal segment or a placeholder name: one character or more, none of
/// them a slash, a marker or white space.
pub open spec fn is_name(s: Seq<char>) -> bool {
    s.len() > 0 && forall|i: int| 0 <= i < s.len() ==> is_name_char(#[trigger] s[i])
}

/// A pattern segment: a name, or a marker followed by a name.
pub open spec fn is_segment(s: Seq<char>) -> bool {
    is_name(s) || (s.len() > 0 && is_marker(s[0]) && is_name(s.skip(1)))
}

/// Whether `s` ends in a slash.
pub open spec fn has_trailing_slash(s: Seq<char>) -> bool {
    s.len() > 0 && s.last() == '/'
}

/// The segments of a path: the pieces between its slashes, without the empty
/// piece before the leading slash and without the empty piece after a
/// trailing one. The root path `/` has none.
pub open spec fn segments(s: Seq<char>) -> Seq<Seq<char>> {
    let inner = pieces(s, '/').skip(1);
    if has_trailing_slash(s) {
        inner.drop_last()
    } else {
        inner
    }
}

/// The path patterns: a leading slash, then segments parted by single
/// slashes, then a trailing slash or none.
pub open spec fn is_pattern(s: Seq<char>) -> bool {
    &&& s.len() > 0
    &&& s[0] == '/'
    &&& forall|i: int| 0 <= i < segments(s).len() ==> is_segment(#[trigger] segments(s)[i])
}

/// The request paths: shaped as a pattern is, but a segment is any text
/// without a slash and no character in it has a special meaning.
pub open spec fn is_request_path(s: Seq<char>) -> bool {
    &&& s.len() > 0
    &&& s[0] == '/'
    &&& forall|i: int| 0 <= i < segments(s).len() ==> (#[trigger] segments(s)[i]).len() > 0
}

/// A character that may stand in a domain label.
pub open spec fn is_label_char(c: char) -> bool {
    c != '.' && c != '*' && !is_whitespace(c)
}

/// A domain label: one character or more, none of them a dot, a star or
/// white space.
pub open spec fn is_label(s: Seq<char>) -> bool {
    s.len() > 0 && forall|i: int| 0 <= i < s.len() ==> is_label_char(#[trigger] s[i])
}

/// A plain domain: two labels or more, parted by dots.
pub open spec fn is_plain_domain(s: Seq<char>) -> bool {
    let labels = pieces(s, '.');
    labels.len() >= 2 && forall|i: int| 0 <= i < labels.len() ==> is_label(#[trigger] labels[i])
}

/// A wildcard domain: `*.` before a plain domain.
pub open spec fn is_wildcard_domain(s: Seq<char>) -> bool {
    s.len() >= 2 && s[0] == '*' && s[1] == '.' && is_plain_domain(s.skip(2))
}

/// The domains a route may be registered under.
pub open spec fn is_domain(s: Seq<char>) -> bool {
    is_plain_domain(s) || is_wildcard_domain(s)
}

/// Whether `c` is a placeholder marker.
pub(crate) fn marker(c: char) -> (r: bool)
    ensures
        r == is_marker(c),
{
    c == ':' || c == '#' || c == ';'
}

/// Whether the characters of `chars` from `from` up to `to` form a name.
pub(crate) fn name_at(chars: &Vec<char>, from: usize, to: usize) -> (r: bool)
    requires
        from <= to <= chars@.len(),
    ensures
        r == is_name(chars@.subrange(from as int, to as int)),
{
    if from == to {
        return false;
    }
    let ghost s = chars@.subrange(from as int, to as int);
    let mut i: usize = from;
    while i < to
        invariant
            from <= i <= to <= chars@.len(),
            s == chars@.subrange(from as int, to as int),
            forall|k: int| 0 <= k < i - from ==> is_name_char(#[trigger] s[k]),
        decreases to - i,
    {
        let c = chars[i];
        if c == '/' || marker(c) || whitespace(c) {
            assert(!is_name_char(s[i - from]));
            return false;
        }
        i = i + 1;
    }
    true
}

/// Whether the characters of `chars` from `from` up to `to` form a pattern
/// segment.
pub(crate) fn segment_at(chars: &Vec<char>, from: usize, to: usize) -> (r: bool)
    requires
        from <= to <= chars@.len(),
    ensures
        r == is_segment(chars@.subrange(from as int, to as int)),
{
    if from == to {
        return false;
    }
    let ghost s = chars@.subrange(from as int, to as int);
    if marker(chars[from]) {
        assert(s[0] == chars@[from as int]);
        assert(!is_name(s)) by {
            assert(!is_name_char(s[0]));
        }
        assert(s.skip(1) == chars@.subrange(from + 1, to as int));
        name_at(chars, from + 1, to)
    } else {
        assert(s[0] == chars@[from as int]);
        name_at(chars, from, to)
    }
}

/// Where each segment of the path `chars` begins and ends.
pub fn segment_bounds(chars: &Vec<char>) -> (bounds: Vec<(usize, usize)>)
    ensures
        in_bounds(bounds@, chars@.len()),
        cut(chars@, bounds@) == segments(chars@),
{
    let mut bounds = split(chars, 0, '/');
    let ghost all = bounds@;
    proof {
        assert(chars@.skip(0) == chars@);
        lemma_pieces_len(chars@, '/');
        assert(cut(chars@, all).len() == all.len());
    }
    bounds.remove(0);
    assert(cut(chars@, bounds@) == cut(chars@, all).skip(1));
    let n = chars.len();
    if n > 0 && chars[n - 1] == '/' {
        let ghost inner = bounds@;
        assert(chars@[n - 1] == '/');
        bounds.pop();
        assert(cut(chars@, bounds@) == cut(chars@, inner).drop_last());
    }
    bounds
}

/// Whether `chars` is a path pattern, given where its segments lie.
pub(crate) fn pattern_at(chars: &Vec<char>, bounds: &Vec<(usize, usize)>) -> (r: bool)
    requires
        in_bounds(bounds@, chars@.len()),
        cut(chars@, bounds@) == segments(chars@),
    ensures
        r == is_pattern(chars@),
{
    if chars.len() == 0 || chars[0] != '/' {
        return false;
    }
    let mut i: usize = 0;
    while i < bounds.len()
        invariant
            i <= bounds@.len(),
            in_bounds(bounds@, chars@.len()),
            cut(chars@, bounds@) == segments(chars@),
            forall|k: int| 0 <= k < i ==> is_segment(#[trigger] segments(chars@)[k]),
        decreases bounds@.len() - i,
    {
        let (from, to) = bounds[i];
        assert(cut(chars@, bounds@)[i as int] == chars@.subrange(from as int, to as int));
        if !segment_at(chars, from, to) {
            return false;
        }
        i = i + 1;
    }
    true
}

/// Whether `chars` is a request path, given where its segments lie.
pub(crate) fn request_path_at(chars: &Vec<char>, bounds: &Vec<(usize, usize)>) -> (r: bool)
    requires
        in_bounds(bounds@, chars@.len()),
        cut(chars@, bounds@) == segments(chars@),
    ensures
        r == is_request_path(chars@),
{
    if chars.len() == 0 || chars[0] != '/' {
        return false;
    }
    let mut i: usize = 0;
    while i < bounds.len()
        invariant
            i <= bounds@.len(),
            in_bounds(bounds@, chars@.len()),
            cut(chars@, bounds@) == segments(chars@),
            forall|k: int| 0 <= k < i ==> (#[trigger] segments(chars@)[k]).len() > 0,
        decreases bounds@.len() - i,
    {
        let (from, to) = bounds[i];
        assert(cut(chars@, bounds@)[i as int] == chars@.subrange(from as int, to as int));
        if from == to {
            return false;
        }
        i = i + 1;
    }
    true
}

/// Whether the characters of `chars` from `from` up to `to` form a label.
pub(crate) fn label_at(chars: &Vec<char>, from: usize, to: usize) -> (r: bool)
    requires
        from <= to <= chars@.len(),
    ensures
        r == is_label(chars@.subrange(from as int, to as int)),
{
    if from == to {
        return false;
    }
    let ghost s = chars@.subrange(from as int, to as int);
    let mut i: usize = from;
    while i < to
        invariant
            from <= i <= to <= chars@.len(),
            s == chars@.subrange(from as int, to as int),
            forall|k: int| 0 <= k < i - from ==> is_label_char(#[trigger] s[k]),
        decreases to - i,
    {
        let c = chars[i];
        if c == '.' || c == '*' || whitespace(c) {
            assert(!is_label_char(s[i - from]));
            return false;
        }
        i = i + 1;
    }
    true
}

/// Whether the characters of `chars` from `from` on form a plain domain.
pub(crate) fn plain_domain_at(chars: &Vec<char>, from: usize) -> (r: bool)
    requires
        from <= chars@.len(),
    ensures
        r == is_plain_domain(chars@.skip(from as int)),
{
    let bounds = split(chars, from, '.');
    if bounds.len() < 2 {
        return false;
    }
    let ghost labels = pieces(chars@.skip(from as int), '.');
    let mut i: usize = 0;
    while i < bounds.len()
        invariant
            i <= bounds@.len(),
            in_bounds(bounds@, chars@.len()),
            labels == pieces(chars@.skip(from as int), '.'),
            cut(chars@, bounds@) == labels,
            forall|k: int| 0 <= k < i ==> is_label(#[trigger] labels[k]),
        decreases bounds@.len() - i,
    {
        let (a, b) = bounds[i];
        assert(cut(chars@, bounds@)[i as int] == chars@.subrange(a as int, b as int));
        if !label_at(chars, a, b) {
            return false;
        }
        i = i + 1;
    }
    true
}

/// Whether `chars` is a domain that a route may be registered under.
pub(crate) fn domain_at(chars: &Vec<char>) -> (r: bool)
    ensures
        r == is_domain(chars@),
{
    assert(chars@.skip(0) == chars@);
    if plain_domain_at(chars, 0) {
        return true;
    }
    chars.len() >= 2 && chars[0] == '*' && chars[1] == '.' && plain_domain_at(chars, 2)
}

/// Whether `pattern` is a path pattern.
pub fn is_valid_pattern(pattern: &str) -> (r: bool)
    ensures
        r == is_pattern(pattern@),
{
    let chars = chars_of(pattern);
    let bounds = segment_bounds(&chars);
    pattern_at(&chars, &bounds)
}

/// Whether `path` is a request path.
pub fn is_valid_request_path(path: &str) -> (r: bool)
    ensures
        r == is_request_path(path@),
{
    let chars = chars_of(path);
    let bounds = segment_bounds(&chars);
    request_path_at(&chars, &bounds)
}

/// Whether `domain`, taken as it is written, is a domain that a route may
/// be registered under.
pub fn is_valid_domain(domain: &str) -> (r: bool)
    ensures
        r == is_domain(domain@),
{
    let chars = chars_of(domain);
    domain_at(&chars)
}

/// Judges a pattern against the path grammar.
pub fn validate_pattern(pattern: &str) -> (r: Result<(), RouteError>)
    ensures
        is_pattern(pattern@) ==> r == Ok::<(), RouteError>(()),
        !is_pattern(pattern@) ==> r == Err::<(), RouteError>(RouteError::InvalidFormat),
{
    if is_valid_pattern(pattern) {
        Ok(())
    } else {
        Err(RouteError::InvalidFormat)
    }
}

/// Puts a domain in lowercase and judges it in that form against the
/// domain grammar. Where it passes, the lowercase form is handed back.
pub fn validate_domain(domain: &str) -> (r: Result<String, RouteError>)
    ensures
        match r {
            Ok(lowered) => lowered@ == lowercase(domain@) && is_domain(lowered@),
            Err(e) => e == RouteError::InvalidDomain && !is_domain(lowercase(domain@)),
        },
{
    let lowered = to_lowercase(domain);
    if is_valid_domain(lowered.as_str()) {
        Ok(lowered)
    } else {
        Err(RouteError::InvalidDomain)
    }
}

} // verus!
