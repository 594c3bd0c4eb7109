//! Verbs, segment kinds, and the canonical key of a route.

use vstd::prelude::*;
use vstd::string::StrSliceExecFns;
use crate::grammar::{
    cut, domain_at, has_trailing_slash, in_bounds, is_domain, is_pattern, pattern_at,
    segment_bounds, segments,
};
use crate::error::RouteError;
use crate::text::{chars_of, lowercase, to_lowercase};

verus! {

/// The HTTP verbs a route can be bound to.
#[derive(Debug, PartialEq, Eq, Clone, Copy, Hash, Structural)]
pub enum Verb {
    Get,
    Post,
    Put,
    Patch,
    Delete,
    Head,
}

/// The kind of a segment, as contracts see it: a literal with its text, or
/// a placeholder of one of three types.
pub enum Segment {
    Literal(Seq<char>),
    Int,
    Float,
    Text,
}

/// One segment of a canonical key.
#[derive(Debug, PartialEq, Eq, Hash)]
pub enum RoutePart {
    /// A literal segment, with its text.
    Path(String),
    /// An integer placeholder.
    Int,
    /// A float placeholder.
    Float,
    /// A string placeholder.
    String,
}

impl View for RoutePart {
    type V = Segment;

    open spec fn view(&self) -> Segment {
        match self {
            RoutePart::Path(text) => Segment::Literal(text@),
            RoutePart::Int => Segment::Int,
            RoutePart::Float => Segment::Float,
            RoutePart::String => Segment::Text,
        }
    }
}

impl Clone for RoutePart {
    fn clone(&self) -> (copy: RoutePart)
        ensures
            copy@ == self@,
    {
        match self {
            RoutePart::Path(text) => RoutePart::Path(text.clone()),
            RoutePart::Int => RoutePart::Int,
            RoutePart::Float => RoutePart::Float,
            RoutePart::String => RoutePart::String,
        }
    }
}

/// The kinds of a sequence of parts.
pub open spec fn kinds_of(parts: Seq<RoutePart>) -> Seq<Segment> {
    parts.map_values(|p: RoutePart| p@)
}

/// The characters of a string that may be absent.
pub open spec fn text_of(s: Option<String>) -> Option<Seq<char>> {
    match s {
        Some(t) => Some(t@),
        None => None,
    }
}

/// The characters of a borrowed string that may be absent.
pub open spec fn text_of_ref(s: Option<&String>) -> Option<Seq<char>> {
    match s {
        Some(t) => Some(t@),
        None => None,
    }
}

/// The characters of a string slice that may be absent.
pub open spec fn text_of_str(s: Option<&str>) -> Option<Seq<char>> {
    match s {
        Some(t) => Some(t@),
        None => None,
    }
}

/// The kind a pattern segment stands for: its marker decides, and a segment
/// without one is a literal.
pub open spec fn segment_kind(seg: Seq<char>) -> Segment {
    if seg.len() > 0 && seg[0] == ':' {
        Segment::Int
    } else if seg.len() > 0 && seg[0] == '#' {
        Segment::Text
    } else if seg.len() > 0 && seg[0] == ';' {
        Segment::Float
    } else {
        Segment::Literal(seg)
    }
}

/// The kinds of the segments of a pattern, in order.
pub open spec fn pattern_kinds(path: Seq<char>) -> Seq<Segment> {
    segments(path).map_values(|seg: Seq<char>| segment_kind(seg))
}

/// A canonical key as contracts see it. Two patterns name the same route
/// exactly when their keys are equal; placeholder names are no part of it.
pub struct KeyView {
    pub domain: Option<Seq<char>>,
    pub segments: Seq<Segment>,
    pub verb: Verb,
    pub trailing_slash: bool,
}

/// The key of the pattern `path` under `verb` and `domain`.
pub open spec fn canonical_key(verb: Verb, path: Seq<char>, domain: Option<Seq<char>>) -> KeyView {
    KeyView {
        domain,
        segments: pattern_kinds(path),
        verb,
        trailing_slash: has_trailing_slash(path),
    }
}

/// A domain in the form in which keys hold it: in lowercase.
pub open spec fn normalized(domain: Option<Seq<char>>) -> Option<Seq<char>> {
    match domain {
        Some(d) => Some(lowercase(d)),
        None => None,
    }
}

/// What building a key from `path` and an already normalized `domain` comes
/// to: the pattern is judged first, then the domain.
pub open spec fn key_for(verb: Verb, path: Seq<char>, domain: Option<Seq<char>>) -> Result<
    KeyView,
    RouteError,
> {
    if !is_pattern(path) {
        Err(RouteError::InvalidFormat)
    } else if domain is Some && !is_domain(domain->0) {
        Err(RouteError::InvalidDomain)
    } else {
        Ok(canonical_key(verb, path, domain))
    }
}

/// The canonical key of a route: its verb, its domain in lowercase if it has
/// one, the kinds of its segments, and whether its pattern ends in a slash.
#[derive(Debug, PartialEq, Eq, Hash)]
pub struct RouteKey {
    domain: Option<String>,
    parts: Vec<RoutePart>,
    verb: Verb,
    trailing_slash: bool,
}

impl View for RouteKey {
    type V = KeyView;

    closed spec fn view(&self) -> KeyView {
        KeyView {
            domain: text_of(self.domain),
            segments: kinds_of(self.parts@),
            verb: self.verb,
            trailing_slash: self.trailing_slash,
        }
    }
}

impl Clone for RouteKey {
    fn clone(&self) -> (copy: RouteKey)
        ensures
            copy@ == self@,
    {
        let mut parts: Vec<RoutePart> = Vec::new();
        let mut i: usize = 0;
        while i < self.parts.len()
            invariant
                i <= self.parts@.len(),
                kinds_of(parts@) == kinds_of(self.parts@).take(i as int),
            decreases self.parts@.len() - i,
        {
            let ghost before = parts@;
            parts.push(self.parts[i].clone());
            assert(kinds_of(parts@) == kinds_of(before).push(self.parts@[i as int]@));
            assert(kinds_of(self.parts@).take(i + 1) == kinds_of(self.parts@).take(i as int).push(
                self.parts@[i as int]@,
            ));
            i = i + 1;
        }
        assert(kinds_of(self.parts@).take(i as int) == kinds_of(self.parts@));
        let domain = match &self.domain {
            Some(d) => Some(d.clone()),
            None => None,
        };
        RouteKey { domain, parts, verb: self.verb, trailing_slash: self.trailing_slash }
    }
}

/// The parts of a pattern, given its characters and where its segments lie.
pub(crate) fn parts_at(path: &str, chars: &Vec<char>, bounds: &Vec<(usize, usize)>) -> (parts: Vec<
    RoutePart,
>)
    requires
        chars@ == path@,
        in_bounds(bounds@, chars@.len()),
        cut(chars@, bounds@) == segments(chars@),
    ensures
        kinds_of(parts@) == pattern_kinds(path@),
{
    let mut parts: Vec<RoutePart> = Vec::new();
    let mut i: usize = 0;
    while i < bounds.len()
        invariant
            i <= bounds@.len(),
            chars@ == path@,
            in_bounds(bounds@, chars@.len()),
            cut(chars@, bounds@) == segments(chars@),
            kinds_of(parts@) == pattern_kinds(path@).take(i as int),
        decreases bounds@.len() - i,
    {
        let (from, to) = bounds[i];
        let ghost seg = chars@.subrange(from as int, to as int);
        assert(cut(chars@, bounds@)[i as int] == seg);
        let part = if from < to && chars[from] == ':' {
            RoutePart::Int
        } else if from < to && chars[from] == '#' {
            RoutePart::String
        } else if from < to && chars[from] == ';' {
            RoutePart::Float
        } else {
            RoutePart::Path(path.substring_char(from, to).to_owned())
        };
        assert(part@ == segment_kind(seg)) by {
            if from < to {
                assert(seg[0] == chars@[from as int]);
            }
        }
        let ghost before = parts@;
        parts.push(part);
        assert(kinds_of(parts@) == kinds_of(before).push(part@));
        assert(pattern_kinds(path@).take(i + 1) == pattern_kinds(path@).take(i as int).push(
            segment_kind(seg),
        ));
        i = i + 1;
    }
    assert(pattern_kinds(path@).take(i as int) == pattern_kinds(path@));
    parts
}

impl RouteKey {
    /// The verb.
    pub fn verb(&self) -> (verb: Verb)
        ensures
            verb == self@.verb,
    {
        self.verb
    }

    /// The segment kinds, in order.
    pub fn parts(&self) -> (parts: &Vec<RoutePart>)
        ensures
            kinds_of(parts@) == self@.segments,
    {
        &self.parts
    }

    /// The domain, in lowercase, if the key has one.
    pub fn domain(&self) -> (domain: &Option<String>)
        ensures
            text_of(*domain) == self@.domain,
    {
        &self.domain
    }

    /// Whether the pattern ended in a slash.
    pub fn trailing_slash(&self) -> (yes: bool)
        ensures
            yes == self@.trailing_slash,
    {
        self.trailing_slash
    }

    /// The key of `path` under `verb`, with no domain.
    pub fn from_path(verb: Verb, path: &String) -> (r: Result<RouteKey, RouteError>)
        ensures
            match r {
                Ok(key) => key_for(verb, path@, None) == Ok::<KeyView, RouteError>(key@),
                Err(e) => key_for(verb, path@, None) == Err::<KeyView, RouteError>(e),
            },
    {
        RouteKey::new(verb, path, None)
    }

    /// The key of `path` under `verb` and `domain`. The domain is put in
    /// lowercase first, and judged in that form.
    pub fn new(verb: Verb, path: &String, domain: Option<&String>) -> (r: Result<
        RouteKey,
        RouteError,
    >)
        ensures
            match r {
                Ok(key) => key_for(verb, path@, normalized(text_of_ref(domain))) == Ok::<
                    KeyView,
                    RouteError,
                >(key@),
                Err(e) => key_for(verb, path@, normalized(text_of_ref(domain))) == Err::<
                    KeyView,
                    RouteError,
                >(e),
            },
    {
        let lowered = match domain {
            Some(d) => Some(to_lowercase(d.as_str())),
            None => None,
        };
        RouteKey::new_normalized(verb, path.as_str(), lowered)
    }

    /// The key of `path` under `verb` and `domain`, where the domain is
    /// taken as it is written.
    pub fn new_normalized(verb: Verb, path: &str, domain: Option<String>) -> (r: Result<
        RouteKey,
        RouteError,
    >)
        ensures
            match r {
                Ok(key) => key_for(verb, path@, text_of(domain)) == Ok::<KeyView, RouteError>(key@),
                Err(e) => key_for(verb, path@, text_of(domain)) == Err::<KeyView, RouteError>(e),
            },
    {
        let chars = chars_of(path);
        let bounds = segment_bounds(&chars);
        if !pattern_at(&chars, &bounds) {
            return Err(RouteError::InvalidFormat);
        }
        match &domain {
            Some(d) => {
                let domain_chars = chars_of(d.as_str());
                if !domain_at(&domain_chars) {
                    return Err(RouteError::InvalidDomain);
                }
            },
            None => {},
        }
        let parts = parts_at(path, &chars, &bounds);
        let n = chars.len();
        let trailing_slash = n > 0 && chars[n - 1] == '/';
        Ok(RouteKey { domain, parts, verb, trailing_slash })
    }

    /// Whether two keys are equal.
    pub fn same_as(&self, other: &RouteKey) -> (same: bool)
        ensures
            same == (self@ == other@),
    {
        if self.verb != other.verb || self.trailing_slash != other.trailing_slash {
            return false;
        }
        let domains_agree = match (&self.domain, &other.domain) {
            (Some(a), Some(b)) => *a == *b,
            (None, None) => true,
            _ => false,
        };
        if !domains_agree || self.parts.len() != other.parts.len() {
            assert(self@.segments.len() == self.parts@.len());
            assert(other@.segments.len() == other.parts@.len());
            return false;
        }
        let mut i: usize = 0;
        while i < self.parts.len()
            invariant
                i <= self.parts@.len(),
                self.parts@.len() == other.parts@.len(),
                forall|k: int| 0 <= k < i ==> (#[trigger] self.parts@[k])@ == other.parts@[k]@,
            decreases self.parts@.len() - i,
        {
            let agree = match (&self.parts[i], &other.parts[i]) {
                (RoutePart::Path(a), RoutePart::Path(b)) => *a == *b,
                (RoutePart::Int, RoutePart::Int) => true,
                (RoutePart::Float, RoutePart::Float) => true,
                (RoutePart::String, RoutePart::String) => true,
                _ => false,
            };
            if !agree {
                assert(self@.segments[i as int] == self.parts@[i as int]@);
                assert(other@.segments[i as int] == other.parts@[i as int]@);
                return false;
            }
            i = i + 1;
        }
        assert(self@.segments =~= other@.segments);
        true
    }
}

} // verus!
