//! Routes: what the registry keeps beside each key.

use vstd::prelude::*;
use vstd::string::StrSliceExecFns;
use crate::grammar::{cut, in_bounds, segments};
use crate::key::{segment_kind, Segment, Verb};

verus! {

/// What a handler gives back for the caller to render.
#[derive(Debug, PartialEq, Eq)]
pub enum Render {
    Plain(String),
    File(String, String),
    Mime(String, String),
    Json(String),
}

/// A placeholder as contracts see it: the kind it captures, and its name.
pub struct Placeholder {
    pub kind: Segment,
    pub name: Seq<char>,
}

/// A placeholder of a pattern: its type, and its name.
#[derive(Debug, PartialEq, Eq, Clone, Copy, Hash)]
pub enum RouteVar {
    Int(&'static str),
    Float(&'static str),
    String(&'static str),
}

impl View for RouteVar {
    type V = Placeholder;

    open spec fn view(&self) -> Placeholder {
        match self {
            RouteVar::Int(name) => Placeholder { kind: Segment::Int, name: name@ },
            RouteVar::Float(name) => Placeholder { kind: Segment::Float, name: name@ },
            RouteVar::String(name) => Placeholder { kind: Segment::Text, name: name@ },
        }
    }
}

impl RouteVar {
    /// The name of the placeholder.
    pub fn name(&self) -> (name: &'static str)
        ensures
            name@ == self@.name,
    {
        match self {
            RouteVar::Int(name) => name,
            RouteVar::Float(name) => name,
            RouteVar::String(name) => name,
        }
    }
}

/// The placeholders of a sequence of vars.
pub open spec fn placeholders_of(vars: Seq<RouteVar>) -> Seq<Placeholder> {
    vars.map_values(|v: RouteVar| v@)
}

/// The placeholders among the segments `segs`, in order: for each segment
/// with a marker, the kind the marker stands for and the text after it.
pub open spec fn placeholders(segs: Seq<Seq<char>>) -> Seq<Placeholder>
    decreases segs.len(),
{
    if segs.len() == 0 {
        Seq::empty()
    } else if segment_kind(segs.last()) is Literal {
        placeholders(segs.drop_last())
    } else {
        placeholders(segs.drop_last()).push(
            Placeholder { kind: segment_kind(segs.last()), name: segs.last().skip(1) },
        )
    }
}

/// The kinds in `kinds` that are placeholders, in order.
pub open spec fn placeholder_kinds(kinds: Seq<Segment>) -> Seq<Segment>
    decreases kinds.len(),
{
    if kinds.len() == 0 {
        Seq::empty()
    } else if kinds.last() is Literal {
        placeholder_kinds(kinds.drop_last())
    } else {
        placeholder_kinds(kinds.drop_last()).push(kinds.last())
    }
}

/// The placeholders of a pattern have the kinds that its key holds for
/// them, in the same order.
pub proof fn lemma_placeholders_follow_kinds(segs: Seq<Seq<char>>)
    ensures
        placeholders(segs).map_values(|p: Placeholder| p.kind) == placeholder_kinds(
            segs.map_values(|seg: Seq<char>| segment_kind(seg)),
        ),
    decreases segs.len(),
{
    let kinds = segs.map_values(|seg: Seq<char>| segment_kind(seg));
    if segs.len() == 0 {
        assert(placeholders(segs).map_values(|p: Placeholder| p.kind) == placeholder_kinds(kinds));
    } else {
        lemma_placeholders_follow_kinds(segs.drop_last());
        assert(kinds.drop_last() == segs.drop_last().map_values(
            |seg: Seq<char>| segment_kind(seg),
        ));
        assert(kinds.last() == segment_kind(segs.last()));
        assert(placeholders(segs).map_values(|p: Placeholder| p.kind) == placeholder_kinds(kinds));
    }
}

/// The placeholder kinds of a shorter run of kinds begin those of a longer.
pub proof fn lemma_placeholder_kinds_grow(kinds: Seq<Segment>, j: int)
    requires
        0 <= j <= kinds.len(),
    ensures
        placeholder_kinds(kinds.take(j)).len() <= placeholder_kinds(kinds).len(),
        placeholder_kinds(kinds.take(j)) == placeholder_kinds(kinds).take(
            placeholder_kinds(kinds.take(j)).len() as int,
        ),
    decreases kinds.len() - j,
{
    if j == kinds.len() {
        assert(kinds.take(j) == kinds);
        assert(placeholder_kinds(kinds).take(placeholder_kinds(kinds).len() as int)
            == placeholder_kinds(kinds));
    } else {
        lemma_placeholder_kinds_grow(kinds, j + 1);
        let longer = kinds.take(j + 1);
        assert(longer.drop_last() == kinds.take(j));
        let p = placeholder_kinds(kinds.take(j));
        let q = placeholder_kinds(longer);
        let all = placeholder_kinds(kinds);
        assert(p == all.take(p.len() as int)) by {
            if !(longer.last() is Literal) {
                assert(q == p.push(longer.last()));
                assert(p == q.take(p.len() as int));
                assert(q.take(p.len() as int) == all.take(q.len() as int).take(p.len() as int));
            }
        }
    }
}

/// A registered route: the domain and verb it answers to, its placeholders
/// in the order of the pattern, and the handler bound to it.
pub struct Route<H> {
    pub domain: Option<String>,
    pub vars: Vec<RouteVar>,
    pub verb: Verb,
    pub target: H,
}

impl<H: Copy> Clone for Route<H> {
    fn clone(&self) -> (copy: Route<H>)
        ensures
            copy@ == self@,
    {
        let mut vars: Vec<RouteVar> = Vec::new();
        let mut i: usize = 0;
        while i < self.vars.len()
            invariant
                i <= self.vars@.len(),
                vars@ == self.vars@.take(i as int),
            decreases self.vars@.len() - i,
        {
            vars.push(self.vars[i]);
            i = i + 1;
        }
        assert(self.vars@.take(i as int) == self.vars@);
        let domain = match &self.domain {
            Some(d) => Some(d.clone()),
            None => None,
        };
        Route { domain, vars, verb: self.verb, target: self.target }
    }
}

/// A route as contracts see it.
pub struct RouteView<H> {
    pub domain: Option<Seq<char>>,
    pub vars: Seq<Placeholder>,
    pub verb: Verb,
    pub target: H,
}

impl<H> View for Route<H> {
    type V = RouteView<H>;

    open spec fn view(&self) -> RouteView<H> {
        RouteView {
            domain: match self.domain {
                Some(d) => Some(d@),
                None => None,
            },
            vars: placeholders_of(self.vars@),
            verb: self.verb,
            target: self.target,
        }
    }
}

/// The placeholders of a pattern, given its characters and where its
/// segments lie.
pub(crate) fn vars_at(path: &'static str, chars: &Vec<char>, bounds: &Vec<(usize, usize)>) -> (vars:
    Vec<RouteVar>)
    requires
        chars@ == path@,
        in_bounds(bounds@, chars@.len()),
        cut(chars@, bounds@) == segments(chars@),
    ensures
        placeholders_of(vars@) == placeholders(segments(path@)),
{
    let ghost segs = segments(path@);
    let mut vars: Vec<RouteVar> = Vec::new();
    let mut i: usize = 0;
    assert(segs.take(0) == Seq::<Seq<char>>::empty());
    while i < bounds.len()
        invariant
            i <= bounds@.len(),
            chars@ == path@,
            segs == segments(path@),
            in_bounds(bounds@, chars@.len()),
            cut(chars@, bounds@) == segs,
            placeholders_of(vars@) == placeholders(segs.take(i as int)),
        decreases bounds@.len() - i,
    {
        let (from, to) = bounds[i];
        let ghost seg = chars@.subrange(from as int, to as int);
        assert(cut(chars@, bounds@)[i as int] == seg);
        proof {
            let longer = segs.take(i + 1);
            assert(longer.drop_last() == segs.take(i as int));
            assert(longer.last() == seg);
            if from < to {
                assert(seg[0] == chars@[from as int]);
                assert(seg.skip(1) == chars@.subrange(from + 1, to as int));
            }
        }
        let ghost before = vars@;
        if from < to {
            let c = chars[from];
            if c == ':' {
                vars.push(RouteVar::Int(path.substring_char(from + 1, to)));
                assert(placeholders_of(vars@) == placeholders_of(before).push(vars@.last()@));
            } else if c == '#' {
                vars.push(RouteVar::String(path.substring_char(from + 1, to)));
                assert(placeholders_of(vars@) == placeholders_of(before).push(vars@.last()@));
            } else if c == ';' {
                vars.push(RouteVar::Float(path.substring_char(from + 1, to)));
                assert(placeholders_of(vars@) == placeholders_of(before).push(vars@.last()@));
            }
        }
        i = i + 1;
    }
    assert(segs.take(i as int) == segs);
    vars
}

} // verus!
