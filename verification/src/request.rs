//! A request made ready for matching: its path cut into segments, and each
//! segment judged once for the numbers it may denote.

use vstd::prelude::*;
use vstd::string::StrSliceExecFns;
use crate::grammar::{
    cut, has_trailing_slash, in_bounds, is_request_path, request_path_at, segment_bounds, segments,
};
use crate::key::{kinds_of, text_of, text_of_ref, RouteKey, RoutePart, Segment, Verb};
use crate::float::{float_at, is_float_text};
use crate::number::{int_at, int_text};
use crate::params::{bag_of, Binding, CapturedValue, ParameterBag};
use crate::registry::{coherent, kinds_in, Registration};
use crate::resolution::{
    admits, capture, captured, domain_distance, is_under, key_admits, kinds_precede, path_admits,
    precedes, rank, same_ranks,
};
use crate::route::{lemma_placeholder_kinds_grow, placeholder_kinds, placeholders_of, Route};
use crate::text::chars_of;

verus! {

/// A request: its verb, its domain as text and as characters, whether its
/// path ends in a slash, and for each segment of the path its text, the
/// integer it denotes if any, and whether it denotes a float.
pub(crate) struct Request<'a> {
    pub verb: Verb,
    pub domain: Option<&'a String>,
    pub domain_chars: Vec<char>,
    pub trailing_slash: bool,
    pub texts: Vec<String>,
    pub ints: Vec<Option<i64>>,
    pub floats: Vec<bool>,
}

impl<'a> Request<'a> {
    /// Whether the request is the one made of `verb`, `domain` and `path`.
    pub(crate) open spec fn stands_for(
        &self,
        verb: Verb,
        domain: Option<Seq<char>>,
        path: Seq<char>,
    ) -> bool {
        &&& self.verb == verb
        &&& text_of_ref(self.domain) == domain
        &&& self.domain is Some ==> self.domain_chars@ == self.domain->0@
        &&& self.trailing_slash == has_trailing_slash(path)
        &&& self.texts@.len() == segments(path).len()
        &&& self.ints@.len() == segments(path).len()
        &&& self.floats@.len() == segments(path).len()
        &&& forall|i: int|
            0 <= i < segments(path).len() ==> {
                &&& (#[trigger] self.texts@[i])@ == segments(path)[i]
                &&& match self.ints@[i] {
                    Some(v) => int_text(segments(path)[i]) == Some(v as int),
                    None => int_text(segments(path)[i]) is None,
                }
                &&& self.floats@[i] == is_float_text(segments(path)[i])
            }
    }
}

/// Makes a request ready, unless `path` is no request path.
pub(crate) fn prepare<'a>(verb: Verb, domain: Option<&'a String>, path: &str) -> (r: Option<
    Request<'a>,
>)
    ensures
        match r {
            Some(request) => is_request_path(path@) && request.stands_for(
                verb,
                text_of_ref(domain),
                path@,
            ),
            None => !is_request_path(path@),
        },
{
    let chars = chars_of(path);
    let bounds = segment_bounds(&chars);
    if !request_path_at(&chars, &bounds) {
        return None;
    }
    let ghost segs = segments(path@);
    let mut texts: Vec<String> = Vec::new();
    let mut ints: Vec<Option<i64>> = Vec::new();
    let mut floats: Vec<bool> = Vec::new();
    let mut i: usize = 0;
    while i < bounds.len()
        invariant
            i <= bounds@.len(),
            chars@ == path@,
            segs == segments(path@),
            in_bounds(bounds@, chars@.len()),
            cut(chars@, bounds@) == segs,
            texts@.len() == i,
            ints@.len() == i,
            floats@.len() == i,
            forall|k: int|
                0 <= k < i ==> {
                    &&& (#[trigger] texts@[k])@ == segs[k]
                    &&& match ints@[k] {
                        Some(v) => int_text(segs[k]) == Some(v as int),
                        None => int_text(segs[k]) is None,
                    }
                    &&& floats@[k] == is_float_text(segs[k])
                },
        decreases bounds@.len() - i,
    {
        let (from, to) = bounds[i];
        assert(cut(chars@, bounds@)[i as int] == chars@.subrange(from as int, to as int));
        texts.push(path.substring_char(from, to).to_owned());
        ints.push(int_at(&chars, from, to));
        floats.push(float_at(&chars, from, to));
        i = i + 1;
    }
    let domain_chars = match domain {
        Some(d) => chars_of(d.as_str()),
        None => Vec::new(),
    };
    let n = chars.len();
    let trailing_slash = n > 0 && chars[n - 1] == '/';
    Some(Request { verb, domain, domain_chars, trailing_slash, texts, ints, floats })
}

/// The rank of a part in the order of specificity.
pub(crate) fn rank_of(part: &RoutePart) -> (r: u8)
    ensures
        r == rank(part@),
{
    match part {
        RoutePart::Path(_) => 0,
        RoutePart::Int => 1,
        RoutePart::Float => 2,
        RoutePart::String => 3,
    }
}

/// Whether `part` admits the `j`-th segment of the request.
pub(crate) fn part_admits(
    part: &RoutePart,
    request: &Request,
    j: usize,
    Ghost(path): Ghost<Seq<char>>,
) -> (r: bool)
    requires
        request.stands_for(request.verb, text_of_ref(request.domain), path),
        j < segments(path).len(),
    ensures
        r == admits(part@, segments(path)[j as int]),
{
    assert(request.texts@[j as int]@ == segments(path)[j as int]);
    match part {
        RoutePart::Path(text) => *text == request.texts[j],
        RoutePart::Int => request.ints[j].is_some(),
        RoutePart::Float => request.floats[j],
        RoutePart::String => true,
    }
}

/// Whether the characters of `domain` are `base[skip..]`, or end in a dot
/// and `base[skip..]`.
fn under(domain: &Vec<char>, base: &Vec<char>, skip: usize) -> (r: bool)
    requires
        skip <= base@.len(),
    ensures
        r == is_under(domain@, base@.skip(skip as int)),
{
    let ghost b = base@.skip(skip as int);
    let blen = base.len() - skip;
    let dlen = domain.len();
    if dlen < blen {
        return false;
    }
    let offset = dlen - blen;
    if offset > 0 && domain[offset - 1] != '.' {
        assert(domain@ != b);
        return false;
    }
    let mut i: usize = 0;
    while i < blen
        invariant
            i <= blen,
            skip + blen == base@.len(),
            offset + blen == domain@.len(),
            base@.len() <= usize::MAX,
            domain@.len() <= usize::MAX,
            b == base@.skip(skip as int),
            forall|k: int| 0 <= k < i ==> domain@[offset + k] == b[k],
        decreases blen - i,
    {
        if domain[offset + i] != base[skip + i] {
            assert(b[i as int] == base@[skip + i]);
            assert(domain@.skip(offset as int)[i as int] == domain@[offset + i]);
            return false;
        }
        assert(b[i as int] == base@[skip + i]);
        i = i + 1;
    }
    assert(domain@.skip(offset as int) =~= b);
    if offset == 0 {
        assert(domain@.skip(0) == domain@);
    }
    true
}

/// How far the registered domain is from the request's, if it admits it.
pub(crate) fn distance(registered: &Option<String>, request: &Request) -> (r: Option<u128>)
    requires
        request.domain is Some ==> request.domain_chars@ == request.domain->0@,
    ensures
        match r {
            Some(d) => domain_distance(text_of(*registered), text_of_ref(request.domain)) == Some(
                d as int,
            ),
            None => domain_distance(text_of(*registered), text_of_ref(request.domain)) is None,
        },
{
    match registered {
        None => match request.domain {
            Some(_) => Some(request.domain_chars.len() as u128 + 2),
            None => Some(0),
        },
        Some(r) => match request.domain {
            None => None,
            Some(d) => {
                if *r == *d {
                    return Some(0);
                }
                let chars = chars_of(r.as_str());
                if chars.len() >= 2 && chars[0] == '*' && chars[1] == '.' && under(
                    &request.domain_chars,
                    &chars,
                    2,
                ) {
                    let base_len = chars.len() - 2;
                    assert(request.domain_chars@.len() >= base_len);
                    Some(1u128 + (request.domain_chars.len() - base_len) as u128)
                } else {
                    None
                }
            },
        },
    }
}

/// Whether the route registered under `key` admits the request.
pub(crate) fn key_admits_request(key: &RouteKey, request: &Request, Ghost(path): Ghost<Seq<char>>) -> (r:
    bool)
    requires
        request.stands_for(request.verb, text_of_ref(request.domain), path),
    ensures
        r == key_admits(key@, request.verb, text_of_ref(request.domain), path),
{
    if key.verb() != request.verb || key.trailing_slash() != request.trailing_slash {
        return false;
    }
    let parts = key.parts();
    if parts.len() != request.texts.len() {
        assert(kinds_of(parts@).len() == parts@.len());
        return false;
    }
    let mut j: usize = 0;
    while j < parts.len()
        invariant
            j <= parts@.len(),
            parts@.len() == segments(path).len(),
            kinds_of(parts@) == key@.segments,
            request.stands_for(request.verb, text_of_ref(request.domain), path),
            forall|k: int| 0 <= k < j ==> admits(#[trigger] key@.segments[k], segments(path)[k]),
        decreases parts@.len() - j,
    {
        assert(kinds_of(parts@)[j as int] == parts@[j as int]@);
        if !part_admits(&parts[j], request, j, Ghost(path)) {
            return false;
        }
        j = j + 1;
    }
    assert(kinds_of(parts@).len() == parts@.len());
    distance(key.domain(), request).is_some()
}

/// Whether the key `a` goes before the key `b` for the request, where both
/// admit it.
pub(crate) fn key_precedes(
    a: &RouteKey,
    b: &RouteKey,
    request: &Request,
    Ghost(path): Ghost<Seq<char>>,
) -> (r: bool)
    requires
        request.stands_for(request.verb, text_of_ref(request.domain), path),
        key_admits(a@, request.verb, text_of_ref(request.domain), path),
        key_admits(b@, request.verb, text_of_ref(request.domain), path),
    ensures
        r == precedes(a@, b@, text_of_ref(request.domain)),
{
    let x = a.parts();
    let y = b.parts();
    assert(kinds_of(x@).len() == x@.len());
    assert(kinds_of(y@).len() == y@.len());
    let mut j: usize = 0;
    while j < x.len()
        invariant
            j <= x@.len(),
            x@.len() == y@.len(),
            kinds_of(x@) == a@.segments,
            kinds_of(y@) == b@.segments,
            forall|k: int| 0 <= k < j ==> rank(#[trigger] a@.segments[k]) == rank(b@.segments[k]),
        decreases x@.len() - j,
    {
        assert(kinds_of(x@)[j as int] == x@[j as int]@);
        assert(kinds_of(y@)[j as int] == y@[j as int]@);
        let p = rank_of(&x[j]);
        let q = rank_of(&y[j]);
        if p < q {
            assert(kinds_precede(a@.segments, b@.segments));
            return true;
        }
        if q < p {
            proof {
                let s = a@.segments;
                let t = b@.segments;
                if kinds_precede(s, t) {
                    let i = choose|i: int|
                        0 <= i < s.len() && i < t.len() && rank(#[trigger] s[i]) < rank(t[i])
                            && forall|k: int| 0 <= k < i ==> rank(#[trigger] s[k]) == rank(t[k]);
                    if i > j {
                        assert(rank(s[j as int]) == rank(t[j as int]));
                    }
                }
                if same_ranks(s, t) {
                    assert(rank(s[j as int]) == rank(t[j as int]));
                }
            }
            return false;
        }
        j = j + 1;
    }
    proof {
        let s = a@.segments;
        let t = b@.segments;
        assert(same_ranks(s, t));
        if kinds_precede(s, t) {
            let i = choose|i: int|
                0 <= i < s.len() && i < t.len() && rank(#[trigger] s[i]) < rank(t[i]) && forall|
                    k: int,
                | 0 <= k < i ==> rank(#[trigger] s[k]) == rank(t[k]);
            assert(rank(s[i]) == rank(t[i]));
        }
    }
    let p = distance(a.domain(), request);
    let q = distance(b.domain(), request);
    p.unwrap() < q.unwrap()
}

/// The values the request gives to the placeholders of a route that admits
/// it.
pub(crate) fn capture_all<H>(
    key: &RouteKey,
    route: &Route<H>,
    request: &Request,
    Ghost(path): Ghost<Seq<char>>,
) -> (bag: ParameterBag)
    requires
        request.stands_for(request.verb, text_of_ref(request.domain), path),
        path_admits(key@.segments, segments(path)),
        coherent(Registration { key: key@, route: route@ }),
    ensures
        bag@ == bag_of(captured(key@.segments, route@.vars, segments(path))),
{
    let parts = key.parts();
    let ghost kinds = key@.segments;
    let ghost vars = route@.vars;
    let ghost texts = segments(path);
    let mut bag = ParameterBag::new();
    let mut j: usize = 0;
    let mut v: usize = 0;
    let var_count = route.vars.len();
    proof {
        assert(kinds_of(parts@).len() == parts@.len());
        assert(kinds.take(0) == Seq::<Segment>::empty());
        assert(kinds_in(vars).len() == vars.len());
        assert(placeholders_of(route.vars@).len() == route.vars@.len());
    }
    while j < parts.len()
        invariant
            j <= parts@.len(),
            parts@.len() == texts.len(),
            kinds == key@.segments,
            kinds_of(parts@) == kinds,
            vars == route@.vars,
            vars.len() == route.vars@.len(),
            vars.len() == var_count,
            texts == segments(path),
            request.stands_for(request.verb, text_of_ref(request.domain), path),
            path_admits(kinds, texts),
            kinds_in(vars) == placeholder_kinds(kinds),
            v == placeholder_kinds(kinds.take(j as int)).len(),
            v <= vars.len(),
            bag@ == bag_of(captured(kinds.take(j as int), vars.take(v as int), texts.take(j as int))),
        decreases parts@.len() - j,
    {
        let ghost before = captured(kinds.take(j as int), vars.take(v as int), texts.take(j as int));
        proof {
            lemma_placeholder_kinds_grow(kinds, j + 1);
            let longer = kinds.take(j + 1);
            assert(longer.drop_last() == kinds.take(j as int));
            assert(longer.last() == kinds[j as int]);
            assert(texts.take(j + 1).drop_last() == texts.take(j as int));
            assert(texts.take(j + 1).last() == texts[j as int]);
            assert(kinds_of(parts@)[j as int] == parts@[j as int]@);
            assert(admits(kinds[j as int], texts[j as int]));
            assert(request.texts@[j as int]@ == texts[j as int]);
            assert(kinds_in(vars).len() == vars.len());
            if !(kinds[j as int] is Literal) {
                assert(placeholder_kinds(longer) == placeholder_kinds(kinds.take(j as int)).push(
                    longer.last(),
                ));
                assert(v + 1 <= vars.len());
                assert(vars.take(v + 1).drop_last() == vars.take(v as int));
                assert(vars.take(v + 1).last() == vars[v as int]);
                assert(placeholders_of(route.vars@)[v as int] == route.vars@[v as int]@);
            }
        }
        let ghost kind = kinds[j as int];
        let ghost binding = Binding { name: vars[v as int].name, value: capture(kind, texts[j as int]) };
        proof {
            if !(kind is Literal) {
                let after = captured(kinds.take(j + 1), vars.take(v + 1), texts.take(j + 1));
                assert(after == before.push(binding));
                assert(after.drop_last() == before);
                assert(bag_of(after) == bag_of(before).insert(binding.name, binding.value));
            }
        }
        match &parts[j] {
            RoutePart::Path(_) => {},
            RoutePart::Int => {
                let value = match request.ints[j] {
                    Some(n) => n,
                    None => 0,
                };
                bag.add(route.vars[v].name(), CapturedValue::Int(value));
                v = v + 1;
            },
            RoutePart::Float => {
                bag.add(route.vars[v].name(), CapturedValue::Float(request.texts[j].clone()));
                v = v + 1;
            },
            RoutePart::String => {
                bag.add(route.vars[v].name(), CapturedValue::String(request.texts[j].clone()));
                v = v + 1;
            },
        }
        j = j + 1;
    }
    proof {
        assert(kinds.take(j as int) == kinds);
        assert(texts.take(j as int) == texts);
        assert(vars.take(v as int) == vars);
    }
    bag
}

} // verus!
