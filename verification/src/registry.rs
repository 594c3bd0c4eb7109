//! The registry as contracts see it: the registrations made so far, in the
//! order in which they were made, and what one more registration comes to.

use vstd::prelude::*;
use crate::grammar::segments;
use crate::error::RouteError;
use crate::key::{canonical_key, key_for, pattern_kinds, KeyView, Segment, Verb};
use crate::route::{
    lemma_placeholders_follow_kinds, placeholder_kinds, placeholders, Placeholder, RouteView,
};

verus! {

/// One registration: a key, and the route stored under it.
pub struct Registration<H> {
    pub key: KeyView,
    pub route: RouteView<H>,
}

/// Whether a route is registered under `key`.
pub open spec fn has_key<H>(entries: Seq<Registration<H>>, key: KeyView) -> bool {
    exists|i: int| 0 <= i < entries.len() && (#[trigger] entries[i]).key == key
}

/// The kinds of a sequence of placeholders.
pub open spec fn kinds_in(vars: Seq<Placeholder>) -> Seq<Segment> {
    vars.map_values(|p: Placeholder| p.kind)
}

/// A route goes with its key: the same domain and verb, and one placeholder
/// for each segment of the key that is no literal, of that segment's kind
/// and in the same order.
pub open spec fn coherent<H>(entry: Registration<H>) -> bool {
    &&& entry.route.domain == entry.key.domain
    &&& entry.route.verb == entry.key.verb
    &&& kinds_in(entry.route.vars) == placeholder_kinds(entry.key.segments)
}

/// What holds of every registry: no two registrations have equal keys, and
/// each route goes with its key.
pub open spec fn well_formed<H>(entries: Seq<Registration<H>>) -> bool {
    &&& forall|i: int, j: int|
        0 <= i < j < entries.len() ==> (#[trigger] entries[i]).key != (#[trigger] entries[j]).key
    &&& forall|i: int| 0 <= i < entries.len() ==> coherent(#[trigger] entries[i])
}

/// What registering `path` under `verb` and `domain` stores.
pub open spec fn registration<H>(
    domain: Option<Seq<char>>,
    verb: Verb,
    path: Seq<char>,
    target: H,
) -> Registration<H> {
    Registration {
        key: canonical_key(verb, path, domain),
        route: RouteView { domain, vars: placeholders(segments(path)), verb, target },
    }
}

/// What a registration comes to: the pattern is judged first, then the
/// domain, then whether the key is taken.
pub open spec fn route_outcome<H>(
    entries: Seq<Registration<H>>,
    domain: Option<Seq<char>>,
    verb: Verb,
    path: Seq<char>,
) -> Result<(), RouteError> {
    match key_for(verb, path, domain) {
        Err(e) => Err(e),
        Ok(key) => if has_key(entries, key) {
            Err(RouteError::DuplicateRoute)
        } else {
            Ok(())
        },
    }
}

/// The registry after a registration: one entry longer where it succeeds,
/// and as it was where it fails.
pub open spec fn routes_after<H>(
    entries: Seq<Registration<H>>,
    domain: Option<Seq<char>>,
    verb: Verb,
    path: Seq<char>,
    target: H,
) -> Seq<Registration<H>> {
    if route_outcome(entries, domain, verb, path) is Ok {
        entries.push(registration(domain, verb, path, target))
    } else {
        entries
    }
}

/// What a registration stores is coherent.
pub proof fn lemma_registration_is_coherent<H>(
    domain: Option<Seq<char>>,
    verb: Verb,
    path: Seq<char>,
    target: H,
)
    ensures
        coherent(registration(domain, verb, path, target)),
{
    lemma_placeholders_follow_kinds(segments(path));
    assert(kinds_in(placeholders(segments(path))) == placeholder_kinds(pattern_kinds(path)));
}

} // verus!
