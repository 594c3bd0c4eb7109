//! Which registered route a request denotes.
//!
//! A request segment carries no marker, so more than one kind of segment
//! admits it: a literal with the same text, an integer placeholder if the
//! text denotes an integer, a float placeholder if it denotes a float, and
//! a string placeholder always. Of the registered routes that admit a
//! request, the one that comes first in the order of specificity is the one
//! the request denotes: at the first segment where two keys differ in kind,
//! literal goes before integer, integer before float and float before
//! string; where no segment differs, the domain nearer to the request's
//! goes first. To try the keys that a request could denote one by one in
//! that order, and to stop at the first that is registered, is to find the
//! same route.

use vstd::prelude::*;
use crate::grammar::{has_trailing_slash, is_request_path, segments};
use crate::key::{KeyView, Segment, Verb};
use crate::float::is_float_text;
use crate::number::int_text;
use crate::params::{bag_of, Binding, Capture};
use crate::registry::Registration;
use crate::route::Placeholder;

verus! {

/// The place of a kind in the order of specificity: the lower, the more
/// specific.
pub open spec fn rank(kind: Segment) -> int {
    match kind {
        Segment::Literal(_) => 0,
        Segment::Int => 1,
        Segment::Float => 2,
        Segment::Text => 3,
    }
}

/// Whether the request text `text` can stand where a segment of kind `kind`
/// stands.
pub open spec fn admits(kind: Segment, text: Seq<char>) -> bool {
    match kind {
        Segment::Literal(literal) => literal == text,
        Segment::Int => int_text(text) is Some,
        Segment::Float => is_float_text(text),
        Segment::Text => true,
    }
}

/// The kinds that admit a request text, from the most specific to the
/// least: the literal with that text, the integer placeholder if the text
/// denotes an integer, the float placeholder if it denotes a float, and the
/// string placeholder.
pub open spec fn candidates(text: Seq<char>) -> Seq<Segment> {
    seq![Segment::Literal(text)] + (if int_text(text) is Some {
        seq![Segment::Int]
    } else {
        Seq::empty()
    }) + (if is_float_text(text) {
        seq![Segment::Float]
    } else {
        Seq::empty()
    }) + seq![Segment::Text]
}

/// Whether each of `texts` can stand where the kind at its place stands.
pub open spec fn path_admits(kinds: Seq<Segment>, texts: Seq<Seq<char>>) -> bool {
    &&& kinds.len() == texts.len()
    &&& forall|i: int| 0 <= i < kinds.len() ==> admits(#[trigger] kinds[i], texts[i])
}

/// What follows `*.` in a wildcard domain.
pub open spec fn wildcard_base(domain: Seq<char>) -> Option<Seq<char>> {
    if domain.len() >= 2 && domain[0] == '*' && domain[1] == '.' {
        Some(domain.skip(2))
    } else {
        None
    }
}

/// Whether `domain` is `base` or ends in a dot and `base`.
pub open spec fn is_under(domain: Seq<char>, base: Seq<char>) -> bool {
    ||| domain == base
    ||| {
        &&& domain.len() > base.len()
        &&& domain[domain.len() - base.len() - 1] == '.'
        &&& domain.skip(domain.len() - base.len()) == base
    }
}

/// How far a registered domain is from the domain of a request, if it
/// admits it at all. A request without a domain is admitted by routes
/// without one only. A request with a domain is admitted by the same domain
/// at distance 0, by a wildcard domain that it is under at a distance that
/// grows as the base gets shorter, and by a route without a domain at a
/// distance beyond all of these.
pub open spec fn domain_distance(registered: Option<Seq<char>>, requested: Option<Seq<char>>) -> Option<
    int,
> {
    match registered {
        None => match requested {
            Some(d) => Some(d.len() as int + 2),
            None => Some(0),
        },
        Some(r) => match requested {
            None => None,
            Some(d) => if r == d {
                Some(0)
            } else if wildcard_base(r) is Some && is_under(d, wildcard_base(r)->0) {
                Some(1 + d.len() - wildcard_base(r)->0.len())
            } else {
                None
            },
        },
    }
}

/// Whether the route registered under `key` admits the request: the verb
/// is the same, the path ends in a slash exactly if the pattern does, each
/// segment of the path can stand where the key's segment stands, and the
/// domain is admitted.
pub open spec fn key_admits(
    key: KeyView,
    verb: Verb,
    domain: Option<Seq<char>>,
    path: Seq<char>,
) -> bool {
    &&& key.verb == verb
    &&& key.trailing_slash == has_trailing_slash(path)
    &&& path_admits(key.segments, segments(path))
    &&& domain_distance(key.domain, domain) is Some
}

/// Whether `a` is more specific than `b` at the first segment where their
/// kinds differ in rank.
pub open spec fn kinds_precede(a: Seq<Segment>, b: Seq<Segment>) -> bool {
    exists|i: int|
        0 <= i < a.len() && i < b.len() && rank(#[trigger] a[i]) < rank(b[i]) && forall|j: int|
            0 <= j < i ==> rank(#[trigger] a[j]) == rank(b[j])
}

/// Whether `a` and `b` have kinds of the same rank throughout.
pub open spec fn same_ranks(a: Seq<Segment>, b: Seq<Segment>) -> bool {
    &&& a.len() == b.len()
    &&& forall|i: int| 0 <= i < a.len() ==> rank(#[trigger] a[i]) == rank(b[i])
}

/// Whether the key `a` goes before the key `b` in the order of specificity,
/// for a request with the domain `domain`.
pub open spec fn precedes(a: KeyView, b: KeyView, domain: Option<Seq<char>>) -> bool {
    ||| kinds_precede(a.segments, b.segments)
    ||| {
        &&& same_ranks(a.segments, b.segments)
        &&& domain_distance(a.domain, domain) is Some
        &&& domain_distance(b.domain, domain) is Some
        &&& domain_distance(a.domain, domain)->0 < domain_distance(b.domain, domain)->0
    }
}

/// Whether the `i`-th registration is the one the request denotes: it
/// admits the request, and goes before every other that does.
pub open spec fn is_winner<H>(
    entries: Seq<Registration<H>>,
    i: int,
    verb: Verb,
    domain: Option<Seq<char>>,
    path: Seq<char>,
) -> bool {
    &&& 0 <= i < entries.len()
    &&& key_admits(entries[i].key, verb, domain, path)
    &&& forall|j: int|
        0 <= j < entries.len() && j != i && key_admits((#[trigger] entries[j]).key, verb, domain, path)
            ==> precedes(entries[i].key, entries[j].key, domain)
}

/// What a placeholder of kind `kind` captures from `text`.
pub open spec fn capture(kind: Segment, text: Seq<char>) -> Capture {
    match kind {
        Segment::Int => Capture::Int(int_text(text)->0),
        Segment::Float => Capture::Float(text),
        _ => Capture::Text(text),
    }
}

/// The bindings a request makes: from left to right, each segment of the
/// key that is no literal binds the name of its placeholder to what it
/// captures from the request text at its place.
pub open spec fn captured(kinds: Seq<Segment>, vars: Seq<Placeholder>, texts: Seq<Seq<char>>) -> Seq<
    Binding,
>
    decreases kinds.len(),
{
    if kinds.len() == 0 {
        Seq::empty()
    } else if kinds.last() is Literal {
        captured(kinds.drop_last(), vars, texts.drop_last())
    } else {
        captured(kinds.drop_last(), vars.drop_last(), texts.drop_last()).push(
            Binding { name: vars.last().name, value: capture(kinds.last(), texts.last()) },
        )
    }
}

/// What a request resolves to: a handler, and the values captured for it.
pub struct Resolved<H> {
    pub target: H,
    pub bag: Map<Seq<char>, Capture>,
}

/// What resolving a request against a registration gives.
pub open spec fn resolved_by<H>(entry: Registration<H>, path: Seq<char>) -> Resolved<H> {
    Resolved {
        target: entry.route.target,
        bag: bag_of(captured(entry.key.segments, entry.route.vars, segments(path))),
    }
}

/// Whether `outcome` is what the request resolves to: the handler and the
/// captures of the registration that wins, or nothing where the path is no
/// request path or no registration admits the request.
pub open spec fn resolves_to<H>(
    entries: Seq<Registration<H>>,
    verb: Verb,
    domain: Option<Seq<char>>,
    path: Seq<char>,
    outcome: Option<Resolved<H>>,
) -> bool {
    match outcome {
        Some(resolved) => {
            &&& is_request_path(path)
            &&& exists|i: int|
                is_winner(entries, i, verb, domain, path) && resolved == resolved_by(
                    #[trigger] entries[i],
                    path,
                )
        },
        None => {
            ||| !is_request_path(path)
            ||| forall|i: int|
                0 <= i < entries.len() ==> !key_admits((#[trigger] entries[i]).key, verb, domain, path)
        },
    }
}

/// Of two sequences of kinds, one goes before the other, or their ranks are
/// the same throughout the length they share.
pub proof fn lemma_kinds_compare(a: Seq<Segment>, b: Seq<Segment>)
    requires
        a.len() == b.len(),
    ensures
        kinds_precede(a, b) || kinds_precede(b, a) || same_ranks(a, b),
    decreases a.len(),
{
    if a.len() > 0 {
        let x = a.drop_last();
        let y = b.drop_last();
        lemma_kinds_compare(x, y);
        if kinds_precede(x, y) {
            let i = choose|i: int|
                0 <= i < x.len() && i < y.len() && rank(#[trigger] x[i]) < rank(y[i]) && forall|
                    j: int,
                | 0 <= j < i ==> rank(#[trigger] x[j]) == rank(y[j]);
            assert(rank(a[i]) < rank(b[i]));
            assert forall|j: int| 0 <= j < i implies rank(#[trigger] a[j]) == rank(b[j]) by {
                assert(rank(x[j]) == rank(y[j]));
            }
        } else if kinds_precede(y, x) {
            let i = choose|i: int|
                0 <= i < y.len() && i < x.len() && rank(#[trigger] y[i]) < rank(x[i]) && forall|
                    j: int,
                | 0 <= j < i ==> rank(#[trigger] y[j]) == rank(x[j]);
            assert(rank(b[i]) < rank(a[i]));
            assert forall|j: int| 0 <= j < i implies rank(#[trigger] b[j]) == rank(a[j]) by {
                assert(rank(y[j]) == rank(x[j]));
            }
        } else {
            let n = a.len() - 1;
            assert forall|j: int| 0 <= j < n implies rank(#[trigger] a[j]) == rank(b[j]) by {
                assert(rank(x[j]) == rank(y[j]));
            }
            if rank(a[n]) < rank(b[n]) {
                assert(kinds_precede(a, b));
            } else if rank(b[n]) < rank(a[n]) {
                assert forall|j: int| 0 <= j < n implies rank(#[trigger] b[j]) == rank(a[j]) by {
                    assert(rank(x[j]) == rank(y[j]));
                }
                assert(kinds_precede(b, a));
            }
        }
    }
}

/// Two keys of the same ranks that admit the same path have the same kinds.
pub proof fn lemma_same_ranks_same_kinds(a: Seq<Segment>, b: Seq<Segment>, texts: Seq<Seq<char>>)
    requires
        path_admits(a, texts),
        path_admits(b, texts),
        same_ranks(a, b),
    ensures
        a == b,
{
    assert forall|i: int| 0 <= i < a.len() implies a[i] == b[i] by {
        assert(rank(a[i]) == rank(b[i]));
        assert(admits(a[i], texts[i]) && admits(b[i], texts[i]));
    }
    assert(a =~= b);
}

/// Two domains at the same distance from the domain of a request are the
/// same domain.
pub proof fn lemma_distance_tells_domain(
    a: Option<Seq<char>>,
    b: Option<Seq<char>>,
    requested: Option<Seq<char>>,
)
    requires
        domain_distance(a, requested) is Some,
        domain_distance(a, requested) == domain_distance(b, requested),
    ensures
        a == b,
{
    if a is Some && b is Some {
        let d = requested->0;
        let x = a->0;
        let y = b->0;
        if x != d && y != d {
            let p = wildcard_base(x)->0;
            let q = wildcard_base(y)->0;
            assert(p.len() == q.len());
            assert(p =~= q) by {
                if d != p {
                    assert(d.skip(d.len() - p.len()) == p);
                }
                if d != q {
                    assert(d.skip(d.len() - q.len()) == q);
                }
            }
            assert(x =~= y) by {
                assert forall|k: int| 0 <= k < x.len() implies x[k] == y[k] by {
                    if k >= 2 {
                        assert(x[k] == p[k - 2]);
                        assert(y[k] == q[k - 2]);
                    }
                }
            }
        }
    }
}

/// Of two different keys that admit a request, one goes before the other.
pub proof fn lemma_precedes_is_total(
    a: KeyView,
    b: KeyView,
    verb: Verb,
    domain: Option<Seq<char>>,
    path: Seq<char>,
)
    requires
        key_admits(a, verb, domain, path),
        key_admits(b, verb, domain, path),
        a != b,
    ensures
        precedes(a, b, domain) || precedes(b, a, domain),
{
    lemma_kinds_compare(a.segments, b.segments);
    if same_ranks(a.segments, b.segments) {
        lemma_same_ranks_same_kinds(a.segments, b.segments, segments(path));
        if domain_distance(a.domain, domain) == domain_distance(b.domain, domain) {
            lemma_distance_tells_domain(a.domain, b.domain, domain);
        }
        assert(same_ranks(b.segments, a.segments));
    }
}

/// A key that goes before a second that goes before a third goes before
/// the third.
pub proof fn lemma_precedes_is_transitive(
    a: KeyView,
    b: KeyView,
    c: KeyView,
    domain: Option<Seq<char>>,
)
    requires
        precedes(a, b, domain),
        precedes(b, c, domain),
    ensures
        precedes(a, c, domain),
{
    let x = a.segments;
    let y = b.segments;
    let z = c.segments;
    if kinds_precede(x, y) {
        let i = choose|i: int|
            0 <= i < x.len() && i < y.len() && rank(#[trigger] x[i]) < rank(y[i]) && forall|j: int|
                0 <= j < i ==> rank(#[trigger] x[j]) == rank(y[j]);
        if kinds_precede(y, z) {
            let k = choose|k: int|
                0 <= k < y.len() && k < z.len() && rank(#[trigger] y[k]) < rank(z[k]) && forall|
                    j: int,
                | 0 <= j < k ==> rank(#[trigger] y[j]) == rank(z[j]);
            let m = if i <= k {
                i
            } else {
                k
            };
            assert(rank(x[m]) < rank(z[m])) by {
                if i < k {
                    assert(rank(y[i]) == rank(z[i]));
                } else if k < i {
                    assert(rank(x[k]) == rank(y[k]));
                }
            }
            assert forall|j: int| 0 <= j < m implies rank(#[trigger] x[j]) == rank(z[j]) by {
                assert(rank(x[j]) == rank(y[j]));
                assert(rank(y[j]) == rank(z[j]));
            }
            assert(kinds_precede(x, z));
        } else {
            assert(rank(x[i]) < rank(z[i])) by {
                assert(rank(y[i]) == rank(z[i]));
            }
            assert forall|j: int| 0 <= j < i implies rank(#[trigger] x[j]) == rank(z[j]) by {
                assert(rank(x[j]) == rank(y[j]));
                assert(rank(y[j]) == rank(z[j]));
            }
            assert(kinds_precede(x, z));
        }
    } else {
        if kinds_precede(y, z) {
            let k = choose|k: int|
                0 <= k < y.len() && k < z.len() && rank(#[trigger] y[k]) < rank(z[k]) && forall|
                    j: int,
                | 0 <= j < k ==> rank(#[trigger] y[j]) == rank(z[j]);
            assert(rank(x[k]) < rank(z[k])) by {
                assert(rank(x[k]) == rank(y[k]));
            }
            assert forall|j: int| 0 <= j < k implies rank(#[trigger] x[j]) == rank(z[j]) by {
                assert(rank(x[j]) == rank(y[j]));
                assert(rank(y[j]) == rank(z[j]));
            }
            assert(kinds_precede(x, z));
        } else {
            assert forall|j: int| 0 <= j < x.len() implies rank(#[trigger] x[j]) == rank(z[j]) by {
                assert(rank(x[j]) == rank(y[j]));
                assert(rank(y[j]) == rank(z[j]));
            }
        }
    }
}

/// No key goes before a key that goes before it.
pub proof fn lemma_precedes_is_asymmetric(a: KeyView, b: KeyView, domain: Option<Seq<char>>)
    requires
        precedes(a, b, domain),
    ensures
        !precedes(b, a, domain),
{
    let x = a.segments;
    let y = b.segments;
    if kinds_precede(y, x) {
        let k = choose|k: int|
            0 <= k < y.len() && k < x.len() && rank(#[trigger] y[k]) < rank(x[k]) && forall|j: int|
                0 <= j < k ==> rank(#[trigger] y[j]) == rank(x[j]);
        if kinds_precede(x, y) {
            let i = choose|i: int|
                0 <= i < x.len() && i < y.len() && rank(#[trigger] x[i]) < rank(y[i]) && forall|
                    j: int,
                | 0 <= j < i ==> rank(#[trigger] x[j]) == rank(y[j]);
            if i < k {
                assert(rank(y[i]) == rank(x[i]));
            } else if k < i {
                assert(rank(x[k]) == rank(y[k]));
            }
        } else {
            assert(rank(x[k]) == rank(y[k]));
        }
    } else if kinds_precede(x, y) {
        let i = choose|i: int|
            0 <= i < x.len() && i < y.len() && rank(#[trigger] x[i]) < rank(y[i]) && forall|j: int|
                0 <= j < i ==> rank(#[trigger] x[j]) == rank(y[j]);
        if same_ranks(y, x) {
            assert(rank(y[i]) == rank(x[i]));
        }
    }
}

} // verus!
