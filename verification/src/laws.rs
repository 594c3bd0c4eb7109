//! What holds of every registry and every request.

use vstd::prelude::*;
use crate::grammar::{
    first_sep, has_trailing_slash, is_marker, is_name, is_pattern, is_request_path, is_segment,
    joined, lemma_first_sep, lemma_first_sep_finds, lemma_pieces_len, pieces, segments,
};
use crate::error::RouteError;
use crate::key::{canonical_key, key_for, pattern_kinds, segment_kind, Segment, Verb};
use crate::number::int_text;
use crate::params::bag_of;
use crate::registry::{
    coherent, has_key, kinds_in, lemma_registration_is_coherent, registration, route_outcome,
    routes_after, well_formed, Registration,
};
use crate::route::{placeholder_kinds, placeholders, Placeholder};
use crate::resolution::{
    admits, candidates, captured, domain_distance, is_winner, key_admits, kinds_precede, lemma_precedes_is_asymmetric,
    lemma_precedes_is_total, lemma_precedes_is_transitive, lemma_same_ranks_same_kinds,
    path_admits, precedes, rank, resolved_by, resolves_to, same_ranks, Resolved,
};

verus! {

/// Cutting a text into pieces loses nothing and leaves no separator in any
/// piece: the pieces, put together again with the separator between each
/// two, are the text.
pub proof fn law_pieces_rejoin(s: Seq<char>, sep: char)
    ensures
        joined(pieces(s, sep), sep) == s,
        forall|i: int, k: int|
            0 <= i < pieces(s, sep).len() && 0 <= k < pieces(s, sep)[i].len() ==> pieces(
                s,
                sep,
            )[i][k] != sep,
    decreases s.len(),
{
    lemma_first_sep_finds(s, sep);
    let n = first_sep(s, sep);
    let all = pieces(s, sep);
    if n < s.len() {
        let rest = s.skip(n + 1);
        law_pieces_rejoin(rest, sep);
        lemma_pieces_len(rest, sep);
        assert(all.skip(1) == pieces(rest, sep));
        assert(all[0] == s.take(n));
        assert(joined(all, sep) == s.take(n) + seq![sep] + rest);
        assert(s.take(n) + seq![sep] + rest == s);
        assert forall|i: int, k: int| 0 <= i < all.len() && 0 <= k < all[i].len() implies all[i][k]
            != sep by {
            if i > 0 {
                assert(all[i] == pieces(rest, sep)[i - 1]);
            }
        }
    }
}

/// The kinds that admit a request text are its candidates, and the
/// candidates stand in the order of specificity.
pub proof fn law_candidates_are_what_admits(text: Seq<char>, kind: Segment)
    ensures
        admits(kind, text) <==> candidates(text).contains(kind),
        forall|i: int, j: int|
            0 <= i < j < candidates(text).len() ==> rank(candidates(text)[i]) < rank(
                candidates(text)[j],
            ),
{
    let c = candidates(text);
    assert(c[0] == Segment::Literal(text));
    assert(c[c.len() - 1] == Segment::Text);
    if admits(kind, text) {
        match kind {
            Segment::Literal(_) => {
                assert(c[0] == kind);
            },
            Segment::Int => {
                assert(c[1] == kind);
            },
            Segment::Float => {
                if int_text(text) is Some {
                    assert(c[2] == kind);
                } else {
                    assert(c[1] == kind);
                }
            },
            Segment::Text => {
                assert(c[c.len() - 1] == kind);
            },
        }
    }
}

/// The placeholders among segments that are all pattern segments have
/// names: texts of one character or more, none of them a slash, a marker or
/// white space.
proof fn lemma_placeholders_have_names(segs: Seq<Seq<char>>)
    requires
        forall|i: int| 0 <= i < segs.len() ==> is_segment(#[trigger] segs[i]),
    ensures
        forall|k: int|
            0 <= k < placeholders(segs).len() ==> is_name((#[trigger] placeholders(segs)[k]).name),
    decreases segs.len(),
{
    if segs.len() > 0 {
        let fewer = segs.drop_last();
        assert forall|i: int| 0 <= i < fewer.len() implies is_segment(#[trigger] fewer[i]) by {
            assert(fewer[i] == segs[i]);
        }
        lemma_placeholders_have_names(fewer);
        let last = segs.last();
        assert(is_segment(last));
        if !(segment_kind(last) is Literal) {
            assert(is_marker(last[0]));
            assert(!is_name(last));
            assert forall|k: int| 0 <= k < placeholders(segs).len() implies is_name(
                (#[trigger] placeholders(segs)[k]).name,
            ) by {
                if k < placeholders(fewer).len() {
                    assert(placeholders(segs)[k] == placeholders(fewer)[k]);
                }
            }
        }
    }
}

/// What a pattern is cut into is well formed: every literal of its key and
/// every name of its placeholders is a text of one character or more, none
/// of them a slash, a marker or white space.
pub proof fn law_tokens_are_names(path: Seq<char>)
    requires
        is_pattern(path),
    ensures
        forall|i: int|
            0 <= i < pattern_kinds(path).len() ==> match #[trigger] pattern_kinds(path)[i] {
                Segment::Literal(text) => is_name(text),
                _ => true,
            },
        forall|k: int|
            0 <= k < placeholders(segments(path)).len() ==> is_name(
                (#[trigger] placeholders(segments(path))[k]).name,
            ),
{
    let segs = segments(path);
    lemma_placeholders_have_names(segs);
    assert forall|i: int| 0 <= i < pattern_kinds(path).len() implies match #[trigger] pattern_kinds(
        path,
    )[i] {
        Segment::Literal(text) => is_name(text),
        _ => true,
    } by {
        assert(is_segment(segs[i]));
        assert(pattern_kinds(path)[i] == segment_kind(segs[i]));
    }
}

/// A pattern that does not begin with a slash is never registered: the
/// registration fails with `InvalidFormat`, whatever the registry, the verb
/// and the domain, and leaves the registry as it was.
pub proof fn law_leading_slash_is_required<H>(
    entries: Seq<Registration<H>>,
    domain: Option<Seq<char>>,
    verb: Verb,
    path: Seq<char>,
    target: H,
)
    requires
        path.len() == 0 || path[0] != '/',
    ensures
        !is_pattern(path),
        route_outcome(entries, domain, verb, path) == Err::<(), RouteError>(
            RouteError::InvalidFormat,
        ),
        routes_after(entries, domain, verb, path, target) == entries,
{
}

/// A text followed by a separator has the pieces of the text, and one empty
/// piece more.
pub proof fn lemma_pieces_of_push(s: Seq<char>, sep: char)
    ensures
        pieces(s.push(sep), sep) == pieces(s, sep).push(Seq::empty()),
    decreases s.len(),
{
    let longer = s.push(sep);
    lemma_first_sep_finds(s, sep);
    let n = first_sep(s, sep);
    assert forall|k: int| 0 <= k < n implies longer[k] != sep by {
        assert(longer[k] == s[k]);
    }
    if n < s.len() {
        assert(longer[n] == s[n]);
        lemma_first_sep(longer, sep, n);
        assert(longer.skip(n + 1) == s.skip(n + 1).push(sep));
        assert(longer.take(n) == s.take(n));
        lemma_pieces_of_push(s.skip(n + 1), sep);
        assert(pieces(longer, sep) == seq![s.take(n)] + pieces(s.skip(n + 1), sep).push(
            Seq::empty(),
        ));
        assert(pieces(longer, sep) == pieces(s, sep).push(Seq::empty()));
    } else {
        lemma_first_sep(longer, sep, n);
        assert(longer.take(n) == s);
        assert(longer.skip(n + 1) == Seq::<char>::empty());
        assert(pieces(Seq::<char>::empty(), sep) == seq![Seq::<char>::empty()]);
        assert(pieces(longer, sep) == seq![s] + seq![Seq::<char>::empty()]);
        assert(pieces(longer, sep) == pieces(s, sep).push(Seq::empty()));
    }
}

/// A trailing slash is significant. A pattern without one is still a
/// pattern with one added, with the same segments, but the two have
/// different keys, and a route registered under the one admits no request
/// for the path of the other.
pub proof fn law_trailing_slash_is_significant(
    verb: Verb,
    domain: Option<Seq<char>>,
    path: Seq<char>,
    requested: Option<Seq<char>>,
)
    requires
        is_pattern(path),
        !has_trailing_slash(path),
    ensures
        is_pattern(path.push('/')),
        segments(path.push('/')) == segments(path),
        canonical_key(verb, path.push('/'), domain) != canonical_key(verb, path, domain),
        !key_admits(canonical_key(verb, path.push('/'), domain), verb, requested, path),
        !key_admits(canonical_key(verb, path, domain), verb, requested, path.push('/')),
{
    let longer = path.push('/');
    lemma_pieces_of_push(path, '/');
    lemma_pieces_len(path, '/');
    assert(longer.last() == '/');
    assert(has_trailing_slash(longer));
    assert(longer[0] == path[0]);
    assert(pieces(longer, '/').skip(1).drop_last() == pieces(path, '/').skip(1));
}

/// Registering the same key a second time fails with `DuplicateRoute` and
/// leaves the registry, and so its size, as the first registration left
/// it. The second pattern need not be the first: it is enough that the two
/// have the same key, as patterns that differ in placeholder names do.
pub proof fn law_second_registration_is_refused<H>(
    entries: Seq<Registration<H>>,
    domain: Option<Seq<char>>,
    verb: Verb,
    first: Seq<char>,
    second: Seq<char>,
    target: H,
    other: H,
)
    requires
        route_outcome(entries, domain, verb, first) is Ok,
        key_for(verb, second, domain) == key_for(verb, first, domain),
    ensures
        route_outcome(routes_after(entries, domain, verb, first, target), domain, verb, second)
            == Err::<(), RouteError>(RouteError::DuplicateRoute),
        routes_after(
            routes_after(entries, domain, verb, first, target),
            domain,
            verb,
            second,
            other,
        ) == routes_after(entries, domain, verb, first, target),
        routes_after(entries, domain, verb, first, target).len() == entries.len() + 1,
{
    let after = routes_after(entries, domain, verb, first, target);
    let added = registration(domain, verb, first, target);
    assert(after[entries.len() as int] == added);
    assert(has_key(after, added.key));
}

/// A registration keeps the registry well formed: whether it succeeds or
/// fails, no two registrations have equal keys afterwards, and each route
/// goes with its key.
pub proof fn law_registering_keeps_well_formed<H>(
    entries: Seq<Registration<H>>,
    domain: Option<Seq<char>>,
    verb: Verb,
    path: Seq<char>,
    target: H,
)
    requires
        well_formed(entries),
    ensures
        well_formed(routes_after(entries, domain, verb, path, target)),
{
    if route_outcome(entries, domain, verb, path) is Ok {
        lemma_registration_is_coherent(domain, verb, path, target);
        let after = routes_after(entries, domain, verb, path, target);
        let added = registration(domain, verb, path, target);
        assert(!has_key(entries, added.key));
        assert forall|i: int, j: int| 0 <= i < j < after.len() implies (#[trigger] after[i]).key != (
        #[trigger] after[j]).key by {
            if j == entries.len() {
                assert(after[i] == entries[i]);
            } else {
                assert(after[i] == entries[i] && after[j] == entries[j]);
            }
        }
        assert forall|i: int| 0 <= i < after.len() implies coherent(#[trigger] after[i]) by {
            if i < entries.len() {
                assert(after[i] == entries[i]);
            }
        }
    }
}

/// The registration that wins among the first `n`, if any of them admits
/// the request.
proof fn lemma_winner_among<H>(
    entries: Seq<Registration<H>>,
    n: int,
    verb: Verb,
    domain: Option<Seq<char>>,
    path: Seq<char>,
) -> (b: int)
    requires
        well_formed(entries),
        0 <= n <= entries.len(),
    ensures
        (forall|j: int| 0 <= j < n ==> !key_admits((#[trigger] entries[j]).key, verb, domain, path))
            || (0 <= b < n && key_admits(entries[b].key, verb, domain, path) && forall|j: int|
            0 <= j < n && j != b && key_admits((#[trigger] entries[j]).key, verb, domain, path)
                ==> precedes(entries[b].key, entries[j].key, domain)),
    decreases n,
{
    if n == 0 {
        0
    } else {
        let b = lemma_winner_among(entries, n - 1, verb, domain, path);
        let last = entries[n - 1].key;
        if !key_admits(last, verb, domain, path) {
            b
        } else if forall|j: int|
            0 <= j < n - 1 ==> !key_admits((#[trigger] entries[j]).key, verb, domain, path) {
            n - 1
        } else {
            let held = entries[b].key;
            lemma_precedes_is_total(last, held, verb, domain, path);
            if precedes(last, held, domain) {
                assert forall|j: int|
                    0 <= j < n && j != n - 1 && key_admits(
                        (#[trigger] entries[j]).key,
                        verb,
                        domain,
                        path,
                    ) implies precedes(last, entries[j].key, domain) by {
                    if j != b {
                        lemma_precedes_is_transitive(last, held, entries[j].key, domain);
                    }
                }
                n - 1
            } else {
                b
            }
        }
    }
}

/// A request that some registered route admits has a winner: resolution
/// fails only where the path is no request path or no route admits the
/// request.
pub proof fn law_an_admitted_request_resolves<H>(
    entries: Seq<Registration<H>>,
    verb: Verb,
    domain: Option<Seq<char>>,
    path: Seq<char>,
    j: int,
)
    requires
        well_formed(entries),
        0 <= j < entries.len(),
        key_admits(entries[j].key, verb, domain, path),
    ensures
        exists|i: int| is_winner(entries, i, verb, domain, path),
        is_request_path(path) ==> !resolves_to(entries, verb, domain, path, None),
{
    let b = lemma_winner_among(entries, entries.len() as int, verb, domain, path);
    assert(is_winner(entries, b, verb, domain, path));
}

/// Resolution is a function of the registry and the request: a request has
/// one outcome and no other, so resolving it again while the registry stays
/// as it is gives the same handler and the same captures.
pub proof fn law_resolution_is_unique<H>(
    entries: Seq<Registration<H>>,
    verb: Verb,
    domain: Option<Seq<char>>,
    path: Seq<char>,
    once: Option<Resolved<H>>,
    again: Option<Resolved<H>>,
)
    requires
        resolves_to(entries, verb, domain, path, once),
        resolves_to(entries, verb, domain, path, again),
    ensures
        once == again,
{
    if once is Some && again is Some {
        let i = choose|i: int|
            is_winner(entries, i, verb, domain, path) && once->0 == resolved_by(
                #[trigger] entries[i],
                path,
            );
        let k = choose|k: int|
            is_winner(entries, k, verb, domain, path) && again->0 == resolved_by(
                #[trigger] entries[k],
                path,
            );
        if i != k {
            lemma_precedes_is_asymmetric(entries[i].key, entries[k].key, domain);
        }
    } else if once is Some {
        let i = choose|i: int|
            is_winner(entries, i, verb, domain, path) && once->0 == resolved_by(
                #[trigger] entries[i],
                path,
            );
        assert(key_admits(entries[i].key, verb, domain, path));
    } else if again is Some {
        let k = choose|k: int|
            is_winner(entries, k, verb, domain, path) && again->0 == resolved_by(
                #[trigger] entries[k],
                path,
            );
        assert(key_admits(entries[k].key, verb, domain, path));
    }
}

/// Kinds that are all literals go before any other kinds that admit the
/// same texts, unless those are the same literals.
proof fn lemma_literals_go_first(a: Seq<Segment>, b: Seq<Segment>, texts: Seq<Seq<char>>, n: int)
    requires
        path_admits(a, texts),
        path_admits(b, texts),
        0 <= n <= a.len(),
        forall|i: int| 0 <= i < a.len() ==> (#[trigger] a[i]) is Literal,
    ensures
        (forall|i: int| 0 <= i < n ==> rank(#[trigger] a[i]) == rank(b[i])) || kinds_precede(a, b),
    decreases n,
{
    if n > 0 {
        lemma_literals_go_first(a, b, texts, n - 1);
        if !kinds_precede(a, b) {
            assert(a[n - 1] is Literal);
            if rank(b[n - 1]) != 0 {
                assert(rank(a[n - 1]) < rank(b[n - 1]));
                assert(kinds_precede(a, b));
            }
        }
    }
}

/// The most specific route wins. Where a route is registered for the very
/// text of the request path, without placeholders, under the verb and the
/// domain of the request, the request resolves to that route, whatever
/// other routes are registered and in whatever order.
pub proof fn law_literal_route_wins<H>(
    entries: Seq<Registration<H>>,
    verb: Verb,
    domain: Option<Seq<char>>,
    path: Seq<char>,
    i: int,
)
    requires
        well_formed(entries),
        is_request_path(path),
        0 <= i < entries.len(),
        entries[i].key == canonical_key(verb, path, domain),
        forall|k: int|
            0 <= k < segments(path).len() ==> segment_kind(#[trigger] segments(path)[k]) is Literal,
    ensures
        is_winner(entries, i, verb, domain, path),
        resolves_to(entries, verb, domain, path, Some(resolved_by(entries[i], path))),
{
    let key = entries[i].key;
    let texts = segments(path);
    assert forall|k: int| 0 <= k < key.segments.len() implies admits(
        #[trigger] key.segments[k],
        texts[k],
    ) && key.segments[k] is Literal by {
        assert(segment_kind(texts[k]) is Literal);
    }
    assert(key_admits(key, verb, domain, path));
    assert forall|j: int|
        0 <= j < entries.len() && j != i && key_admits(
            (#[trigger] entries[j]).key,
            verb,
            domain,
            path,
        ) implies precedes(key, entries[j].key, domain) by {
        let other = entries[j].key;
        lemma_literals_go_first(key.segments, other.segments, texts, key.segments.len() as int);
        if !kinds_precede(key.segments, other.segments) {
            assert(same_ranks(key.segments, other.segments));
            lemma_same_ranks_same_kinds(key.segments, other.segments, texts);
            if i < j {
                assert(entries[i].key != entries[j].key);
            } else {
                assert(entries[j].key != entries[i].key);
            }
            assert(other.domain != key.domain);
            assert(domain_distance(key.domain, domain) == Some(0int));
        }
    }
}

/// Every placeholder is bound. Where a route has one placeholder for each
/// segment of its key that is no literal, a request of as many segments
/// binds the names of the placeholders, in their order, so that each name
/// is in the bag.
pub proof fn law_every_placeholder_is_bound(
    kinds: Seq<Segment>,
    vars: Seq<Placeholder>,
    texts: Seq<Seq<char>>,
)
    requires
        kinds.len() == texts.len(),
        kinds_in(vars) == placeholder_kinds(kinds),
    ensures
        captured(kinds, vars, texts).len() == vars.len(),
        forall|k: int|
            0 <= k < vars.len() ==> (#[trigger] captured(kinds, vars, texts)[k]).name
                == vars[k].name,
        forall|k: int|
            0 <= k < vars.len() ==> bag_of(captured(kinds, vars, texts)).contains_key(
                (#[trigger] vars[k]).name,
            ),
    decreases kinds.len(),
{
    let bound = captured(kinds, vars, texts);
    assert(kinds_in(vars).len() == vars.len());
    if kinds.len() > 0 {
        if kinds.last() is Literal {
            law_every_placeholder_is_bound(kinds.drop_last(), vars, texts.drop_last());
        } else {
            let fewer = vars.drop_last();
            assert(kinds_in(fewer) == kinds_in(vars).drop_last());
            assert(placeholder_kinds(kinds).drop_last() == placeholder_kinds(kinds.drop_last()));
            law_every_placeholder_is_bound(kinds.drop_last(), fewer, texts.drop_last());
            let before = captured(kinds.drop_last(), fewer, texts.drop_last());
            assert(bound.drop_last() == before);
            assert forall|k: int| 0 <= k < vars.len() implies (#[trigger] bound[k]).name
                == vars[k].name by {
                if k < fewer.len() {
                    assert(bound[k] == before[k]);
                    assert(fewer[k] == vars[k]);
                }
            }
            assert forall|k: int| 0 <= k < vars.len() implies bag_of(bound).contains_key(
                (#[trigger] vars[k]).name,
            ) by {
                if k < fewer.len() {
                    assert(fewer[k] == vars[k]);
                    assert(bag_of(before).contains_key(fewer[k].name));
                }
            }
        }
    }
}

} // verus!
