//! The registry of routes, and the builder that stages a registration.

use vstd::prelude::*;
use crate::grammar::segment_bounds;
use crate::error::{ResolutionError, RouteError};
use crate::key::{normalized, text_of, text_of_ref, text_of_str, RouteKey, Verb};
use crate::params::ParameterBag;
use crate::registry::{
    coherent, has_key, lemma_registration_is_coherent, registration, route_outcome, routes_after,
    well_formed, Registration,
};
use crate::request::{capture_all, key_admits_request, key_precedes, prepare};
use crate::resolution::{
    is_winner, key_admits, lemma_precedes_is_total, lemma_precedes_is_transitive, precedes,
    resolved_by, resolves_to, Resolved,
};
use crate::route::{vars_at, Route};
use crate::text::{chars_of, lowercase, to_lowercase};

verus! {

/// A key and the route registered under it.
struct Entry<H> {
    key: RouteKey,
    route: Route<H>,
}

/// The registry: every route registered so far, each under its key.
pub struct Router<H> {
    entries: Vec<Entry<H>>,
}

/// The registrations that a sequence of entries holds.
spec fn registrations<H>(entries: Seq<Entry<H>>) -> Seq<Registration<H>> {
    entries.map_values(|e: Entry<H>| Registration { key: e.key@, route: e.route@ })
}

impl<H> View for Router<H> {
    type V = Seq<Registration<H>>;

    closed spec fn view(&self) -> Seq<Registration<H>> {
        registrations(self.entries@)
    }
}

impl<H> Router<H> {
    #[verifier::type_invariant]
    spec fn holds_a_registry(self) -> bool {
        well_formed(self@)
    }
}

/// What a request resolved to, as contracts see it.
pub open spec fn outcome_of<H>(r: Result<(H, ParameterBag), ResolutionError>) -> Option<Resolved<H>> {
    match r {
        Ok((target, bag)) => Some(Resolved { target, bag: bag@ }),
        Err(_) => None,
    }
}

impl<H: Copy> Clone for Router<H> {
    fn clone(&self) -> (copy: Router<H>)
        ensures
            copy@ == self@,
    {
        proof {
            use_type_invariant(self);
        }
        let mut entries: Vec<Entry<H>> = Vec::new();
        let mut i: usize = 0;
        while i < self.entries.len()
            invariant
                i <= self.entries@.len(),
                registrations(entries@) == self@.take(i as int),
            decreases self.entries@.len() - i,
        {
            let entry = &self.entries[i];
            let ghost before = entries@;
            entries.push(Entry { key: entry.key.clone(), route: entry.route.clone() });
            assert(registrations(entries@) == registrations(before).push(self@[i as int]));
            assert(self@.take(i + 1) == self@.take(i as int).push(self@[i as int]));
            i = i + 1;
        }
        assert(self@.take(i as int) == self@);
        Router { entries }
    }
}

impl<H: Copy> Router<H> {
    /// A registry without routes.
    pub fn new() -> (router: Router<H>)
        ensures
            router@ == Seq::<Registration<H>>::empty(),
            well_formed(router@),
    {
        let router = Router { entries: Vec::new() };
        assert(router@ == Seq::<Registration<H>>::empty());
        router
    }

    /// How many routes are registered.
    pub fn len(&self) -> (n: usize)
        ensures
            n == self@.len(),
            well_formed(self@),
    {
        proof {
            use_type_invariant(self);
        }
        self.entries.len()
    }

    /// The registered routes, in the order in which they were registered.
    pub fn routes(&self) -> (routes: Vec<&Route<H>>)
        ensures
            routes@.len() == self@.len(),
            forall|i: int| 0 <= i < routes@.len() ==> (#[trigger] routes@[i])@ == self@[i].route,
    {
        let mut routes: Vec<&Route<H>> = Vec::new();
        let mut i: usize = 0;
        while i < self.entries.len()
            invariant
                i <= self.entries@.len(),
                routes@.len() == i,
                forall|k: int| 0 <= k < i ==> (#[trigger] routes@[k])@ == self@[k].route,
            decreases self.entries@.len() - i,
        {
            routes.push(&self.entries[i].route);
            i = i + 1;
        }
        routes
    }

    /// The route registered under `key`, if one is.
    pub fn lookup(&self, key: &RouteKey) -> (found: Option<&Route<H>>)
        ensures
            match found {
                Some(route) => exists|i: int|
                    0 <= i < self@.len() && (#[trigger] self@[i]).key == key@ && self@[i].route
                        == route@,
                None => !has_key(self@, key@),
            },
    {
        let mut i: usize = 0;
        while i < self.entries.len()
            invariant
                i <= self.entries@.len(),
                forall|k: int| 0 <= k < i ==> (#[trigger] self@[k]).key != key@,
            decreases self.entries@.len() - i,
        {
            if self.entries[i].key.same_as(key) {
                assert(self@[i as int].key == key@);
                return Some(&self.entries[i].route);
            }
            i = i + 1;
        }
        None
    }

    /// Registers a route for `path` under `verb` and `domain`, bound to
    /// `target`. The domain is put in lowercase first, and judged in that
    /// form. Where the registration fails the registry stays as it was.
    pub fn route(
        &mut self,
        domain: Option<&'static str>,
        verb: Verb,
        path: &'static str,
        target: H,
    ) -> (r: Result<(), RouteError>)
        ensures
            r == route_outcome(old(self)@, normalized(text_of_str(domain)), verb, path@),
            final(self)@ == routes_after(
                old(self)@,
                normalized(text_of_str(domain)),
                verb,
                path@,
                target,
            ),
            well_formed(final(self)@),
    {
        let lowered = match domain {
            Some(d) => Some(to_lowercase(d)),
            None => None,
        };
        self.route_normalized(lowered, verb, path, target)
    }

    /// Registers a route as `route` does, but takes the domain as it is
    /// written.
    pub fn route_normalized(
        &mut self,
        domain: Option<String>,
        verb: Verb,
        path: &'static str,
        target: H,
    ) -> (r: Result<(), RouteError>)
        ensures
            r == route_outcome(old(self)@, text_of(domain), verb, path@),
            final(self)@ == routes_after(old(self)@, text_of(domain), verb, path@, target),
            well_formed(final(self)@),
    {
        proof {
            use_type_invariant(&*self);
            lemma_registration_is_coherent(text_of(domain), verb, path@, target);
        }
        let kept = match &domain {
            Some(d) => Some(d.clone()),
            None => None,
        };
        let key = match RouteKey::new_normalized(verb, path, kept) {
            Ok(key) => key,
            Err(e) => {
                return Err(e);
            },
        };
        let chars = chars_of(path);
        let bounds = segment_bounds(&chars);
        let vars = vars_at(path, &chars, &bounds);
        let route = Route { domain, vars, verb, target };
        assert(Registration { key: key@, route: route@ } == registration(
            text_of(domain),
            verb,
            path@,
            target,
        ));
        self.register(key, route)
    }

    /// Stores `route` under `key`, unless a route is stored under an equal
    /// key already: nothing is ever overwritten.
    #[verifier::loop_isolation(false)]
    fn register(&mut self, key: RouteKey, route: Route<H>) -> (r: Result<(), RouteError>)
        requires
            coherent(Registration { key: key@, route: route@ }),
        ensures
            has_key(old(self)@, key@) ==> r == Err::<(), RouteError>(RouteError::DuplicateRoute)
                && final(self)@ == old(self)@,
            !has_key(old(self)@, key@) ==> r == Ok::<(), RouteError>(()) && final(self)@ == old(
                self,
            )@.push(Registration { key: key@, route: route@ }),
            well_formed(final(self)@),
    {
        proof {
            use_type_invariant(&*self);
        }
        let mut i: usize = 0;
        while i < self.entries.len()
            invariant
                i <= self.entries@.len(),
                self@ == old(self)@,
                forall|k: int| 0 <= k < i ==> (#[trigger] self@[k]).key != key@,
            decreases self.entries@.len() - i,
        {
            if self.entries[i].key.same_as(&key) {
                assert(self@[i as int].key == key@);
                return Err(RouteError::DuplicateRoute);
            }
            i = i + 1;
        }
        let ghost added = Registration { key: key@, route: route@ };
        let ghost before = self.entries@;
        let mut entries: Vec<Entry<H>> = Vec::new();
        std::mem::swap(&mut self.entries, &mut entries);
        entries.push(Entry { key, route });
        proof {
            let after = registrations(entries@);
            assert(after == registrations(before).push(added));
            assert forall|i: int, j: int| 0 <= i < j < after.len() implies (#[trigger] after[i]).key
                != (#[trigger] after[j]).key by {
                if j < before.len() {
                    assert(after[i] == old(self)@[i] && after[j] == old(self)@[j]);
                } else {
                    assert(after[i] == old(self)@[i]);
                }
            }
            assert forall|i: int| 0 <= i < after.len() implies coherent(#[trigger] after[i]) by {
                if i < before.len() {
                    assert(after[i] == old(self)@[i]);
                }
            }
        }
        self.entries = entries;
        Ok(())
    }

    /// Takes the route registered under `key` out of the registry, if one
    /// is, and hands it back. A route is replaced by removing it and
    /// registering another.
    #[verifier::loop_isolation(false)]
    pub fn remove(&mut self, key: &RouteKey) -> (removed: Option<Route<H>>)
        ensures
            match removed {
                Some(route) => exists|i: int|
                    0 <= i < old(self)@.len() && (#[trigger] old(self)@[i]).key == key@ && old(
                        self,
                    )@[i].route == route@ && final(self)@ == old(self)@.remove(i),
                None => !has_key(old(self)@, key@) && final(self)@ == old(self)@,
            },
            !has_key(final(self)@, key@),
            well_formed(final(self)@),
    {
        proof {
            use_type_invariant(&*self);
        }
        let mut i: usize = 0;
        while i < self.entries.len()
            invariant
                i <= self.entries@.len(),
                self@ == old(self)@,
                forall|k: int| 0 <= k < i ==> (#[trigger] self@[k]).key != key@,
            decreases self.entries@.len() - i,
        {
            if self.entries[i].key.same_as(key) {
                let ghost before = self.entries@;
                let mut entries: Vec<Entry<H>> = Vec::new();
                std::mem::swap(&mut self.entries, &mut entries);
                let entry = entries.remove(i);
                proof {
                    let was = old(self)@;
                    let after = registrations(entries@);
                    assert(was[i as int].key == key@);
                    assert(after == was.remove(i as int));
                    assert forall|a: int| 0 <= a < after.len() implies (#[trigger] after[a])
                        == was[if a < i {
                        a
                    } else {
                        a + 1
                    }] by {}
                    assert forall|a: int, b: int| 0 <= a < b < after.len() implies (
                    #[trigger] after[a]).key != (#[trigger] after[b]).key by {
                        let x = if a < i {
                            a
                        } else {
                            a + 1
                        };
                        let y = if b < i {
                            b
                        } else {
                            b + 1
                        };
                        assert(was[x].key != was[y].key);
                    }
                    assert forall|a: int| 0 <= a < after.len() implies coherent(
                        #[trigger] after[a],
                    ) by {
                        let x = if a < i {
                            a
                        } else {
                            a + 1
                        };
                        assert(coherent(was[x]));
                    }
                    assert forall|a: int| 0 <= a < after.len() implies (#[trigger] after[a]).key
                        != key@ by {
                        let x = if a < i {
                            a
                        } else {
                            a + 1
                        };
                        if x < i {
                            assert(was[x].key != was[i as int].key);
                        } else {
                            assert(was[i as int].key != was[x].key);
                        }
                    }
                }
                self.entries = entries;
                return Some(entry.route);
            }
            i = i + 1;
        }
        None
    }

    /// Resolves a request to the handler of the most specific registered
    /// route that admits it, and to the values its placeholders capture.
    /// The domain is put in lowercase first.
    pub fn resolve(&self, verb: Verb, domain: Option<&String>, path: &String) -> (r: Result<
        (H, ParameterBag),
        ResolutionError,
    >)
        ensures
            resolves_to(self@, verb, normalized(text_of_ref(domain)), path@, outcome_of(r)),
    {
        match domain {
            Some(d) => {
                let lowered = to_lowercase(d.as_str());
                self.resolve_normalized(verb, Some(&lowered), path.as_str())
            },
            None => self.resolve_normalized(verb, None, path.as_str()),
        }
    }

    /// Resolves a request as `resolve` does, but takes the domain as it is
    /// written. Each registered route is looked at once.
    pub fn resolve_normalized(&self, verb: Verb, domain: Option<&String>, path: &str) -> (r: Result<
        (H, ParameterBag),
        ResolutionError,
    >)
        ensures
            resolves_to(self@, verb, text_of_ref(domain), path@, outcome_of(r)),
            well_formed(self@),
    {
        proof {
            use_type_invariant(self);
        }
        let request = match prepare(verb, domain, path) {
            Some(request) => request,
            None => {
                return Err(ResolutionError::NotFound);
            },
        };
        let ghost d = text_of_ref(domain);
        let mut best: Option<usize> = None;
        let mut i: usize = 0;
        while i < self.entries.len()
            invariant
                i <= self.entries@.len(),
                well_formed(self@),
                d == text_of_ref(domain),
                request.stands_for(verb, d, path@),
                match best {
                    Some(b) => {
                        &&& b < i
                        &&& key_admits(self@[b as int].key, verb, d, path@)
                        &&& forall|j: int|
                            0 <= j < i && j != b && key_admits((#[trigger] self@[j]).key, verb, d, path@)
                                ==> precedes(self@[b as int].key, self@[j].key, d)
                    },
                    None => forall|j: int|
                        0 <= j < i ==> !key_admits((#[trigger] self@[j]).key, verb, d, path@),
                },
            decreases self.entries@.len() - i,
        {
            let key = &self.entries[i].key;
            assert(self@[i as int].key == key@);
            if key_admits_request(key, &request, Ghost(path@)) {
                match best {
                    None => {
                        best = Some(i);
                    },
                    Some(b) => {
                        let held = &self.entries[b].key;
                        assert(self@[b as int].key == held@);
                        if key_precedes(key, held, &request, Ghost(path@)) {
                            proof {
                                assert forall|j: int|
                                    0 <= j < i + 1 && j != i && key_admits(
                                        (#[trigger] self@[j]).key,
                                        verb,
                                        d,
                                        path@,
                                    ) implies precedes(key@, self@[j].key, d) by {
                                    if j != b {
                                        lemma_precedes_is_transitive(
                                            key@,
                                            held@,
                                            self@[j].key,
                                            d,
                                        );
                                    }
                                }
                            }
                            best = Some(i);
                        } else {
                            proof {
                                lemma_precedes_is_total(key@, held@, verb, d, path@);
                            }
                        }
                    },
                }
            }
            i = i + 1;
        }
        match best {
            None => Err(ResolutionError::NotFound),
            Some(b) => {
                let entry = &self.entries[b];
                assert(self@[b as int] == Registration { key: entry.key@, route: entry.route@ });
                assert(is_winner(self@, b as int, verb, d, path@));
                let bag = capture_all(&entry.key, &entry.route, &request, Ghost(path@));
                assert(Resolved { target: entry.route.target, bag: bag@ } == resolved_by(
                    self@[b as int],
                    path@,
                ));
                Ok((entry.route.target, bag))
            },
        }
    }

    /// The handler that a request resolves to, if it resolves.
    pub fn find(&self, verb: Verb, path: &String, domain: Option<&String>) -> (found: Option<H>)
        ensures
            match found {
                Some(target) => exists|resolved: Resolved<H>|
                    resolved.target == target && #[trigger] resolves_to(
                        self@,
                        verb,
                        normalized(text_of_ref(domain)),
                        path@,
                        Some(resolved),
                    ),
                None => resolves_to(self@, verb, normalized(text_of_ref(domain)), path@, None),
            },
    {
        match self.resolve(verb, domain, path) {
            Ok((target, bag)) => {
                assert(resolves_to(
                    self@,
                    verb,
                    normalized(text_of_ref(domain)),
                    path@,
                    Some(Resolved { target, bag: bag@ }),
                ));
                Some(target)
            },
            Err(_) => None,
        }
    }

    /// Begins the registration of a route for `path`: under `Get` and no
    /// domain until the builder is told otherwise.
    pub fn path<'a>(&'a mut self, path: &'static str) -> (builder: RouteBuilder<'a, H>)
        ensures
            builder.domain is None,
            builder.verb == Verb::Get,
            builder.path == path,
            builder.router@ == old(self)@,
            final(builder.router)@ == final(self)@,
    {
        RouteBuilder { domain: None, verb: Verb::Get, path, router: self }
    }
}

/// A registration in the making: the domain, verb and pattern staged so
/// far, and the registry that the route will go to.
pub struct RouteBuilder<'a, H> {
    pub domain: Option<&'static str>,
    pub verb: Verb,
    pub path: &'static str,
    pub router: &'a mut Router<H>,
}

impl<'a, H: Copy> RouteBuilder<'a, H> {
    /// Stages a domain.
    pub fn domain(self, domain: &'static str) -> (builder: RouteBuilder<'a, H>)
        ensures
            builder.domain == Some(domain),
            builder.verb == self.verb,
            builder.path == self.path,
            builder.router == self.router,
    {
        let mut builder = self;
        builder.domain = Some(domain);
        builder
    }

    /// Stages a verb.
    pub fn verb(self, verb: Verb) -> (builder: RouteBuilder<'a, H>)
        ensures
            builder.domain == self.domain,
            builder.verb == verb,
            builder.path == self.path,
            builder.router == self.router,
    {
        let mut builder = self;
        builder.verb = verb;
        builder
    }

    /// Stages `Post`.
    pub fn post(self) -> (builder: RouteBuilder<'a, H>)
        ensures
            builder.domain == self.domain,
            builder.verb == Verb::Post,
            builder.path == self.path,
            builder.router == self.router,
    {
        self.verb(Verb::Post)
    }

    /// Stages `Get`.
    pub fn get(self) -> (builder: RouteBuilder<'a, H>)
        ensures
            builder.domain == self.domain,
            builder.verb == Verb::Get,
            builder.path == self.path,
            builder.router == self.router,
    {
        self.verb(Verb::Get)
    }

    /// Stages `Put`.
    pub fn put(self) -> (builder: RouteBuilder<'a, H>)
        ensures
            builder.domain == self.domain,
            builder.verb == Verb::Put,
            builder.path == self.path,
            builder.router == self.router,
    {
        self.verb(Verb::Put)
    }

    /// Stages `Patch`.
    pub fn patch(self) -> (builder: RouteBuilder<'a, H>)
        ensures
            builder.domain == self.domain,
            builder.verb == Verb::Patch,
            builder.path == self.path,
            builder.router == self.router,
    {
        self.verb(Verb::Patch)
    }

    /// Stages `Delete`.
    pub fn delete(self) -> (builder: RouteBuilder<'a, H>)
        ensures
            builder.domain == self.domain,
            builder.verb == Verb::Delete,
            builder.path == self.path,
            builder.router == self.router,
    {
        self.verb(Verb::Delete)
    }

    /// Registers what is staged, bound to `target`, as `Router::route`
    /// does.
    pub fn route(self, target: H) -> (r: Result<(), RouteError>)
        ensures
            r == route_outcome(
                old(self.router)@,
                normalized(text_of_str(self.domain)),
                self.verb,
                self.path@,
            ),
            well_formed(final(self.router)@),
            final(self.router)@ == routes_after(
                old(self.router)@,
                normalized(text_of_str(self.domain)),
                self.verb,
                self.path@,
                target,
            ),
    {
        self.router.route(self.domain, self.verb, self.path, target)
    }
}

} // verus!
