use route_registry::error::{ResolutionError, RouteError};
use route_registry::key::{RouteKey, RoutePart, Verb};
use route_registry::params::{CapturedValue, ParameterBag};
use route_registry::route::RouteVar;
use route_registry::router::Router;

// Handlers are told apart by number.
fn registry(routes: &[(Option<&'static str>, Verb, &'static str)]) -> Router<usize> {
    let mut router: Router<usize> = Router::new();
    for (number, (domain, verb, path)) in routes.iter().enumerate() {
        assert_eq!(router.route(*domain, *verb, path, number), Ok(()), "{:?}", path);
    }
    router
}

fn resolve(
    router: &Router<usize>,
    verb: Verb,
    domain: Option<&str>,
    path: &str,
) -> Result<(usize, ParameterBag), ResolutionError> {
    let domain = domain.map(|d| d.to_string());
    router.resolve(verb, domain.as_ref(), &path.to_string())
}

fn winner(router: &Router<usize>, verb: Verb, domain: Option<&str>, path: &str) -> Option<usize> {
    resolve(router, verb, domain, path).ok().map(|(handler, _)| handler)
}

#[test]
fn trailing_slash_is_significant() {
    let router = registry(&[(None, Verb::Get, "/a/b/")]);
    assert_eq!(
        resolve(&router, Verb::Get, None, "/a/b").err(),
        Some(ResolutionError::NotFound)
    );
    assert_eq!(winner(&router, Verb::Get, None, "/a/b/"), Some(0));
    let router = registry(&[(None, Verb::Get, "/a/b")]);
    assert_eq!(winner(&router, Verb::Get, None, "/a/b/"), None);
    assert_eq!(winner(&router, Verb::Get, None, "/a/b"), Some(0));
    let router = registry(&[(None, Verb::Get, "/a/b"), (None, Verb::Get, "/a/b/")]);
    assert_eq!(winner(&router, Verb::Get, None, "/a/b"), Some(0));
    assert_eq!(winner(&router, Verb::Get, None, "/a/b/"), Some(1));
}

#[test]
fn the_root_path() {
    let router = registry(&[(None, Verb::Get, "/"), (None, Verb::Get, "/#page")]);
    assert_eq!(router.routes()[0].vars.len(), 0);
    let key = RouteKey::from_path(Verb::Get, &"/".to_string()).unwrap();
    assert_eq!(key.parts().len(), 0);
    assert!(key.trailing_slash());
    assert_eq!(winner(&router, Verb::Get, None, "/"), Some(0));
    assert_eq!(winner(&router, Verb::Get, None, "/home"), Some(1));
    assert_eq!(winner(&router, Verb::Get, None, ""), None);
}

#[test]
fn registering_twice_is_refused() {
    let mut router: Router<usize> = Router::new();
    assert_eq!(router.route(Some("Domain.com"), Verb::Put, "/users/:id/#name", 1), Ok(()));
    assert_eq!(router.len(), 1);
    assert_eq!(
        router.route(Some("domain.com"), Verb::Put, "/users/:id/#name", 2),
        Err(RouteError::DuplicateRoute)
    );
    // Placeholder names are no part of a route's identity.
    assert_eq!(
        router.route(Some("DOMAIN.COM"), Verb::Put, "/users/:user/#nick", 3),
        Err(RouteError::DuplicateRoute)
    );
    assert_eq!(router.len(), 1);
    assert_eq!(router.routes()[0].target, 1);
    assert_eq!(router.routes()[0].vars[0], RouteVar::Int("id"));
    // Another verb, domain, kind or slash makes another route.
    assert_eq!(router.route(Some("domain.com"), Verb::Get, "/users/:id/#name", 4), Ok(()));
    assert_eq!(router.route(None, Verb::Put, "/users/:id/#name", 5), Ok(()));
    assert_eq!(router.route(Some("domain.com"), Verb::Put, "/users/:id/;name", 6), Ok(()));
    assert_eq!(router.route(Some("domain.com"), Verb::Put, "/users/:id/#name/", 7), Ok(()));
    assert_eq!(router.route(Some("*.domain.com"), Verb::Put, "/users/:id/#name", 8), Ok(()));
    assert_eq!(router.len(), 6);
}

#[test]
fn a_failed_registration_changes_nothing() {
    let mut router: Router<usize> = Router::new();
    assert_eq!(router.route(None, Verb::Get, "/a", 0), Ok(()));
    assert_eq!(router.route(None, Verb::Get, "a", 1), Err(RouteError::InvalidFormat));
    assert_eq!(router.route(None, Verb::Get, "", 1), Err(RouteError::InvalidFormat));
    assert_eq!(router.route(Some("nodot"), Verb::Get, "/b", 2), Err(RouteError::InvalidDomain));
    // The pattern is judged before the domain.
    assert_eq!(router.route(Some("nodot"), Verb::Get, "b", 3), Err(RouteError::InvalidFormat));
    assert_eq!(router.route(None, Verb::Get, "/a", 4), Err(RouteError::DuplicateRoute));
    assert_eq!(router.len(), 1);
    assert_eq!(router.routes().len(), 1);
    assert_eq!(router.routes()[0].target, 0);
    assert_eq!(RouteError::InvalidFormat.message(), "invalid route format!");
    assert_eq!(RouteError::InvalidDomain.message(), "invalid domain!");
    assert_eq!(
        RouteError::DuplicateRoute.message(),
        "a route identical to this one has already been defined!"
    );
}

#[test]
fn tokenizing_a_pattern() {
    let path = "/some/#string/cool/;f/:id/:id2";
    let key = RouteKey::from_path(Verb::Patch, &path.to_string()).unwrap();
    assert_eq!(
        *key.parts(),
        vec![
            RoutePart::Path("some".to_string()),
            RoutePart::String,
            RoutePart::Path("cool".to_string()),
            RoutePart::Float,
            RoutePart::Int,
            RoutePart::Int,
        ]
    );
    assert!(!key.trailing_slash());
    assert_eq!(key.verb(), Verb::Patch);
    let router = registry(&[(None, Verb::Patch, path)]);
    assert_eq!(
        router.routes()[0].vars,
        vec![
            RouteVar::String("string"),
            RouteVar::Float("f"),
            RouteVar::Int("id"),
            RouteVar::Int("id2"),
        ]
    );
    assert_eq!(router.routes()[0].vars[1].name(), "f");
    let looked_up = router.lookup(&key).unwrap();
    assert_eq!(looked_up.verb, Verb::Patch);
    let other = RouteKey::from_path(Verb::Get, &path.to_string()).unwrap();
    assert!(router.lookup(&other).is_none());
    assert!(key.same_as(&key.clone()));
    assert!(!key.same_as(&other));
}

#[test]
fn key_errors() {
    assert_eq!(
        RouteKey::from_path(Verb::Get, &"contact".to_string()).err(),
        Some(RouteError::InvalidFormat)
    );
    assert_eq!(
        RouteKey::new(Verb::Get, &"/contact".to_string(), Some(&"nodot".to_string())).err(),
        Some(RouteError::InvalidDomain)
    );
    assert_eq!(
        RouteKey::new(Verb::Get, &"contact".to_string(), Some(&"nodot".to_string())).err(),
        Some(RouteError::InvalidFormat)
    );
    let key = RouteKey::new(Verb::Get, &"/contact".to_string(), Some(&"Do.Main".to_string())).unwrap();
    assert_eq!(*key.domain(), Some("do.main".to_string()));
    // Taken as written, the domain is not put in lowercase.
    let key = RouteKey::new_normalized(Verb::Get, "/contact", Some("Do.Main".to_string())).unwrap();
    assert_eq!(*key.domain(), Some("Do.Main".to_string()));
}

#[test]
fn resolving_the_routes_of_an_application() {
    let router = registry(&[
        (Some("domain.com"), Verb::Post, "/hello/world"),
        (Some("domain.com"), Verb::Patch, "/hello/puppet"),
        (None, Verb::Delete, "/goodbye/:id"),
    ]);
    let (handler, bag) = resolve(&router, Verb::Post, Some("domain.com"), "/hello/world").unwrap();
    assert_eq!(handler, 0);
    assert_eq!(bag.bindings().len(), 0);
    let (handler, bag) = resolve(&router, Verb::Delete, None, "/goodbye/33").unwrap();
    assert_eq!(handler, 2);
    assert_eq!(bag.get("id"), Some(&CapturedValue::Int(33)));
    assert_eq!(bag.bindings().len(), 1);
    assert_eq!(
        resolve(&router, Verb::Get, None, "/hello/world").err(),
        Some(ResolutionError::NotFound)
    );
    assert_eq!(winner(&router, Verb::Patch, Some("domain.com"), "/hello/puppet"), Some(1));
    assert_eq!(winner(&router, Verb::Patch, Some("DOMAIN.com"), "/hello/puppet"), Some(1));
    assert_eq!(winner(&router, Verb::Patch, Some("other.com"), "/hello/puppet"), None);
    assert_eq!(winner(&router, Verb::Patch, None, "/hello/puppet"), None);
    assert_eq!(winner(&router, Verb::Delete, Some("any.where"), "/goodbye/-7"), Some(2));
    assert_eq!(winner(&router, Verb::Delete, None, "/goodbye/soon"), None);
    assert_eq!(winner(&router, Verb::Delete, None, "/goodbye/33/"), None);
    assert_eq!(winner(&router, Verb::Delete, None, "/goodbye"), None);
    assert_eq!(winner(&router, Verb::Delete, None, "goodbye/33"), None);
    assert_eq!(winner(&router, Verb::Delete, None, "/goodbye//33"), None);
    assert_eq!(
        router.find(Verb::Delete, &"/goodbye/33".to_string(), None),
        Some(2)
    );
    assert_eq!(router.find(Verb::Get, &"/goodbye/33".to_string(), None), None);
}

#[test]
fn the_literal_route_wins() {
    for order in [[0usize, 1], [1, 0]] {
        let patterns = ["/users/active", "/users/:id"];
        let mut router: Router<&'static str> = Router::new();
        for index in order {
            router.route(None, Verb::Get, patterns[index], patterns[index]).unwrap();
        }
        let (handler, bag) = router.resolve(Verb::Get, None, &"/users/active".to_string()).unwrap();
        assert_eq!(handler, "/users/active");
        assert_eq!(bag.bindings().len(), 0);
        let (handler, bag) = router.resolve(Verb::Get, None, &"/users/12".to_string()).unwrap();
        assert_eq!(handler, "/users/:id");
        assert_eq!(bag.get("id"), Some(&CapturedValue::Int(12)));
    }
}

fn permutations(items: &[&'static str]) -> Vec<Vec<&'static str>> {
    if items.len() <= 1 {
        return vec![items.to_vec()];
    }
    let mut all = Vec::new();
    for i in 0..items.len() {
        let mut rest = items.to_vec();
        let first = rest.remove(i);
        for mut tail in permutations(&rest) {
            tail.insert(0, first);
            all.push(tail);
        }
    }
    all
}

#[test]
fn the_most_specific_kind_wins_whatever_the_order() {
    let patterns = ["/users/33", "/users/:id", "/users/;score", "/users/#name"];
    for order in permutations(&patterns) {
        let mut router: Router<&'static str> = Router::new();
        for pattern in &order {
            router.route(None, Verb::Get, pattern, pattern).unwrap();
        }
        let expect = |path: &str, pattern: &str| {
            let (handler, _) = router.resolve(Verb::Get, None, &path.to_string()).unwrap();
            assert_eq!(handler, pattern, "{:?} in {:?}", path, order);
        };
        expect("/users/33", "/users/33");
        expect("/users/34", "/users/:id");
        expect("/users/-34", "/users/:id");
        expect("/users/+34", "/users/;score");
        expect("/users/3.5", "/users/;score");
        expect("/users/1e3", "/users/;score");
        expect("/users/9223372036854775807", "/users/:id");
        expect("/users/9223372036854775808", "/users/;score");
        expect("/users/1e999", "/users/#name");
        expect("/users/NaN", "/users/#name");
        expect("/users/inf", "/users/#name");
        expect("/users/sam", "/users/#name");
        expect("/users/:id", "/users/#name");
        expect("/users/3 3", "/users/#name");
    }
}

#[test]
fn an_earlier_segment_weighs_more_than_a_later_one() {
    let patterns = ["/:a/x", "/#a/x", "/1/#b", "/:a/:b", "/;a/7"];
    for order in permutations(&patterns) {
        let mut router: Router<&'static str> = Router::new();
        for pattern in &order {
            router.route(None, Verb::Get, pattern, pattern).unwrap();
        }
        let expect = |path: &str, pattern: Option<&str>| {
            let handler = router.find(Verb::Get, &path.to_string(), None);
            assert_eq!(handler, pattern, "{:?} in {:?}", path, order);
        };
        expect("/1/x", Some("/1/#b"));
        expect("/1/7", Some("/1/#b"));
        expect("/2/7", Some("/:a/:b"));
        expect("/2/x", Some("/:a/x"));
        expect("/2.5/7", Some("/;a/7"));
        expect("/2.5/x", Some("/#a/x"));
        expect("/2.5/8", None);
        expect("/sam/x", Some("/#a/x"));
        expect("/sam/7", None);
    }
}

#[test]
fn captures_are_typed() {
    let router = registry(&[(None, Verb::Get, "/shop/:id/;price/#name/:count")]);
    let (_, bag) = resolve(&router, Verb::Get, None, "/shop/-12/+3.50/half price/007").unwrap();
    assert_eq!(bag.get("id"), Some(&CapturedValue::Int(-12)));
    assert_eq!(bag.get("price"), Some(&CapturedValue::Float("+3.50".to_string())));
    assert_eq!(bag.get("name"), Some(&CapturedValue::String("half price".to_string())));
    assert_eq!(bag.get("count"), Some(&CapturedValue::Int(7)));
    assert_eq!(bag.get("missing"), None);
    assert_eq!(bag.get(""), None);
    let names: Vec<&str> = bag.bindings().iter().map(|(name, _)| *name).collect();
    assert_eq!(names, vec!["id", "price", "name", "count"]);
    match bag.get("price") {
        Some(CapturedValue::Float(text)) => assert_eq!(text.parse::<f64>(), Ok(3.5)),
        _ => panic!("no price"),
    }
    // An integer is a float too, where a float is asked for.
    let (_, bag) = resolve(&router, Verb::Get, None, "/shop/1/2/3/4").unwrap();
    assert_eq!(bag.get("price"), Some(&CapturedValue::Float("2".to_string())));
    assert_eq!(bag.get("name"), Some(&CapturedValue::String("3".to_string())));
    assert_eq!(winner(&router, Verb::Get, None, "/shop/1.0/2/3/4"), None);
    assert_eq!(winner(&router, Verb::Get, None, "/shop/1/two/3/4"), None);
    assert_eq!(winner(&router, Verb::Get, None, "/shop/1/2/3/4.0"), None);
}

#[test]
fn a_name_bound_twice_keeps_the_later_value() {
    let router = registry(&[(None, Verb::Get, "/:id/#id")]);
    let (_, bag) = resolve(&router, Verb::Get, None, "/1/two").unwrap();
    assert_eq!(bag.get("id"), Some(&CapturedValue::String("two".to_string())));
    assert_eq!(bag.bindings().len(), 2);
    let mut bag = ParameterBag::new();
    assert_eq!(bag.get("id"), None);
    bag.add("id", CapturedValue::Int(1));
    bag.add("other", CapturedValue::Int(2));
    bag.add("id", CapturedValue::Int(3));
    assert_eq!(bag.get("id"), Some(&CapturedValue::Int(3)));
    assert_eq!(bag.get("other"), Some(&CapturedValue::Int(2)));
    let copy = bag.clone();
    assert_eq!(copy.get("id"), Some(&CapturedValue::Int(3)));
}

#[test]
fn the_nearest_domain_wins() {
    let patterns: [(Option<&'static str>, &'static str); 5] = [
        (None, "any"),
        (Some("*.example.com"), "*.example.com"),
        (Some("*.api.example.com"), "*.api.example.com"),
        (Some("api.example.com"), "api.example.com"),
        (Some("*.v1.api.example.com"), "*.v1.api.example.com"),
    ];
    for rotation in 0..patterns.len() {
        let mut router: Router<&'static str> = Router::new();
        for k in 0..patterns.len() {
            let (domain, name) = patterns[(k + rotation) % patterns.len()];
            router.route(domain, Verb::Get, "/status", name).unwrap();
        }
        let expect = |domain: Option<&str>, name: Option<&str>| {
            let domain = domain.map(|d| d.to_string());
            let handler = router.find(Verb::Get, &"/status".to_string(), domain.as_ref());
            assert_eq!(handler, name, "{:?}", domain);
        };
        expect(Some("api.example.com"), Some("api.example.com"));
        expect(Some("API.Example.COM"), Some("api.example.com"));
        expect(Some("v1.api.example.com"), Some("*.v1.api.example.com"));
        expect(Some("a.v1.api.example.com"), Some("*.v1.api.example.com"));
        expect(Some("v2.api.example.com"), Some("*.api.example.com"));
        expect(Some("www.example.com"), Some("*.example.com"));
        expect(Some("example.com"), Some("*.example.com"));
        expect(Some("badexample.com"), Some("any"));
        expect(Some("example.org"), Some("any"));
        expect(Some("localhost"), Some("any"));
        expect(Some(""), Some("any"));
        expect(None, Some("any"));
    }
    let router = registry(&[(Some("*.example.com"), Verb::Get, "/status")]);
    assert_eq!(winner(&router, Verb::Get, None, "/status"), None);
    assert_eq!(winner(&router, Verb::Get, Some("example.org"), "/status"), None);
    assert_eq!(winner(&router, Verb::Get, Some("xexample.com"), "/status"), None);
    assert_eq!(winner(&router, Verb::Get, Some(".example.com"), "/status"), Some(0));
    assert_eq!(winner(&router, Verb::Get, Some("*.example.com"), "/status"), Some(0));
}

#[test]
fn the_path_weighs_more_than_the_domain() {
    let router = registry(&[
        (Some("example.com"), Verb::Get, "/users/:id"),
        (None, Verb::Get, "/users/42"),
        (Some("example.com"), Verb::Get, "/users/#name"),
    ]);
    assert_eq!(winner(&router, Verb::Get, Some("example.com"), "/users/42"), Some(1));
    assert_eq!(winner(&router, Verb::Get, Some("example.com"), "/users/43"), Some(0));
    assert_eq!(winner(&router, Verb::Get, Some("example.com"), "/users/sam"), Some(2));
    assert_eq!(winner(&router, Verb::Get, None, "/users/43"), None);
    // For one path key, the route with the request's own domain wins.
    let router = registry(&[(None, Verb::Get, "/users/:id"), (Some("example.com"), Verb::Get, "/users/:id")]);
    assert_eq!(winner(&router, Verb::Get, Some("example.com"), "/users/1"), Some(1));
    assert_eq!(winner(&router, Verb::Get, Some("example.org"), "/users/1"), Some(0));
    assert_eq!(winner(&router, Verb::Get, None, "/users/1"), Some(0));
}

#[test]
fn resolving_twice_gives_the_same() {
    let router = registry(&[
        (None, Verb::Get, "/a/:x/#y"),
        (None, Verb::Get, "/a/;x/#y"),
        (Some("*.example.com"), Verb::Get, "/a/:x/#y"),
    ]);
    for (domain, path) in [
        (None, "/a/1/b"),
        (Some("www.example.com"), "/a/1/b"),
        (Some("www.example.com"), "/a/1.5/b"),
        (None, "/a/b/c"),
        (None, "a"),
    ] {
        let once = resolve(&router, Verb::Get, domain, path);
        let again = resolve(&router, Verb::Get, domain, path);
        match (once, again) {
            (Ok((first, bag)), Ok((second, other))) => {
                assert_eq!(first, second);
                assert_eq!(bag.bindings(), other.bindings());
            }
            (Err(first), Err(second)) => assert_eq!(first, second),
            _ => panic!("two outcomes for {:?}", path),
        }
    }
    let copy = router.clone();
    assert_eq!(copy.len(), 3);
    assert_eq!(winner(&copy, Verb::Get, Some("www.example.com"), "/a/1/b"), Some(2));
}

#[test]
fn the_builder_stages_a_registration() {
    let mut router: Router<usize> = Router::new();
    assert_eq!(router.path("/a").route(0), Ok(()));
    assert_eq!(router.path("/a").post().route(1), Ok(()));
    assert_eq!(router.path("/a").put().route(2), Ok(()));
    assert_eq!(router.path("/a").patch().route(3), Ok(()));
    assert_eq!(router.path("/a").delete().route(4), Ok(()));
    assert_eq!(router.path("/a").verb(Verb::Head).route(5), Ok(()));
    assert_eq!(router.path("/a").post().get().route(6), Err(RouteError::DuplicateRoute));
    assert_eq!(router.path("/a").domain("Example.COM").route(7), Ok(()));
    assert_eq!(router.path("a").route(8), Err(RouteError::InvalidFormat));
    assert_eq!(router.path("/a").domain("nodot").route(9), Err(RouteError::InvalidDomain));
    assert_eq!(router.len(), 7);
    let verbs: Vec<Verb> = router.routes().iter().map(|route| route.verb).collect();
    assert_eq!(
        verbs,
        vec![Verb::Get, Verb::Post, Verb::Put, Verb::Patch, Verb::Delete, Verb::Head, Verb::Get]
    );
    assert_eq!(router.routes()[6].domain, Some("example.com".to_string()));
    assert_eq!(winner(&router, Verb::Head, None, "/a"), Some(5));
    assert_eq!(winner(&router, Verb::Get, Some("example.com"), "/a"), Some(7));
}

#[test]
fn a_route_is_replaced_by_removing_it_first() {
    let mut router: Router<usize> = Router::new();
    router.route(None, Verb::Get, "/a/:id", 0).unwrap();
    router.route(None, Verb::Get, "/b", 1).unwrap();
    router.route(None, Verb::Get, "/c", 2).unwrap();
    assert_eq!(router.route(None, Verb::Get, "/b", 3), Err(RouteError::DuplicateRoute));
    let key = RouteKey::from_path(Verb::Get, &"/b".to_string()).unwrap();
    let removed = router.remove(&key).unwrap();
    assert_eq!(removed.target, 1);
    assert_eq!(router.len(), 2);
    assert!(router.lookup(&key).is_none());
    assert!(router.remove(&key).is_none());
    assert_eq!(winner(&router, Verb::Get, None, "/b"), None);
    assert_eq!(router.route(None, Verb::Get, "/b", 3), Ok(()));
    assert_eq!(winner(&router, Verb::Get, None, "/b"), Some(3));
    assert_eq!(winner(&router, Verb::Get, None, "/a/5"), Some(0));
    assert_eq!(winner(&router, Verb::Get, None, "/c"), Some(2));
    let targets: Vec<usize> = router.routes().iter().map(|route| route.target).collect();
    assert_eq!(targets, vec![0, 2, 3]);
}
