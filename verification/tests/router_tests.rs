use route_registry::error::{ResolutionError, RouteError};
use route_registry::key::{RouteKey, RoutePart, Verb};
use route_registry::params::{CapturedValue, ParameterBag};
use route_registry::route::{Render, RouteVar};
use route_registry::router::Router;

type Handler = fn(&ParameterBag) -> Render;

fn target(_url: &ParameterBag) -> Render {
    Render::Plain("this is a test".to_string())
}

fn other_target(_url: &ParameterBag) -> Render {
    Render::Json("{}".to_string())
}

fn plain_text(render: Render) -> String {
    match render {
        Render::Plain(text) => text,
        Render::Json(text) => text,
        Render::File(_, _) => panic!("a file"),
        Render::Mime(_, _) => panic!("a mime body"),
    }
}

#[test]
fn test_route_requires_leading_slash() {
    let mut router: Router<Handler> = Router::new();
    assert_ne!(
        router.route(None, Verb::Get, "this/is/a/test", target),
        Ok(())
    );
}

#[test]
fn test_route_trailing_slash_optional() {
    let mut router: Router<Handler> = Router::new();
    assert_eq!(
        router.route(None, Verb::Get, "/this/is/a/test/", target),
        Ok(())
    );
    assert_eq!(
        router.route(None, Verb::Get, "/this/is/another/test", target),
        Ok(())
    );
}

// A trailing slash is part of a route's identity: the second registration
// is that of another route, and succeeds.
#[test]
fn test_route_trailing_slash_non_trailing_slash_equivalent() {
    let mut router: Router<Handler> = Router::new();
    assert_eq!(
        router.route(None, Verb::Get, "/this/is/a/test/", target),
        Ok(())
    );
    assert_eq!(
        router.route(None, Verb::Get, "/this/is/a/test", target),
        Ok(())
    );
    assert_eq!(router.len(), 2);
    assert_eq!(
        router.route(None, Verb::Get, "/this/is/a/test", target),
        Err(RouteError::DuplicateRoute)
    );
    assert_eq!(
        router.route(None, Verb::Get, "/this/is/a/test/", target),
        Err(RouteError::DuplicateRoute)
    );
    assert_eq!(router.len(), 2);
}

#[test]
fn test_route_parses_parts() {
    let mut router: Router<Handler> = Router::new();
    router
        .route(None, Verb::Patch, "/some/#string/cool/;f/:id/:id2", target)
        .unwrap();
    let routes = router.routes();
    assert_eq!(routes.len(), 1);
    let route = router.routes().into_iter().nth(0).unwrap();
    assert_eq!(route.verb, Verb::Patch);
    assert_eq!(route.vars.len(), 4);
    assert_eq!(route.vars[0], RouteVar::String("string"));
    assert_eq!(route.vars[1], RouteVar::Float("f"));
    assert_eq!(route.vars[2], RouteVar::Int("id"));
    assert_eq!(route.vars[3], RouteVar::Int("id2"));
}

#[test]
pub fn test_domain() {
    let mut router: Router<Handler> = Router::new();
    let domain = "my-cool-domain.co.uk";
    router
        .route(Some(domain), Verb::Post, "/some/path", target)
        .unwrap();
    let route = router.routes().into_iter().nth(0).unwrap();
    assert_eq!(route.verb, Verb::Post);
    assert_eq!(route.vars.len(), 0);
    assert_eq!(route.domain, Some(domain.to_string()));
}

#[test]
pub fn test_domain_wildcard() {
    let mut router: Router<Handler> = Router::new();
    let domain = "*.staging.mysite.something.com";
    router
        .route(Some(domain), Verb::Post, "/some/path", target)
        .unwrap();
    let route = router.routes().into_iter().nth(0).unwrap();
    assert_eq!(route.verb, Verb::Post);
    assert_eq!(route.vars.len(), 0);
    assert_eq!(route.domain, Some(domain.to_string()));
}

#[test]
pub fn test_domain_rejection() {
    let mut router: Router<Handler> = Router::new();
    assert_ne!(
        router.route(Some(".bad.com"), Verb::Get, "/p", target),
        Ok(())
    );
    assert_ne!(
        router.route(Some(" bad.com"), Verb::Get, "/path", target),
        Ok(())
    );
    assert_ne!(router.route(Some("."), Verb::Get, "/path", target), Ok(()));
    assert_ne!(
        router.route(Some(".com"), Verb::Get, "/path", target),
        Ok(())
    );
    assert_ne!(
        router.route(Some("googl e.com"), Verb::Get, "/path", target),
        Ok(())
    );
}

#[test]
pub fn test_route_builder() {
    let mut router: Router<Handler> = Router::new();
    assert_eq!(
        router
            .path("/hello/world")
            .domain("domain.com")
            .verb(Verb::Post)
            .route(target),
        Ok(())
    );
    assert_eq!(router.path("/hello").get().route(target), Ok(()));
}

#[test]
pub fn test_url_parameters() {
    let mut params = ParameterBag::new();
    params.add("id", CapturedValue::Int(36));
    params.add("name", CapturedValue::String("sam".to_string()));
    params.add("score", CapturedValue::Float("33.24".to_string()));
    assert_eq!(params.get("id"), Some(&CapturedValue::Int(36)));
    assert_eq!(
        params.get("name"),
        Some(&CapturedValue::String("sam".to_string()))
    );
    assert_eq!(
        params.get("score"),
        Some(&CapturedValue::Float("33.24".to_string()))
    );
    match params.get("score") {
        Some(CapturedValue::Float(text)) => assert_eq!(text.parse::<f64>(), Ok(33.24)),
        _ => panic!("no score"),
    }
}

#[test]
pub fn test_route_key_from_path() {
    let key = RouteKey::from_path(Verb::Get, &"/contact/:id".to_string()).unwrap();
    assert_eq!(key.verb(), Verb::Get);
    assert_eq!(*key.domain(), None);
    assert_eq!(key.parts()[0], RoutePart::Path("contact".to_string()));
    assert_eq!(key.parts()[1], RoutePart::Int);
}

#[test]
pub fn test_route_key_from_path_with_domain() {
    let key = RouteKey::new(
        Verb::Get,
        &"/contact/:id".to_string(),
        Some(&"domain.com".to_string()),
    )
    .unwrap();
    assert_eq!(key.verb(), Verb::Get);
    assert_eq!(*key.domain(), Some("domain.com".to_string()));
    assert_eq!(key.parts()[0], RoutePart::Path("contact".to_string()));
    assert_eq!(key.parts()[1], RoutePart::Int);
}

#[test]
pub fn test_router_find() {
    let mut router: Router<Handler> = Router::new();
    router
        .path("/hello/world")
        .domain("domain.com")
        .verb(Verb::Post)
        .route(target)
        .unwrap();
    router
        .path("/hello/puppet")
        .domain("domain.com")
        .verb(Verb::Patch)
        .route(target)
        .unwrap();
    router
        .path("/goodbye/:id")
        .verb(Verb::Delete)
        .route(target)
        .unwrap();
    router
        .find(
            Verb::Post,
            &("/hello/world".to_string()),
            Some(&("domain.com".to_string())),
        )
        .unwrap();
    router
        .find(
            Verb::Patch,
            &("/hello/puppet".to_string()),
            Some(&("domain.com".to_string())),
        )
        .unwrap();
    router
        .find(Verb::Delete, &("/goodbye/33".to_string()), None)
        .unwrap();
}

#[test]
fn resolve_captures_an_integer() {
    let mut router: Router<Handler> = Router::new();
    router.route(None, Verb::Delete, "/goodbye/:id", other_target).unwrap();
    let (handler, bag) = router
        .resolve(Verb::Delete, None, &"/goodbye/33".to_string())
        .unwrap();
    assert_eq!(plain_text(handler(&bag)), "{}");
    assert_eq!(bag.get("id"), Some(&CapturedValue::Int(33)));
    assert_eq!(bag.bindings().len(), 1);
    assert_eq!(
        router.resolve(Verb::Get, None, &"/goodbye/33".to_string()).err(),
        Some(ResolutionError::NotFound)
    );
    assert_eq!(RouteError::InvalidFormat.message(), "invalid route format!");
}
