use route_registry::error::RouteError;
use route_registry::grammar::{
    is_valid_domain, is_valid_pattern, is_valid_request_path, split, validate_domain,
    validate_pattern,
};
use route_registry::text::{chars_of, same_text, whitespace};

fn pieces(text: &str, sep: char) -> Vec<String> {
    let chars = chars_of(text);
    split(&chars, 0, sep)
        .into_iter()
        .map(|(from, to)| chars[from..to].iter().collect())
        .collect()
}

#[test]
fn split_cuts_at_every_separator() {
    assert_eq!(pieces("", '/'), vec![""]);
    assert_eq!(pieces("/", '/'), vec!["", ""]);
    assert_eq!(pieces("abc", '/'), vec!["abc"]);
    assert_eq!(pieces("/a/b", '/'), vec!["", "a", "b"]);
    assert_eq!(pieces("/a/b/", '/'), vec!["", "a", "b", ""]);
    assert_eq!(pieces("a//b", '/'), vec!["a", "", "b"]);
    assert_eq!(pieces("my.dom\u{e9}.com", '.'), vec!["my", "dom\u{e9}", "com"]);
}

#[test]
fn split_agrees_with_str_split() {
    let samples = [
        "", "/", "//", "///", "a", "/a", "a/", "/a/", "/a/b/c", "/a//b", "x/y/z/", "/\u{1F600}/b",
        "/:id/#name/;f", "no slash at all",
    ];
    for sample in samples {
        let expected: Vec<String> = sample.split('/').map(|piece| piece.to_string()).collect();
        assert_eq!(pieces(sample, '/'), expected, "{:?}", sample);
    }
}

#[test]
fn chars_of_keeps_every_character() {
    assert_eq!(chars_of(""), Vec::<char>::new());
    assert_eq!(chars_of("a/\u{e9}\u{1F600}"), vec!['a', '/', '\u{e9}', '\u{1F600}']);
}

#[test]
fn same_text_compares_contents() {
    assert!(same_text("", ""));
    assert!(same_text("id", "id"));
    assert!(same_text("caf\u{e9}", "caf\u{e9}"));
    assert!(!same_text("id", "id2"));
    assert!(!same_text("id", "iD"));
    assert!(!same_text("caf\u{e9}", "cafe"));
    assert!(!same_text("", " "));
}

#[test]
fn whitespace_is_the_unicode_property() {
    let mut code: u32 = 0;
    while code <= 0x10FFFF {
        if let Some(c) = char::from_u32(code) {
            assert_eq!(whitespace(c), c.is_whitespace(), "U+{:04X}", code);
        }
        code += 1;
    }
}

#[test]
fn patterns_that_are_accepted() {
    for pattern in [
        "/",
        "/a",
        "/a/",
        "/this/is/a/test",
        "/this/is/a/test/",
        "/some/#string/cool/;f/:id/:id2",
        "/:id",
        "/#name/",
        "/;ratio",
        "/caf\u{e9}/\u{1F600}",
        "/a.b/c-d/e_f/g*h",
        "/33/3.14",
    ] {
        assert!(is_valid_pattern(pattern), "{:?}", pattern);
        assert_eq!(validate_pattern(pattern), Ok(()), "{:?}", pattern);
    }
}

#[test]
fn patterns_that_are_rejected() {
    for pattern in [
        "",
        "this/is/a/test",
        "a",
        ":id",
        "//",
        "/a//b",
        "//a",
        "/a//",
        "/this/is/invalid:ok/",
        "/::id",
        "/:#id",
        "/:",
        "/#",
        "/;",
        "/:/a",
        "/a:",
        "/a#b",
        "/a;b",
        "/:id:",
        "/a b",
        "/a\tb",
        "/a\u{a0}b",
        "/a\u{2003}b",
        "/ a",
        "/a ",
        " /a",
        "/a\n",
        "/: id",
    ] {
        assert!(!is_valid_pattern(pattern), "{:?}", pattern);
        assert_eq!(
            validate_pattern(pattern),
            Err(RouteError::InvalidFormat),
            "{:?}",
            pattern
        );
    }
}

#[test]
fn request_paths() {
    for path in ["/", "/a", "/a/", "/a b/c", "/:id", "/a:b/#/;", "/33/3.14/x y"] {
        assert!(is_valid_request_path(path), "{:?}", path);
    }
    for path in ["", "a", "a/b", "//", "/a//b", "/a//", "//a"] {
        assert!(!is_valid_request_path(path), "{:?}", path);
    }
}

#[test]
fn domains_that_are_accepted() {
    for domain in [
        "my-cool-domain.co.uk",
        "domain.com",
        "a.b",
        "a.b.c",
        "a.b.c.d.e",
        "*.staging.mysite.something.com",
        "*.a.b",
        "localhost.localdomain",
        "b\u{fc}cher.example",
        "a/b.c",
    ] {
        assert!(is_valid_domain(domain), "{:?}", domain);
    }
}

#[test]
fn domains_that_are_rejected() {
    for domain in [
        "",
        ".bad.com",
        " bad.com",
        ".",
        ".com",
        "googl e.com",
        "com",
        "localhost",
        "a.",
        "a..b",
        "a.b.",
        "..",
        "*",
        "*.",
        "*.com",
        "*.a",
        "*.*.a.b",
        "a.*.b",
        "a*.b.c",
        "a.b*",
        "*a.b",
        "**.a.b",
        "a.b\t",
        "a\u{a0}.b",
        "*..a.b",
        "*.a..b",
    ] {
        assert!(!is_valid_domain(domain), "{:?}", domain);
    }
}

#[test]
fn validate_domain_puts_it_in_lowercase() {
    assert_eq!(
        validate_domain("my-cool-domain.co.uk"),
        Ok("my-cool-domain.co.uk".to_string())
    );
    assert_eq!(
        validate_domain("My-Cool-Domain.CO.uk"),
        Ok("my-cool-domain.co.uk".to_string())
    );
    assert_eq!(
        validate_domain("*.Staging.MySite.Something.COM"),
        Ok("*.staging.mysite.something.com".to_string())
    );
    assert_eq!(
        validate_domain("B\u{dc}CHER.Example"),
        Ok("b\u{fc}cher.example".to_string())
    );
    for domain in [".bad.com", " bad.com", ".", ".com", "googl e.com", "COM", ""] {
        assert_eq!(
            validate_domain(domain),
            Err(RouteError::InvalidDomain),
            "{:?}",
            domain
        );
    }
}
