use ts_host::specifier::{ModuleSpecifier, ResolutionError};

fn spec(s: &str) -> ModuleSpecifier {
    ModuleSpecifier::parse(s).unwrap()
}

#[test]
fn sibling_import_resolves_next_to_referrer() {
    let r = spec("file:///dir/main.ts");
    let m = ModuleSpecifier::resolve("./sibling.ts", &r).unwrap();
    assert_eq!(m.as_text(), "file:///dir/sibling.ts");
}

#[test]
fn trailing_slashes_on_referrer_do_not_count() {
    for r in ["file:///dir/main.ts/", "file:///dir/main.ts//"] {
        let m = ModuleSpecifier::resolve("./sibling.ts", &spec(r)).unwrap();
        assert_eq!(m.as_text(), "file:///dir/sibling.ts", "referrer {}", r);
    }
    let a = ModuleSpecifier::resolve("./x.ts", &spec("file:///dir/")).unwrap();
    let b = ModuleSpecifier::resolve("./x.ts", &spec("file:///dir")).unwrap();
    assert_eq!(a.as_text(), b.as_text());
    assert_eq!(a.as_text(), "file:///x.ts");
}

#[test]
fn hosts_outside_the_accepted_form_are_rejected() {
    for t in ["http://a b/x.ts", "http:///x.ts", "https://Deno.land/x.ts", "http://1.2.3.4/x.ts", "http://xn--zz/x.ts", "http://a./x.ts", "http://a:8/x.ts"] {
        assert_eq!(ModuleSpecifier::parse(t).unwrap_err(), ResolutionError::InvalidHost, "text {}", t);
    }
    assert_eq!(spec("file://server/x.ts").as_text(), "file://server/x.ts");
    assert_eq!(spec("https://deno-land.com/x.ts").as_text(), "https://deno-land.com/x.ts");
}

#[test]
fn empty_path_is_the_root() {
    let m = ModuleSpecifier::resolve("https://h/a/..", &spec("file:///m.ts")).unwrap();
    assert_eq!(m.as_text(), "https://h/");
    let again = ModuleSpecifier::resolve(&m.as_text(), &spec("file:///m.ts")).unwrap();
    assert_eq!(again.as_text(), "https://h/");
}

#[test]
fn resolving_twice_gives_the_same_specifier() {
    let r = spec("file:///dir/main.ts");
    let a = ModuleSpecifier::resolve("./sibling.ts", &r).unwrap();
    let b = ModuleSpecifier::resolve("./sibling.ts", &r).unwrap();
    assert_eq!(a.as_text(), b.as_text());
    let c = ModuleSpecifier::resolve(&a.as_text(), &r).unwrap();
    assert_eq!(c.as_text(), a.as_text());
}

#[test]
fn parent_and_dot_segments() {
    let r = spec("file:///a/b/c/main.ts");
    assert_eq!(ModuleSpecifier::resolve("../x.ts", &r).unwrap().as_text(), "file:///a/b/x.ts");
    assert_eq!(ModuleSpecifier::resolve("./../../y/./z.js", &r).unwrap().as_text(), "file:///a/y/z.js");
    assert_eq!(ModuleSpecifier::resolve("/root.ts", &r).unwrap().as_text(), "file:///root.ts");
}

#[test]
fn climbing_above_root_is_rejected() {
    let r = spec("file:///main.ts");
    assert_eq!(ModuleSpecifier::resolve("../x.ts", &r).unwrap_err(), ResolutionError::OutsideRoot);
    assert_eq!(ModuleSpecifier::resolve("/../x.ts", &r).unwrap_err(), ResolutionError::OutsideRoot);
}

#[test]
fn bare_and_unknown_specifiers_are_rejected() {
    let r = spec("file:///main.ts");
    assert_eq!(ModuleSpecifier::resolve("lodash", &r).unwrap_err(), ResolutionError::Bare);
    assert_eq!(ModuleSpecifier::resolve("npm:lodash", &r).unwrap_err(), ResolutionError::UnknownScheme);
    assert_eq!(ModuleSpecifier::resolve("file:x.ts", &r).unwrap_err(), ResolutionError::Malformed);
}

#[test]
fn absolute_specifiers_are_canonicalized() {
    let r = spec("file:///main.ts");
    let m = ModuleSpecifier::resolve("https://deno.land/std/./fs/../path/mod.ts", &r).unwrap();
    assert_eq!(m.as_text(), "https://deno.land/std/path/mod.ts");
    assert_eq!(spec("https://deno.land").as_text(), "https://deno.land/");
    assert_eq!(m.file_name(), "mod.ts");
}

#[test]
fn remote_referrer_keeps_its_host() {
    let r = spec("https://example.com/lib/mod.ts");
    assert_eq!(ModuleSpecifier::resolve("./util.ts", &r).unwrap().as_text(), "https://example.com/lib/util.ts");
    assert_eq!(ModuleSpecifier::resolve("/top.ts", &r).unwrap().as_text(), "https://example.com/top.ts");
}
