use ts_host::media::MediaKind;

#[test]
fn extension_table() {
    for (n, k) in [
        ("a.ts", Some(MediaKind::TypeScript)),
        ("a.mts", Some(MediaKind::TypeScript)),
        ("a.cts", Some(MediaKind::TypeScript)),
        ("a.d.ts", Some(MediaKind::TypeScript)),
        ("a.tsx", Some(MediaKind::Tsx)),
        ("a.js", Some(MediaKind::JavaScript)),
        ("a.mjs", Some(MediaKind::JavaScript)),
        ("a.cjs", Some(MediaKind::JavaScript)),
        ("main", Some(MediaKind::JavaScript)),
        ("data.json", Some(MediaKind::Json)),
        ("notes.txt", None),
    ] {
        assert_eq!(MediaKind::classify(n), k, "file {}", n);
    }
}

#[test]
fn only_typescript_is_transpiled() {
    assert!(MediaKind::TypeScript.needs_transpile());
    assert!(MediaKind::Tsx.needs_transpile());
    assert!(!MediaKind::JavaScript.needs_transpile());
    assert!(!MediaKind::Json.needs_transpile());
}
