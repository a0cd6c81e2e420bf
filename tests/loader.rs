use ts_host::loader::{load, strip_bom_str, to_mappings, FetchError, LoadError};
use ts_host::media::MediaKind;
use ts_host::source_map::SourceMapRegistry;
use ts_host::specifier::ModuleSpecifier;

fn spec(s: &str) -> ModuleSpecifier {
    ModuleSpecifier::parse(s).unwrap()
}

#[test]
fn typescript_is_transpiled_with_a_source_map() {
    let mut reg = SourceMapRegistry::new();
    let s = spec("file:///a.ts");
    let rec = load(&mut reg, &s, Ok("const x: number = 1 + 2;".to_string())).unwrap();
    assert_eq!(rec.kind, MediaKind::TypeScript);
    assert!(rec.code.contains("const x = 1 + 2;"), "{}", rec.code);
    assert!(!rec.code.contains("number"));
    assert!(!rec.code.contains(':'));
    let col = rec.code.find("1 + 2").unwrap() as u32;
    assert_eq!(reg.translate("file:///a.ts", 0, col).map(|p| p.0), Some(0));
    assert!(reg.get("file:///a.ts").is_some());
}

#[test]
fn transpiling_twice_is_identical() {
    let mut reg = SourceMapRegistry::new();
    let s = spec("file:///dir/m.ts");
    let src = "interface P { x: number }\nexport function f(p: P): number {\n  return p.x * 2;\n}\n";
    let a = load(&mut reg, &s, Ok(src.to_string())).unwrap();
    let ma = reg.get("file:///dir/m.ts").unwrap().clone();
    let b = load(&mut reg, &s, Ok(src.to_string())).unwrap();
    let mb = reg.get("file:///dir/m.ts").unwrap().clone();
    assert_eq!(a.code, b.code);
    assert_eq!(ma, mb);
    assert!(!a.code.contains("interface"));
}

#[test]
fn missing_module_is_a_fetch_error() {
    let mut reg = SourceMapRegistry::new();
    let s = spec("file:///missing.ts");
    match load(&mut reg, &s, Err(FetchError::NotFound)) {
        Err(LoadError::Fetch(FetchError::NotFound)) => {}
        _ => panic!("expected a fetch error"),
    }
    assert!(reg.get("file:///missing.ts").is_none());
}

#[test]
fn syntax_error_is_a_transpile_error() {
    let mut reg = SourceMapRegistry::new();
    let s = spec("file:///bad.ts");
    match load(&mut reg, &s, Ok("const = ;".to_string())) {
        Err(LoadError::Transpile(msg)) => assert!(!msg.is_empty()),
        _ => panic!("expected a transpile error"),
    }
    assert!(reg.get("file:///bad.ts").is_none());
}

#[test]
fn javascript_passes_through_and_json_is_wrapped() {
    let mut reg = SourceMapRegistry::new();
    let js = load(&mut reg, &spec("file:///a.js"), Ok("let a = 1;".to_string())).unwrap();
    assert_eq!(js.kind, MediaKind::JavaScript);
    assert_eq!(js.code, "let a = 1;");
    let json = load(&mut reg, &spec("file:///d.json"), Ok("{\"k\": 1}".to_string())).unwrap();
    assert_eq!(json.kind, MediaKind::Json);
    assert_eq!(json.code, "export default {\"k\": 1};");
    assert!(reg.get("file:///a.js").is_none());
}

#[test]
fn tsx_is_transpiled() {
    let mut reg = SourceMapRegistry::new();
    let rec = load(&mut reg, &spec("file:///c.tsx"), Ok("const e = <div>{1 as number}</div>;".to_string())).unwrap();
    assert_eq!(rec.kind, MediaKind::Tsx);
    assert!(!rec.code.contains("as number"));
    assert!(reg.get("file:///c.tsx").is_some());
}

#[test]
fn unknown_extension_is_rejected() {
    let mut reg = SourceMapRegistry::new();
    match load(&mut reg, &spec("file:///notes.txt"), Ok("x".to_string())) {
        Err(LoadError::UnsupportedMediaType) => {}
        _ => panic!("expected an unsupported media type"),
    }
}

#[test]
fn leading_byte_order_mark_is_removed_before_transpiling() {
    let mut reg = SourceMapRegistry::new();
    let rec = load(&mut reg, &spec("file:///bom.ts"), Ok("\u{feff}const y: string = 'a';".to_string())).unwrap();
    assert!(rec.code.contains("const y = 'a';") || rec.code.contains("const y = \"a\";"), "{}", rec.code);
    assert!(!rec.code.contains('\u{feff}'));
    assert_eq!(strip_bom_str("\u{feff}\u{feff}ab"), "ab");
    assert_eq!(strip_bom_str("a\u{feff}"), "a\u{feff}");
}

#[test]
fn tokens_without_original_position_are_dropped() {
    let ms = to_mappings(&vec![(0, 0, 1, 2), (0, 5, u32::MAX, u32::MAX), (1, 0, 3, 4)]);
    assert_eq!(ms.len(), 2);
    assert_eq!((ms[0].orig_line, ms[0].orig_col), (1, 2));
    assert_eq!((ms[1].gen_line, ms[1].orig_line), (1, 3));
}
