use ts_host::source_map::{translate_in, Mapping, SourceMapRegistry};

fn m(gl: u32, gc: u32, ol: u32, oc: u32) -> Mapping {
    Mapping { gen_line: gl, gen_col: gc, orig_line: ol, orig_col: oc }
}

#[test]
fn nearest_preceding_entry_wins() {
    let ms = vec![m(0, 0, 0, 0), m(0, 10, 0, 14), m(2, 4, 5, 0)];
    assert_eq!(translate_in(&ms, 0, 9), Some((0, 0)));
    assert_eq!(translate_in(&ms, 0, 10), Some((0, 14)));
    assert_eq!(translate_in(&ms, 1, 0), Some((0, 14)));
    assert_eq!(translate_in(&ms, 2, 4), Some((5, 0)));
    assert_eq!(translate_in(&ms, 9, 9), Some((5, 0)));
}

#[test]
fn position_before_every_entry_has_no_translation() {
    let ms = vec![m(1, 2, 3, 4)];
    assert_eq!(translate_in(&ms, 1, 1), None);
    assert_eq!(translate_in(&ms, 0, 50), None);
    assert_eq!(translate_in(&Vec::new(), 0, 0), None);
}

#[test]
fn first_of_equal_positions_wins() {
    let ms = vec![m(1, 0, 7, 7), m(1, 0, 8, 8)];
    assert_eq!(translate_in(&ms, 1, 0), Some((7, 7)));
}

#[test]
fn registry_put_get_translate() {
    let mut reg = SourceMapRegistry::new();
    assert!(reg.get("file:///a.ts").is_none());
    assert_eq!(reg.translate("file:///a.ts", 0, 0), None);
    reg.put("file:///a.ts", vec![m(0, 0, 3, 1)]);
    reg.put("file:///b.ts", vec![m(0, 0, 9, 9)]);
    assert_eq!(reg.translate("file:///a.ts", 0, 5), Some((3, 1)));
    assert_eq!(reg.translate("file:///b.ts", 0, 5), Some((9, 9)));
    reg.put("file:///a.ts", vec![m(0, 0, 4, 2)]);
    assert_eq!(reg.translate("file:///a.ts", 0, 5), Some((4, 2)));
    assert_eq!(reg.get("file:///a.ts").unwrap().len(), 1);
    assert_eq!(reg.translate("file:///b.ts", 0, 5), Some((9, 9)));
}
