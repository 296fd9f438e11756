use scrubr::gradient::{find_duplicate_gradients, make_gradient_key, make_stop_key, GradientDef, StopKey};
use scrubr::ids::{build_id_map, short_id};
use scrubr::subst::CapturedVar;

fn pairs(v: &[(&str, &str)]) -> Vec<(String, String)> {
    v.iter().map(|(a, b)| (a.to_string(), b.to_string())).collect()
}

fn strings(v: &[&str]) -> Vec<String> {
    v.iter().map(|s| s.to_string()).collect()
}

#[test]
fn short_ids_follow_the_sequence() {
    assert_eq!(short_id(0, None), "a");
    assert_eq!(short_id(25, None), "z");
    assert_eq!(short_id(26, None), "A");
    assert_eq!(short_id(51, None), "Z");
    assert_eq!(short_id(52, None), "aa");
    assert_eq!(short_id(53, None), "ab");
    assert_eq!(short_id(103, None), "aZ");
    assert_eq!(short_id(104, None), "ba");
    assert_eq!(short_id(3, Some("p-")), "p-d");
}

#[test]
fn short_ids_are_distinct() {
    let ids: Vec<String> = (0..3000).map(|n| short_id(n, None)).collect();
    let set: std::collections::HashSet<&String> = ids.iter().collect();
    assert_eq!(set.len(), ids.len());
}

#[test]
fn id_map_strips_protects_and_shortens() {
    let (map, removed) = build_id_map(
        &strings(&["a1", "logo", "b2"]),
        &strings(&["b2"]),
        true,
        true,
        None,
        true,
        &[],
        None,
    );
    assert_eq!(removed, 1);
    assert_eq!(
        map,
        vec![
            ("a1".to_string(), None),
            ("logo".to_string(), Some("logo".to_string())),
            ("b2".to_string(), Some("a".to_string())),
        ]
    );
}

#[test]
fn id_map_avoids_collisions() {
    let (map, removed) = build_id_map(
        &strings(&["a", "b", "x1"]),
        &strings(&["a", "b", "x1"]),
        false,
        true,
        None,
        false,
        &[],
        None,
    );
    assert_eq!(removed, 0);
    assert_eq!(
        map,
        vec![
            ("a".to_string(), Some("c".to_string())),
            ("b".to_string(), Some("d".to_string())),
            ("x1".to_string(), Some("e".to_string())),
        ]
    );
}

#[test]
fn id_map_protect_list_and_prefix() {
    let (map, _) = build_id_map(
        &strings(&["keep1", "icon-2", "z3"]),
        &[],
        true,
        false,
        None,
        false,
        &strings(&["keep1"]),
        Some("icon-"),
    );
    assert_eq!(
        map,
        vec![
            ("keep1".to_string(), Some("keep1".to_string())),
            ("icon-2".to_string(), Some("icon-2".to_string())),
            ("z3".to_string(), None),
        ]
    );
}

#[test]
fn id_map_new_names_never_repeat() {
    let ids = strings(&["a", "q1", "q2", "c", "q3", "q1"]);
    let (map, _) = build_id_map(&ids, &ids, false, true, None, false, &[], None);
    let names: Vec<&String> = map.iter().filter_map(|(_, v)| v.as_ref()).collect();
    let set: std::collections::HashSet<&&String> = names.iter().collect();
    assert_eq!(set.len(), names.len());
}

#[test]
fn gradient_key_filters_and_sorts() {
    let k = make_gradient_key(
        "linearGradient",
        &pairs(&[("id", "g1"), ("x2", "1"), ("x1", "0"), ("gradientUnits", "userSpaceOnUse")]),
        vec![],
    );
    assert_eq!(k.tag, "linearGradient");
    assert_eq!(k.attrs, pairs(&[("gradientUnits", "userSpaceOnUse"), ("x1", "0"), ("x2", "1")]));
}

#[test]
fn stop_key_prefers_inline_style() {
    let s = make_stop_key(&pairs(&[
        ("offset", "0.5"),
        ("style", "stop-color: Red ;STOP-opacity:0.3"),
        ("stop-color", "blue"),
    ]));
    assert_eq!(
        s,
        StopKey { offset: "0.5".to_string(), color: "Red".to_string(), opacity: "0.3".to_string() }
    );
    let t = make_stop_key(&pairs(&[("stop-color", "blue")]));
    assert_eq!(t.color, "blue");
    assert_eq!(t.offset, "");
}

fn stop(c: &str) -> StopKey {
    StopKey { offset: "0".to_string(), color: c.to_string(), opacity: "1".to_string() }
}

fn def(id: &str, x1: &str, stops: Vec<StopKey>, inherits: Option<&str>) -> GradientDef {
    GradientDef {
        id: id.to_string(),
        key: make_gradient_key("linearGradient", &pairs(&[("x1", x1)]), stops),
        inherits: inherits.map(|s| s.to_string()),
        attrs: pairs(&[("x1", x1)]),
    }
}

#[test]
fn duplicate_gradients_are_found() {
    let defs = vec![
        def("g1", "0", vec![stop("red")], None),
        def("g2", "0", vec![stop("red")], None),
        def("g3", "1", vec![stop("red")], None),
        def("g4", "0", vec![], Some("g1")),
    ];
    let r = find_duplicate_gradients(&defs, &[]);
    assert_eq!(r, pairs(&[("g2", "g1"), ("g4", "g1")]));
}

#[test]
fn gradients_with_placeholders_stay_unique() {
    let var = CapturedVar {
        original: "{{c}}".to_string(),
        placeholder: "__S0__VAR0__S0__END".to_string(),
        neutral: "#000".to_string(),
    };
    let defs = vec![
        def("g1", "0", vec![stop("#000__S0__VAR0__S0__END")], None),
        def("g2", "0", vec![stop("#000__S0__VAR0__S0__END")], None),
    ];
    assert_eq!(find_duplicate_gradients(&defs, &[var]), vec![]);
    assert_eq!(find_duplicate_gradients(&defs, &[]), pairs(&[("g2", "g1")]));
}

#[test]
fn placeholder_in_any_attribute_keeps_a_gradient() {
    let var = CapturedVar {
        original: "{{c}}".to_string(),
        placeholder: "__S0__VAR0__S0__END".to_string(),
        neutral: "0".to_string(),
    };
    let mut g2 = def("g2", "0", vec![stop("red")], None);
    g2.attrs.push(("class".to_string(), "0__S0__VAR0__S0__END".to_string()));
    let defs = vec![def("g1", "0", vec![stop("red")], None), g2, def("g3", "0", vec![stop("red")], None)];
    assert_eq!(find_duplicate_gradients(&defs, &[var.clone()]), pairs(&[("g3", "g1")]));
    // A pinned gradient is not a rename target either.
    let mut p1 = def("p1", "0", vec![stop("red")], None);
    p1.attrs.push(("class".to_string(), "0__S0__VAR0__S0__END".to_string()));
    let defs = vec![p1, def("q1", "0", vec![stop("red")], None), def("q2", "0", vec![stop("red")], None)];
    assert_eq!(find_duplicate_gradients(&defs, &[var]), pairs(&[("q2", "q1")]));
}

#[test]
fn short_ids_never_get_shorter() {
    let mut last = 0;
    for n in 0..3000usize {
        let l = short_id(n, None).len();
        assert!(l >= last);
        last = l;
    }
    assert_eq!(short_id(52 + 52 * 52 - 1, None), "ZZ");
    assert_eq!(short_id(52 + 52 * 52, None), "aaa");
}

#[test]
fn id_map_counts_removed_and_hands_out_free_short_ids_in_order() {
    // "b" and "d" are IDs of the document, so the short IDs skip them.
    let ids = strings(&["x1", "b", "y2", "z3", "d", "w4"]);
    let (map, removed) = build_id_map(
        &ids,
        &strings(&["x1", "y2", "w4", "b"]),
        true,
        true,
        None,
        false,
        &strings(&["d"]),
        None,
    );
    let nones = map.iter().filter(|(_, v)| v.is_none()).count();
    assert_eq!(removed, 1);
    assert_eq!(removed, nones);
    assert_eq!(
        map,
        vec![
            ("x1".to_string(), Some("a".to_string())),
            ("b".to_string(), Some("c".to_string())),
            ("y2".to_string(), Some("e".to_string())),
            ("z3".to_string(), None),
            ("d".to_string(), Some("d".to_string())),
            ("w4".to_string(), Some("f".to_string())),
        ]
    );
}
