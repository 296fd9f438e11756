use scrubr::groups::{group_runs, ElementFragment};
use scrubr::optimizer::{
    apply_viewboxing, collapse_ws, emit_text, escape_xml_attr, escape_xml_text, extract_id_refs,
    indent, is_editor_ns, make_indent_unit, maybe_newline, number_list_items, process_style, remap_id_refs,
    resolve_id, should_emit_element, split_number_unit, strip_units, write_attr, write_comment,
    Indent, OptimizeStats, ScourOptions,
};
use scrubr::path_combine::{combine_path_d, paths_are_combinable};
use scrubr::style_block::{optimize_style_block, try_optimize_style_block};
use scrubr::subst::CapturedVar;

fn pairs(v: &[(&str, &str)]) -> Vec<(String, String)> {
    v.iter().map(|(a, b)| (a.to_string(), b.to_string())).collect()
}

fn var0() -> CapturedVar {
    CapturedVar {
        original: "{{c}}".to_string(),
        placeholder: "__S0__VAR0__S0__END".to_string(),
        neutral: "#000".to_string(),
    }
}

fn opts() -> ScourOptions {
    ScourOptions {
        precision: 5,
        c_precision: 5,
        simplify_colors: true,
        style_to_xml: true,
        group_collapsing: true,
        create_groups: false,
        keep_editor_data: false,
        keep_unreferenced_defs: false,
        renderer_workaround: true,
        strip_xml_prolog: false,
        remove_titles: false,
        remove_descriptions: false,
        remove_metadata: false,
        strip_comments: false,
        embed_rasters: true,
        enable_viewboxing: true,
        indent: Indent::Space,
        nindent: 2,
        no_line_breaks: false,
        strip_xml_space: false,
        strip_ids: true,
        shorten_ids: false,
        shorten_ids_prefix: None,
        protect_ids_noninkscape: false,
        protect_ids_list: vec![],
        protect_ids_prefix: None,
        error_on_flowtext: false,
        simplify_paths: false,
        combine_paths: false,
        quiet: false,
        verbose: false,
    }
}

fn text(v: Vec<char>) -> String {
    v.into_iter().collect()
}

#[test]
fn fragment_keeps_groupable_attributes() {
    let f = ElementFragment::new(
        "rect",
        "<rect/>".to_string(),
        &pairs(&[("fill", "red"), ("x", "1"), ("stroke", "#000__S0__VAR0__S0__END")]),
        &[var0()],
    );
    assert_eq!(f.groupable_attrs, pairs(&[("fill", "red")]));
    assert_eq!(f.tag, "rect");
}

#[test]
fn runs_with_shared_attributes_are_grouped() {
    let f1 = ElementFragment::new("rect", "<rect fill=\"red\" x=\"1\"/>".to_string(), &pairs(&[("fill", "red"), ("x", "1")]), &[]);
    let f2 = ElementFragment::new("rect", "<rect fill=\"red\" x=\"2\"/>".to_string(), &pairs(&[("fill", "red"), ("x", "2")]), &[]);
    let out = group_runs(&[f1, f2], " ", 0, false);
    assert_eq!(out, "<g fill=\"red\">\n <rect x=\"1\"/>\n <rect x=\"2\"/>\n</g>\n");
}

#[test]
fn single_or_structural_fragments_are_copied() {
    let f1 = ElementFragment::new("rect", "<rect fill=\"red\"/>".to_string(), &pairs(&[("fill", "red")]), &[]);
    assert_eq!(group_runs(&[f1.clone()], " ", 0, false), "<rect fill=\"red\"/>");
    let g = ElementFragment::new("g", "<g fill=\"red\"/>".to_string(), &pairs(&[("fill", "red")]), &[]);
    assert_eq!(group_runs(&[g, f1], " ", 1, true), "<g fill=\"red\"/><rect fill=\"red\"/>");
}

#[test]
fn style_block_simplifies_and_drops_defaults() {
    assert_eq!(optimize_style_block("rect { fill: RED; stroke-width: 1 }", &[], true, &[]), "rect {fill:red}");
    let map = vec![("old".to_string(), Some("a".to_string()))];
    assert_eq!(optimize_style_block("#old .x{fill:blue}", &map, true, &[]), "#a .x{fill:#00f}");
    assert_eq!(optimize_style_block("/* c */ a{display:inline}", &[], true, &[]), "/* c */ ");
}

#[test]
fn style_block_keyframes_lines() {
    assert_eq!(
        optimize_style_block("@keyframes k {\n  fill: RED\n}", &[], true, &[]),
        "@keyframes k {\nfill:red\n}"
    );
    assert_eq!(optimize_style_block("@font-face{x:y}", &[], true, &[]), "@font-face{x:y}");
}

#[test]
fn style_block_keeps_placeholder_values() {
    assert_eq!(
        optimize_style_block("a{fill:#000__S0__VAR0__S0__END;stroke:none}", &[], true, &[var0()]),
        "a{fill:#000__S0__VAR0__S0__END}"
    );
    assert_eq!(
        optimize_style_block("a{ FILL : none__S0__VAR0__S0__END }", &[], true, &[var0()]),
        "a{fill:none__S0__VAR0__S0__END}"
    );
}

#[test]
fn style_block_failures_are_reported() {
    assert_eq!(try_optimize_style_block("/* x", &[], true, &[]), None);
    assert_eq!(try_optimize_style_block("a{fill:red}", &[], false, &[]), Some("a{fill:red}".to_string()));
}

#[test]
fn media_blocks_are_optimized_inside() {
    assert_eq!(
        try_optimize_style_block("@media screen{a{fill:BLUE}}", &[], true, &[]),
        Some("@media screen{a{fill:#00f}}".to_string())
    );
    let map = vec![("old".to_string(), Some("a".to_string()))];
    assert_eq!(
        optimize_style_block("@supports (x:y){@media print{#old{stroke:BLUE}}}", &map, true, &[]),
        "@supports (x:y){@media print{#a{stroke:#00f}}}"
    );
    assert_eq!(optimize_style_block("@media print;", &[], true, &[]), "@media print;");
}

#[test]
fn paths_combine() {
    assert_eq!(combine_path_d(" M0 0 ", "L1 1", &[]), Some("M0 0 L1 1".to_string()));
    assert_eq!(combine_path_d("", "M1 1", &[]), Some("M1 1".to_string()));
    assert_eq!(combine_path_d("M0 0", " ", &[]), Some("M0 0".to_string()));
    assert_eq!(combine_path_d("M0 0__S0__VAR0__S0__END", "M1 1", &[var0()]), None);
}

#[test]
fn paths_combinable_rules() {
    let a = pairs(&[("fill", "red"), ("d", "x")]);
    let b = pairs(&[("fill", "red")]);
    let c = pairs(&[("fill", "blue")]);
    assert!(paths_are_combinable(&a, &b, &[]));
    assert!(paths_are_combinable(&b, &a, &[]));
    assert!(!paths_are_combinable(&a, &c, &[]));
    let p = pairs(&[("fill", "#000__S0__VAR0__S0__END")]);
    assert!(!paths_are_combinable(&p, &p, &[var0()]));
}

#[test]
fn escaping() {
    assert_eq!(escape_xml_attr("a<b & \"c\">"), "a&lt;b &amp; &quot;c&quot;&gt;");
    assert_eq!(escape_xml_text("a<b>&\""), "a&lt;b&gt;&amp;\"");
}

#[test]
fn placeholders_pass_through_escaping() {
    assert_eq!(escape_xml_text("label __S0__VAR0__S0__END"), "label __S0__VAR0__S0__END");
    assert_eq!(escape_xml_attr("inherit__S0__VAR1__S0__END"), "inherit__S0__VAR1__S0__END");
}

#[test]
fn whitespace_collapses() {
    assert_eq!(collapse_ws("  a \n b\tc  "), "a b c");
    assert_eq!(collapse_ws("   "), "");
}

#[test]
fn id_references_are_remapped() {
    let map = vec![
        ("old".to_string(), Some("n".to_string())),
        ("gone".to_string(), None),
    ];
    assert_eq!(remap_id_refs("url(#old) x", &map), "url(#n) x");
    assert_eq!(remap_id_refs("url( #old )", &map), "url( #old )");
    assert_eq!(remap_id_refs("url(# old )", &map), "url(#n)");
    assert_eq!(remap_id_refs("url(#gone)", &map), "url(#gone)");
    assert_eq!(remap_id_refs("<use href=\"#old\"/>", &map), "<use href=\"#n\"/>");
    assert_eq!(remap_id_refs("url(#old", &map), "url(#old");
    assert_eq!(remap_id_refs("url(#old)", &[]), "url(#old)");
}

#[test]
fn id_references_are_collected() {
    let mut refs = vec!["z".to_string()];
    extract_id_refs("url(#a) #b.c 'x'", &mut refs);
    assert_eq!(refs, vec!["z", "a", "a", "b"]);
}

#[test]
fn units_are_stripped() {
    assert_eq!(strip_units("10px"), Some("10".to_string()));
    assert_eq!(strip_units(" 12.5 "), Some("12.5".to_string()));
    assert_eq!(strip_units("1e3em"), Some("1e3".to_string()));
    assert_eq!(strip_units("INF"), Some("INF".to_string()));
    assert_eq!(strip_units("abc"), None);
    assert_eq!(strip_units("50%"), None);
    assert_eq!(split_number_unit("50%"), ("50".to_string(), "%".to_string()));
    assert_eq!(split_number_unit("3em"), ("3".to_string(), "em".to_string()));
    assert_eq!(split_number_unit("auto"), ("auto".to_string(), "".to_string()));
}

#[test]
fn number_lists_split_on_commas_and_whitespace() {
    let (items, sep) = number_list_items(" 1, 2  3,,4 ");
    assert_eq!(items, vec!["1", "2", "3", "4"]);
    assert_eq!(sep, ',');
    let (items, sep) = number_list_items("0 0\t10\n20");
    assert_eq!(items, vec!["0", "0", "10", "20"]);
    assert_eq!(sep, ' ');
    assert_eq!(number_list_items("   ").0, Vec::<String>::new());
}

#[test]
fn output_helpers() {
    let o = opts();
    assert_eq!(make_indent_unit(&o), "  ");
    let mut out: Vec<char> = Vec::new();
    indent(&mut out, &o, 2);
    write_comment("hi", &mut out);
    maybe_newline(&mut out, &o);
    assert_eq!(text(out), "    <!--hi-->\n");
    let mut a: Vec<char> = Vec::new();
    let map = vec![("old".to_string(), Some("n".to_string()))];
    write_attr(&mut a, "fill", "url(#old) <", &o, &map);
    assert_eq!(text(a), " fill=\"url(#n) &lt;\"");
    let mut t: Vec<char> = Vec::new();
    emit_text("a < b", &mut t, &o, 1);
    emit_text("   ", &mut t, &o, 1);
    assert_eq!(text(t), "  a &lt; b\n");
}

#[test]
fn element_decisions() {
    let mut o = opts();
    assert!(is_editor_ns("http://www.inkscape.org/namespaces/inkscape"));
    assert!(!is_editor_ns("http://www.w3.org/2000/svg"));
    assert!(!should_emit_element("g", "http://sketchtool.com", &o));
    o.remove_titles = true;
    assert!(!should_emit_element("title", "", &o));
    assert!(should_emit_element("desc", "", &o));
    let map = vec![("old".to_string(), Some("n".to_string())), ("gone".to_string(), None)];
    assert_eq!(resolve_id(Some("old"), &o, &map, &[]), Some("n".to_string()));
    assert_eq!(resolve_id(Some("gone"), &o, &map, &[]), None);
    assert_eq!(resolve_id(Some("other"), &o, &map, &[]), Some("other".to_string()));
    assert_eq!(resolve_id(None, &o, &map, &[]), None);
}

#[test]
fn style_attribute_processing() {
    let o = opts();
    let (xml, rest) = process_style(Some("fill:#000;opacity:0.5;foo:bar"), &o, &[]);
    assert_eq!(xml, pairs(&[("opacity", "0.5")]));
    assert_eq!(rest, Some("foo:bar".to_string()));
    assert_eq!(process_style(Some("  "), &o, &[]), (vec![], None));
}

#[test]
fn viewboxing() {
    let o = opts();
    let mut attrs = pairs(&[("width", "100px"), ("height", "50")]);
    apply_viewboxing(false, "svg", &o, Some("100px"), Some("50"), &mut attrs, &[]);
    assert_eq!(attrs, pairs(&[("width", "100%"), ("height", "100%"), ("viewBox", "0 0 100 50")]));
    let mut b = pairs(&[("width", "auto")]);
    apply_viewboxing(false, "svg", &o, Some("auto"), Some("50"), &mut b, &[]);
    assert_eq!(b, pairs(&[("width", "auto")]));
}

#[test]
fn stats_default_is_zero() {
    let s = OptimizeStats::default();
    assert_eq!(s.paths_combined, 0);
    assert!(!s.has_flowtext);
}
