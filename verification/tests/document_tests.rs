use scrubr::document::{analyse_document, get_attribute, prepare_document, Analysis, NodeKind, XmlAttr, XmlNode};
use scrubr::optimizer::{Indent, ScourOptions};
use scrubr::style_block::optimize_style_block;
use scrubr::subst::protect_subst_vars;
use scrubr::writer::{attr_kind, render_document, serialize_document};
use scrubr::serialize::AttrKind;

const SVG: &str = "http://www.w3.org/2000/svg";
const PROLOG: &str = "<?xml version=\"1.0\" encoding=\"utf-8\"?>\n";

fn attr(n: &str, v: &str) -> XmlAttr {
    XmlAttr { name: n.to_string(), namespace: String::new(), value: v.to_string(), numeric: None, simplified: None }
}

fn el(name: &str, attrs: Vec<XmlAttr>, children: Vec<XmlNode>) -> XmlNode {
    XmlNode {
        kind: NodeKind::Element,
        name: name.to_string(),
        namespace: SVG.to_string(),
        attrs,
        text: String::new(),
        children,
    }
}

fn leaf(kind: NodeKind, name: &str, text: &str) -> XmlNode {
    XmlNode { kind, name: name.to_string(), namespace: String::new(), attrs: vec![], text: text.to_string(), children: vec![] }
}

fn root(children: Vec<XmlNode>) -> XmlNode {
    XmlNode { kind: NodeKind::Root, name: String::new(), namespace: String::new(), attrs: vec![], text: String::new(), children }
}

fn opts() -> ScourOptions {
    ScourOptions {
        precision: 5,
        c_precision: 5,
        simplify_colors: true,
        style_to_xml: true,
        group_collapsing: true,
        create_groups: false,
        keep_editor_data: false,
        keep_unreferenced_defs: false,
        renderer_workaround: true,
        strip_xml_prolog: false,
        remove_titles: false,
        remove_descriptions: false,
        remove_metadata: false,
        strip_comments: false,
        embed_rasters: true,
        enable_viewboxing: false,
        indent: Indent::Space,
        nindent: 2,
        no_line_breaks: false,
        strip_xml_space: false,
        strip_ids: false,
        shorten_ids: false,
        shorten_ids_prefix: None,
        protect_ids_noninkscape: false,
        protect_ids_list: vec![],
        protect_ids_prefix: None,
        error_on_flowtext: false,
        simplify_paths: false,
        combine_paths: false,
        quiet: false,
        verbose: false,
    }
}

fn write(doc: &XmlNode, o: &ScourOptions) -> Option<(String, usize, usize, usize)> {
    serialize_document(doc, o, &[], &[], &[]).map(|(s, t)| (s, t.simplified, t.combined, t.defs_removed))
}

#[test]
fn writes_sorted_attributes_without_defaults() {
    let mut o = opts();
    o.enable_viewboxing = true;
    let doc = root(vec![el(
        "svg",
        vec![attr("width", "10"), attr("height", "20")],
        vec![el("rect", vec![attr("x", "1"), attr("fill", "#000000")], vec![])],
    )]);
    let (s, _, _, _) = write(&doc, &o).unwrap();
    assert_eq!(
        s,
        format!("{}<svg height=\"100%\" width=\"100%\" viewBox=\"0 0 10 20\">\n  <rect x=\"1\"/>\n</svg>\n", PROLOG)
    );
}

#[test]
fn removes_empty_defs_and_counts_them() {
    let doc = root(vec![el("svg", vec![], vec![el("defs", vec![], vec![]), el("rect", vec![], vec![])])]);
    let (s, simplified, combined, removed) = write(&doc, &opts()).unwrap();
    assert_eq!(s, format!("{}<svg>\n  <rect/>\n</svg>\n", PROLOG));
    assert_eq!((simplified, combined, removed), (0, 0, 1));
}

#[test]
fn collapses_plain_groups() {
    let doc = root(vec![el("svg", vec![], vec![el("g", vec![], vec![el("rect", vec![attr("x", "1")], vec![])])])]);
    let (s, _, _, _) = write(&doc, &opts()).unwrap();
    assert_eq!(s, format!("{}<svg>\n  <rect x=\"1\"/>\n</svg>\n", PROLOG));
    let mut o = opts();
    o.group_collapsing = false;
    let (s2, _, _, _) = write(&doc, &o).unwrap();
    assert_eq!(s2, format!("{}<svg>\n  <g>\n    <rect x=\"1\"/>\n  </g>\n</svg>\n", PROLOG));
}

#[test]
fn keeps_groups_with_an_id() {
    let doc = root(vec![el("svg", vec![], vec![el("g", vec![attr("id", "a")], vec![el("rect", vec![], vec![])])])]);
    let (s, _, _, _) = write(&doc, &opts()).unwrap();
    assert_eq!(s, format!("{}<svg>\n  <g id=\"a\">\n    <rect/>\n  </g>\n</svg>\n", PROLOG));
}

#[test]
fn combines_adjacent_paths() {
    let mut o = opts();
    o.combine_paths = true;
    let doc = root(vec![el(
        "svg",
        vec![],
        vec![
            el("path", vec![attr("d", "M0 0L1 1"), attr("fill", "red")], vec![]),
            el("path", vec![attr("d", "M2 2L3 3"), attr("fill", "red")], vec![]),
        ],
    )]);
    let (s, _, combined, _) = write(&doc, &o).unwrap();
    assert_eq!(s, format!("{}<svg>\n  <path fill=\"red\" d=\"M0 0L1 1 M2 2L3 3\"/>\n</svg>\n", PROLOG));
    assert_eq!(combined, 1);
}

#[test]
fn uses_simplified_path_data_and_counts_it() {
    let mut o = opts();
    o.simplify_paths = true;
    let mut d = attr("d", "M 0 0 L 1 1");
    d.numeric = Some("M0 0L1 1".to_string());
    d.simplified = Some("M0 0 1 1".to_string());
    let doc = root(vec![el("path", vec![d], vec![])]);
    let (s, simplified, _, _) = write(&doc, &o).unwrap();
    assert_eq!(s, format!("{}<path d=\"M0 0 1 1\"/>\n", PROLOG));
    assert_eq!(simplified, 1);
}

#[test]
fn writes_text_comments_and_instructions() {
    let doc = root(vec![
        leaf(NodeKind::Comment, "", " top "),
        el(
            "text",
            vec![],
            vec![
                leaf(NodeKind::Text, "", "a < b"),
                leaf(NodeKind::Comment, "", "c"),
                leaf(NodeKind::ProcessingInstruction, "pi", "v"),
            ],
        ),
    ]);
    let (s, _, _, _) = write(&doc, &opts()).unwrap();
    assert_eq!(
        s,
        format!("{}<!-- top -->\n<text>\n  a &lt; b\n  <!--c-->\n  <?pi v?>\n</text>\n", PROLOG)
    );
    let mut o = opts();
    o.strip_comments = true;
    o.strip_xml_prolog = true;
    o.no_line_breaks = true;
    let (s2, _, _, _) = write(&doc, &o).unwrap();
    assert_eq!(s2, "<text>a &lt; b<?pi v?></text>");
}

#[test]
fn optimizes_style_elements() {
    let css = "rect { fill: RED; stroke-width: 1 }";
    let doc = root(vec![el("svg", vec![], vec![el("style", vec![], vec![leaf(NodeKind::Text, "", css)])])]);
    let (s, _, _, _) = write(&doc, &opts()).unwrap();
    let expected_css = optimize_style_block(css, &[], true, &[]);
    assert_eq!(expected_css, "rect {fill:red}");
    assert_eq!(s, format!("{}<svg>\n  <style>\n    rect {{fill:red}}\n  </style>\n</svg>\n", PROLOG));
}

#[test]
fn groups_runs_of_siblings() {
    let mut o = opts();
    o.create_groups = true;
    o.no_line_breaks = true;
    o.strip_xml_prolog = true;
    let doc = root(vec![el(
        "svg",
        vec![],
        vec![
            el("rect", vec![attr("fill", "#f00")], vec![]),
            el("circle", vec![attr("fill", "#f00")], vec![]),
        ],
    )]);
    let (s, _, _, _) = write(&doc, &o).unwrap();
    assert_eq!(s, "<svg><g fill=\"#f00\"><rect/><circle/></g></svg>");
}

#[test]
fn writes_a_style_with_a_non_ascii_property() {
    let doc = root(vec![el("rect", vec![attr("style", "\u{e9}:red")], vec![])]);
    let (s, _, _, _) = write(&doc, &opts()).unwrap();
    assert!(s.contains("\u{e9}:red"));
}

#[test]
fn renders_with_placeholders_restored_and_stats() {
    let (protected, vars) = protect_subst_vars("<rect fill=\"{{c}}\"/>");
    assert_eq!(vars.len(), 1);
    let start = protected.find("fill=\"").unwrap() + 6;
    let len = protected[start..].find('"').unwrap();
    let ph = protected[start..start + len].to_string();
    let doc = root(vec![el("svg", vec![], vec![el("rect", vec![attr("fill", &ph)], vec![])])]);
    let analysis = Analysis { id_map: vec![], grad_renames: vec![], has_flowtext: false };
    let (s, stats) = render_document(&doc, &vars, &opts(), &analysis).unwrap();
    assert_eq!(s, format!("{}<svg>\n  <rect fill=\"{{{{c}}}}\"/>\n</svg>\n", PROLOG));
    assert_eq!(stats.subst_vars_preserved, 1);
    assert_eq!(stats.gradients_deduplicated, 0);
}

#[test]
fn analysis_deduplicates_gradients_and_renames() {
    let grad = |id: &str| {
        el("linearGradient", vec![attr("id", id)], vec![el("stop", vec![attr("offset", "0")], vec![])])
    };
    let doc = root(vec![el(
        "svg",
        vec![],
        vec![
            el("defs", vec![], vec![grad("g1"), grad("g2")]),
            el("rect", vec![attr("fill", "url(#g2)")], vec![]),
            el("flowRoot", vec![], vec![]),
        ],
    )]);
    let mut o = opts();
    o.shorten_ids = true;
    let a = analyse_document(&doc, &[], &o);
    assert_eq!(a.grad_renames, vec![("g2".to_string(), "g1".to_string())]);
    assert!(a.has_flowtext);
    assert!(a.id_map.contains(&("g2".to_string(), Some("g1".to_string()))));
    let (s, stats) = render_document(&doc, &[], &o, &a).unwrap();
    assert!(s.contains("<rect fill=\"url(#"));
    assert!(!s.contains("g2"));
    assert_eq!(stats.gradients_deduplicated, 1);
}

#[test]
fn attribute_kinds() {
    assert_eq!(attr_kind("d", "path"), AttrKind::PathData);
    assert_eq!(attr_kind("d", "glyph"), AttrKind::Plain);
    assert_eq!(attr_kind("gradientTransform", "linearGradient"), AttrKind::Transform);
    assert_eq!(attr_kind("stop-color", "stop"), AttrKind::Color);
    assert_eq!(attr_kind("stroke-width", "rect"), AttrKind::Number);
    assert_eq!(attr_kind("width", "rect"), AttrKind::Number);
    assert_eq!(attr_kind("width", "svg"), AttrKind::Plain);
    assert_eq!(attr_kind("viewBox", "svg"), AttrKind::NumberList);
    assert_eq!(attr_kind("class", "rect"), AttrKind::Plain);
}

#[test]
fn reads_attributes_without_namespace() {
    let mut a = attr("href", "#x");
    a.namespace = "http://www.w3.org/1999/xlink".to_string();
    let n = el("use", vec![a, attr("id", "u")], vec![]);
    assert_eq!(get_attribute(&n, "href"), None);
    assert_eq!(get_attribute(&n, "id"), Some("u".to_string()));
}

#[test]
fn drops_editor_data_and_descriptive_elements() {
    let mut editor = el("namedview", vec![], vec![]);
    editor.namespace = "http://sodipodi.sourceforge.net/DTD/sodipodi-0.0.dtd".to_string();
    let doc = root(vec![el(
        "svg",
        vec![],
        vec![editor, el("title", vec![], vec![leaf(NodeKind::Text, "", "t")]), el("rect", vec![], vec![])],
    )]);
    let mut o = opts();
    o.remove_titles = true;
    let (s, _, _, _) = write(&doc, &o).unwrap();
    assert_eq!(s, format!("{}<svg>\n  <rect/>\n</svg>\n", PROLOG));
    o.keep_editor_data = true;
    o.remove_titles = false;
    let (s2, _, _, _) = write(&doc, &o).unwrap();
    assert_eq!(s2, format!("{}<svg>\n  <namedview/>\n  <title>\n    t\n  </title>\n  <rect/>\n</svg>\n", PROLOG));
}

#[test]
fn moves_style_properties_to_attributes() {
    let doc = root(vec![el("rect", vec![attr("style", "fill:#ff0000;stroke:none;foo:bar")], vec![])]);
    let (s, _, _, _) = write(&doc, &opts()).unwrap();
    assert_eq!(s, format!("{}<rect fill=\"#f00\" style=\"foo:bar\"/>\n", PROLOG));
}

#[test]
fn prepared_documents_parse_and_fall_back() {
    let o = opts();
    let bad = "<svg><g></svg> {{x}}";
    match prepare_document(bad, &o) {
        Err((out, st)) => {
            assert_eq!(out, bad);
            assert_eq!(st.subst_vars_preserved, 1);
            assert_eq!(st.gradients_deduplicated, 0);
        }
        Ok(_) => panic!("malformed XML must come back unchanged"),
    }
    let (root, vars, a) = match prepare_document(r#"<svg xmlns="http://www.w3.org/2000/svg"><rect fill="{{c}}"/></svg>"#, &o) {
        Ok(p) => p,
        Err(_) => panic!("well-formed XML must parse"),
    };
    assert_eq!(vars.len(), 1);
    assert!(a.grad_renames.is_empty());
    assert_eq!(root.kind, NodeKind::Root);
    assert_eq!(root.children.len(), 1);
    assert_eq!(root.children[0].name, "svg");
    assert_eq!(root.children[0].children[0].name, "rect");
    assert_eq!(root.children[0].children[0].attrs[0].value, "#000__S0__VAR0__S0__END");
}

#[test]
fn gradient_with_placeholder_attribute_is_kept() {
    let o = opts();
    let input = r#"<svg xmlns="http://www.w3.org/2000/svg"><defs><linearGradient id="g1"><stop offset="0" stop-color="red"/></linearGradient><linearGradient id="g2" class="{{c}}"><stop offset="0" stop-color="red"/></linearGradient></defs></svg>"#;
    let (root, vars, a) = match prepare_document(input, &o) {
        Ok(p) => p,
        Err(_) => panic!("well-formed XML must parse"),
    };
    assert!(a.grad_renames.is_empty());
    let (out, st) = render_document(&root, &vars, &o, &a).expect("renders");
    assert!(out.contains("{{c}}"));
    assert_eq!(st.gradients_deduplicated, 0);
}
