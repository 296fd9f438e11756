use scrubr::color::{rgb_to_hex, simplify_color, try_simplify_color};
use scrubr::css::{
    extract_presentation_attrs, is_default_value, parse_style, serialize_style,
    simplify_style_colors, try_parse_style,
};

fn pairs(v: &[(&str, &str)]) -> Vec<(String, String)> {
    v.iter().map(|(a, b)| (a.to_string(), b.to_string())).collect()
}

#[test]
fn rgb_to_hex_uses_short_form_when_possible() {
    assert_eq!(rgb_to_hex(255, 0, 0), "#f00");
    assert_eq!(rgb_to_hex(0x11, 0x22, 0x33), "#123");
    assert_eq!(rgb_to_hex(0x12, 0x34, 0x56), "#123456");
    assert_eq!(rgb_to_hex(0xff, 0xff, 0xfe), "#fffffe");
}

#[test]
fn named_colors_become_hex_only_when_not_longer() {
    assert_eq!(simplify_color("white"), "#fff");
    assert_eq!(simplify_color("  RED "), "red");
    assert_eq!(simplify_color("cornflowerblue"), "#6495ed");
    assert_eq!(simplify_color("Blue"), "#00f");
}

#[test]
fn hex_colors_are_normalized() {
    assert_eq!(simplify_color("#FFAA00"), "#fa0");
    assert_eq!(simplify_color("#abc"), "#abc");
    assert_eq!(simplify_color("#ABCDEF"), "#abcdef");
    assert_eq!(simplify_color("#12"), "#12");
    assert_eq!(simplify_color("#gggggg"), "#gggggg");
}

#[test]
fn rgb_functions_become_hex() {
    assert_eq!(simplify_color("rgb(255, 0, 0)"), "#f00");
    assert_eq!(simplify_color("RGB(300,-5,16)"), "#ff0010");
    assert_eq!(simplify_color("rgb(50%, 0%, 100%)"), "#8000ff");
    assert_eq!(simplify_color("rgb(33.3%,0,0)"), "#500");
    assert_eq!(simplify_color("rgb(1,2)"), "rgb(1,2)");
    assert_eq!(simplify_color("rgb(a,b,c)"), "rgb(a,b,c)");
}

#[test]
fn percent_channels_read_any_float_text() {
    assert_eq!(simplify_color("rgb(5e1%, 1E2%, 0e5%)"), "#80ff00");
    assert_eq!(simplify_color("rgb(inf%, NaN%, -Infinity%)"), "#f00");
    assert_eq!(simplify_color("rgb(+.5e2%, 1e-9%, 150%)"), "#8000ff");
    assert_eq!(simplify_color("rgb(0.001e4%,0,0)"), "#1a0000");
    assert_eq!(
        simplify_color("rgb(1e99999999999999999999999%,0,-1e99999999999999999999999%)"),
        "#f00"
    );
    assert_eq!(simplify_color("rgb(1e%,0,0)"), "rgb(1e%,0,0)");
}

#[test]
fn placeholders_are_left_alone() {
    assert_eq!(simplify_color("#000__S0__VAR0__S0__END"), "#000__S0__VAR0__S0__END");
}

#[test]
fn simplified_hex_is_a_fixpoint() {
    for c in ["#f00", "#123456", "#abc", "#8000ff"] {
        assert_eq!(simplify_color(c), c);
    }
}

#[test]
fn byte_slicing_panics_are_reported() {
    assert_eq!(try_simplify_color("#éa"), None);
    assert_eq!(try_simplify_color("#aé"), None);
    assert_eq!(try_simplify_color("#gé"), Some("#gé".to_string()));
    assert_eq!(try_simplify_color("lime"), Some("#0f0".to_string()));
}

#[test]
fn parse_style_splits_and_lowercases() {
    assert_eq!(
        parse_style("fill: Red ; STROKE:blue;;opacity:0.5"),
        pairs(&[("fill", "Red"), ("stroke", "blue"), ("opacity", "0.5")])
    );
}

#[test]
fn parse_style_keeps_tokens_whole() {
    assert_eq!(parse_style("fill:{{a:b}};x"), pairs(&[("fill", "{{a:b}}")]));
    assert_eq!(parse_style("fill:{{a;b}}"), pairs(&[("fill", "{{a;b}}")]));
}

#[test]
fn parse_style_panics_are_reported() {
    assert_eq!(try_parse_style("é:red"), Some(pairs(&[("é", "red")])));
    assert_eq!(parse_style("éa:b;c:d"), pairs(&[("éa", "b"), ("c", "d")]));
    assert_eq!(try_parse_style("fill:red"), Some(pairs(&[("fill", "red")])));
}

#[test]
fn serialize_style_sorts_stably() {
    let d = pairs(&[("stroke", "b"), ("fill", "a"), ("fill", "c")]);
    assert_eq!(serialize_style(&d), "fill:a;fill:c;stroke:b");
    assert_eq!(serialize_style(&[]), "");
}

#[test]
fn simplify_style_colors_touches_color_properties_only() {
    let mut d = pairs(&[("fill", "white"), ("opacity", "white"), ("stroke", "RED")]);
    simplify_style_colors(&mut d, true);
    assert_eq!(d, pairs(&[("fill", "#fff"), ("opacity", "white"), ("stroke", "red")]));
    let mut e = pairs(&[("fill", "white")]);
    simplify_style_colors(&mut e, false);
    assert_eq!(e, pairs(&[("fill", "white")]));
}

#[test]
fn extract_presentation_attrs_partitions() {
    let mut d = pairs(&[("fill", "red"), ("foo", "x"), ("opacity", "1"), ("bar", "y")]);
    let ex = extract_presentation_attrs(&mut d);
    assert_eq!(ex, pairs(&[("fill", "red"), ("opacity", "1")]));
    assert_eq!(d, pairs(&[("foo", "x"), ("bar", "y")]));
}

#[test]
fn default_values() {
    assert!(is_default_value("fill", "#000"));
    assert!(is_default_value("fill", "black"));
    assert!(!is_default_value("fill", "{{x}}"));
    assert!(is_default_value("stroke", "none"));
    assert!(is_default_value("pointer-events", "visiblePainted"));
    assert!(!is_default_value("stroke-width", "2"));
    assert!(!is_default_value("unknown", "x"));
}

#[test]
fn hex_form_decodes_back() {
    for &(r, g, b) in &[(0x11u8, 0x22u8, 0x33u8), (0x12, 0x22, 0x33), (0, 255, 170), (254, 1, 17)] {
        let h = rgb_to_hex(r, g, b);
        let short = r % 17 == 0 && g % 17 == 0 && b % 17 == 0;
        assert_eq!(h.len() == 4, short);
        let d: Vec<u8> = h[1..].chars().map(|c| c.to_digit(16).unwrap() as u8).collect();
        if short {
            assert_eq!((d[0] * 17, d[1] * 17, d[2] * 17), (r, g, b));
        } else {
            assert_eq!((d[0] * 16 + d[1], d[2] * 16 + d[3], d[4] * 16 + d[5]), (r, g, b));
        }
    }
}

#[test]
fn values_with_braces_come_back_unchanged() {
    for v in ["{{c}}", "#{{a}}", "#{{", "rgb({{r}},0,0)", "RGB(1,{{g}},3)", "red{{x}}", "rgb(10%,{{p}}%,0)"] {
        assert_eq!(simplify_color(v), v);
        assert_eq!(try_simplify_color(v), Some(v.to_string()));
    }
}

#[test]
fn serializing_keeps_equal_properties_in_order() {
    let d = pairs(&[("fill", "z"), ("a", "1"), ("fill", "y"), ("fill", "x")]);
    assert_eq!(serialize_style(&d), "a:1;fill:z;fill:y;fill:x");
}

#[test]
fn parse_after_serialize_gives_the_sorted_declarations() {
    let d = parse_style("Stroke: blue ; fill:red;opacity: ;FILL : a:b ; ;x:1");
    assert_eq!(
        d,
        pairs(&[("stroke", "blue"), ("fill", "red"), ("opacity", ""), ("fill", "a:b"), ("x", "1")])
    );
    let again = parse_style(&serialize_style(&d));
    assert_eq!(
        again,
        pairs(&[("fill", "red"), ("fill", "a:b"), ("opacity", ""), ("stroke", "blue"), ("x", "1")])
    );
}
