use scrubr::subst::{
    context_for_attr, context_for_css_prop, neutral_value, protect_subst_vars, restore_subst_vars,
    value_has_subst, SubstContext,
};

fn round_trip(input: &str) -> String {
    let (protected, vars) = protect_subst_vars(input);
    // Verify the protected string contains no {{ }}
    assert!(!protected.contains("{{"), "protected still contains {{");
    // Verify it contains no null bytes
    assert!(!protected.contains('\x00'), "protected contains null byte");
    restore_subst_vars(&protected, &vars)
}

#[test]
fn test_color_attr() {
    let svg = r#"<rect fill="{{primary-color}}" />"#;
    assert_eq!(round_trip(svg), svg);
}

#[test]
fn test_path_attr() {
    let svg = r#"<path d="{{path-data}}" />"#;
    assert_eq!(round_trip(svg), svg);
}

#[test]
fn test_number_attr() {
    let svg = r#"<circle cx="{{cx}}" cy="10" />"#;
    assert_eq!(round_trip(svg), svg);
}

#[test]
fn test_text_content() {
    let svg = r#"<text>{{label}}</text>"#;
    assert_eq!(round_trip(svg), svg);
}

#[test]
fn test_multiple_vars() {
    let svg = r#"<rect fill="{{bg}}" stroke="{{border}}" width="{{w}}" />"#;
    assert_eq!(round_trip(svg), svg);
}

#[test]
fn test_no_vars() {
    let svg = r#"<rect fill="red" />"#;
    assert_eq!(round_trip(svg), svg);
}

#[test]
fn test_style_attr() {
    let svg = r#"<rect style="fill:{{color}};opacity:{{opacity}}" />"#;
    assert_eq!(round_trip(svg), svg);
}

#[test]
fn test_sentinel_collision_avoidance() {
    // Document already contains __S0__ — should use __S1__
    let svg = r#"<rect id="__S0__test" fill="{{color}}" />"#;
    let (protected, vars) = protect_subst_vars(svg);
    assert!(!protected.contains("{{"));
    // __S1__ should be used
    assert!(protected.contains("__S1__"));
    assert_eq!(restore_subst_vars(&protected, &vars), svg);
}

#[test]
fn test_protected_is_valid_xml() {
    let svg = r#"<?xml version="1.0"?><svg xmlns="http://www.w3.org/2000/svg"><rect fill="{{color}}" width="{{w}}" height="{{h}}"/></svg>"#;
    let (protected, vars) = protect_subst_vars(svg);
    // Must parse without error
    roxmltree::Document::parse(&protected).expect("protected SVG must be valid XML");
    assert_eq!(restore_subst_vars(&protected, &vars), svg);
}

#[test]
fn test_invalid_inner_not_replaced() {
    // Spaces inside braces are not valid — must pass through unchanged
    let svg = r#"<rect fill="{{ not a var }}" />"#;
    let (protected, vars) = protect_subst_vars(svg);
    assert!(vars.is_empty());
    assert_eq!(protected, svg);
}

#[test]
fn protected_text_has_exact_placeholders() {
    let (protected, vars) = protect_subst_vars(r#"<rect fill="{{c}}" width="{{w}}"/>"#);
    assert_eq!(
        protected,
        r##"<rect fill="#000__S0__VAR0__S0__END" width="0__S0__VAR1__S0__END"/>"##
    );
    assert_eq!(vars.len(), 2);
    assert_eq!(vars[0].original, "{{c}}");
    assert_eq!(vars[0].placeholder, "__S0__VAR0__S0__END");
    assert_eq!(vars[0].neutral, "#000");
    assert_eq!(vars[1].neutral, "0");
}

#[test]
fn context_of_each_location() {
    let (p, vars) = protect_subst_vars(
        r#"<path d="{{a}}" transform="{{b}}" id="{{c}}" style="{{d}}" class="{{e}}">{{f}}</path>"#,
    );
    let neutrals: Vec<&str> = vars.iter().map(|v| v.neutral.as_str()).collect();
    assert_eq!(neutrals, vec!["M0 0", "translate(0)", "scrubr-ph", "inherit", "0", "0"]);
    assert!(p.contains("scrubr-ph__S0__VAR2__S0__END"));
}

#[test]
fn tokens_in_comments_and_cdata_are_generic() {
    let (_, vars) = protect_subst_vars("<!-- {{a}} --><s><![CDATA[{{b}}]]></s>");
    assert_eq!(vars.len(), 2);
    assert_eq!(vars[0].neutral, "0");
    assert_eq!(vars[1].neutral, "0");
}

#[test]
fn unclosed_token_is_copied() {
    let svg = "<rect fill=\"{{abc\" />";
    let (protected, vars) = protect_subst_vars(svg);
    assert!(vars.is_empty());
    assert_eq!(protected, svg);
}

#[test]
fn restore_with_no_vars_is_identity() {
    assert_eq!(restore_subst_vars("abc", &[]), "abc");
}

#[test]
fn value_has_subst_finds_placeholders() {
    let (_, vars) = protect_subst_vars(r#"<rect fill="{{c}}"/>"#);
    assert!(value_has_subst("#000__S0__VAR0__S0__END", &vars));
    assert!(!value_has_subst("#000", &vars));
    assert!(!value_has_subst("#000__S0__VAR0__S0__END", &[]));
}

#[test]
fn neutral_values_per_context() {
    assert_eq!(neutral_value(&SubstContext::Color), "#000");
    assert_eq!(neutral_value(&SubstContext::Path), "M0 0");
    assert_eq!(neutral_value(&SubstContext::Transform), "translate(0)");
    assert_eq!(neutral_value(&SubstContext::Number), "0");
    assert_eq!(neutral_value(&SubstContext::Id), "scrubr-ph");
    assert_eq!(neutral_value(&SubstContext::StyleValue), "inherit");
    assert_eq!(neutral_value(&SubstContext::TextContent), "0");
    assert_eq!(neutral_value(&SubstContext::Generic), "0");
}

#[test]
fn attribute_and_property_contexts() {
    assert_eq!(context_for_attr("FILL"), SubstContext::Color);
    assert_eq!(context_for_attr("d"), SubstContext::Path);
    assert_eq!(context_for_attr("gradientTransform"), SubstContext::Transform);
    assert_eq!(context_for_attr("viewBox"), SubstContext::Number);
    assert_eq!(context_for_attr("xlink:href"), SubstContext::Id);
    assert_eq!(context_for_attr("style"), SubstContext::StyleValue);
    assert_eq!(context_for_attr("class"), SubstContext::Generic);
    assert_eq!(context_for_css_prop("stroke"), SubstContext::Color);
    assert_eq!(context_for_css_prop("Fill-Opacity"), SubstContext::Number);
    assert_eq!(context_for_css_prop("font-size"), SubstContext::Number);
    assert_eq!(context_for_css_prop("display"), SubstContext::StyleValue);
}

#[test]
fn round_trip_law_on_a_template() {
    let svg = "<svg><g id=\"{{gid}}\"><text x=\"{{x}}\">Hi {{name}}!</text><!-- {{note}} --></g></svg>";
    assert_eq!(round_trip(svg), svg);
}

#[test]
fn placeholders_end_with_end_and_round_trip() {
    let svg = r#"<rect id="__S0__test" fill="{{color}}" />"#;
    let (_, vars) = protect_subst_vars(svg);
    assert_eq!(vars[0].placeholder, "__S1__VAR0__S1__END");
    let (p, v) = protect_subst_vars(r#"<rect fill="{{primary-color}}" />"#);
    assert_eq!(p, r##"<rect fill="#000__S0__VAR0__S0__END" />"##);
    assert_eq!(v[0].placeholder, "__S0__VAR0__S0__END");
    assert_eq!(protect_subst_vars("<text>{{label}}</text>").0, "<text>0__S0__VAR0__S0__END</text>");
    for input in ["<text>{{a}}VAR1__S{{b}}</text>", "<text>{{a}}S0__VAR1__S{{b}}</text>", "VAR {{a}}VAR"] {
        let (p, v) = protect_subst_vars(input);
        assert_eq!(restore_subst_vars(&p, &v), input);
    }
}

#[test]
fn text_without_open_braces_is_not_touched() {
    for s in ["", "<svg/>", "a } b {", "{ {x}}", "}}{"] {
        let (p, vars) = protect_subst_vars(s);
        assert_eq!(p, s);
        assert!(vars.is_empty());
    }
}
