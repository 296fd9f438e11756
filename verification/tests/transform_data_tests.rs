use scrubr::transform_data::parse_transforms;

fn expect(v: &[(&str, &[&str])]) -> Vec<(String, Vec<String>)> {
    v.iter().map(|(n, a)| (n.to_string(), a.iter().map(|s| s.to_string()).collect())).collect()
}

#[test]
fn splits_functions_and_arguments() {
    assert_eq!(
        parse_transforms("translate(10, 20) scale(2)"),
        expect(&[("translate", &["10", "20"]), ("scale", &["2"])])
    );
    assert_eq!(
        parse_transforms(" ROTATE(45) , matrix(1 0 0 1 5 5)"),
        expect(&[("rotate", &["45"]), ("matrix", &["1", "0", "0", "1", "5", "5"])])
    );
}

#[test]
fn keeps_only_numeric_arguments() {
    assert_eq!(parse_transforms("scale(a, 2)"), expect(&[("scale", &["2"])]));
    assert_eq!(parse_transforms("translate(1e2,-.5)"), expect(&[("translate", &["1e2", "-.5"])]));
}

#[test]
fn stops_at_an_unclosed_function() {
    assert_eq!(parse_transforms("translate(1"), expect(&[]));
    assert_eq!(parse_transforms("scale(2) translate(1"), expect(&[("scale", &["2"])]));
    assert_eq!(parse_transforms("  "), expect(&[]));
    assert_eq!(parse_transforms("none"), expect(&[]));
}
