use scrubr::number_text::tidy_decimal;
use scrubr::path_clean::{remove_consecutive_moves, remove_empty_subpaths};
use scrubr::path_data::{
    arg_precision, parse_path, parse_path_letters, remove_redundant, serialize_abs, serialize_path, PathCommand,
};

fn cmd(c: char, args: &[&str]) -> PathCommand {
    PathCommand { cmd: c, args: args.iter().map(|s| s.to_string()).collect() }
}

fn shape(v: &[PathCommand]) -> Vec<(char, Vec<String>)> {
    v.iter().map(|c| (c.cmd, c.args.clone())).collect()
}

fn expect(v: &[(char, &[&str])]) -> Vec<(char, Vec<String>)> {
    v.iter().map(|(c, a)| (*c, a.iter().map(|s| s.to_string()).collect())).collect()
}

#[test]
fn tokenizes_concatenated_numbers() {
    assert_eq!(shape(&parse_path("M10 20L30,40")), expect(&[('M', &["10", "20"]), ('L', &["30", "40"])]));
    assert_eq!(shape(&parse_path("M.5.6")), expect(&[('M', &[".5", ".6"])]));
    assert_eq!(shape(&parse_path("M1e2-3")), expect(&[('M', &["1e2", "-3"])]));
    assert_eq!(shape(&parse_path("M1e-3")), expect(&[('M', &["1e-3"])]));
}

#[test]
fn repeats_moveto_as_lineto() {
    assert_eq!(
        shape(&parse_path("M1-2 3 4 5 6")),
        expect(&[('M', &["1", "-2"]), ('M', &["3", "4"]), ('M', &["5", "6"])])
    );
    assert_eq!(
        shape(&parse_path("m1 2 z 3 4")),
        expect(&[('m', &["1", "2"]), ('z', &[])])
    );
}

#[test]
fn reads_arc_flags_as_single_digits() {
    assert_eq!(
        shape(&parse_path("a1 1 0 012 3")),
        expect(&[('a', &["1", "1", "0", "0", "1", "2", "3"])])
    );
}

#[test]
fn stops_at_text_that_is_no_number() {
    assert_eq!(shape(&parse_path("1 2")), expect(&[]));
    assert_eq!(shape(&parse_path("M1 2 x 3")), expect(&[('M', &["1", "2"])]));
    assert_eq!(shape(&parse_path("")), expect(&[]));
}

#[test]
fn drops_redundant_commands() {
    let v = vec![cmd('M', &["0", "0"]), cmd('L', &["1", "1"]), cmd('Z', &[]), cmd('z', &[])];
    assert_eq!(shape(&remove_redundant(v)), expect(&[('M', &["0", "0"]), ('L', &["1", "1"]), ('Z', &[])]));
    let w = vec![cmd('M', &["0", "0"]), cmd('L', &["1", "1"]), cmd('M', &["5", "5"]), cmd('Z', &[])];
    assert_eq!(shape(&remove_redundant(w)), expect(&[('M', &["0", "0"]), ('L', &["1", "1"])]));
}

#[test]
fn writes_compactly() {
    let v = vec![cmd('M', &["1", "2"]), cmd('L', &["3", "4"]), cmd('L', &["5", "-6"]), cmd('Z', &[])];
    assert_eq!(serialize_path(&v), "M 1 2 L 3 4 5-6Z");
    let a = vec![cmd('A', &["5", "5", "0", "1", "0", "-10", "10"])];
    assert_eq!(serialize_path(&a), "A 5 5 010-10 10");
    let l = vec![cmd('L', &["1", "1"]), cmd('L', &["-1", "2"])];
    assert_eq!(serialize_path(&l), "L 1 1-1 2");
}

#[test]
fn control_points_use_their_own_precision() {
    assert_eq!(arg_precision('C', 0, 6, 5, 3), 3);
    assert_eq!(arg_precision('C', 3, 6, 5, 3), 3);
    assert_eq!(arg_precision('C', 4, 6, 5, 3), 5);
    assert_eq!(arg_precision('q', 1, 4, 5, 3), 3);
    assert_eq!(arg_precision('L', 0, 2, 5, 3), 5);
    assert_eq!(arg_precision('S', 0, 1, 5, 3), 5);
}

#[test]
fn simplification_reads_movetos_as_linetos_after_the_first() {
    assert_eq!(
        shape(&parse_path_letters("M1 2 3 4 z 5 6")),
        expect(&[('M', &["1", "2"]), ('L', &["3", "4"]), ('z', &[])])
    );
    assert_eq!(shape(&parse_path_letters("m1 2 3 4")), expect(&[('m', &["1", "2"]), ('l', &["3", "4"])]));
    assert_eq!(shape(&parse_path_letters("M0 0 L1")), expect(&[('M', &["0", "0"])]));
}

#[test]
fn consecutive_moves_keep_the_last() {
    assert_eq!(remove_consecutive_moves(&['M', 'M', 'M', 'L', 'M', 'Z']), vec![2, 3, 4, 5]);
    assert_eq!(remove_consecutive_moves(&['M', 'L', 'M', 'M']), vec![0, 1, 3]);
    assert_eq!(remove_consecutive_moves(&[]), Vec::<usize>::new());
}

#[test]
fn empty_subpaths_are_dropped() {
    assert_eq!(remove_empty_subpaths(&['M', 'Z', 'M', 'L', 'Z']), vec![2, 3, 4]);
    assert_eq!(remove_empty_subpaths(&['M', 'M', 'Z', 'Z']), vec![0, 3]);
    assert_eq!(remove_empty_subpaths(&['L', 'M']), vec![0, 1]);
}

#[test]
fn decimal_text_is_compacted() {
    assert_eq!(tidy_decimal("1.5000000000"), "1.5");
    assert_eq!(tidy_decimal("-0.2500000000"), "-.25");
    assert_eq!(tidy_decimal("0.1250000000"), ".125");
    assert_eq!(tidy_decimal("12.0000000000"), "12");
    assert_eq!(tidy_decimal("-0.0000000000"), "-0");
}

#[test]
fn absolute_commands_space_every_first_argument() {
    let cmds = vec![
        cmd('M', &["10", "20"]),
        cmd('L', &["-5", "3"]),
        cmd('L', &["-2", "4"]),
        cmd('Z', &[]),
    ];
    assert_eq!(serialize_abs(&cmds), "M 10 20 L -5 3 -2 4Z");
    assert_eq!(serialize_path(&cmds), "M 10 20 L -5 3-2 4Z");
    let arc = vec![cmd('A', &["5", "5", "0", "1", "0", "-3", "4"])];
    assert_eq!(serialize_abs(&arc), "A 5 5 010-3 4");
}
