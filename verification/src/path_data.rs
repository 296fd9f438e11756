//! Path data (`d`) as text: splitting it into commands with their numbers,
//! dropping redundant commands, and writing commands back compactly.
//!
//! Numbers stay text here: the tokenizer hands out each number as written
//! (arc flags as `0` or `1`), and the writer takes each number already
//! formatted. Rounding them is floating-point work done by the caller.
use vstd::prelude::*;
use crate::optimizer::is_f64_literal;
use crate::text::{append, chars_of, is_digit, is_whitespace, is_ws, slice_vec, string_of};

verus! {

// ─── Commands ─────────────────────────────────────────────────────────────────

/// A path command with its arguments as text.
#[derive(Debug, Clone)]
pub struct PathCommand {
    pub cmd: char,
    pub args: Vec<String>,
}

pub struct CmdView {
    pub cmd: char,
    pub args: Seq<Seq<char>>,
}

pub open spec fn strings_view(v: Seq<String>) -> Seq<Seq<char>> {
    v.map_values(|s: String| s@)
}

impl View for PathCommand {
    type V = CmdView;

    open spec fn view(&self) -> CmdView {
        CmdView { cmd: self.cmd, args: strings_view(self.args@) }
    }
}

pub open spec fn cmds_view(v: Seq<PathCommand>) -> Seq<CmdView> {
    v.map_values(|c: PathCommand| c@)
}

pub open spec fn is_path_cmd(c: char) -> bool {
    c == 'M' || c == 'm' || c == 'Z' || c == 'z' || c == 'L' || c == 'l' || c == 'H' || c == 'h' || c
        == 'V' || c == 'v' || c == 'C' || c == 'c' || c == 'S' || c == 's' || c == 'Q' || c == 'q' || c
        == 'T' || c == 't' || c == 'A' || c == 'a'
}

/// How many numbers one use of a command takes.
pub open spec fn arity(c: char) -> nat {
    if c == 'M' || c == 'm' || c == 'L' || c == 'l' || c == 'T' || c == 't' {
        2
    } else if c == 'H' || c == 'h' || c == 'V' || c == 'v' {
        1
    } else if c == 'S' || c == 's' || c == 'Q' || c == 'q' {
        4
    } else if c == 'C' || c == 'c' {
        6
    } else if c == 'A' || c == 'a' {
        7
    } else {
        0
    }
}

/// The command that numbers after a command without a new letter repeat:
/// a lineto after a moveto.
pub open spec fn implicit_cmd(c: char) -> char {
    if c == 'M' {
        'L'
    } else if c == 'm' {
        'l'
    } else {
        c
    }
}

pub open spec fn is_arc(c: char) -> bool {
    c == 'A' || c == 'a'
}

pub open spec fn is_close(c: char) -> bool {
    c == 'Z' || c == 'z'
}

pub open spec fn is_move(c: char) -> bool {
    c == 'M' || c == 'm'
}

// ─── Tokenizing ───────────────────────────────────────────────────────────────

/// The first position from `i` on that is no whitespace or comma.
pub open spec fn skip_sep(s: Seq<char>, i: int) -> int
    decreases s.len() - i,
{
    if 0 <= i < s.len() && (is_ws(s[i]) || s[i] == ',') {
        skip_sep(s, i + 1)
    } else {
        i
    }
}

pub open spec fn digits_end(s: Seq<char>, i: int) -> int
    decreases s.len() - i,
{
    if 0 <= i < s.len() && is_digit(s[i]) {
        digits_end(s, i + 1)
    } else {
        i
    }
}

/// Where the number starting at `i` ends: an optional sign, digits with an
/// optional fraction (at least one digit in all), and an exponent when
/// digits follow its `e`. `None` when no number starts there.
pub open spec fn number_end(s: Seq<char>, i: int) -> Option<int> {
    let a = if 0 <= i < s.len() && (s[i] == '+' || s[i] == '-') {
        i + 1
    } else {
        i
    };
    let b = digits_end(s, a);
    let c = if 0 <= b < s.len() && s[b] == '.' {
        digits_end(s, b + 1)
    } else {
        b
    };
    let has_digits = b > a || c > b + 1;
    if !has_digits {
        None
    } else if 0 <= c < s.len() && (s[c] == 'e' || s[c] == 'E') {
        let d0 = if c + 1 < s.len() && (s[c + 1] == '+' || s[c + 1] == '-') {
            c + 2
        } else {
            c + 1
        };
        let d = digits_end(s, d0);
        if d > d0 {
            Some(d)
        } else {
            Some(c)
        }
    } else {
        Some(c)
    }
}

/// Up to `arity` arguments of `cmd` from position `i`: the texts read and
/// where reading stopped. Arc flags are single `0`/`1` characters.
pub open spec fn read_args_from(
    s: Seq<char>,
    i: int,
    cmd: char,
    arity: nat,
    idx: nat,
    acc: Seq<Seq<char>>,
) -> (Seq<Seq<char>>, int)
    decreases arity - idx,
{
    if idx >= arity {
        (acc, i)
    } else {
        let j = skip_sep(s, i);
        if j >= s.len() {
            (acc, j)
        } else if is_arc(cmd) && (idx == 3 || idx == 4) && (s[j] == '0' || s[j] == '1') {
            read_args_from(s, j + 1, cmd, arity, idx + 1, acc.push(seq![s[j]]))
        } else {
            match number_end(s, j) {
                Some(e) => read_args_from(s, e, cmd, arity, idx + 1, acc.push(s.subrange(j, e))),
                None => (acc, j),
            }
        }
    }
}

pub open spec fn read_args(s: Seq<char>, i: int, cmd: char) -> (Seq<Seq<char>>, int) {
    read_args_from(s, i, cmd, arity(cmd), 0, seq![])
}

pub proof fn lemma_skip_sep(s: Seq<char>, i: int)
    requires
        0 <= i <= s.len(),
    ensures
        i <= skip_sep(s, i) <= s.len(),
    decreases s.len() - i,
{
    if i < s.len() && (is_ws(s[i]) || s[i] == ',') {
        lemma_skip_sep(s, i + 1);
    }
}

pub proof fn lemma_digits_end(s: Seq<char>, i: int)
    requires
        0 <= i <= s.len(),
    ensures
        i <= digits_end(s, i) <= s.len(),
    decreases s.len() - i,
{
    if i < s.len() && is_digit(s[i]) {
        lemma_digits_end(s, i + 1);
    }
}

pub proof fn lemma_number_end(s: Seq<char>, i: int)
    requires
        0 <= i < s.len(),
    ensures
        number_end(s, i) matches Some(e) ==> i < e <= s.len(),
{
    let a = if s[i] == '+' || s[i] == '-' {
        i + 1
    } else {
        i
    };
    lemma_digits_end(s, a);
    let b = digits_end(s, a);
    if b < s.len() && s[b] == '.' {
        lemma_digits_end(s, b + 1);
    }
    let c = if 0 <= b < s.len() && s[b] == '.' {
        digits_end(s, b + 1)
    } else {
        b
    };
    if c < s.len() && (s[c] == 'e' || s[c] == 'E') {
        let d0 = if c + 1 < s.len() && (s[c + 1] == '+' || s[c + 1] == '-') {
            c + 2
        } else {
            c + 1
        };
        lemma_digits_end(s, d0);
    }
}

pub proof fn lemma_read_args(s: Seq<char>, i: int, cmd: char, arity: nat, idx: nat, acc: Seq<Seq<char>>)
    requires
        0 <= i <= s.len(),
    ensures
        ({
            let r = read_args_from(s, i, cmd, arity, idx, acc);
            &&& i <= r.1 <= s.len()
            &&& r.0.len() >= acc.len()
            &&& r.0.len() > acc.len() ==> r.1 > i
        }),
    decreases arity - idx,
{
    if idx < arity {
        lemma_skip_sep(s, i);
        let j = skip_sep(s, i);
        if j < s.len() {
            if is_arc(cmd) && (idx == 3 || idx == 4) && (s[j] == '0' || s[j] == '1') {
                lemma_read_args(s, j + 1, cmd, arity, idx + 1, acc.push(seq![s[j]]));
            } else {
                lemma_number_end(s, j);
                match number_end(s, j) {
                    Some(e) => {
                        lemma_read_args(s, e, cmd, arity, idx + 1, acc.push(s.subrange(j, e)));
                    },
                    None => {},
                }
            }
        }
    }
}

/// The commands of path data from position `i`: `current` is the last
/// command letter seen, and `group` the explicit command whose argument
/// groups are being read.
pub open spec fn parse_from(
    s: Seq<char>,
    i: int,
    current: Option<char>,
    group: Option<char>,
    acc: Seq<CmdView>,
) -> Seq<CmdView>
    decreases (2 * (s.len() - i) + (if group is Some {
        1int
    } else {
        0int
    })) as nat,
{
    if i < 0 || i > s.len() {
        acc
    } else {
        proof {
            lemma_skip_sep(s, i);
        }
        let j = skip_sep(s, i);
        match group {
            Some(c) => if j >= s.len() || is_path_cmd(s[j]) {
                parse_from(s, j, current, None, acc)
            } else {
                proof {
                    lemma_read_args(s, j, c, arity(c), 0, seq![]);
                }
                let r = read_args(s, j, c);
                if r.0.len() == 0 {
                    parse_from(s, r.1, current, None, acc)
                } else {
                    parse_from(s, r.1, current, Some(c), acc.push(CmdView { cmd: c, args: r.0 }))
                }
            },
            None => if j >= s.len() {
                acc
            } else {
                let c = s[j];
                if is_path_cmd(c) {
                    if arity(c) == 0 {
                        parse_from(s, j + 1, Some(c), None, acc.push(CmdView { cmd: c, args: Seq::<Seq<char>>::empty() }))
                    } else {
                        parse_from(s, j + 1, Some(c), Some(c), acc)
                    }
                } else {
                    match current {
                        Some(cur) => {
                            let imp = implicit_cmd(cur);
                            if arity(imp) == 0 {
                                parse_from(s, j + 1, current, None, acc)
                            } else {
                                proof {
                                    lemma_read_args(s, j, imp, arity(imp), 0, seq![]);
                                }
                                let r = read_args(s, j, imp);
                                if r.0.len() == 0 {
                                    acc
                                } else {
                                    parse_from(s, r.1, current, None, acc.push(CmdView { cmd: imp, args: r.0 }))
                                }
                            }
                        },
                        None => parse_from(s, j + 1, None, None, acc),
                    }
                }
            },
        }
    }
}

/// The commands of path data.
pub open spec fn parse_path_spec(d: Seq<char>) -> Seq<CmdView> {
    parse_from(d, 0, None, None, seq![])
}

fn is_path_cmd_exec(c: char) -> (b: bool)
    ensures
        b == is_path_cmd(c),
{
    c == 'M' || c == 'm' || c == 'Z' || c == 'z' || c == 'L' || c == 'l' || c == 'H' || c == 'h' || c
        == 'V' || c == 'v' || c == 'C' || c == 'c' || c == 'S' || c == 's' || c == 'Q' || c == 'q' || c
        == 'T' || c == 't' || c == 'A' || c == 'a'
}

fn arity_exec(c: char) -> (n: usize)
    ensures
        n == arity(c),
{
    if c == 'M' || c == 'm' || c == 'L' || c == 'l' || c == 'T' || c == 't' {
        2
    } else if c == 'H' || c == 'h' || c == 'V' || c == 'v' {
        1
    } else if c == 'S' || c == 's' || c == 'Q' || c == 'q' {
        4
    } else if c == 'C' || c == 'c' {
        6
    } else if c == 'A' || c == 'a' {
        7
    } else {
        0
    }
}

fn skip_sep_exec(s: &Vec<char>, i: usize) -> (j: usize)
    requires
        i <= s.len(),
    ensures
        j == skip_sep(s@, i as int),
        i <= j <= s.len(),
{
    let mut j = i;
    while j < s.len() && (is_whitespace(s[j]) || s[j] == ',')
        invariant
            i <= j <= s.len(),
            skip_sep(s@, i as int) == skip_sep(s@, j as int),
        decreases s.len() - j,
    {
        j += 1;
    }
    j
}

fn digits_end_exec(s: &Vec<char>, i: usize) -> (j: usize)
    requires
        i <= s.len(),
    ensures
        j == digits_end(s@, i as int),
        i <= j <= s.len(),
{
    let mut j = i;
    while j < s.len() && '0' <= s[j] && s[j] <= '9'
        invariant
            i <= j <= s.len(),
            digits_end(s@, i as int) == digits_end(s@, j as int),
        decreases s.len() - j,
    {
        j += 1;
    }
    j
}

fn number_end_exec(s: &Vec<char>, i: usize) -> (r: Option<usize>)
    requires
        i < s.len(),
    ensures
        match r {
            Some(e) => number_end(s@, i as int) == Some(e as int),
            None => number_end(s@, i as int) is None,
        },
{
    let a = if s[i] == '+' || s[i] == '-' {
        i + 1
    } else {
        i
    };
    let b = digits_end_exec(s, a);
    let c = if b < s.len() && s[b] == '.' {
        digits_end_exec(s, b + 1)
    } else {
        b
    };
    if !(b > a || (c > b && c - b > 1)) {
        return None;
    }
    if c < s.len() && (s[c] == 'e' || s[c] == 'E') {
        let d0 = if c + 1 < s.len() && (s[c + 1] == '+' || s[c + 1] == '-') {
            c + 2
        } else {
            c + 1
        };
        let d = digits_end_exec(s, d0);
        if d > d0 {
            Some(d)
        } else {
            Some(c)
        }
    } else {
        Some(c)
    }
}

fn read_args_exec(s: &Vec<char>, i: usize, cmd: char) -> (r: (Vec<String>, usize))
    requires
        i <= s.len(),
    ensures
        (strings_view(r.0@), r.1 as int) == read_args(s@, i as int, cmd),
        r.1 <= s.len(),
{
    let n = arity_exec(cmd);
    let mut args: Vec<String> = Vec::new();
    let mut k = i;
    let mut idx: usize = 0;
    assert(strings_view(args@) =~= Seq::<Seq<char>>::empty());
    while idx < n
        invariant_except_break
            read_args(s@, i as int, cmd) == read_args_from(s@, k as int, cmd, n as nat, idx as nat, strings_view(args@)),
        invariant
            idx <= n,
            n == arity(cmd),
            k <= s.len(),
        ensures
            read_args(s@, i as int, cmd) == (strings_view(args@), k as int),
            k <= s.len(),
        decreases n - idx,
    {
        let j = skip_sep_exec(s, k);
        if j >= s.len() {
            k = j;
            break;
        }
        let ghost a0 = strings_view(args@);
        if (cmd == 'A' || cmd == 'a') && (idx == 3 || idx == 4) && (s[j] == '0' || s[j] == '1') {
            let mut t: Vec<char> = Vec::new();
            t.push(s[j]);
            args.push(string_of(&t));
            assert(strings_view(args@) =~= a0.push(seq![s@[j as int]]));
            k = j + 1;
        } else {
            match number_end_exec(s, j) {
                Some(e) => {
                    proof {
                        lemma_number_end(s@, j as int);
                    }
                    let t = slice_vec(s, j, e);
                    args.push(string_of(&t));
                    assert(strings_view(args@) =~= a0.push(s@.subrange(j as int, e as int)));
                    k = e;
                },
                None => {
                    k = j;
                    break;
                },
            }
        }
        idx += 1;
    }
    (args, k)
}

fn implicit_cmd_exec(c: char) -> (r: char)
    ensures
        r == implicit_cmd(c),
{
    if c == 'M' {
        'L'
    } else if c == 'm' {
        'l'
    } else {
        c
    }
}

fn push_cmd(acc: &mut Vec<PathCommand>, cmd: PathCommand)
    ensures
        cmds_view(final(acc)@) == cmds_view(old(acc)@).push(cmd@),
{
    let ghost a0 = cmds_view(acc@);
    let ghost cv = cmd@;
    acc.push(cmd);
    assert(cmds_view(acc@) =~= a0.push(cv));
}

fn empty_cmd(c: char) -> (r: PathCommand)
    ensures
        r@ == (CmdView { cmd: c, args: Seq::<Seq<char>>::empty() }),
{
    let r = PathCommand { cmd: c, args: Vec::new() };
    assert(r@.args =~= Seq::<Seq<char>>::empty());
    r
}

/// Split path data into commands with their numbers as text. Numbers after
/// a command without a new letter repeat it (a lineto after a moveto);
/// reading stops at the first text that is no number where one is due.
pub fn parse_path(d: &str) -> (r: Vec<PathCommand>)
    ensures
        cmds_view(r@) == parse_path_spec(d@),
        cmds_numbers(cmds_view(r@)),
{
    proof {
        lemma_path_numbers_parse(d@);
    }
    let s = chars_of(d);
    let ghost sv = s@;
    let mut i: usize = 0;
    let mut current: Option<char> = None;
    let mut group: Option<char> = None;
    let mut acc: Vec<PathCommand> = Vec::new();
    assert(cmds_view(acc@) =~= Seq::<CmdView>::empty());
    loop
        invariant_except_break
            parse_path_spec(sv) == parse_from(sv, i as int, current, group, cmds_view(acc@)),
        invariant
            i <= s.len(),
            sv == s@,
            sv == d@,
        ensures
            parse_path_spec(sv) == cmds_view(acc@),
        decreases 2 * (s.len() - i) + (if group is Some {
            1int
        } else {
            0int
        }),
    {
        let j = skip_sep_exec(&s, i);
        let ghost a0 = cmds_view(acc@);
        match group {
            Some(c) => {
                if j >= s.len() || is_path_cmd_exec(s[j]) {
                    i = j;
                    group = None;
                } else {
                    proof {
                        lemma_read_args(sv, j as int, c, arity(c), 0, seq![]);
                    }
                    let (args, e) = read_args_exec(&s, j, c);
                    if args.len() == 0 {
                        i = e;
                        group = None;
                    } else {
                        push_cmd(&mut acc, PathCommand { cmd: c, args });
                        i = e;
                    }
                }
            },
            None => {
                if j >= s.len() {
                    break;
                }
                let c = s[j];
                if is_path_cmd_exec(c) {
                    current = Some(c);
                    if arity_exec(c) == 0 {
                        push_cmd(&mut acc, empty_cmd(c));
                    } else {
                        group = Some(c);
                    }
                    i = j + 1;
                } else {
                    match current {
                        Some(cur) => {
                            let imp = implicit_cmd_exec(cur);
                            if arity_exec(imp) == 0 {
                                i = j + 1;
                            } else {
                                proof {
                                    lemma_read_args(sv, j as int, imp, arity(imp), 0, seq![]);
                                }
                                let (args, e) = read_args_exec(&s, j, imp);
                                if args.len() == 0 {
                                    break;
                                }
                                push_cmd(&mut acc, PathCommand { cmd: imp, args });
                                i = e;
                            }
                        },
                        None => {
                            i = j + 1;
                        },
                    }
                }
            },
        }
    }
    acc
}

// ─── Redundant commands ───────────────────────────────────────────────────────

/// The commands with every close that follows a close dropped.
pub open spec fn drop_repeated_closes(cmds: Seq<CmdView>) -> Seq<CmdView>
    decreases cmds.len(),
{
    if cmds.len() == 0 {
        seq![]
    } else {
        let out = drop_repeated_closes(cmds.drop_last());
        if is_close(cmds.last().cmd) && out.len() > 0 && is_close(out.last().cmd) {
            out
        } else {
            out.push(cmds.last())
        }
    }
}

/// Repeated closes dropped, and a final moveto followed only by a close
/// removed with it.
pub open spec fn remove_redundant_spec(cmds: Seq<CmdView>) -> Seq<CmdView> {
    let out = drop_repeated_closes(cmds);
    if out.len() >= 2 && is_close(out.last().cmd) && is_move(out[out.len() - 2].cmd) {
        out.take(out.len() - 2)
    } else {
        out
    }
}

fn copy_cmd(c: &PathCommand) -> (r: PathCommand)
    ensures
        r@ == c@,
{
    let mut args: Vec<String> = Vec::new();
    let mut i: usize = 0;
    while i < c.args.len()
        invariant
            i <= c.args.len(),
            strings_view(args@) == strings_view(c.args@).take(i as int),
        decreases c.args.len() - i,
    {
        let ghost a0 = strings_view(args@);
        args.push(string_of(&chars_of(c.args[i].as_str())));
        assert(strings_view(args@) =~= a0.push(strings_view(c.args@)[i as int]));
        assert(strings_view(c.args@).take(i + 1) =~= strings_view(c.args@).take(i as int).push(strings_view(c.args@)[i as int]));
        i += 1;
    }
    assert(strings_view(c.args@).take(i as int) =~= strings_view(c.args@));
    PathCommand { cmd: c.cmd, args }
}

/// Drop repeated closes and a trailing moveto that only closes.
pub fn remove_redundant(cmds: Vec<PathCommand>) -> (r: Vec<PathCommand>)
    ensures
        cmds_view(r@) == remove_redundant_spec(cmds_view(cmds@)),
{
    let ghost cv = cmds_view(cmds@);
    let mut out: Vec<PathCommand> = Vec::new();
    let mut i: usize = 0;
    assert(cv.take(0) =~= Seq::<CmdView>::empty());
    assert(cmds_view(out@) =~= Seq::<CmdView>::empty());
    while i < cmds.len()
        invariant
            i <= cmds.len(),
            cv == cmds_view(cmds@),
            cmds_view(out@) == drop_repeated_closes(cv.take(i as int)),
        decreases cmds.len() - i,
    {
        assert(cv.take(i + 1).drop_last() =~= cv.take(i as int));
        assert(cv.take(i + 1).last() == cv[i as int]);
        let c = cmds[i].cmd;
        let skip = (c == 'Z' || c == 'z') && out.len() > 0 && (out[out.len() - 1].cmd == 'Z' || out[out.len()
            - 1].cmd == 'z');
        if !skip {
            let ghost o0 = cmds_view(out@);
            let item = copy_cmd(&cmds[i]);
            out.push(item);
            assert(cmds_view(out@) =~= o0.push(cv[i as int]));
        }
        i += 1;
    }
    assert(cv.take(i as int) =~= cv);
    let n = out.len();
    if n >= 2 && (out[n - 1].cmd == 'Z' || out[n - 1].cmd == 'z') && (out[n - 2].cmd == 'M' || out[n - 2].cmd
        == 'm') {
        let ghost o0 = cmds_view(out@);
        out.pop();
        out.pop();
        assert(cmds_view(out@) =~= o0.take(o0.len() - 2));
    }
    out
}

// ─── Writing ──────────────────────────────────────────────────────────────────

pub open spec fn starts_minus(a: Seq<char>) -> bool {
    a.len() > 0 && a[0] == '-'
}

/// What goes before the argument at `idx`: a space, except before a number
/// that starts with `-` (not the first of a command's first use) and before
/// an arc flag.
pub open spec fn arg_sep(idx: int, a: Seq<char>, repeat: bool, arc: bool) -> Seq<char> {
    if idx == 0 {
        if repeat && starts_minus(a) {
            seq![]
        } else {
            seq![' ']
        }
    } else if arc && (idx == 3 || idx == 4) {
        seq![]
    } else if starts_minus(a) {
        seq![]
    } else {
        seq![' ']
    }
}

pub open spec fn args_out(args: Seq<Seq<char>>, repeat: bool, arc: bool) -> Seq<char>
    decreases args.len(),
{
    if args.len() == 0 {
        seq![]
    } else {
        args_out(args.drop_last(), repeat, arc) + arg_sep(args.len() - 1, args.last(), repeat, arc) + args.last()
    }
}

/// The text of the commands from `k` on, after `out`, the last letter
/// written being `last`: a close is its letter; another command writes its
/// letter only when it differs from the last one, then its arguments. With
/// `space_first`, the first argument of a repeated command is always set off
/// by a space.
pub open spec fn ser_path_from(
    cmds: Seq<CmdView>,
    k: int,
    out: Seq<char>,
    last: Option<char>,
    space_first: bool,
) -> Seq<char>
    decreases cmds.len() - k,
{
    if k < 0 || k >= cmds.len() {
        out
    } else {
        let c = cmds[k].cmd;
        if is_close(c) {
            ser_path_from(cmds, k + 1, out.push(c), Some(c), space_first)
        } else {
            let repeat = last == Some(c);
            let head = if repeat {
                out
            } else {
                (if out.len() > 0 {
                    out.push(' ')
                } else {
                    out
                }).push(c)
            };
            ser_path_from(
                cmds,
                k + 1,
                head + args_out(cmds[k].args, repeat && !space_first, is_arc(c)),
                Some(c),
                space_first,
            )
        }
    }
}

pub open spec fn serialize_path_spec(cmds: Seq<CmdView>) -> Seq<char> {
    ser_path_from(cmds, 0, seq![], None, false)
}

pub open spec fn serialize_abs_spec(cmds: Seq<CmdView>) -> Seq<char> {
    ser_path_from(cmds, 0, seq![], None, true)
}

fn write_args(c: &PathCommand, repeat: bool, out: &mut Vec<char>)
    ensures
        final(out)@ == old(out)@ + args_out(c@.args, repeat, is_arc(c.cmd)),
{
    let arc = c.cmd == 'A' || c.cmd == 'a';
    let ghost av = c@.args;
    let ghost o0 = out@;
    let mut idx: usize = 0;
    while idx < c.args.len()
        invariant
            idx <= c.args.len(),
            av == c@.args,
            arc == is_arc(c.cmd),
            out@ == o0 + args_out(av.take(idx as int), repeat, arc),
        decreases c.args.len() - idx,
    {
        assert(av.take(idx + 1).drop_last() =~= av.take(idx as int));
        assert(av.take(idx + 1).last() == av[idx as int]);
        let a = chars_of(c.args[idx].as_str());
        let minus = a.len() > 0 && a[0] == '-';
        let ghost o1 = out@;
        if idx == 0 {
            if !(repeat && minus) {
                out.push(' ');
            }
        } else if arc && (idx == 3 || idx == 4) {
        } else if !minus {
            out.push(' ');
        }
        append(out, &a);
        assert(out@ =~= o1 + arg_sep(idx as int, av[idx as int], repeat, arc) + av[idx as int]);
        idx += 1;
    }
    assert(av.take(idx as int) =~= av);
}

fn write_commands(cmds: &[PathCommand], space_first: bool) -> (r: Vec<char>)
    ensures
        r@ == ser_path_from(cmds_view(cmds@), 0, seq![], None, space_first),
{
    let ghost cv = cmds_view(cmds@);
    let mut out: Vec<char> = Vec::new();
    let mut last: Option<char> = None;
    let mut k: usize = 0;
    while k < cmds.len()
        invariant
            k <= cmds.len(),
            cv == cmds_view(cmds@),
            ser_path_from(cv, 0, seq![], None, space_first) == ser_path_from(cv, k as int, out@, last, space_first),
        decreases cmds.len() - k,
    {
        let c = cmds[k].cmd;
        assert(cv[k as int] == cmds@[k as int]@);
        if c == 'Z' || c == 'z' {
            out.push(c);
        } else {
            let repeat = match last {
                Some(l) => l == c,
                None => false,
            };
            if !repeat {
                if out.len() > 0 {
                    out.push(' ');
                }
                out.push(c);
            }
            write_args(&cmds[k], repeat && !space_first, &mut out);
        }
        last = Some(c);
        k += 1;
    }
    out
}

/// Write commands compactly: a command letter only where it changes, and no
/// space before a negative number (after the first of a repeated command)
/// or an arc flag. The arguments are written as they are.
pub fn serialize_path(cmds: &[PathCommand]) -> (r: String)
    ensures
        r@ == serialize_path_spec(cmds_view(cmds@)),
{
    string_of(&write_commands(cmds, false))
}

/// Write absolute commands compactly: as `serialize_path`, but the first
/// argument of a command is always set off by a space, also where the letter
/// is repeated and the number starts with `-`. The arguments are written as
/// they are.
pub fn serialize_abs(cmds: &[PathCommand]) -> (r: String)
    ensures
        r@ == serialize_abs_spec(cmds_view(cmds@)),
{
    string_of(&write_commands(cmds, true))
}

/// The significant digits for argument `idx` of `total`: control points of
/// curves use `cprec`, everything else `prec`.
pub open spec fn arg_precision_spec(cmd: char, idx: nat, total: nat, prec: nat, cprec: nat) -> nat {
    let ctrl_end: nat = if total >= 2 {
        (total - 2) as nat
    } else {
        0
    };
    if (cmd == 'C' || cmd == 'c' || cmd == 'S' || cmd == 's' || cmd == 'Q' || cmd == 'q') && idx < ctrl_end {
        cprec
    } else {
        prec
    }
}

pub fn arg_precision(cmd: char, idx: usize, total: usize, prec: usize, cprec: usize) -> (p: usize)
    ensures
        p == arg_precision_spec(cmd, idx as nat, total as nat, prec as nat, cprec as nat),
{
    let ctrl_end = total.saturating_sub(2);
    if (cmd == 'C' || cmd == 'c' || cmd == 'S' || cmd == 's' || cmd == 'Q' || cmd == 'q') && idx < ctrl_end {
        cprec
    } else {
        prec
    }
}

// ─── Tokenizing for simplification ────────────────────────────────────────────

/// The commands of path data as simplification reads them, from position
/// `i` with `current` the letter that bare numbers continue: a close ends
/// the current command; numbers after a moveto continue as a lineto; reading
/// stops at a command whose arguments are incomplete.
pub open spec fn parse_letters_from(s: Seq<char>, i: int, current: Option<char>, acc: Seq<CmdView>) -> Seq<CmdView>
    decreases (2 * (s.len() - i) + (if current is Some {
        1int
    } else {
        0int
    })) as nat,
{
    if i < 0 || i > s.len() {
        acc
    } else {
        proof {
            lemma_skip_sep(s, i);
        }
        let j = skip_sep(s, i);
        if j >= s.len() {
            acc
        } else {
            let c = s[j];
            if is_path_cmd(c) && is_close(c) {
                parse_letters_from(s, j + 1, None, acc.push(CmdView { cmd: c, args: Seq::<Seq<char>>::empty() }))
            } else {
                let k = if is_path_cmd(c) {
                    j + 1
                } else {
                    j
                };
                let letter = if is_path_cmd(c) {
                    Some(c)
                } else {
                    current
                };
                match letter {
                    None => parse_letters_from(s, j + 1, None, acc),
                    Some(l) => if arity(l) == 0 {
                        parse_letters_from(s, k, None, acc.push(CmdView { cmd: l, args: Seq::<Seq<char>>::empty() }))
                    } else {
                        proof {
                            lemma_read_args(s, k, l, arity(l), 0, seq![]);
                        }
                        let r = read_args(s, k, l);
                        if r.0.len() < arity(l) {
                            acc
                        } else {
                            parse_letters_from(
                                s,
                                r.1,
                                Some(implicit_cmd(l)),
                                acc.push(CmdView { cmd: l, args: r.0 }),
                            )
                        }
                    },
                }
            }
        }
    }
}

/// Split path data into commands as simplification reads them.
pub fn parse_path_letters(d: &str) -> (r: Vec<PathCommand>)
    ensures
        cmds_view(r@) == parse_letters_from(d@, 0, None, seq![]),
        cmds_numbers(cmds_view(r@)),
{
    proof {
        lemma_path_numbers_parse(d@);
    }
    let s = chars_of(d);
    let ghost sv = s@;
    let mut i: usize = 0;
    let mut current: Option<char> = None;
    let mut acc: Vec<PathCommand> = Vec::new();
    assert(cmds_view(acc@) =~= Seq::<CmdView>::empty());
    loop
        invariant_except_break
            parse_letters_from(sv, 0, None, seq![]) == parse_letters_from(sv, i as int, current, cmds_view(acc@)),
        invariant
            i <= s.len(),
            sv == s@,
            sv == d@,
        ensures
            parse_letters_from(sv, 0, None, seq![]) == cmds_view(acc@),
        decreases 2 * (s.len() - i) + (if current is Some {
            1int
        } else {
            0int
        }),
    {
        let j = skip_sep_exec(&s, i);
        if j >= s.len() {
            break;
        }
        let ghost a0 = cmds_view(acc@);
        let c = s[j];
        let is_cmd = is_path_cmd_exec(c);
        if is_cmd && (c == 'Z' || c == 'z') {
            push_cmd(&mut acc, empty_cmd(c));
            i = j + 1;
            current = None;
        } else {
            let k = if is_cmd {
                j + 1
            } else {
                j
            };
            let letter = if is_cmd {
                Some(c)
            } else {
                current
            };
            match letter {
                None => {
                    i = j + 1;
                    current = None;
                },
                Some(l) => {
                    let n = arity_exec(l);
                    if n == 0 {
                        push_cmd(&mut acc, empty_cmd(l));
                        i = k;
                        current = None;
                    } else {
                        proof {
                            lemma_read_args(sv, k as int, l, arity(l), 0, seq![]);
                        }
                        let (args, e) = read_args_exec(&s, k, l);
                        if args.len() < n {
                            break;
                        }
                        push_cmd(&mut acc, PathCommand { cmd: l, args });
                        i = e;
                        current = Some(implicit_cmd_exec(l));
                    }
                },
            }
        }
    }
    acc
}

// ─── Numbers parse ────────────────────────────────────────────────────────────

proof fn lemma_digits_run(s: Seq<char>, i: int)
    requires
        0 <= i <= s.len(),
    ensures
        forall|k: int| i <= k < digits_end(s, i) ==> is_digit(#[trigger] s[k]),
        digits_end(s, i) < s.len() ==> !is_digit(s[digits_end(s, i)]),
    decreases s.len() - i,
{
    if i < s.len() && is_digit(s[i]) {
        lemma_digits_run(s, i + 1);
    }
}

proof fn lemma_exp_index(s: Seq<char>, p: int)
    requires
        0 <= p <= s.len(),
        p < s.len() ==> (s[p] == 'e' || s[p] == 'E'),
        forall|q: int| 0 <= q < p ==> s[q] != 'e' && s[q] != 'E',
    ensures
        crate::optimizer::exp_index(s) == p,
    decreases p,
{
    if p > 0 {
        lemma_exp_index(s.drop_first(), p - 1);
    }
}

/// Digits with at most one `.` among them, at least one digit in all, read
/// as a mantissa.
proof fn lemma_mantissa(m: Seq<char>, d: int)
    requires
        0 <= d <= m.len(),
        forall|k: int| 0 <= k < d ==> is_digit(#[trigger] m[k]),
        d < m.len() ==> m[d] == '.',
        forall|k: int| d < k < m.len() ==> is_digit(#[trigger] m[k]),
        d > 0 || m.len() > d + 1,
    ensures
        crate::optimizer::is_mantissa(m),
{
    crate::text::lemma_first_index(m, '.', d);
    if d < m.len() {
        assert forall|k: int| 0 <= k < m.skip(d + 1).len() implies is_digit(#[trigger] m.skip(d + 1)[k]) by {
            assert(m.skip(d + 1)[k] == m[d + 1 + k]);
        }
    }
}

/// Every number the tokenizer reads is text that parses as a float.
pub proof fn lemma_number_text(s: Seq<char>, i: int)
    requires
        0 <= i < s.len(),
        number_end(s, i) is Some,
    ensures
        is_f64_literal(s.subrange(i, number_end(s, i)->Some_0)),
{
    let e = number_end(s, i)->Some_0;
    let a = if s[i] == '+' || s[i] == '-' {
        i + 1
    } else {
        i
    };
    lemma_digits_end(s, a);
    lemma_digits_run(s, a);
    let b = digits_end(s, a);
    let dot = b < s.len() && s[b] == '.';
    if dot {
        lemma_digits_end(s, b + 1);
        lemma_digits_run(s, b + 1);
    }
    let c = if dot {
        digits_end(s, b + 1)
    } else {
        b
    };
    lemma_number_end(s, i);
    if c < s.len() && (s[c] == 'e' || s[c] == 'E') {
        let d0 = if c + 1 < s.len() && (s[c + 1] == '+' || s[c + 1] == '-') {
            c + 2
        } else {
            c + 1
        };
        lemma_digits_end(s, d0);
    }
    assert(a <= b <= c <= e);
    let t = s.subrange(i, e);
    let body = s.subrange(a, e);
    if a == i + 1 {
        assert(t[0] == s[i]);
    } else {
        if t.len() > 0 {
            assert(t[0] == s[i]);
        }
    }
    assert(body =~= (if t.len() > 0 && (t[0] == '+' || t[0] == '-') {
        t.drop_first()
    } else {
        t
    }));
    let mant = s.subrange(a, c);
    assert forall|q: int| 0 <= q < mant.len() implies mant[q] != 'e' && mant[q] != 'E' by {
        assert(mant[q] == s[a + q]);
        if a + q < b {
            assert(is_digit(s[a + q]));
        } else if a + q == b {
            assert(dot);
        } else {
            assert(is_digit(s[a + q]));
        }
    }
    lemma_mantissa(mant, b - a);
    if e == c {
        assert(body =~= mant);
        lemma_exp_index(body, body.len() as int);
    } else {
        let d0 = if c + 1 < s.len() && (s[c + 1] == '+' || s[c + 1] == '-') {
            c + 2
        } else {
            c + 1
        };
        lemma_digits_end(s, d0);
        lemma_digits_run(s, d0);
        assert(e == digits_end(s, d0));
        lemma_exp_index(body, c - a);
        assert(body.take(c - a) =~= mant);
        let x = body.skip(c - a + 1);
        assert(x =~= s.subrange(c + 1, e));
        let y = if x.len() > 0 && (x[0] == '+' || x[0] == '-') {
            x.drop_first()
        } else {
            x
        };
        assert(y =~= s.subrange(d0, e));
        assert forall|k: int| 0 <= k < y.len() implies is_digit(#[trigger] y[k]) by {
            assert(y[k] == s[d0 + k]);
        }
    }
}

pub open spec fn all_numbers(args: Seq<Seq<char>>) -> bool {
    forall|k: int| 0 <= k < args.len() ==> is_f64_literal(#[trigger] args[k])
}

pub open spec fn cmds_numbers(cmds: Seq<CmdView>) -> bool {
    forall|k: int| 0 <= k < cmds.len() ==> all_numbers((#[trigger] cmds[k]).args)
}

proof fn lemma_digit_text(c: char)
    requires
        is_digit(c),
    ensures
        is_f64_literal(seq![c]),
{
    lemma_mantissa(seq![c], 1);
    lemma_exp_index(seq![c], 1);
}

proof fn lemma_read_args_numbers(s: Seq<char>, i: int, cmd: char, arity: nat, idx: nat, acc: Seq<Seq<char>>)
    requires
        0 <= i <= s.len(),
        all_numbers(acc),
    ensures
        all_numbers(read_args_from(s, i, cmd, arity, idx, acc).0),
    decreases arity - idx,
{
    if idx < arity {
        lemma_skip_sep(s, i);
        let j = skip_sep(s, i);
        if j < s.len() {
            if is_arc(cmd) && (idx == 3 || idx == 4) && (s[j] == '0' || s[j] == '1') {
                lemma_digit_text(s[j]);
                let acc2 = acc.push(seq![s[j]]);
                assert forall|k: int| 0 <= k < acc2.len() implies is_f64_literal(#[trigger] acc2[k]) by {
                    if k < acc.len() {
                        assert(acc2[k] == acc[k]);
                    }
                }
                lemma_read_args_numbers(s, j + 1, cmd, arity, idx + 1, acc2);
            } else {
                match number_end(s, j) {
                    Some(e) => {
                        lemma_number_end(s, j);
                        lemma_number_text(s, j);
                        let acc2 = acc.push(s.subrange(j, e));
                        assert forall|k: int| 0 <= k < acc2.len() implies is_f64_literal(#[trigger] acc2[k]) by {
                            if k < acc.len() {
                                assert(acc2[k] == acc[k]);
                            }
                        }
                        lemma_read_args_numbers(s, e, cmd, arity, idx + 1, acc2);
                    },
                    None => {},
                }
            }
        }
    }
}

proof fn lemma_push_numbers(acc: Seq<CmdView>, c: CmdView)
    requires
        cmds_numbers(acc),
        all_numbers(c.args),
    ensures
        cmds_numbers(acc.push(c)),
{
    assert forall|k: int| 0 <= k < acc.push(c).len() implies all_numbers((#[trigger] acc.push(c)[k]).args) by {
        if k < acc.len() {
            assert(acc.push(c)[k] == acc[k]);
        }
    }
}

proof fn lemma_parse_numbers(s: Seq<char>, i: int, current: Option<char>, group: Option<char>, acc: Seq<CmdView>)
    requires
        cmds_numbers(acc),
    ensures
        cmds_numbers(parse_from(s, i, current, group, acc)),
    decreases (2 * (s.len() - i) + (if group is Some {
        1int
    } else {
        0int
    })) as nat,
{
    if 0 <= i <= s.len() {
        lemma_skip_sep(s, i);
        let j = skip_sep(s, i);
        match group {
            Some(c) => if j >= s.len() || is_path_cmd(s[j]) {
                lemma_parse_numbers(s, j, current, None, acc);
            } else {
                lemma_read_args(s, j, c, arity(c), 0, seq![]);
                lemma_read_args_numbers(s, j, c, arity(c), 0, seq![]);
                let r = read_args(s, j, c);
                if r.0.len() == 0 {
                    lemma_parse_numbers(s, r.1, current, None, acc);
                } else {
                    lemma_push_numbers(acc, CmdView { cmd: c, args: r.0 });
                    lemma_parse_numbers(s, r.1, current, Some(c), acc.push(CmdView { cmd: c, args: r.0 }));
                }
            },
            None => if j < s.len() {
                let c = s[j];
                if is_path_cmd(c) {
                    if arity(c) == 0 {
                        lemma_push_numbers(acc, CmdView { cmd: c, args: Seq::<Seq<char>>::empty() });
                        lemma_parse_numbers(s, j + 1, Some(c), None, acc.push(CmdView { cmd: c, args: Seq::<Seq<char>>::empty() }));
                    } else {
                        lemma_parse_numbers(s, j + 1, Some(c), Some(c), acc);
                    }
                } else {
                    match current {
                        Some(cur) => {
                            let imp = implicit_cmd(cur);
                            if arity(imp) == 0 {
                                lemma_parse_numbers(s, j + 1, current, None, acc);
                            } else {
                                lemma_read_args(s, j, imp, arity(imp), 0, seq![]);
                                lemma_read_args_numbers(s, j, imp, arity(imp), 0, seq![]);
                                let r = read_args(s, j, imp);
                                if r.0.len() > 0 {
                                    lemma_push_numbers(acc, CmdView { cmd: imp, args: r.0 });
                                    lemma_parse_numbers(s, r.1, current, None, acc.push(CmdView { cmd: imp, args: r.0 }));
                                }
                            }
                        },
                        None => {
                            lemma_parse_numbers(s, j + 1, None, None, acc);
                        },
                    }
                }
            },
        }
    }
}

proof fn lemma_letters_numbers(s: Seq<char>, i: int, current: Option<char>, acc: Seq<CmdView>)
    requires
        cmds_numbers(acc),
        current matches Some(l) ==> arity(l) > 0,
    ensures
        cmds_numbers(parse_letters_from(s, i, current, acc)),
    decreases (2 * (s.len() - i) + (if current is Some {
        1int
    } else {
        0int
    })) as nat,
{
    if 0 <= i <= s.len() {
        lemma_skip_sep(s, i);
        let j = skip_sep(s, i);
        if j < s.len() {
            let c = s[j];
            if is_path_cmd(c) && is_close(c) {
                lemma_push_numbers(acc, CmdView { cmd: c, args: Seq::<Seq<char>>::empty() });
                lemma_letters_numbers(s, j + 1, None, acc.push(CmdView { cmd: c, args: Seq::<Seq<char>>::empty() }));
            } else {
                let start = if is_path_cmd(c) {
                    j + 1
                } else {
                    j
                };
                let letter = if is_path_cmd(c) {
                    Some(c)
                } else {
                    current
                };
                match letter {
                    None => {
                        lemma_letters_numbers(s, j + 1, None, acc);
                    },
                    Some(l) => if arity(l) == 0 {
                        assert(!is_path_cmd(c) || is_close(c) || arity(c) > 0);
                    } else {
                        lemma_read_args(s, start, l, arity(l), 0, seq![]);
                        lemma_read_args_numbers(s, start, l, arity(l), 0, seq![]);
                        let r = read_args(s, start, l);
                        if r.0.len() >= arity(l) {
                            lemma_push_numbers(acc, CmdView { cmd: l, args: r.0 });
                            lemma_letters_numbers(s, r.1, Some(implicit_cmd(l)), acc.push(CmdView { cmd: l, args: r.0 }));
                        }
                    },
                }
            }
        }
    }
}

/// Every argument the tokenizers hand out is text that parses as a float.
pub proof fn lemma_path_numbers_parse(d: Seq<char>)
    ensures
        cmds_numbers(parse_path_spec(d)),
        cmds_numbers(parse_letters_from(d, 0, None, seq![])),
{
    lemma_parse_numbers(d, 0, None, None, seq![]);
    lemma_letters_numbers(d, 0, None, seq![]);
}


// ─── Whitespace in path data ──────────────────────────────────────────────────

/// Path data with every whitespace character replaced by a space.
pub open spec fn spaced(d: Seq<char>) -> Seq<char> {
    d.map_values(|c: char| if is_ws(c) { ' ' } else { c })
}

/// A character that separates numbers and commands: whitespace or a comma.
pub open spec fn is_sep(c: char) -> bool {
    is_ws(c) || c == ','
}

/// Two texts that differ only in which separators they hold.
pub open spec fn sep_equiv(s: Seq<char>, t: Seq<char>) -> bool {
    &&& s.len() == t.len()
    &&& forall|k: int|
        0 <= k < s.len() ==> (is_sep(#[trigger] s[k]) && is_sep(t[k])) || (!is_sep(s[k]) && s[k] == t[k])
}

proof fn lemma_equiv_at(s: Seq<char>, t: Seq<char>, k: int)
    requires
        sep_equiv(s, t),
        0 <= k < s.len(),
    ensures
        is_sep(s[k]) == is_sep(t[k]),
        !is_sep(s[k]) ==> s[k] == t[k],
        !is_sep(t[k]) ==> s[k] == t[k],
{
    assert((is_sep(s[k]) && is_sep(t[k])) || (!is_sep(s[k]) && s[k] == t[k]));
}

proof fn lemma_skip_sep_equiv(s: Seq<char>, t: Seq<char>, i: int)
    requires
        sep_equiv(s, t),
    ensures
        skip_sep(s, i) == skip_sep(t, i),
        0 <= skip_sep(s, i) < s.len() ==> !is_sep(s[skip_sep(s, i)]) && s[skip_sep(s, i)] == t[skip_sep(s, i)],
    decreases s.len() - i,
{
    if 0 <= i < s.len() {
        lemma_equiv_at(s, t, i);
        if is_ws(s[i]) || s[i] == ',' {
            lemma_skip_sep_equiv(s, t, i + 1);
        }
    }
}

proof fn lemma_digits_end_equiv(s: Seq<char>, t: Seq<char>, i: int)
    requires
        sep_equiv(s, t),
    ensures
        digits_end(s, i) == digits_end(t, i),
        forall|k: int| i <= k < digits_end(s, i) ==> is_digit(#[trigger] s[k]) && s[k] == t[k],
    decreases s.len() - i,
{
    if 0 <= i < s.len() {
        lemma_equiv_at(s, t, i);
        if is_digit(s[i]) || is_digit(t[i]) {
            lemma_digits_end_equiv(s, t, i + 1);
        }
    }
}

proof fn lemma_char_equiv(s: Seq<char>, t: Seq<char>, k: int, c: char)
    requires
        sep_equiv(s, t),
        !is_sep(c),
    ensures
        (0 <= k < s.len() && s[k] == c) == (0 <= k < t.len() && t[k] == c),
{
    if 0 <= k < s.len() {
        lemma_equiv_at(s, t, k);
    }
}

proof fn lemma_number_end_equiv(s: Seq<char>, t: Seq<char>, i: int)
    requires
        sep_equiv(s, t),
        0 <= i < s.len(),
    ensures
        number_end(s, i) == number_end(t, i),
        number_end(s, i) matches Some(e) ==> s.subrange(i, e) == t.subrange(i, e),
{
    lemma_char_equiv(s, t, i, '+');
    lemma_char_equiv(s, t, i, '-');
    let a = if 0 <= i < s.len() && (s[i] == '+' || s[i] == '-') {
        i + 1
    } else {
        i
    };
    lemma_digits_end_equiv(s, t, a);
    let b = digits_end(s, a);
    lemma_char_equiv(s, t, b, '.');
    let c = if 0 <= b < s.len() && s[b] == '.' {
        digits_end(s, b + 1)
    } else {
        b
    };
    lemma_digits_end_equiv(s, t, b + 1);
    lemma_char_equiv(s, t, c, 'e');
    lemma_char_equiv(s, t, c, 'E');
    lemma_char_equiv(s, t, c + 1, '+');
    lemma_char_equiv(s, t, c + 1, '-');
    let d0 = if c + 1 < s.len() && (s[c + 1] == '+' || s[c + 1] == '-') {
        c + 2
    } else {
        c + 1
    };
    lemma_digits_end_equiv(s, t, d0);
    lemma_digits_end(s, a);
    match number_end(s, i) {
        Some(e) => {
            lemma_number_end(s, i);
            assert forall|k: int| i <= k < e implies s[k] == t[k] by {
                if k < a {
                } else if k < b {
                } else if k == b {
                } else if k < c {
                } else if k == c {
                } else if k < d0 {
                } else {
                }
            }
            assert(s.subrange(i, e) =~= t.subrange(i, e));
        },
        None => {},
    }
}

proof fn lemma_read_args_equiv(
    s: Seq<char>,
    t: Seq<char>,
    i: int,
    cmd: char,
    arity: nat,
    idx: nat,
    acc: Seq<Seq<char>>,
)
    requires
        sep_equiv(s, t),
        0 <= i <= s.len(),
    ensures
        read_args_from(s, i, cmd, arity, idx, acc) == read_args_from(t, i, cmd, arity, idx, acc),
    decreases arity - idx,
{
    if idx < arity {
        lemma_skip_sep_equiv(s, t, i);
        lemma_skip_sep(s, i);
        let j = skip_sep(s, i);
        if j < s.len() {
            if is_arc(cmd) && (idx == 3 || idx == 4) && (s[j] == '0' || s[j] == '1') {
                assert(seq![s[j]] == seq![t[j]]);
                lemma_read_args_equiv(s, t, j + 1, cmd, arity, idx + 1, acc.push(seq![s[j]]));
            } else {
                lemma_number_end_equiv(s, t, j);
                lemma_number_end(s, j);
                match number_end(s, j) {
                    Some(e) => {
                        lemma_read_args_equiv(s, t, e, cmd, arity, idx + 1, acc.push(s.subrange(j, e)));
                    },
                    None => {},
                }
            }
        }
    }
}

proof fn lemma_parse_from_equiv(
    s: Seq<char>,
    t: Seq<char>,
    i: int,
    current: Option<char>,
    group: Option<char>,
    acc: Seq<CmdView>,
)
    requires
        sep_equiv(s, t),
    ensures
        parse_from(s, i, current, group, acc) == parse_from(t, i, current, group, acc),
    decreases (2 * (s.len() - i) + (if group is Some {
        1int
    } else {
        0int
    })) as nat,
{
    if !(i < 0 || i > s.len()) {
        lemma_skip_sep(s, i);
        lemma_skip_sep_equiv(s, t, i);
        let j = skip_sep(s, i);
        match group {
            Some(c) => {
                if j >= s.len() || is_path_cmd(s[j]) {
                    lemma_parse_from_equiv(s, t, j, current, None, acc);
                } else {
                    lemma_read_args(s, j, c, arity(c), 0, seq![]);
                    lemma_read_args_equiv(s, t, j, c, arity(c), 0, seq![]);
                    let r = read_args(s, j, c);
                    if r.0.len() == 0 {
                        lemma_parse_from_equiv(s, t, r.1, current, None, acc);
                    } else {
                        lemma_parse_from_equiv(s, t, r.1, current, Some(c), acc.push(CmdView { cmd: c, args: r.0 }));
                    }
                }
            },
            None => {
                if j < s.len() {
                    let c = s[j];
                    if is_path_cmd(c) {
                        if arity(c) == 0 {
                            lemma_parse_from_equiv(s, t, j + 1, Some(c), None, acc.push(CmdView { cmd: c, args: Seq::<Seq<char>>::empty() }));
                        } else {
                            lemma_parse_from_equiv(s, t, j + 1, Some(c), Some(c), acc);
                        }
                    } else {
                        match current {
                            Some(cur) => {
                                let imp = implicit_cmd(cur);
                                if arity(imp) == 0 {
                                    lemma_parse_from_equiv(s, t, j + 1, current, None, acc);
                                } else {
                                    lemma_read_args(s, j, imp, arity(imp), 0, seq![]);
                                    lemma_read_args_equiv(s, t, j, imp, arity(imp), 0, seq![]);
                                    let r = read_args(s, j, imp);
                                    if r.0.len() > 0 {
                                        lemma_parse_from_equiv(s, t, r.1, current, None, acc.push(CmdView { cmd: imp, args: r.0 }));
                                    }
                                }
                            },
                            None => {
                                lemma_parse_from_equiv(s, t, j + 1, None, None, acc);
                            },
                        }
                    }
                }
            },
        }
    }
}

/// Every separator, any whitespace character or a comma, separates path
/// data as a space does: path data that differ only in which separators
/// they hold parse to the same commands.
pub proof fn lemma_parse_path_separators(s: Seq<char>, t: Seq<char>)
    requires
        sep_equiv(s, t),
    ensures
        parse_path_spec(s) == parse_path_spec(t),
{
    lemma_parse_from_equiv(s, t, 0, None, None, seq![]);
}

/// Path data parse as they do with each whitespace character replaced by a
/// space.
pub proof fn lemma_parse_path_spaced(d: Seq<char>)
    ensures
        parse_path_spec(d) == parse_path_spec(spaced(d)),
{
    let t = spaced(d);
    assert(sep_equiv(d, t)) by {
        assert forall|k: int| 0 <= k < d.len() implies (is_sep(#[trigger] d[k]) && is_sep(t[k])) || (!is_sep(d[k]) && d[k] == t[k]) by {
            assert(t[k] == (if is_ws(d[k]) { ' ' } else { d[k] }));
        }
    }
    lemma_parse_path_separators(d, t);
}

} // verus!
