//! Optimizer for SVG `<style>` element content.
//!
//! Handles color simplification, default removal and ID remapping.  Values
//! containing substitution-variable placeholders are detected with the
//! `value_has_subst` guard and left untouched.
use vstd::prelude::*;
use crate::color::{simplify_color, simplify_color_outcome};
use crate::css::default_value;
use crate::subst::{caps_view, has_placeholder, value_has_subst, CapView, CapturedVar};
use crate::text::{
    match_at, matches_at,
    append, byte_prefix, byte_prefix_exec, byte_suffix, byte_suffix_exec, char_is_alphanumeric,
    chars_of, eq_vec, first_index, first_index_of, has_char, is_whitespace, is_ws, lowercase_vec,
    slice_vec, spec_is_alphanumeric, spec_to_lowercase, string_of, trim, trim_vec,
};
use crate::subst::eq_str;

verus! {

// ─── Tokens ───────────────────────────────────────────────────────────────────

/// A piece of a style sheet.
pub enum CssTok {
    Rule(Seq<char>, Seq<char>),
    AtRule(Seq<char>, Seq<char>),
    Comment(Seq<char>),
    Raw(Seq<char>),
}

enum CssToken {
    Rule(Vec<char>, Vec<char>),
    AtRule(Vec<char>, Vec<char>),
    Comment(Vec<char>),
    Raw(Vec<char>),
}

spec fn tok_view(t: CssToken) -> CssTok {
    match t {
        CssToken::Rule(a, b) => CssTok::Rule(a@, b@),
        CssToken::AtRule(a, b) => CssTok::AtRule(a@, b@),
        CssToken::Comment(a) => CssTok::Comment(a@),
        CssToken::Raw(a) => CssTok::Raw(a@),
    }
}

spec fn toks_view(t: Seq<CssToken>) -> Seq<CssTok> {
    t.map_values(|x: CssToken| tok_view(x))
}

/// First index from `i` on that is not whitespace, or the length.
pub open spec fn ws_end(s: Seq<char>, i: int) -> int
    decreases s.len() - i,
{
    if i < 0 || i >= s.len() || !is_ws(s[i]) {
        i
    } else {
        ws_end(s, i + 1)
    }
}

/// Where the scan for `*/` from `i` stops: at the `*` of the first `*/`, or at
/// the last character.
pub open spec fn comment_end(s: Seq<char>, i: int) -> int
    decreases s.len() - i,
{
    if i < 0 || i + 1 >= s.len() || (s[i] == '*' && s[i + 1] == '/') {
        i
    } else {
        comment_end(s, i + 1)
    }
}

/// Index of the `}` that closes `depth` open braces, scanning from `i`, or the
/// length.
pub open spec fn brace_end(s: Seq<char>, i: int, depth: nat) -> int
    decreases s.len() - i,
{
    if i < 0 || i >= s.len() {
        i
    } else if s[i] == '{' {
        brace_end(s, i + 1, depth + 1)
    } else if s[i] == '}' {
        if depth <= 1 {
            i
        } else {
            brace_end(s, i + 1, (depth - 1) as nat)
        }
    } else {
        brace_end(s, i + 1, depth)
    }
}

/// First index from `i` on holding `{` or `;` (or, with `ws`, whitespace), or
/// the length.
pub open spec fn stop_at(s: Seq<char>, i: int, ws: bool) -> int
    decreases s.len() - i,
{
    if i < 0 || i >= s.len() || s[i] == '{' || s[i] == ';' || (ws && is_ws(s[i])) {
        i
    } else {
        stop_at(s, i + 1, ws)
    }
}

/// First index from `i` on holding `{`, or the length.
pub open spec fn open_brace(s: Seq<char>, i: int) -> int
    decreases s.len() - i,
{
    if i < 0 || i >= s.len() || s[i] == '{' {
        i
    } else {
        open_brace(s, i + 1)
    }
}

pub proof fn lemma_scan_bounds(s: Seq<char>, i: int)
    requires
        0 <= i <= s.len(),
    ensures
        i <= ws_end(s, i) <= s.len(),
        i < s.len() && is_ws(s[i]) ==> i < ws_end(s, i),
        i <= comment_end(s, i),
        comment_end(s, i) <= s.len() || comment_end(s, i) == i,
        i <= stop_at(s, i, true) <= s.len(),
        i <= stop_at(s, i, false) <= s.len(),
        i <= open_brace(s, i) <= s.len(),
        forall|d: nat| i <= #[trigger] brace_end(s, i, d) <= s.len(),
    decreases s.len() - i,
{
    if i < s.len() {
        lemma_scan_bounds(s, i + 1);
        assert forall|d: nat| i <= #[trigger] brace_end(s, i, d) <= s.len() by {
            if s[i] == '{' {
                assert(i + 1 <= brace_end(s, i + 1, d + 1));
            } else if s[i] == '}' && d > 1 {
                assert(i + 1 <= brace_end(s, i + 1, (d - 1) as nat));
            } else if s[i] != '}' {
                assert(i + 1 <= brace_end(s, i + 1, d));
            }
        }
    }
}

/// The at-rule starting at `start` (an `@`) and the index after it; `None`
/// where a slice would run past the end (an unclosed block).
pub open spec fn at_rule(s: Seq<char>, start: int) -> Option<(CssTok, int)> {
    let kw_end = stop_at(s, start + 1, true);
    let keyword = s.subrange(start + 1, kw_end);
    let i = stop_at(s, kw_end, false);
    if i >= s.len() {
        Some((CssTok::AtRule(keyword, s.subrange(start, s.len() as int)), s.len() as int))
    } else if s[i] == ';' {
        Some((CssTok::AtRule(keyword, s.subrange(start, i + 1)), i + 1))
    } else {
        let e = brace_end(s, i + 1, 1) + 1;
        if e > s.len() {
            None
        } else {
            Some((CssTok::AtRule(keyword, s.subrange(start, e)), e))
        }
    }
}

/// The tokens from index `i` on; `None` where the tokenizer has no result (an
/// unclosed comment or at-rule block).
pub open spec fn tokenize_from(s: Seq<char>, i: int) -> Option<Seq<CssTok>>
    decreases s.len() - i,
{
    if i < 0 || i >= s.len() {
        Some(seq![])
    } else {
        proof {
            lemma_scan_bounds(s, i);
        }
        if is_ws(s[i]) {
            let e = ws_end(s, i);
            match tokenize_from(s, e) {
                Some(rest) => Some(seq![CssTok::Raw(s.subrange(i, e))] + rest),
                None => None,
            }
        } else if i + 1 < s.len() && s[i] == '/' && s[i + 1] == '*' {
            proof {
                lemma_scan_bounds(s, i + 2);
            }
            let e = comment_end(s, i + 2) + 2;
            if e > s.len() {
                None
            } else {
                match tokenize_from(s, e) {
                    Some(rest) => Some(seq![CssTok::Comment(s.subrange(i, e))] + rest),
                    None => None,
                }
            }
        } else if s[i] == '@' {
            proof {
                lemma_scan_bounds(s, i + 1);
                lemma_scan_bounds(s, stop_at(s, i + 1, true));
            }
            match at_rule(s, i) {
                None => None,
                Some((tok, e)) => {
                    proof {
                        let kw_end = stop_at(s, i + 1, true);
                        let j = stop_at(s, kw_end, false);
                        if j < s.len() && s[j] != ';' {
                            lemma_scan_bounds(s, j + 1);
                            assert(brace_end(s, j + 1, 1) >= j + 1);
                        }
                    }
                    match tokenize_from(s, e) {
                        Some(rest) => Some(seq![tok] + rest),
                        None => None,
                    }
                }
            }
        } else {
            let j = open_brace(s, i);
            if j >= s.len() {
                Some(seq![CssTok::Raw(s.subrange(i, s.len() as int))])
            } else {
                proof {
                    lemma_scan_bounds(s, j + 1);
                    assert(brace_end(s, j + 1, 1) >= j + 1);
                }
                let k = brace_end(s, j + 1, 1);
                let rest = if k + 1 >= s.len() {
                    Some(seq![])
                } else {
                    tokenize_from(s, k + 1)
                };
                match rest {
                    Some(rest) => Some(
                        seq![CssTok::Rule(s.subrange(i, j), s.subrange(j + 1, k))] + rest,
                    ),
                    None => None,
                }
            }
        }
    }
}

pub open spec fn tokenize_spec(s: Seq<char>) -> Option<Seq<CssTok>> {
    tokenize_from(s, 0)
}


fn ws_end_exec(s: &Vec<char>, i: usize) -> (e: usize)
    requires
        i <= s.len(),
    ensures
        e as int == ws_end(s@, i as int),
{
    let mut j = i;
    while j < s.len() && is_whitespace(s[j])
        invariant
            i <= j <= s.len(),
            ws_end(s@, i as int) == ws_end(s@, j as int),
        decreases s.len() - j,
    {
        j += 1;
    }
    j
}

fn comment_end_exec(s: &Vec<char>, i: usize) -> (e: usize)
    requires
        i <= s.len(),
    ensures
        e as int == comment_end(s@, i as int),
{
    let mut j = i;
    while j < s.len() && j + 1 < s.len() && !(s[j] == '*' && s[j + 1] == '/')
        invariant
            i <= j <= s.len(),
            comment_end(s@, i as int) == comment_end(s@, j as int),
        decreases s.len() - j,
    {
        j += 1;
    }
    j
}

fn brace_end_exec(s: &Vec<char>, i: usize) -> (e: usize)
    requires
        1 <= i <= s.len(),
    ensures
        e as int == brace_end(s@, i as int, 1),
{
    let mut j = i;
    let mut depth: usize = 1;
    while j < s.len()
        invariant
            1 <= i <= j <= s.len(),
            1 <= depth <= j - i + 1,
            brace_end(s@, i as int, 1) == brace_end(s@, j as int, depth as nat),
        decreases s.len() - j,
    {
        if s[j] == '{' {
            depth += 1;
        } else if s[j] == '}' {
            if depth <= 1 {
                return j;
            }
            depth -= 1;
        }
        j += 1;
    }
    j
}

fn stop_at_exec(s: &Vec<char>, i: usize, ws: bool) -> (e: usize)
    requires
        i <= s.len(),
    ensures
        e as int == stop_at(s@, i as int, ws),
{
    let mut j = i;
    while j < s.len() && s[j] != '{' && s[j] != ';' && !(ws && is_whitespace(s[j]))
        invariant
            i <= j <= s.len(),
            stop_at(s@, i as int, ws) == stop_at(s@, j as int, ws),
        decreases s.len() - j,
    {
        j += 1;
    }
    j
}

fn open_brace_exec(s: &Vec<char>, i: usize) -> (e: usize)
    requires
        i <= s.len(),
    ensures
        e as int == open_brace(s@, i as int),
{
    let mut j = i;
    while j < s.len() && s[j] != '{'
        invariant
            i <= j <= s.len(),
            open_brace(s@, i as int) == open_brace(s@, j as int),
        decreases s.len() - j,
    {
        j += 1;
    }
    j
}

fn parse_at_rule(s: &Vec<char>, start: usize) -> (r: Option<(CssToken, usize)>)
    requires
        start < s.len(),
    ensures
        match r {
            Some((t, e)) => at_rule(s@, start as int) == Some((tok_view(t), e as int)),
            None => at_rule(s@, start as int) is None,
        },
{
    proof {
        lemma_scan_bounds(s@, start + 1);
    }
    let kw_end = stop_at_exec(s, start + 1, true);
    proof {
        lemma_scan_bounds(s@, kw_end as int);
    }
    let keyword = slice_vec(s, start + 1, kw_end);
    let i = stop_at_exec(s, kw_end, false);
    if i >= s.len() {
        return Some((CssToken::AtRule(keyword, slice_vec(s, start, s.len())), s.len()));
    }
    if s[i] == ';' {
        return Some((CssToken::AtRule(keyword, slice_vec(s, start, i + 1)), i + 1));
    }
    proof {
        lemma_scan_bounds(s@, i + 1);
        assert(brace_end(s@, i + 1, 1) <= s.len());
    }
    let j = brace_end_exec(s, i + 1);
    if j >= s.len() {
        return None;
    }
    Some((CssToken::AtRule(keyword, slice_vec(s, start, j + 1)), j + 1))
}

fn tokenize_css(s: &Vec<char>) -> (r: Option<Vec<CssToken>>)
    ensures
        match r {
            Some(t) => tokenize_spec(s@) == Some(toks_view(t@)),
            None => tokenize_spec(s@) is None,
        },
{
    let n = s.len();
    let mut tokens: Vec<CssToken> = Vec::new();
    let mut i: usize = 0;
    while i < n
        invariant
            i <= n == s.len(),
            tokenize_spec(s@) == match tokenize_from(s@, i as int) {
                Some(rest) => Some(toks_view(tokens@) + rest),
                None => None,
            },
        decreases n - i,
    {
        let ghost t0 = toks_view(tokens@);
        proof {
            lemma_scan_bounds(s@, i as int);
        }
        if is_whitespace(s[i]) {
            let e = ws_end_exec(s, i);
            let tok = CssToken::Raw(slice_vec(s, i, e));
            tokens.push(tok);
            proof {
                assert(toks_view(tokens@) =~= t0.push(tok_view(tok)));
                match tokenize_from(s@, e as int) {
                    Some(rest) => {
                        assert(t0 + (seq![tok_view(tok)] + rest) =~= t0.push(tok_view(tok)) + rest);
                    },
                    None => {},
                }
            }
            i = e;
            continue;
        }
        if i + 1 < n && s[i] == '/' && s[i + 1] == '*' {
            proof {
                lemma_scan_bounds(s@, i + 2);
            }
            let j = comment_end_exec(s, i + 2);
            if n - j < 2 {
                return None;
            }
            let e = j + 2;
            let tok = CssToken::Comment(slice_vec(s, i, e));
            tokens.push(tok);
            proof {
                assert(toks_view(tokens@) =~= t0.push(tok_view(tok)));
                match tokenize_from(s@, e as int) {
                    Some(rest) => {
                        assert(t0 + (seq![tok_view(tok)] + rest) =~= t0.push(tok_view(tok)) + rest);
                    },
                    None => {},
                }
            }
            i = e;
            continue;
        }
        if s[i] == '@' {
            match parse_at_rule(s, i) {
                None => return None,
                Some((tok, e)) => {
                    proof {
                        lemma_scan_bounds(s@, i + 1);
                        let kw_end = stop_at(s@, i + 1, true);
                        lemma_scan_bounds(s@, kw_end);
                        let j = stop_at(s@, kw_end, false);
                        if j < s.len() && s@[j] != ';' {
                            lemma_scan_bounds(s@, j + 1);
                            assert(brace_end(s@, j + 1, 1) >= j + 1);
                        }
                    }
                    let ghost tv = tok_view(tok);
                    tokens.push(tok);
                    proof {
                        assert(toks_view(tokens@) =~= t0.push(tv));
                        match tokenize_from(s@, e as int) {
                            Some(rest) => {
                                assert(t0 + (seq![tv] + rest) =~= t0.push(tv) + rest);
                            },
                            None => {},
                        }
                    }
                    i = e;
                    continue;
                },
            }
        }
        let j = open_brace_exec(s, i);
        if j >= n {
            let tok = CssToken::Raw(slice_vec(s, i, n));
            tokens.push(tok);
            assert(toks_view(tokens@) =~= t0 + seq![tok_view(tok)]);
            return Some(tokens);
        }
        proof {
            lemma_scan_bounds(s@, j + 1);
            assert(brace_end(s@, j + 1, 1) >= j + 1);
        }
        let k = brace_end_exec(s, j + 1);
        let tok = CssToken::Rule(slice_vec(s, i, j), slice_vec(s, j + 1, k));
        tokens.push(tok);
        proof {
            assert(toks_view(tokens@) =~= t0.push(tok_view(tok)));
            if k + 1 >= n {
                assert(t0 + (seq![tok_view(tok)] + Seq::<CssTok>::empty()) =~= t0.push(tok_view(tok)));
            } else {
                match tokenize_from(s@, k + 1) {
                    Some(rest) => {
                        assert(t0 + (seq![tok_view(tok)] + rest) =~= t0.push(tok_view(tok)) + rest);
                    },
                    None => {},
                }
            }
        }
        if k >= n - 1 {
            return Some(tokens);
        }
        i = k + 1;
    }
    assert(toks_view(tokens@) + Seq::<CssTok>::empty() =~= toks_view(tokens@));
    Some(tokens)
}


// ─── Declarations ─────────────────────────────────────────────────────────────

pub open spec fn placeholders(cvs: Seq<CapView>) -> Seq<Seq<char>> {
    cvs.map_values(|c: CapView| c.placeholder)
}

/// Index of the first placeholder, from number `k` on, that starts at `i`.
pub open spec fn ph_at(s: Seq<char>, i: int, phs: Seq<Seq<char>>, k: int) -> Option<int>
    decreases phs.len() - k,
{
    if k < 0 || k >= phs.len() {
        None
    } else if matches_at(s, phs[k], i) {
        Some(k)
    } else {
        ph_at(s, i, phs, k + 1)
    }
}

pub proof fn lemma_ph_at(s: Seq<char>, i: int, phs: Seq<Seq<char>>, k: int)
    ensures
        ph_at(s, i, phs, k) matches Some(j) ==> 0 <= j < phs.len() && matches_at(s, phs[j], i),
    decreases phs.len() - k,
{
    if 0 <= k < phs.len() && !matches_at(s, phs[k], i) {
        lemma_ph_at(s, i, phs, k + 1);
    }
}

/// The `;`-separated declarations from index `i` on, placeholders kept whole;
/// `None` where an empty placeholder makes the scan loop forever.
pub open spec fn split_decls_from(s: Seq<char>, i: int, phs: Seq<Seq<char>>, cur: Seq<char>) -> Option<
    Seq<Seq<char>>,
>
    decreases s.len() - i,
{
    if i < 0 || i >= s.len() {
        Some(
            if trim(cur).len() > 0 {
                seq![cur]
            } else {
                seq![]
            },
        )
    } else {
        match ph_at(s, i, phs, 0) {
            Some(k) => {
                proof {
                    lemma_ph_at(s, i, phs, 0);
                }
                if phs[k].len() == 0 {
                    None
                } else {
                    split_decls_from(s, i + phs[k].len(), phs, cur + phs[k])
                }
            },
            None => if s[i] == ';' {
                match split_decls_from(s, i + 1, phs, seq![]) {
                    Some(rest) => Some(seq![cur] + rest),
                    None => None,
                }
            } else {
                split_decls_from(s, i + 1, phs, cur.push(s[i]))
            },
        }
    }
}

/// The index of the first `:` outside placeholders from `i` on; `Some(None)`
/// when there is none, `None` where the scan
/// cannot advance (an empty placeholder).
pub open spec fn colon_outside(s: Seq<char>, i: int, phs: Seq<Seq<char>>) -> Option<Option<int>>
    decreases s.len() - i,
{
    if i < 0 || i >= s.len() {
        Some(None)
    } else {
        match ph_at(s, i, phs, 0) {
            Some(k) => {
                proof {
                    lemma_ph_at(s, i, phs, 0);
                }
                if phs[k].len() == 0 {
                    None
                } else {
                    colon_outside(s, i + phs[k].len(), phs)
                }
            },
            None => if s[i] == ':' {
                Some(Some(i))
            } else {
                colon_outside(s, i + 1, phs)
            },
        }
    }
}

/// The color properties of style sheets.
pub open spec fn is_sheet_color_prop(p: Seq<char>) -> bool {
    p == "fill"@ || p == "stroke"@ || p == "stop-color"@ || p == "flood-color"@ || p
        == "lighting-color"@ || p == "color"@ || p == "background-color"@
}

fn sheet_color_prop(p: &Vec<char>) -> (b: bool)
    ensures
        b == is_sheet_color_prop(p@),
{
    eq_str(p, "fill") || eq_str(p, "stroke") || eq_str(p, "stop-color") || eq_str(p, "flood-color")
        || eq_str(p, "lighting-color") || eq_str(p, "color") || eq_str(p, "background-color")
}

pub open spec fn prop_value(p: Seq<char>, v: Seq<char>) -> Seq<char> {
    p + seq![':'] + v
}

/// One declaration of a rule: `None` where it has no result, `Some(None)`
/// where it is dropped as a default, else its output.
pub open spec fn decl_out(decl: Seq<char>, simplify: bool, cvs: Seq<CapView>) -> Option<Option<Seq<char>>> {
    let d = trim(decl);
    if d.len() == 0 {
        Some(None)
    } else {
        match colon_outside(d, 0, placeholders(cvs)) {
            None => None,
            Some(None) => Some(Some(d)),
            Some(Some(c)) => {
                let prop = spec_to_lowercase(trim(d.take(c)));
                let value = trim(d.skip(c + 1));
                if has_placeholder(value, cvs) {
                    Some(Some(prop_value(prop, value)))
                } else if default_value(prop, value) {
                    Some(None)
                } else if simplify && is_sheet_color_prop(prop) {
                    match simplify_color_outcome(value) {
                        Some(nv) => Some(Some(prop_value(prop, nv))),
                        None => None,
                    }
                } else {
                    Some(Some(prop_value(prop, value)))
                }
            },
        }
    }
}

/// Pieces joined with a separator.
pub open spec fn join_with(items: Seq<Seq<char>>, sep: char) -> Seq<char>
    decreases items.len(),
{
    if items.len() == 0 {
        seq![]
    } else if items.len() == 1 {
        items[0]
    } else {
        join_with(items.drop_last(), sep) + seq![sep] + items.last()
    }
}

/// The kept outputs of the declarations, in order; `None` where one has no result.
pub open spec fn decls_out(parts: Seq<Seq<char>>, simplify: bool, cvs: Seq<CapView>) -> Option<Seq<Seq<char>>>
    decreases parts.len(),
{
    if parts.len() == 0 {
        Some(seq![])
    } else {
        match decls_out(parts.drop_last(), simplify, cvs) {
            None => None,
            Some(outs) => match decl_out(parts.last(), simplify, cvs) {
                None => None,
                Some(None) => Some(outs),
                Some(Some(o)) => Some(outs.push(o)),
            },
        }
    }
}

/// What `optimize_declarations` returns: `None` where it has no result.
pub open spec fn optimize_decls_outcome(decls: Seq<char>, simplify: bool, cvs: Seq<CapView>) -> Option<Seq<char>> {
    match split_decls_from(decls, 0, placeholders(cvs), seq![]) {
        None => None,
        Some(parts) => match decls_out(parts, simplify, cvs) {
            None => None,
            Some(outs) => Some(join_with(outs, ';')),
        },
    }
}

fn placeholder_at(s: &Vec<char>, i: usize, vars: &[CapturedVar]) -> (r: Option<Vec<char>>)
    ensures
        match r {
            Some(p) => ph_at(s@, i as int, placeholders(caps_view(vars@)), 0) matches Some(k) && p@ == placeholders(caps_view(vars@))[k],
            None => ph_at(s@, i as int, placeholders(caps_view(vars@)), 0) is None,
        },
{
    let ghost phs = placeholders(caps_view(vars@));
    let mut k: usize = 0;
    while k < vars.len()
        invariant
            k <= vars.len(),
            phs == placeholders(caps_view(vars@)),
            phs.len() == vars.len(),
            ph_at(s@, i as int, phs, 0) == ph_at(s@, i as int, phs, k as int),
        decreases vars.len() - k,
    {
        let ph = chars_of(vars[k].placeholder.as_str());
        assert(phs[k as int] == vars@[k as int].placeholder@);
        if match_at(s, &ph, i) {
            return Some(ph);
        }
        k += 1;
    }
    None
}

fn split_declarations(s: &Vec<char>, vars: &[CapturedVar]) -> (r: Option<Vec<Vec<char>>>)
    ensures
        match r {
            Some(parts) => split_decls_from(s@, 0, placeholders(caps_view(vars@)), seq![]) == Some(parts@.map_values(|v: Vec<char>| v@)),
            None => split_decls_from(s@, 0, placeholders(caps_view(vars@)), seq![]) is None,
        },
{
    let ghost phs = placeholders(caps_view(vars@));
    let mut parts: Vec<Vec<char>> = Vec::new();
    let mut cur: Vec<char> = Vec::new();
    let n = s.len();
    let mut i: usize = 0;
    while i < n
        invariant
            i <= n == s.len(),
            phs == placeholders(caps_view(vars@)),
            split_decls_from(s@, 0, phs, seq![]) == match split_decls_from(s@, i as int, phs, cur@) {
                Some(rest) => Some(parts@.map_values(|v: Vec<char>| v@) + rest),
                None => None,
            },
        decreases n - i,
    {
        let ghost p0 = parts@.map_values(|v: Vec<char>| v@);
        match placeholder_at(s, i, vars) {
            Some(ph) => {
                proof {
                    lemma_ph_at(s@, i as int, phs, 0);
                }
                if ph.len() == 0 {
                    return None;
                }
                let ghost c0 = cur@;
                append(&mut cur, &ph);
                proof {
                    assert(matches_at(s@, ph@, i as int));
                }
                i += ph.len();
            },
            None => {
                if s[i] == ';' {
                    let done = cur;
                    cur = Vec::new();
                    parts.push(done);
                    proof {
                        assert(parts@.map_values(|v: Vec<char>| v@) =~= p0.push(done@));
                        assert(cur@ =~= Seq::<char>::empty());
                        match split_decls_from(s@, i + 1, phs, seq![]) {
                            Some(rest) => {
                                assert(p0 + (seq![done@] + rest) =~= p0.push(done@) + rest);
                            },
                            None => {},
                        }
                    }
                } else {
                    cur.push(s[i]);
                }
                i += 1;
            },
        }
    }
    let t = trim_vec(&cur);
    if t.len() > 0 {
        let ghost p0 = parts@.map_values(|v: Vec<char>| v@);
        parts.push(cur);
        proof {
            assert(parts@.map_values(|v: Vec<char>| v@) =~= p0 + seq![cur@]);
        }
    } else {
        proof {
            assert(parts@.map_values(|v: Vec<char>| v@) + Seq::<Seq<char>>::empty() =~= parts@.map_values(|v: Vec<char>| v@));
        }
    }
    Some(parts)
}

fn find_colon_outside_placeholder(s: &Vec<char>, vars: &[CapturedVar]) -> (r: Option<Option<usize>>)
    ensures
        match r {
            None => colon_outside(s@, 0, placeholders(caps_view(vars@))) is None,
            Some(None) => colon_outside(s@, 0, placeholders(caps_view(vars@))) == Some(None::<int>),
            Some(Some(c)) => colon_outside(s@, 0, placeholders(caps_view(vars@))) == Some(Some(c as int)) && c < s.len(),
        },
{
    let ghost phs = placeholders(caps_view(vars@));
    let n = s.len();
    let mut i: usize = 0;
    while i < n
        invariant
            i <= n == s.len(),
            phs == placeholders(caps_view(vars@)),
            colon_outside(s@, 0, phs) == colon_outside(s@, i as int, phs),
        decreases n - i,
    {
        match placeholder_at(s, i, vars) {
            Some(ph) => {
                proof {
                    lemma_ph_at(s@, i as int, phs, 0);
                }
                if ph.len() == 0 {
                    return None;
                }
                proof {
                    assert(matches_at(s@, ph@, i as int));
                }
                i += ph.len();
            },
            None => {
                if s[i] == ':' {
                    return Some(Some(i));
                }
                i += 1;
            },
        }
    }
    Some(None)
}


fn prop_value_exec(p: &Vec<char>, v: &Vec<char>) -> (r: Vec<char>)
    ensures
        r@ == prop_value(p@, v@),
{
    let mut r = slice_vec(p, 0, p.len());
    r.push(':');
    append(&mut r, v);
    assert(r@ =~= prop_value(p@, v@));
    r
}

fn optimize_decl(decl: &Vec<char>, simplify: bool, vars: &[CapturedVar]) -> (r: Option<Option<Vec<char>>>)
    ensures
        match r {
            None => decl_out(decl@, simplify, caps_view(vars@)) is None,
            Some(None) => decl_out(decl@, simplify, caps_view(vars@)) == Some(None::<Seq<char>>),
            Some(Some(o)) => decl_out(decl@, simplify, caps_view(vars@)) == Some(Some(o@)),
        },
{
    let d = trim_vec(decl);
    if d.len() == 0 {
        return Some(None);
    }
    match find_colon_outside_placeholder(&d, vars) {
        None => None,
        Some(None) => Some(Some(d)),
        Some(Some(c)) => {
            let p = slice_vec(&d, 0, c);
            let v = slice_vec(&d, c + 1, d.len());
            assert(p@ =~= d@.take(c as int));
            assert(v@ =~= d@.skip(c + 1));
            let prop = lowercase_vec(&trim_vec(&p));
            let value = trim_vec(&v);
            let vs = string_of(&value);
            if value_has_subst(vs.as_str(), vars) {
                return Some(Some(prop_value_exec(&prop, &value)));
            }
            if crate::css::default_value_chars(&prop, &value) {
                return Some(None);
            }
            if simplify && sheet_color_prop(&prop) {
                match crate::color::try_simplify_color(vs.as_str()) {
                    Some(nv) => Some(Some(prop_value_exec(&prop, &chars_of(nv.as_str())))),
                    None => None,
                }
            } else {
                Some(Some(prop_value_exec(&prop, &value)))
            }
        },
    }
}

fn optimize_declarations(decls: &Vec<char>, simplify: bool, vars: &[CapturedVar]) -> (r: Option<Vec<char>>)
    ensures
        match r {
            None => optimize_decls_outcome(decls@, simplify, caps_view(vars@)) is None,
            Some(o) => optimize_decls_outcome(decls@, simplify, caps_view(vars@)) == Some(o@),
        },
{
    let ghost cvs = caps_view(vars@);
    let parts = match split_declarations(decls, vars) {
        None => return None,
        Some(p) => p,
    };
    let ghost ps = parts@.map_values(|v: Vec<char>| v@);
    let mut out: Vec<char> = Vec::new();
    let ghost mut outs: Seq<Seq<char>> = seq![];
    let mut count: usize = 0;
    let mut k: usize = 0;
    while k < parts.len()
        invariant
            k <= parts.len(),
            count == outs.len(),
            count <= k,
            split_decls_from(decls@, 0, placeholders(cvs), seq![]) == Some(ps),
            cvs == caps_view(vars@),
            ps == parts@.map_values(|v: Vec<char>| v@),
            decls_out(ps.take(k as int), simplify, cvs) == Some(outs),
            out@ == join_with(outs, ';'),
        decreases parts.len() - k,
    {
        assert(ps.take(k + 1).drop_last() =~= ps.take(k as int));
        assert(ps.take(k + 1).last() == parts@[k as int]@);
        match optimize_decl(&parts[k], simplify, vars) {
            None => {
                proof {
                    assert(decl_out(ps.take(k + 1).last(), simplify, cvs) is None);
                    assert(decls_out(ps.take(k + 1), simplify, cvs) is None);
                    lemma_decls_out_none(ps, (k + 1) as int, simplify, cvs);
                    assert(split_decls_from(decls@, 0, placeholders(cvs), seq![]) == Some(ps));
                }
                return None;
            },
            Some(None) => {},
            Some(Some(o)) => {
                let ghost o0 = out@;
                if count > 0 {
                    out.push(';');
                }
                count += 1;
                append(&mut out, &o);
                proof {
                    let n2 = outs.push(o@);
                    assert(n2.drop_last() =~= outs);
                    if outs.len() == 0 {
                        assert(out@ =~= o@);
                        assert(join_with(n2, ';') == n2[0]);
                    } else {
                        assert(out@ =~= o0 + seq![';'] + o@);
                    }
                    outs = n2;
                }
            },
        }
        k += 1;
    }
    assert(ps.take(k as int) =~= ps);
    Some(out)
}

proof fn lemma_decls_out_none(ps: Seq<Seq<char>>, k: int, simplify: bool, cvs: Seq<CapView>)
    requires
        0 <= k <= ps.len(),
        decls_out(ps.take(k), simplify, cvs) is None,
    ensures
        decls_out(ps, simplify, cvs) is None,
    decreases ps.len() - k,
{
    if k < ps.len() {
        assert(ps.take(k + 1).drop_last() =~= ps.take(k));
        lemma_decls_out_none(ps, k + 1, simplify, cvs);
    } else {
        assert(ps.take(k) =~= ps);
    }
}

// ─── Selectors ────────────────────────────────────────────────────────────────

/// `HashMap::get` on the rename entries: the value of the first entry with
/// key `k`.
pub open spec fn id_lookup(m: Seq<(Seq<char>, Option<Seq<char>>)>, k: Seq<char>) -> Option<Option<Seq<char>>>
    decreases m.len(),
{
    if m.len() == 0 {
        None
    } else if m[0].0 == k {
        Some(m[0].1)
    } else {
        id_lookup(m.drop_first(), k)
    }
}

/// A referenced ID renamed through the map: its new name where it has one.
pub open spec fn renamed(m: Seq<(Seq<char>, Option<Seq<char>>)>, id: Seq<char>) -> Seq<char> {
    match id_lookup(m, id) {
        Some(Some(n)) => n,
        _ => id,
    }
}

pub fn renamed_id(m: &[(String, Option<String>)], id: &Vec<char>) -> (r: Vec<char>)
    ensures
        r@ == renamed(crate::ids::entries_view(m@), id@),
{
    let ghost mv = crate::ids::entries_view(m@);
    let mut j: usize = 0;
    assert(mv.skip(0) =~= mv);
    while j < m.len()
        invariant
            j <= m.len(),
            mv == crate::ids::entries_view(m@),
            id_lookup(mv, id@) == id_lookup(mv.skip(j as int), id@),
        decreases m.len() - j,
    {
        assert(mv.skip(j as int)[0] == mv[j as int]);
        let key = chars_of(m[j].0.as_str());
        if eq_vec(&key, id) {
            return match &m[j].1 {
                Some(n) => chars_of(n.as_str()),
                None => slice_vec(id, 0, id.len()),
            };
        }
        assert(mv.skip(j as int).drop_first() =~= mv.skip(j + 1));
        j += 1;
    }
    slice_vec(id, 0, id.len())
}

pub open spec fn id_char(c: char) -> bool {
    crate::text::alphanumeric(c) || c == '-' || c == '_'
}

/// End of the ID that starts at `i`.
pub open spec fn id_end(s: Seq<char>, i: int) -> int
    decreases s.len() - i,
{
    if i < 0 || i >= s.len() || !id_char(s[i]) {
        i
    } else {
        id_end(s, i + 1)
    }
}

pub proof fn lemma_id_end(s: Seq<char>, i: int)
    requires
        0 <= i <= s.len(),
    ensures
        i <= id_end(s, i) <= s.len(),
    decreases s.len() - i,
{
    if i < s.len() && id_char(s[i]) {
        lemma_id_end(s, i + 1);
    }
}

/// The selector from index `i` on with every `#id` renamed.
pub open spec fn selector_from(s: Seq<char>, i: int, m: Seq<(Seq<char>, Option<Seq<char>>)>) -> Seq<char>
    decreases s.len() - i,
{
    if i < 0 || i >= s.len() {
        seq![]
    } else if s[i] == '#' {
        proof {
            lemma_id_end(s, i + 1);
        }
        let e = id_end(s, i + 1);
        seq!['#'] + renamed(m, s.subrange(i + 1, e)) + selector_from(s, e, m)
    } else {
        seq![s[i]] + selector_from(s, i + 1, m)
    }
}

pub open spec fn rewrite_selector_spec(sel: Seq<char>, m: Seq<(Seq<char>, Option<Seq<char>>)>, cvs: Seq<CapView>) -> Seq<char> {
    if m.len() == 0 || !sel.contains('#') {
        sel
    } else if has_placeholder(sel, cvs) {
        sel
    } else {
        selector_from(sel, 0, m)
    }
}

fn rewrite_selector(selector: &Vec<char>, id_map: &[(String, Option<String>)], vars: &[CapturedVar]) -> (r: Vec<char>)
    ensures
        r@ == rewrite_selector_spec(selector@, crate::ids::entries_view(id_map@), caps_view(vars@)),
{
    let ghost mv = crate::ids::entries_view(id_map@);
    if id_map.len() == 0 || !has_char(selector, '#') {
        return slice_vec(selector, 0, selector.len());
    }
    if value_has_subst(string_of(selector).as_str(), vars) {
        return slice_vec(selector, 0, selector.len());
    }
    let n = selector.len();
    let mut out: Vec<char> = Vec::new();
    let mut i: usize = 0;
    while i < n
        invariant
            i <= n == selector.len(),
            mv == crate::ids::entries_view(id_map@),
            out@ + selector_from(selector@, i as int, mv) == selector_from(selector@, 0, mv),
        decreases n - i,
    {
        let ghost o0 = out@;
        if selector[i] == '#' {
            out.push('#');
            i += 1;
            let id_start = i;
            while i < n && (char_is_alphanumeric(selector[i]) || selector[i] == '-' || selector[i] == '_')
                invariant
                    id_start <= i <= n == selector.len(),
                    id_end(selector@, id_start as int) == id_end(selector@, i as int),
                decreases n - i,
            {
                i += 1;
            }
            let id = slice_vec(selector, id_start, i);
            let nid = renamed_id(id_map, &id);
            append(&mut out, &nid);
            proof {
                lemma_id_end(selector@, id_start as int);
                assert(out@ + selector_from(selector@, i as int, mv) =~= o0 + selector_from(selector@, id_start - 1, mv));
            }
        } else {
            out.push(selector[i]);
            proof {
                assert(out@ + selector_from(selector@, i + 1, mv) =~= o0 + selector_from(selector@, i as int, mv));
            }
            i += 1;
        }
    }
    assert(out@ + Seq::<char>::empty() =~= out@);
    out
}


// ─── At-rules ─────────────────────────────────────────────────────────────────

pub proof fn lemma_first_index_bound(s: Seq<char>, c: char)
    ensures
        0 <= first_index(s, c) <= s.len(),
        first_index(s, c) < s.len() ==> s[first_index(s, c)] == c,
        forall|q: int| 0 <= q < first_index(s, c) ==> s[q] != c,
    decreases s.len(),
{
    if s.len() > 0 && s[0] != c {
        lemma_first_index_bound(s.drop_first(), c);
        assert forall|q: int| 0 <= q < first_index(s, c) implies s[q] != c by {
            if q > 0 {
                assert(s[q] == s.drop_first()[q - 1]);
            }
        }
    }
}

/// `str::lines`: pieces ended by `\n` (a `\r` before it dropped), the last
/// one without its line end; no piece after a final `\n`.
pub open spec fn lines_spec(s: Seq<char>) -> Seq<Seq<char>>
    decreases s.len(),
{
    if s.len() == 0 {
        seq![]
    } else {
        proof {
            lemma_first_index_bound(s, '\n');
        }
        let j = first_index(s, '\n');
        if j >= s.len() {
            seq![s]
        } else {
            let l = s.take(j);
            let l2 = if l.len() > 0 && l.last() == '\r' {
                l.drop_last()
            } else {
                l
            };
            seq![l2] + lines_spec(s.skip(j + 1))
        }
    }
}

/// A line of a keyframes block with a color declaration simplified; `None`
/// where simplifying has no result.
pub open spec fn color_line(line: Seq<char>, cvs: Seq<CapView>) -> Option<Seq<char>> {
    let c = first_index(line, ':');
    if c >= line.len() {
        Some(line)
    } else {
        let prop = spec_to_lowercase(trim(line.take(c)));
        let val = trim(line.skip(c + 1));
        if is_sheet_color_prop(prop) && !has_placeholder(val, cvs) {
            match simplify_color_outcome(val) {
                Some(nv) => Some(prop_value(prop, nv)),
                None => None,
            }
        } else {
            Some(line)
        }
    }
}

pub open spec fn color_lines(ls: Seq<Seq<char>>, cvs: Seq<CapView>) -> Option<Seq<Seq<char>>>
    decreases ls.len(),
{
    if ls.len() == 0 {
        Some(seq![])
    } else {
        match (color_lines(ls.drop_last(), cvs), color_line(ls.last(), cvs)) {
            (Some(a), Some(l)) => Some(a.push(l)),
            _ => None,
        }
    }
}

/// What `rewrite_color_in_block` returns: `None` where a color has no
/// simplification.
pub open spec fn color_block_outcome(block: Seq<char>, simplify: bool, cvs: Seq<CapView>) -> Option<Seq<char>> {
    if !simplify {
        Some(block)
    } else {
        match color_lines(lines_spec(block), cvs) {
            Some(ls) => Some(join_with(ls, '\n')),
            None => None,
        }
    }
}

/// What `rewrite_at_rule` returns for an at-rule `b` with keyword `kw`: an
/// `@media` or `@supports` rule with a block has the style sheet inside its
/// braces optimized (with `fuel` levels of nesting left); a keyframes block
/// has its colors simplified; anything else is kept. `None` where the inner
/// sheet or a color has no result.
pub open spec fn at_rule_outcome(
    kw: Seq<char>,
    b: Seq<char>,
    m: Seq<(Seq<char>, Option<Seq<char>>)>,
    simplify: bool,
    cvs: Seq<CapView>,
    fuel: nat,
) -> Option<Seq<char>>
    decreases fuel, 0nat, 0nat,
{
    let lower = spec_to_lowercase(kw);
    if lower == "media"@ || lower == "supports"@ {
        let p = first_index(b, '{');
        if p < b.len() && b.last() == '}' {
            if fuel == 0 {
                None
            } else {
                match style_block_at(b.subrange(p + 1, b.len() - 1), m, simplify, cvs, (fuel - 1) as nat) {
                    Some(o) => Some(b.take(p + 1) + o + seq!['}']),
                    None => None,
                }
            }
        } else {
            Some(b)
        }
    } else if lower == "keyframes"@ || lower == "-webkit-keyframes"@ || lower == "-moz-keyframes"@ {
        color_block_outcome(b, simplify, cvs)
    } else {
        Some(b)
    }
}

fn lines_vec(s: &Vec<char>) -> (r: Vec<Vec<char>>)
    ensures
        r@.map_values(|v: Vec<char>| v@) == lines_spec(s@),
{
    let mut out: Vec<Vec<char>> = Vec::new();
    let mut i: usize = 0;
    assert(s@.skip(0) =~= s@);
    while i < s.len()
        invariant
            i <= s.len(),
            out@.map_values(|v: Vec<char>| v@) + lines_spec(s@.skip(i as int)) == lines_spec(s@),
        decreases s.len() - i,
    {
        let ghost t = s@.skip(i as int);
        let rest = slice_vec(s, i, s.len());
        assert(rest@ =~= t);
        let j = first_index_of(&rest, '\n');
        proof {
            lemma_first_index_bound(t, '\n');
        }
        let ghost o0 = out@.map_values(|v: Vec<char>| v@);
        if j >= rest.len() {
            out.push(rest);
            proof {
                assert(out@.map_values(|v: Vec<char>| v@) =~= o0.push(t));
                assert(lines_spec(t) == seq![t]);
                assert(o0 + seq![t] =~= o0.push(t));
                assert(s@.skip(s.len() as int) =~= Seq::<char>::empty());
                assert(lines_spec(Seq::<char>::empty()) =~= Seq::<Seq<char>>::empty());
                assert(o0.push(t) + Seq::<Seq<char>>::empty() =~= o0.push(t));
            }
            i = s.len();
        } else {
            let mut l = slice_vec(&rest, 0, j);
            if l.len() > 0 && l[l.len() - 1] == '\r' {
                l.pop();
            }
            let ghost lt = t.take(j as int);
            assert(lt =~= rest@.take(j as int));
            let ghost l2 = if lt.len() > 0 && lt.last() == '\r' {
                lt.drop_last()
            } else {
                lt
            };
            assert(l@ =~= l2);
            out.push(l);
            proof {
                assert(t.skip(j + 1) =~= s@.skip(i + j + 1));
                assert(out@.map_values(|v: Vec<char>| v@) =~= o0.push(l2));
                assert(o0 + (seq![l2] + lines_spec(t.skip(j + 1))) =~= o0.push(l2) + lines_spec(t.skip(j + 1)));
            }
            i = i + j + 1;
        }
    }
    assert(s@.skip(i as int) =~= Seq::<char>::empty());
    assert(out@.map_values(|v: Vec<char>| v@) + Seq::<Seq<char>>::empty() =~= out@.map_values(|v: Vec<char>| v@));
    out
}

fn color_line_exec(line: &Vec<char>, vars: &[CapturedVar]) -> (r: Option<Vec<char>>)
    ensures
        match r {
            Some(o) => color_line(line@, caps_view(vars@)) == Some(o@),
            None => color_line(line@, caps_view(vars@)) is None,
        },
{
    let c = first_index_of(line, ':');
    if c >= line.len() {
        return Some(slice_vec(line, 0, line.len()));
    }
    let head = slice_vec(line, 0, c);
    assert(head@ =~= line@.take(c as int));
    let prop = lowercase_vec(&trim_vec(&head));
    let tail = slice_vec(line, c + 1, line.len());
    assert(tail@ =~= line@.skip(c + 1));
    let val = trim_vec(&tail);
    let vs = string_of(&val);
    if sheet_color_prop(&prop) && !value_has_subst(vs.as_str(), vars) {
        match crate::color::try_simplify_color(vs.as_str()) {
            Some(nv) => Some(prop_value_exec(&prop, &chars_of(nv.as_str()))),
            None => None,
        }
    } else {
        Some(slice_vec(line, 0, line.len()))
    }
}

fn rewrite_color_in_block(block: &Vec<char>, simplify: bool, vars: &[CapturedVar]) -> (r: Option<Vec<char>>)
    ensures
        match r {
            Some(o) => color_block_outcome(block@, simplify, caps_view(vars@)) == Some(o@),
            None => color_block_outcome(block@, simplify, caps_view(vars@)) is None,
        },
{
    if !simplify {
        return Some(slice_vec(block, 0, block.len()));
    }
    let ghost cvs = caps_view(vars@);
    let lines = lines_vec(block);
    let ghost ls = lines@.map_values(|v: Vec<char>| v@);
    let mut out: Vec<char> = Vec::new();
    let ghost mut done: Seq<Seq<char>> = seq![];
    let mut k: usize = 0;
    while k < lines.len()
        invariant
            k <= lines.len(),
            cvs == caps_view(vars@),
            ls == lines@.map_values(|v: Vec<char>| v@),
            ls == lines_spec(block@),
            simplify,
            color_lines(ls.take(k as int), cvs) == Some(done),
            done.len() == k,
            out@ == join_with(done, '\n'),
        decreases lines.len() - k,
    {
        assert(ls.take(k + 1).drop_last() =~= ls.take(k as int));
        assert(ls.take(k + 1).last() == lines@[k as int]@);
        match color_line_exec(&lines[k], vars) {
            None => {
                proof {
                    assert(color_line(ls.take(k + 1).last(), cvs) is None);
                    assert(color_lines(ls.take(k + 1), cvs) is None);
                    lemma_color_lines_none(ls, (k + 1) as int, cvs);
                }
                return None;
            },
            Some(l) => {
                let ghost o0 = out@;
                if k > 0 {
                    out.push('\n');
                }
                append(&mut out, &l);
                proof {
                    let d2 = done.push(l@);
                    assert(d2.drop_last() =~= done);
                    if k == 0 {
                        assert(out@ =~= l@);
                    } else {
                        assert(out@ =~= o0 + seq!['\n'] + l@);
                    }
                    done = d2;
                }
            },
        }
        k += 1;
    }
    assert(ls.take(k as int) =~= ls);
    Some(out)
}

proof fn lemma_color_lines_none(ls: Seq<Seq<char>>, k: int, cvs: Seq<CapView>)
    requires
        0 <= k <= ls.len(),
        color_lines(ls.take(k), cvs) is None,
    ensures
        color_lines(ls, cvs) is None,
    decreases ls.len() - k,
{
    if k < ls.len() {
        assert(ls.take(k + 1).drop_last() =~= ls.take(k));
        lemma_color_lines_none(ls, k + 1, cvs);
    } else {
        assert(ls.take(k) =~= ls);
    }
}

#[verifier::rlimit(40)]
fn rewrite_at_rule(
    keyword: &Vec<char>,
    block: &Vec<char>,
    id_map: &[(String, Option<String>)],
    simplify: bool,
    vars: &[CapturedVar],
    fuel: usize,
) -> (r: Option<Vec<char>>)
    ensures
        match r {
            Some(o) => at_rule_outcome(keyword@, block@, crate::ids::entries_view(id_map@), simplify, caps_view(vars@), fuel as nat) == Some(o@),
            None => at_rule_outcome(keyword@, block@, crate::ids::entries_view(id_map@), simplify, caps_view(vars@), fuel as nat) is None,
        },
    decreases fuel, 0nat,
{
    let lower = lowercase_vec(keyword);
    if eq_str(&lower, "media") || eq_str(&lower, "supports") {
        let p = first_index_of(block, '{');
        proof {
            lemma_first_index_bound(block@, '{');
        }
        if p < block.len() && block[block.len() - 1] == '}' {
            assert(p < block.len() - 1);
            if fuel == 0 {
                return None;
            }
            let inner = slice_vec(block, p + 1, block.len() - 1);
            match style_block_opt(&inner, id_map, simplify, vars, fuel - 1) {
                None => None,
                Some(o) => {
                    let mut r = slice_vec(block, 0, p + 1);
                    append(&mut r, &o);
                    r.push('}');
                    assert(block@.subrange(0, p + 1) =~= block@.take(p + 1));
                    Some(r)
                },
            }
        } else {
            Some(slice_vec(block, 0, block.len()))
        }
    } else if eq_str(&lower, "keyframes") || eq_str(&lower, "-webkit-keyframes") || eq_str(&lower, "-moz-keyframes") {
        rewrite_color_in_block(block, simplify, vars)
    } else {
        Some(slice_vec(block, 0, block.len()))
    }
}

// ─── The style block ──────────────────────────────────────────────────────────

/// The output of one token; `None` where it has no result.
pub open spec fn tok_out(
    t: CssTok,
    m: Seq<(Seq<char>, Option<Seq<char>>)>,
    simplify: bool,
    cvs: Seq<CapView>,
    fuel: nat,
) -> Option<Seq<char>>
    decreases fuel, 1nat, 0nat,
{
    match t {
        CssTok::AtRule(kw, b) => at_rule_outcome(kw, b, m, simplify, cvs, fuel),
        CssTok::Rule(sel, d) => match optimize_decls_outcome(d, simplify, cvs) {
            None => None,
            Some(nd) => Some(
                if trim(nd).len() > 0 {
                    rewrite_selector_spec(sel, m, cvs) + seq!['{'] + nd + seq!['}']
                } else {
                    seq![]
                },
            ),
        },
        CssTok::Comment(c) => Some(c),
        CssTok::Raw(r) => Some(r),
    }
}

pub open spec fn toks_out(
    ts: Seq<CssTok>,
    m: Seq<(Seq<char>, Option<Seq<char>>)>,
    simplify: bool,
    cvs: Seq<CapView>,
    fuel: nat,
) -> Option<Seq<char>>
    decreases fuel, 2nat, ts.len(),
{
    if ts.len() == 0 {
        Some(seq![])
    } else {
        match (toks_out(ts.drop_last(), m, simplify, cvs, fuel), tok_out(ts.last(), m, simplify, cvs, fuel)) {
            (Some(a), Some(b)) => Some(a + b),
            _ => None,
        }
    }
}

/// The optimized style sheet with `fuel` levels of nested `@media` or
/// `@supports` blocks allowed.
pub open spec fn style_block_at(
    css: Seq<char>,
    m: Seq<(Seq<char>, Option<Seq<char>>)>,
    simplify: bool,
    cvs: Seq<CapView>,
    fuel: nat,
) -> Option<Seq<char>>
    decreases fuel, 3nat, 0nat,
{
    match tokenize_spec(css) {
        None => None,
        Some(ts) => toks_out(ts, m, simplify, cvs, fuel),
    }
}

/// What `optimize_style_block` returns for a style sheet; `None` where it
/// has no result. Each nested block is shorter than the one around it, so
/// nesting never runs deeper than the sheet is long.
pub open spec fn style_block_outcome(
    css: Seq<char>,
    m: Seq<(Seq<char>, Option<Seq<char>>)>,
    simplify: bool,
    cvs: Seq<CapView>,
) -> Option<Seq<char>> {
    style_block_at(css, m, simplify, cvs, css.len())
}

proof fn lemma_toks_out_none(
    ts: Seq<CssTok>,
    k: int,
    m: Seq<(Seq<char>, Option<Seq<char>>)>,
    simplify: bool,
    cvs: Seq<CapView>,
    fuel: nat,
)
    requires
        0 <= k <= ts.len(),
        toks_out(ts.take(k), m, simplify, cvs, fuel) is None,
    ensures
        toks_out(ts, m, simplify, cvs, fuel) is None,
    decreases ts.len() - k,
{
    if k < ts.len() {
        assert(ts.take(k + 1).drop_last() =~= ts.take(k));
        lemma_toks_out_none(ts, k + 1, m, simplify, cvs, fuel);
    } else {
        assert(ts.take(k) =~= ts);
    }
}

fn style_block_opt(
    css: &Vec<char>,
    id_map: &[(String, Option<String>)],
    simplify_colors: bool,
    vars: &[CapturedVar],
    fuel: usize,
) -> (r: Option<Vec<char>>)
    ensures
        match r {
            Some(o) => style_block_at(css@, crate::ids::entries_view(id_map@), simplify_colors, caps_view(vars@), fuel as nat) == Some(o@),
            None => style_block_at(css@, crate::ids::entries_view(id_map@), simplify_colors, caps_view(vars@), fuel as nat) is None,
        },
    decreases fuel, 1nat,
{
    let ghost m = crate::ids::entries_view(id_map@);
    let ghost cvs = caps_view(vars@);
    let tokens = match tokenize_css(css) {
        None => return None,
        Some(t) => t,
    };
    let ghost ts = toks_view(tokens@);
    let mut out: Vec<char> = Vec::new();
    let mut k: usize = 0;
    while k < tokens.len()
        invariant
            k <= tokens.len(),
            m == crate::ids::entries_view(id_map@),
            cvs == caps_view(vars@),
            ts == toks_view(tokens@),
            tokenize_spec(css@) == Some(ts),
            toks_out(ts.take(k as int), m, simplify_colors, cvs, fuel as nat) == Some(out@),
        decreases tokens.len() - k,
    {
        assert(ts.take(k + 1).drop_last() =~= ts.take(k as int));
        assert(ts.take(k + 1).last() == tok_view(tokens@[k as int]));
        let ghost o0 = out@;
        let piece: Option<Vec<char>> = match &tokens[k] {
            CssToken::AtRule(kw, block) => rewrite_at_rule(kw, block, id_map, simplify_colors, vars, fuel),
            CssToken::Rule(selector, decls) => {
                let new_sel = rewrite_selector(selector, id_map, vars);
                match optimize_declarations(decls, simplify_colors, vars) {
                    None => None,
                    Some(nd) => {
                        let t = trim_vec(&nd);
                        if t.len() > 0 {
                            let mut p = new_sel;
                            p.push('{');
                            append(&mut p, &nd);
                            p.push('}');
                            Some(p)
                        } else {
                            Some(Vec::new())
                        }
                    },
                }
            },
            CssToken::Comment(c) => Some(slice_vec(c, 0, c.len())),
            CssToken::Raw(r) => Some(slice_vec(r, 0, r.len())),
        };
        match piece {
            None => {
                proof {
                    assert(tok_out(ts.take(k + 1).last(), m, simplify_colors, cvs, fuel as nat) is None);
                    assert(toks_out(ts.take(k + 1), m, simplify_colors, cvs, fuel as nat) is None);
                    lemma_toks_out_none(ts, (k + 1) as int, m, simplify_colors, cvs, fuel as nat);
                }
                return None;
            },
            Some(p) => {
                proof {
                    assert(tok_out(ts.take(k + 1).last(), m, simplify_colors, cvs, fuel as nat) == Some(p@)) by {
                        match tokens@[k as int] {
                            CssToken::Rule(sel, d) => {
                                let nd = optimize_decls_outcome(d@, simplify_colors, cvs);
                                if let Some(ndv) = nd {
                                    if trim(ndv).len() > 0 {
                                        assert(p@ =~= rewrite_selector_spec(sel@, m, cvs) + seq!['{'] + ndv + seq!['}']);
                                    } else {
                                        assert(p@ =~= Seq::<char>::empty());
                                    }
                                }
                            },
                            _ => {},
                        }
                    }
                }
                append(&mut out, &p);
            },
        }
        k += 1;
    }
    assert(ts.take(k as int) =~= ts);
    Some(out)
}

pub fn optimize_style_block(
    css: &str,
    id_map: &[(String, Option<String>)],
    simplify_colors: bool,
    vars: &[CapturedVar],
) -> (r: String)
    requires
        style_block_outcome(css@, crate::ids::entries_view(id_map@), simplify_colors, caps_view(vars@)) is Some,
    ensures
        style_block_outcome(css@, crate::ids::entries_view(id_map@), simplify_colors, caps_view(vars@)) == Some(r@),
{
    let c = chars_of(css);
    match style_block_opt(&c, id_map, simplify_colors, vars, c.len()) {
        Some(o) => string_of(&o),
        None => string_of(&c),
    }
}

/// `optimize_style_block` on every input: `None` exactly where it has no
/// result (an unclosed comment or at-rule block, a color that cannot be
/// sliced, an empty placeholder).
pub fn try_optimize_style_block(
    css: &str,
    id_map: &[(String, Option<String>)],
    simplify_colors: bool,
    vars: &[CapturedVar],
) -> (r: Option<String>)
    ensures
        match r {
            Some(o) => style_block_outcome(css@, crate::ids::entries_view(id_map@), simplify_colors, caps_view(vars@)) == Some(o@),
            None => style_block_outcome(css@, crate::ids::entries_view(id_map@), simplify_colors, caps_view(vars@)) is None,
        },
{
    let c = chars_of(css);
    match style_block_opt(&c, id_map, simplify_colors, vars, c.len()) {
        Some(_) => Some(optimize_style_block(css, id_map, simplify_colors, vars)),
        None => None,
    }
}

/// A declaration whose value holds a substitution placeholder is neither
/// simplified nor stripped as a default: it is written with its property
/// lowercased and its value as it stands.
pub proof fn lemma_placeholder_decls_kept(
    decl: Seq<char>,
    simplify: bool,
    cvs: Seq<CapView>,
    c: int,
    p: Seq<char>,
    v: Seq<char>,
)
    requires
        colon_outside(trim(decl), 0, placeholders(cvs)) == Some(Some(c)),
        p == trim(decl).take(c),
        v == trim(decl).skip(c + 1),
        has_placeholder(trim(v), cvs),
    ensures
        decl_out(decl, simplify, cvs) == Some(Some(prop_value(spec_to_lowercase(trim(p)), trim(v)))),
{
}


// ─── Laws of selector rewriting ───────────────────────────────────────────────

proof fn lemma_id_end_shift(a: Seq<char>, b: Seq<char>, j: int)
    requires
        0 <= j <= b.len(),
    ensures
        id_end(a + b, a.len() + j) == a.len() + id_end(b, j),
    decreases b.len() - j,
{
    if j < b.len() {
        assert((a + b)[a.len() + j] == b[j]);
        if id_char(b[j]) {
            lemma_id_end_shift(a, b, j + 1);
        }
    }
}

proof fn lemma_selector_shift(a: Seq<char>, b: Seq<char>, j: int, m: Seq<(Seq<char>, Option<Seq<char>>)>)
    requires
        0 <= j <= b.len(),
    ensures
        selector_from(a + b, a.len() + j, m) == selector_from(b, j, m),
    decreases b.len() - j,
{
    if j < b.len() {
        let s = a + b;
        assert(s[a.len() + j] == b[j]);
        if b[j] == '#' {
            lemma_id_end_shift(a, b, j + 1);
            lemma_id_end(b, j + 1);
            let e = id_end(b, j + 1);
            assert(s.subrange(a.len() + j + 1, a.len() + e) =~= b.subrange(j + 1, e));
            lemma_selector_shift(a, b, e, m);
        } else {
            lemma_selector_shift(a, b, j + 1, m);
        }
    }
}

proof fn lemma_id_end_prefix(a: Seq<char>, b: Seq<char>, k: int)
    requires
        0 <= k <= a.len(),
        b.len() == 0 || !id_char(b[0]),
    ensures
        id_end(a + b, k) == id_end(a, k),
    decreases a.len() - k,
{
    if k < a.len() {
        assert((a + b)[k] == a[k]);
        if id_char(a[k]) {
            lemma_id_end_prefix(a, b, k + 1);
        }
    } else if b.len() > 0 {
        assert((a + b)[k] == b[0]);
    }
}

proof fn lemma_selector_split_from(a: Seq<char>, b: Seq<char>, i: int, m: Seq<(Seq<char>, Option<Seq<char>>)>)
    requires
        0 <= i <= a.len(),
        b.len() == 0 || !id_char(b[0]),
    ensures
        selector_from(a + b, i, m) == selector_from(a, i, m) + selector_from(b, 0, m),
    decreases a.len() - i,
{
    let s = a + b;
    if i == a.len() {
        lemma_selector_shift(a, b, 0, m);
        assert(selector_from(a, i, m) + selector_from(b, 0, m) =~= selector_from(b, 0, m));
    } else {
        assert(s[i] == a[i]);
        if a[i] == '#' {
            lemma_id_end_prefix(a, b, i + 1);
            lemma_id_end(a, i + 1);
            let e = id_end(a, i + 1);
            assert(s.subrange(i + 1, e) =~= a.subrange(i + 1, e));
            lemma_selector_split_from(a, b, e, m);
            assert(selector_from(s, i, m) =~= selector_from(a, i, m) + selector_from(b, 0, m));
        } else {
            lemma_selector_split_from(a, b, i + 1, m);
            assert(selector_from(s, i, m) =~= selector_from(a, i, m) + selector_from(b, 0, m));
        }
    }
}

/// Rewriting a selector is local: split before a character that cannot
/// continue an ID, each part is rewritten on its own and the results are
/// joined, so every `#id` is renamed wherever it stands.
pub proof fn lemma_selector_split(a: Seq<char>, b: Seq<char>, m: Seq<(Seq<char>, Option<Seq<char>>)>)
    requires
        b.len() == 0 || !id_char(b[0]),
    ensures
        selector_from(a + b, 0, m) == selector_from(a, 0, m) + selector_from(b, 0, m),
{
    lemma_selector_split_from(a, b, 0, m);
}

/// With an empty map, or without `#`, rewriting leaves text as it is.
proof fn lemma_selector_unchanged(x: Seq<char>, i: int, m: Seq<(Seq<char>, Option<Seq<char>>)>)
    requires
        0 <= i <= x.len(),
        m.len() == 0 || !x.contains('#'),
    ensures
        selector_from(x, i, m) == x.subrange(i, x.len() as int),
    decreases x.len() - i,
{
    if i < x.len() {
        if x[i] == '#' {
            lemma_id_end(x, i + 1);
            let e = id_end(x, i + 1);
            lemma_selector_unchanged(x, e, m);
            assert(id_lookup(m, x.subrange(i + 1, e)) is None);
            assert(selector_from(x, i, m) =~= x.subrange(i, x.len() as int));
        } else {
            lemma_selector_unchanged(x, i + 1, m);
            assert(selector_from(x, i, m) =~= x.subrange(i, x.len() as int));
        }
    }
}

proof fn lemma_rewrite_is_selector_from(x: Seq<char>, m: Seq<(Seq<char>, Option<Seq<char>>)>, cvs: Seq<CapView>)
    requires
        !has_placeholder(x, cvs),
    ensures
        rewrite_selector_spec(x, m, cvs) == selector_from(x, 0, m),
{
    if m.len() == 0 || !x.contains('#') {
        lemma_selector_unchanged(x, 0, m);
        assert(x.subrange(0, x.len() as int) =~= x);
    }
}

/// Every `#id` of a selector without placeholders is renamed through the
/// map, not only the first: rewriting `p#id q`, where `q` does not go on
/// with the ID, gives `p` rewritten, `#`, the new name of `id`, and `q`
/// rewritten.
pub proof fn lemma_rewrite_selector_renames_each_id(
    p: Seq<char>,
    id: Seq<char>,
    q: Seq<char>,
    m: Seq<(Seq<char>, Option<Seq<char>>)>,
    cvs: Seq<CapView>,
)
    requires
        forall|k: int| 0 <= k < id.len() ==> id_char(#[trigger] id[k]),
        q.len() == 0 || !id_char(q[0]),
        !has_placeholder(p + seq!['#'] + id + q, cvs),
        !has_placeholder(p, cvs),
        !has_placeholder(q, cvs),
    ensures
        rewrite_selector_spec(p + seq!['#'] + id + q, m, cvs) == rewrite_selector_spec(p, m, cvs)
            + seq!['#'] + renamed(m, id) + rewrite_selector_spec(q, m, cvs),
{
    let b = seq!['#'] + id + q;
    let h = seq!['#'] + id;
    assert(p + seq!['#'] + id + q =~= p + b);
    assert(b =~= h + q);
    lemma_rewrite_is_selector_from(p + b, m, cvs);
    lemma_rewrite_is_selector_from(p, m, cvs);
    lemma_rewrite_is_selector_from(q, m, cvs);
    assert(b[0] == '#');
    assert(!id_char('#'));
    lemma_selector_split(p, b, m);
    // The `#id` at the front of `b`.
    assert forall|k: int| 1 <= k < h.len() implies id_char(#[trigger] (h + q)[k]) by {
        assert((h + q)[k] == id[k - 1]);
    }
    assert(id_end(h + q, 1) == h.len()) by {
        lemma_id_end_prefix(h, q, 1);
        lemma_id_end_all(h, 1);
    }
    assert(b.subrange(1, h.len() as int) =~= id);
    lemma_selector_shift(h, q, 0, m);
    assert(h.len() + 0 == h.len());
}

proof fn lemma_id_end_all(h: Seq<char>, k: int)
    requires
        1 <= k <= h.len(),
        forall|j: int| 1 <= j < h.len() ==> id_char(#[trigger] h[j]),
    ensures
        id_end(h, k) == h.len(),
    decreases h.len() - k,
{
    if k < h.len() {
        lemma_id_end_all(h, k + 1);
    }
}


proof fn lemma_id_lookup_first(m: Seq<(Seq<char>, Option<Seq<char>>)>, j: int, id: Seq<char>)
    requires
        0 <= j < m.len(),
        m[j].0 == id,
        forall|k: int| 0 <= k < j ==> m[k].0 != id,
    ensures
        id_lookup(m, id) == Some(m[j].1),
    decreases j,
{
    if j > 0 {
        assert forall|k: int| 0 <= k < j - 1 implies m.drop_first()[k].0 != id by {
            assert(m.drop_first()[k] == m[k + 1]);
        }
        lemma_id_lookup_first(m.drop_first(), j - 1, id);
    }
}

proof fn lemma_id_lookup_absent(m: Seq<(Seq<char>, Option<Seq<char>>)>, id: Seq<char>)
    requires
        forall|k: int| 0 <= k < m.len() ==> m[k].0 != id,
    ensures
        id_lookup(m, id) is None,
    decreases m.len(),
{
    if m.len() > 0 {
        assert forall|k: int| 0 <= k < m.drop_first().len() implies m.drop_first()[k].0 != id by {
            assert(m.drop_first()[k] == m[k + 1]);
        }
        lemma_id_lookup_absent(m.drop_first(), id);
    }
}

/// The name an ID is written with: the new name of the first entry for it
/// where that entry renames it, else the ID itself (no entry, or an entry
/// that removes it).
pub proof fn lemma_renamed(m: Seq<(Seq<char>, Option<Seq<char>>)>, id: Seq<char>)
    ensures
        (forall|k: int| 0 <= k < m.len() ==> m[k].0 != id) ==> renamed(m, id) == id,
        forall|j: int|
            0 <= j < m.len() && m[j].0 == id && (forall|k: int| 0 <= k < j ==> m[k].0 != id)
                ==> renamed(m, id) == (match #[trigger] m[j].1 {
                Some(n) => n,
                None => id,
            }),
{
    if forall|k: int| 0 <= k < m.len() ==> m[k].0 != id {
        lemma_id_lookup_absent(m, id);
    }
    assert forall|j: int|
        0 <= j < m.len() && m[j].0 == id && (forall|k: int| 0 <= k < j ==> m[k].0 != id) implies renamed(m, id)
        == (match #[trigger] m[j].1 {
        Some(n) => n,
        None => id,
    }) by {
        lemma_id_lookup_first(m, j, id);
    }
}


/// The ASCII characters of an ID are the letters, the digits, `-` and `_`;
/// every other ASCII character, such as `#`, `,`, `.`, `:` or a space, ends
/// it.
pub proof fn lemma_ascii_id_chars(c: char)
    requires
        (c as u32) < 128,
    ensures
        id_char(c) <==> (('a' <= c && c <= 'z') || ('A' <= c && c <= 'Z') || ('0' <= c && c <= '9') || c
            == '-' || c == '_'),
{
}

} // verus!
