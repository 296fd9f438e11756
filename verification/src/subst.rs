//! Substitution-variable protection.
//!
//! SVG templates hold `{{keyword}}` placeholders that are replaced at render
//! time.  Before the document is parsed as XML every valid token is replaced by
//! `<neutral><sentinel>VAR<k><sentinel>END`: a value that is syntactically valid
//! where the token stands (`#000` for a color, `M0 0` for path data, ...),
//! followed by a tag that cannot occur in the document.  After optimization the
//! tags are replaced back by the original tokens.
//!
//! Where a token stands is found by a forward scan over the raw text that
//! tracks whether it is between tags, inside a tag name, an attribute name or
//! a quoted attribute value, inside text, a comment or a CDATA section.
use vstd::prelude::*;
use vstd::set_lib::{set_int_range, lemma_int_range, lemma_map_size, lemma_len_subset};
use crate::text::{
    append, ascii_lower, ascii_lowercase_vec, char_is_alphanumeric, chars_of, contains,
    contains_vec, dec, decimal, ends_with, ends_with_vec, eq_vec, is_digit, is_whitespace, is_ws,
    lemma_dec_before_underscore, lemma_dec_injective, lemma_dec_props, lemma_replace_first_match,
    lemma_replace_no_match, matches_at, replace_all, replace_vec, slice_vec, spec_is_alphanumeric,
    string_of,
};

verus! {

// ─── Contexts and neutral values ──────────────────────────────────────────────

/// The syntactic location of a `{{var}}` token.
#[derive(Debug, Clone, Copy, PartialEq, Eq, Structural)]
pub enum SubstContext {
    Color,
    Path,
    Transform,
    Number,
    Id,
    StyleValue,
    TextContent,
    Generic,
}

/// The neutral XML-safe value written for each context.
pub open spec fn neutral_seq(ctx: SubstContext) -> Seq<char> {
    match ctx {
        SubstContext::Color => seq!['#', '0', '0', '0'],
        SubstContext::Path => seq!['M', '0', ' ', '0'],
        SubstContext::Transform => seq!['t', 'r', 'a', 'n', 's', 'l', 'a', 't', 'e', '(', '0', ')'],
        SubstContext::Number => seq!['0'],
        SubstContext::Id => seq!['s', 'c', 'r', 'u', 'b', 'r', '-', 'p', 'h'],
        SubstContext::StyleValue => seq!['i', 'n', 'h', 'e', 'r', 'i', 't'],
        SubstContext::TextContent => seq!['0'],
        SubstContext::Generic => seq!['0'],
    }
}

/// Return the neutral XML-safe value for each context.
pub fn neutral_value(ctx: &SubstContext) -> (r: &'static str)
    ensures
        r@ == neutral_seq(*ctx),
{
    match ctx {
        SubstContext::Color => {
            proof {
                reveal_strlit("#000");
            }
            "#000"
        },
        SubstContext::Path => {
            proof {
                reveal_strlit("M0 0");
            }
            "M0 0"
        },
        SubstContext::Transform => {
            proof {
                reveal_strlit("translate(0)");
            }
            "translate(0)"
        },
        SubstContext::Number => {
            proof {
                reveal_strlit("0");
            }
            "0"
        },
        SubstContext::Id => {
            proof {
                reveal_strlit("scrubr-ph");
            }
            "scrubr-ph"
        },
        SubstContext::StyleValue => {
            proof {
                reveal_strlit("inherit");
            }
            "inherit"
        },
        SubstContext::TextContent => {
            proof {
                reveal_strlit("0");
            }
            "0"
        },
        SubstContext::Generic => {
            proof {
                reveal_strlit("0");
            }
            "0"
        },
    }
}

pub fn eq_str(v: &Vec<char>, lit: &str) -> (b: bool)
    ensures
        b == (v@ == lit@),
{
    let l = chars_of(lit);
    eq_vec(v, &l)
}

pub open spec fn is_color_name(s: Seq<char>) -> bool {
    s == "fill"@ || s == "stroke"@ || s == "stop-color"@ || s == "flood-color"@ || s
        == "lighting-color"@ || s == "color"@
}

pub fn color_name(s: &Vec<char>) -> (b: bool)
    ensures
        b == is_color_name(s@),
{
    eq_str(s, "fill") || eq_str(s, "stroke") || eq_str(s, "stop-color") || eq_str(
        s,
        "flood-color",
    ) || eq_str(s, "lighting-color") || eq_str(s, "color")
}

pub open spec fn is_number_attr(s: Seq<char>) -> bool {
    ||| s == "x"@ || s == "y"@ || s == "x1"@ || s == "y1"@ || s == "x2"@ || s == "y2"@
    ||| s == "cx"@ || s == "cy"@ || s == "r"@ || s == "rx"@ || s == "ry"@ || s == "fx"@ || s
        == "fy"@
    ||| s == "width"@ || s == "height"@ || s == "offset"@
    ||| s == "opacity"@ || s == "fill-opacity"@ || s == "stroke-opacity"@ || s
        == "stop-opacity"@ || s == "flood-opacity"@
    ||| s == "stroke-width"@ || s == "stroke-miterlimit"@ || s == "stroke-dashoffset"@
    ||| s == "font-size"@ || s == "letter-spacing"@ || s == "word-spacing"@ || s == "kerning"@
    ||| s == "stddeviation"@ || s == "basefrequency"@ || s == "k"@ || s == "k1"@ || s == "k2"@
        || s == "k3"@ || s == "k4"@
    ||| s == "amplitude"@ || s == "exponent"@ || s == "intercept"@ || s == "slope"@
    ||| s == "specularconstant"@ || s == "specularexponent"@ || s == "diffuseconstant"@
    ||| s == "surfacescale"@ || s == "seed"@ || s == "numoctaves"@
    ||| s == "viewbox"@ || s == "points"@
}

fn number_attr(s: &Vec<char>) -> (b: bool)
    ensures
        b == is_number_attr(s@),
{
    (eq_str(s, "x") || eq_str(s, "y") || eq_str(s, "x1") || eq_str(s, "y1") || eq_str(s, "x2")
        || eq_str(s, "y2")) || (eq_str(s, "cx") || eq_str(s, "cy") || eq_str(s, "r") || eq_str(
        s,
        "rx",
    ) || eq_str(s, "ry") || eq_str(s, "fx") || eq_str(s, "fy")) || (eq_str(s, "width")
        || eq_str(s, "height") || eq_str(s, "offset")) || (eq_str(s, "opacity") || eq_str(
        s,
        "fill-opacity",
    ) || eq_str(s, "stroke-opacity") || eq_str(s, "stop-opacity") || eq_str(
        s,
        "flood-opacity",
    )) || (eq_str(s, "stroke-width") || eq_str(s, "stroke-miterlimit") || eq_str(
        s,
        "stroke-dashoffset",
    )) || (eq_str(s, "font-size") || eq_str(s, "letter-spacing") || eq_str(s, "word-spacing")
        || eq_str(s, "kerning")) || (eq_str(s, "stddeviation") || eq_str(s, "basefrequency")
        || eq_str(s, "k") || eq_str(s, "k1") || eq_str(s, "k2") || eq_str(s, "k3") || eq_str(
        s,
        "k4",
    )) || (eq_str(s, "amplitude") || eq_str(s, "exponent") || eq_str(s, "intercept") || eq_str(
        s,
        "slope",
    )) || (eq_str(s, "specularconstant") || eq_str(s, "specularexponent") || eq_str(
        s,
        "diffuseconstant",
    )) || (eq_str(s, "surfacescale") || eq_str(s, "seed") || eq_str(s, "numoctaves")) || (
    eq_str(s, "viewbox") || eq_str(s, "points"))
}

pub open spec fn is_id_attr(s: Seq<char>) -> bool {
    s == "id"@ || s == "href"@ || s == "xlink:href"@
}

pub open spec fn is_transform_attr(s: Seq<char>) -> bool {
    s == "transform"@ || s == "patterntransform"@ || s == "gradienttransform"@
}

/// Context of an attribute, by its ASCII-lowercased name.
pub open spec fn attr_ctx(name: Seq<char>) -> SubstContext {
    let lower = ascii_lower(name);
    if is_color_name(lower) {
        SubstContext::Color
    } else if lower == "d"@ {
        SubstContext::Path
    } else if is_transform_attr(lower) {
        SubstContext::Transform
    } else if is_number_attr(lower) {
        SubstContext::Number
    } else if is_id_attr(lower) {
        SubstContext::Id
    } else if lower == "style"@ {
        SubstContext::StyleValue
    } else {
        SubstContext::Generic
    }
}

fn context_for_attr_chars(name: &Vec<char>) -> (r: SubstContext)
    ensures
        r == attr_ctx(name@),
{
    let lower = ascii_lowercase_vec(name);
    if color_name(&lower) {
        SubstContext::Color
    } else if eq_str(&lower, "d") {
        SubstContext::Path
    } else if eq_str(&lower, "transform") || eq_str(&lower, "patterntransform") || eq_str(
        &lower,
        "gradienttransform",
    ) {
        SubstContext::Transform
    } else if number_attr(&lower) {
        SubstContext::Number
    } else if eq_str(&lower, "id") || eq_str(&lower, "href") || eq_str(&lower, "xlink:href") {
        SubstContext::Id
    } else if eq_str(&lower, "style") {
        SubstContext::StyleValue
    } else {
        SubstContext::Generic
    }
}

/// Infer substitution context from an attribute name.
pub fn context_for_attr(attr_name: &str) -> (r: SubstContext)
    ensures
        r == attr_ctx(attr_name@),
{
    let v = chars_of(attr_name);
    context_for_attr_chars(&v)
}

/// Context of a CSS property, by its ASCII-lowercased name.
pub open spec fn css_prop_ctx(prop: Seq<char>) -> SubstContext {
    let lower = ascii_lower(prop);
    if is_color_name(lower) {
        SubstContext::Color
    } else if ends_with(lower, "opacity"@) || ends_with(lower, "width"@) || ends_with(
        lower,
        "size"@,
    ) {
        SubstContext::Number
    } else {
        SubstContext::StyleValue
    }
}

/// Infer context for a CSS property name (inside `style=""` or `<style>`).
pub fn context_for_css_prop(prop: &str) -> (r: SubstContext)
    ensures
        r == css_prop_ctx(prop@),
{
    let v = chars_of(prop);
    let lower = ascii_lowercase_vec(&v);
    if color_name(&lower) {
        SubstContext::Color
    } else if ends_with_vec(&lower, &chars_of("opacity")) || ends_with_vec(
        &lower,
        &chars_of("width"),
    ) || ends_with_vec(&lower, &chars_of("size")) {
        SubstContext::Number
    } else {
        SubstContext::StyleValue
    }
}

// ─── Captured variables ───────────────────────────────────────────────────────

/// One captured `{{...}}` token and its replacement data.
#[derive(Debug, Clone)]
pub struct CapturedVar {
    /// Original token, e.g. `{{fill-color}}`
    pub original: String,
    /// Unique placeholder string, e.g. `__S3__VAR0__S3__END`
    pub placeholder: String,
    /// Context-appropriate neutral value, e.g. `#000`
    pub neutral: String,
}

/// A captured variable as plain character sequences.
pub struct CapView {
    pub original: Seq<char>,
    pub placeholder: Seq<char>,
    pub neutral: Seq<char>,
}

impl View for CapturedVar {
    type V = CapView;

    open spec fn view(&self) -> CapView {
        CapView { original: self.original@, placeholder: self.placeholder@, neutral: self.neutral@ }
    }
}

pub open spec fn caps_view(vars: Seq<CapturedVar>) -> Seq<CapView> {
    vars.map_values(|c: CapturedVar| c@)
}

// ─── Scanner state ────────────────────────────────────────────────────────────

/// Forward-scan parser state; `S` is the representation of attribute names.
#[derive(Debug)]
pub enum ScanState<S> {
    /// Between tags, or before the document starts.
    Outside,
    /// Inside `<tagname`, reading the tag name.
    InTagName,
    /// Inside `<tagname ...>`, between attributes (or after tag name).
    InTag,
    /// Inside an attribute name: `<tag attrname...`
    InAttrName(S),
    /// After `attrname=`, before the opening quote.
    AfterEquals(S),
    /// Inside a quoted attribute value: attribute name and quote character.
    InValue(S, char),
    /// Inside element text content.
    InText,
    /// Inside `<!-- ... -->`
    InComment,
    /// Inside `<![CDATA[ ... ]]>`
    InCdata,
}

pub open spec fn state_view(st: ScanState<Vec<char>>) -> ScanState<Seq<char>> {
    match st {
        ScanState::Outside => ScanState::Outside,
        ScanState::InTagName => ScanState::InTagName,
        ScanState::InTag => ScanState::InTag,
        ScanState::InAttrName(n) => ScanState::InAttrName(n@),
        ScanState::AfterEquals(n) => ScanState::AfterEquals(n@),
        ScanState::InValue(n, q) => ScanState::InValue(n@, q),
        ScanState::InText => ScanState::InText,
        ScanState::InComment => ScanState::InComment,
        ScanState::InCdata => ScanState::InCdata,
    }
}

pub open spec fn cdata_open() -> Seq<char> {
    seq!['[', 'C', 'D', 'A', 'T', 'A', '[']
}

/// One step of the scanner at index `i` (`0 <= i < s.len()`): the next state
/// and the index after the characters it consumes.
pub open spec fn step(st: ScanState<Seq<char>>, s: Seq<char>, i: int) -> (ScanState<Seq<char>>, int) {
    let n = s.len();
    let ch = s[i];
    match st {
        ScanState::Outside | ScanState::InText => {
            if ch == '<' {
                if i + 3 < n && s[i + 1] == '!' && s[i + 2] == '-' && s[i + 3] == '-' {
                    (ScanState::InComment, i + 1)
                } else if i + 8 < n && s[i + 1] == '!' && s.subrange(i + 2, i + 9)
                    == cdata_open() {
                    (ScanState::InCdata, i + 1)
                } else {
                    (ScanState::InTagName, i + 1)
                }
            } else if ch == '>' {
                (ScanState::InText, i + 1)
            } else {
                (st, i + 1)
            }
        },
        ScanState::InComment => {
            if ch == '-' && i + 2 < n && s[i + 1] == '-' && s[i + 2] == '>' {
                (ScanState::Outside, i + 3)
            } else {
                (ScanState::InComment, i + 1)
            }
        },
        ScanState::InCdata => {
            if ch == ']' && i + 2 < n && s[i + 1] == ']' && s[i + 2] == '>' {
                (ScanState::InText, i + 3)
            } else {
                (ScanState::InCdata, i + 1)
            }
        },
        ScanState::InTagName => {
            if ch == '>' {
                (ScanState::InText, i + 1)
            } else if ch == '/' && i + 1 < n && s[i + 1] == '>' {
                (ScanState::Outside, i + 2)
            } else if is_ws(ch) {
                (ScanState::InTag, i + 1)
            } else {
                (ScanState::InTagName, i + 1)
            }
        },
        ScanState::InTag => {
            if ch == '>' {
                (ScanState::InText, i + 1)
            } else if ch == '/' && i + 1 < n && s[i + 1] == '>' {
                (ScanState::Outside, i + 2)
            } else if is_ws(ch) || ch == ',' {
                (ScanState::InTag, i + 1)
            } else {
                (ScanState::InAttrName(seq![ch]), i + 1)
            }
        },
        ScanState::InAttrName(name) => {
            if ch == '=' {
                (ScanState::AfterEquals(name), i + 1)
            } else if ch == '>' {
                (ScanState::InText, i + 1)
            } else if is_ws(ch) {
                (ScanState::InTag, i + 1)
            } else {
                (ScanState::InAttrName(name.push(ch)), i + 1)
            }
        },
        ScanState::AfterEquals(attr) => {
            if ch == '"' || ch == '\'' {
                (ScanState::InValue(attr, ch), i + 1)
            } else {
                (ScanState::AfterEquals(attr), i + 1)
            }
        },
        ScanState::InValue(attr, q) => {
            if ch == q {
                (ScanState::InTag, i + 1)
            } else {
                (ScanState::InValue(attr, q), i + 1)
            }
        },
    }
}

pub proof fn lemma_step_advances(st: ScanState<Seq<char>>, s: Seq<char>, i: int)
    requires
        0 <= i < s.len(),
    ensures
        i < step(st, s, i).1 <= s.len(),
{
}

/// Context of a token found in scanner state `st`.
pub open spec fn state_ctx(st: ScanState<Seq<char>>) -> SubstContext {
    match st {
        ScanState::InValue(attr, _) => attr_ctx(attr),
        ScanState::InText => SubstContext::TextContent,
        _ => SubstContext::Generic,
    }
}

/// Index just past the first `}}` at or after `j`, if one comes before any
/// `<` or `>`.
pub open spec fn close_of(s: Seq<char>, j: int) -> Option<int>
    decreases s.len() - j,
{
    if j < 0 || j + 1 >= s.len() {
        None
    } else if s[j] == '}' && s[j + 1] == '}' {
        Some(j + 2)
    } else if s[j] == '<' || s[j] == '>' {
        None
    } else {
        close_of(s, j + 1)
    }
}

pub proof fn lemma_close_of(s: Seq<char>, j: int)
    ensures
        close_of(s, j) matches Some(e) ==> 0 <= j && j + 2 <= e <= s.len() && s[e - 2] == '}'
            && s[e - 1] == '}',
    decreases s.len() - j,
{
    if j < 0 || j + 1 >= s.len() {
    } else if s[j] == '}' && s[j + 1] == '}' {
    } else if s[j] == '<' || s[j] == '>' {
    } else {
        lemma_close_of(s, j + 1);
    }
}

/// The inner part of a token: non-empty, alphanumeric, `-` or `_`.
pub open spec fn valid_inner(s: Seq<char>) -> bool {
    s.len() > 0 && forall|k: int|
        0 <= k < s.len() ==> (spec_is_alphanumeric(#[trigger] s[k]) || s[k] == '-' || s[k]
            == '_')
}

/// End of the valid `{{...}}` token that starts at `i`, if any.
pub open spec fn token_at(s: Seq<char>, i: int) -> Option<int> {
    if 0 <= i && i + 1 < s.len() && s[i] == '{' && s[i + 1] == '{' {
        match close_of(s, i + 2) {
            Some(e) => if valid_inner(s.subrange(i + 2, e - 2)) {
                Some(e)
            } else {
                None
            },
            None => None,
        }
    } else {
        None
    }
}

pub proof fn lemma_token_at(s: Seq<char>, i: int)
    ensures
        token_at(s, i) matches Some(e) ==> 0 <= i && i + 4 <= e <= s.len() && s[i] == '{' && s[e
            - 1] == '}',
{
    lemma_close_of(s, i + 2);
}

// ─── Scanned pieces ───────────────────────────────────────────────────────────

/// The scan output: copied text, or a captured token with its context.
pub enum Piece {
    Text(Seq<char>),
    Var(Seq<char>, SubstContext),
}

/// The pieces of the input from index `i` on, scanned from state `st`.
pub open spec fn scan(s: Seq<char>, i: int, st: ScanState<Seq<char>>) -> Seq<Piece>
    decreases s.len() - i,
{
    if i < 0 || i >= s.len() {
        seq![]
    } else {
        match token_at(s, i) {
            Some(e) => {
                proof {
                    lemma_token_at(s, i);
                }
                seq![Piece::Var(s.subrange(i, e), state_ctx(st))] + scan(s, e, st)
            },
            None => {
                proof {
                    lemma_step_advances(st, s, i);
                }
                let (st2, i2) = step(st, s, i);
                seq![Piece::Text(s.subrange(i, i2))] + scan(s, i2, st2)
            },
        }
    }
}

pub open spec fn nvars(ps: Seq<Piece>) -> nat
    decreases ps.len(),
{
    if ps.len() == 0 {
        0
    } else {
        (if ps[0] is Var {
            1nat
        } else {
            0nat
        }) + nvars(ps.drop_first())
    }
}

pub open spec fn sentinel(n: nat) -> Seq<char> {
    seq!['_', '_', 'S'] + dec(n) + seq!['_', '_']
}

pub open spec fn var_mark() -> Seq<char> {
    seq!['V', 'A', 'R']
}

pub open spec fn end_mark() -> Seq<char> {
    seq!['E', 'N', 'D']
}

pub open spec fn placeholder_of(sent: Seq<char>, k: nat) -> Seq<char> {
    sent + var_mark() + dec(k) + sent + end_mark()
}

/// What the protected text holds in place of token number `k`.
pub open spec fn key_of(ctx: SubstContext, sent: Seq<char>, k: nat) -> Seq<char> {
    neutral_seq(ctx) + placeholder_of(sent, k)
}

/// The pieces written out with tokens numbered from `j`; those numbered below
/// `keys` as their protected form, the others as their original text.
pub open spec fn render(ps: Seq<Piece>, sent: Seq<char>, keys: nat, j: nat) -> Seq<char>
    decreases ps.len(),
{
    if ps.len() == 0 {
        seq![]
    } else {
        match ps[0] {
            Piece::Text(t) => t + render(ps.drop_first(), sent, keys, j),
            Piece::Var(o, ctx) => (if j < keys {
                key_of(ctx, sent, j)
            } else {
                o
            }) + render(ps.drop_first(), sent, keys, j + 1),
        }
    }
}

/// The pieces with every token in its protected form.
pub open spec fn prot(ps: Seq<Piece>, sent: Seq<char>, j: nat) -> Seq<char>
    decreases ps.len(),
{
    if ps.len() == 0 {
        seq![]
    } else {
        match ps[0] {
            Piece::Text(t) => t + prot(ps.drop_first(), sent, j),
            Piece::Var(_, ctx) => key_of(ctx, sent, j) + prot(ps.drop_first(), sent, j + 1),
        }
    }
}

/// The pieces with every token as its original text.
pub open spec fn orig_text(ps: Seq<Piece>) -> Seq<char>
    decreases ps.len(),
{
    if ps.len() == 0 {
        seq![]
    } else {
        match ps[0] {
            Piece::Text(t) => t + orig_text(ps.drop_first()),
            Piece::Var(o, _) => o + orig_text(ps.drop_first()),
        }
    }
}

/// The captured variables of the pieces, numbered from `j`.
pub open spec fn captured(ps: Seq<Piece>, sent: Seq<char>, j: nat) -> Seq<CapView>
    decreases ps.len(),
{
    if ps.len() == 0 {
        seq![]
    } else {
        match ps[0] {
            Piece::Text(_) => captured(ps.drop_first(), sent, j),
            Piece::Var(o, ctx) => seq![
                CapView { original: o, placeholder: placeholder_of(sent, j), neutral: neutral_seq(ctx) },
            ] + captured(ps.drop_first(), sent, j + 1),
        }
    }
}

/// Smallest `n` such that `__S<n>__` does not occur in `s`.
pub open spec fn sentinel_n(s: Seq<char>) -> nat {
    choose|n: nat|
        !contains(s, sentinel(n)) && forall|m: nat| m < n ==> contains(s, #[trigger] sentinel(m))
}

/// The protected text and the captured variables for input `s`.
pub open spec fn protect_spec(s: Seq<char>) -> (Seq<char>, Seq<CapView>) {
    let sent = sentinel(sentinel_n(s));
    let ps = scan(s, 0, ScanState::Outside);
    (prot(ps, sent, 0), captured(ps, sent, 0))
}

/// The restoration: from the last captured variable to the first, every
/// occurrence of `neutral + placeholder` replaced by the original token.
pub open spec fn restore_spec(out: Seq<char>, cvs: Seq<CapView>) -> Seq<char>
    decreases cvs.len(),
{
    if cvs.len() == 0 {
        out
    } else {
        let cv = cvs.last();
        restore_spec(replace_all(out, cv.neutral + cv.placeholder, cv.original), cvs.drop_last())
    }
}

// ─── Append lemmas ────────────────────────────────────────────────────────────

pub proof fn lemma_nvars_append(a: Seq<Piece>, b: Seq<Piece>)
    ensures
        nvars(a + b) == nvars(a) + nvars(b),
    decreases a.len(),
{
    if a.len() == 0 {
        assert(a + b =~= b);
    } else {
        assert((a + b).drop_first() =~= a.drop_first() + b);
        assert((a + b)[0] == a[0]);
        lemma_nvars_append(a.drop_first(), b);
    }
}

pub proof fn lemma_render_append(a: Seq<Piece>, b: Seq<Piece>, sent: Seq<char>, keys: nat, j: nat)
    ensures
        render(a + b, sent, keys, j) == render(a, sent, keys, j) + render(
            b,
            sent,
            keys,
            j + nvars(a),
        ),
    decreases a.len(),
{
    if a.len() == 0 {
        assert(a + b =~= b);
    } else {
        assert((a + b).drop_first() =~= a.drop_first() + b);
        assert((a + b)[0] == a[0]);
        match a[0] {
            Piece::Text(_) => lemma_render_append(a.drop_first(), b, sent, keys, j),
            Piece::Var(_, _) => lemma_render_append(a.drop_first(), b, sent, keys, j + 1),
        }
    }
}

pub proof fn lemma_prot_append(a: Seq<Piece>, b: Seq<Piece>, sent: Seq<char>, j: nat)
    ensures
        prot(a + b, sent, j) == prot(a, sent, j) + prot(b, sent, j + nvars(a)),
    decreases a.len(),
{
    if a.len() == 0 {
        assert(a + b =~= b);
    } else {
        assert((a + b).drop_first() =~= a.drop_first() + b);
        assert((a + b)[0] == a[0]);
        match a[0] {
            Piece::Text(_) => lemma_prot_append(a.drop_first(), b, sent, j),
            Piece::Var(_, _) => lemma_prot_append(a.drop_first(), b, sent, j + 1),
        }
    }
}

pub proof fn lemma_orig_append(a: Seq<Piece>, b: Seq<Piece>)
    ensures
        orig_text(a + b) == orig_text(a) + orig_text(b),
    decreases a.len(),
{
    if a.len() == 0 {
        assert(a + b =~= b);
    } else {
        assert((a + b).drop_first() =~= a.drop_first() + b);
        assert((a + b)[0] == a[0]);
        lemma_orig_append(a.drop_first(), b);
    }
}

pub proof fn lemma_captured_append(a: Seq<Piece>, b: Seq<Piece>, sent: Seq<char>, j: nat)
    ensures
        captured(a + b, sent, j) == captured(a, sent, j) + captured(b, sent, j + nvars(a)),
    decreases a.len(),
{
    if a.len() == 0 {
        assert(a + b =~= b);
    } else {
        assert((a + b).drop_first() =~= a.drop_first() + b);
        assert((a + b)[0] == a[0]);
        match a[0] {
            Piece::Text(_) => lemma_captured_append(a.drop_first(), b, sent, j),
            Piece::Var(_, _) => lemma_captured_append(a.drop_first(), b, sent, j + 1),
        }
    }
}

pub proof fn lemma_append(a: Seq<Piece>, b: Seq<Piece>, sent: Seq<char>, keys: nat, j: nat)
    ensures
        nvars(a + b) == nvars(a) + nvars(b),
        render(a + b, sent, keys, j) == render(a, sent, keys, j) + render(
            b,
            sent,
            keys,
            j + nvars(a),
        ),
        prot(a + b, sent, j) == prot(a, sent, j) + prot(b, sent, j + nvars(a)),
        orig_text(a + b) == orig_text(a) + orig_text(b),
        captured(a + b, sent, j) == captured(a, sent, j) + captured(b, sent, j + nvars(a)),
{
    lemma_nvars_append(a, b);
    lemma_render_append(a, b, sent, keys, j);
    lemma_prot_append(a, b, sent, j);
    lemma_orig_append(a, b);
    lemma_captured_append(a, b, sent, j);
}

/// The functions on a single piece.
pub proof fn lemma_single(p: Piece, sent: Seq<char>, keys: nat, j: nat)
    ensures
        nvars(seq![p]) == (if p is Var {
            1nat
        } else {
            0nat
        }),
        render(seq![p], sent, keys, j) == match p {
            Piece::Text(t) => t,
            Piece::Var(o, ctx) => if j < keys {
                key_of(ctx, sent, j)
            } else {
                o
            },
        },
        prot(seq![p], sent, j) == match p {
            Piece::Text(t) => t,
            Piece::Var(_, ctx) => key_of(ctx, sent, j),
        },
        orig_text(seq![p]) == match p {
            Piece::Text(t) => t,
            Piece::Var(o, _) => o,
        },
        captured(seq![p], sent, j) == match p {
            Piece::Text(_) => Seq::<CapView>::empty(),
            Piece::Var(o, ctx) => seq![
                CapView { original: o, placeholder: placeholder_of(sent, j), neutral: neutral_seq(ctx) },
            ],
        },
{
    let ps = seq![p];
    let e = Seq::<Piece>::empty();
    assert(ps.drop_first() =~= e);
    assert(ps[0] == p);
    assert(nvars(e) == 0);
    assert(render(e, sent, keys, j + 1) == Seq::<char>::empty());
    assert(render(e, sent, keys, j) == Seq::<char>::empty());
    assert(prot(e, sent, j + 1) == Seq::<char>::empty());
    assert(prot(e, sent, j) == Seq::<char>::empty());
    assert(orig_text(e) == Seq::<char>::empty());
    assert(captured(e, sent, j + 1) == Seq::<CapView>::empty());
    assert(captured(e, sent, j) == Seq::<CapView>::empty());
    match p {
        Piece::Text(t) => {
            assert(t + Seq::<char>::empty() =~= t);
        },
        Piece::Var(o, ctx) => {
            assert(o + Seq::<char>::empty() =~= o);
            assert(key_of(ctx, sent, j) + Seq::<char>::empty() =~= key_of(ctx, sent, j));
            let cv = CapView {
                original: o,
                placeholder: placeholder_of(sent, j),
                neutral: neutral_seq(ctx),
            };
            assert(seq![cv] + Seq::<CapView>::empty() =~= seq![cv]);
        },
    }
}

pub proof fn lemma_render_all_keys(ps: Seq<Piece>, sent: Seq<char>, keys: nat, j: nat)
    requires
        j + nvars(ps) <= keys,
    ensures
        render(ps, sent, keys, j) == prot(ps, sent, j),
    decreases ps.len(),
{
    if ps.len() > 0 {
        match ps[0] {
            Piece::Text(_) => lemma_render_all_keys(ps.drop_first(), sent, keys, j),
            Piece::Var(_, _) => lemma_render_all_keys(ps.drop_first(), sent, keys, j + 1),
        }
    }
}

pub proof fn lemma_render_no_keys(ps: Seq<Piece>, sent: Seq<char>, keys: nat, j: nat)
    requires
        keys <= j,
    ensures
        render(ps, sent, keys, j) == orig_text(ps),
    decreases ps.len(),
{
    if ps.len() > 0 {
        match ps[0] {
            Piece::Text(_) => lemma_render_no_keys(ps.drop_first(), sent, keys, j),
            Piece::Var(_, _) => lemma_render_no_keys(ps.drop_first(), sent, keys, j + 1),
        }
    }
}

// ─── Well-formedness of the scan ──────────────────────────────────────────────

/// Every captured token starts with `{` and ends with `}`.
pub open spec fn wf_pieces(ps: Seq<Piece>) -> bool {
    forall|t: int|
        0 <= t < ps.len() ==> match #[trigger] ps[t] {
            Piece::Var(o, _) => o.len() >= 2 && o[0] == '{' && o.last() == '}',
            Piece::Text(_) => true,
        }
}

pub proof fn lemma_scan_props(s: Seq<char>, i: int, st: ScanState<Seq<char>>)
    requires
        0 <= i <= s.len(),
    ensures
        orig_text(scan(s, i, st)) == s.skip(i),
        wf_pieces(scan(s, i, st)),
    decreases s.len() - i,
{
    if i >= s.len() {
        assert(s.skip(i) =~= Seq::<char>::empty());
    } else {
        match token_at(s, i) {
            Some(e) => {
                lemma_token_at(s, i);
                lemma_scan_props(s, e, st);
                let o = s.subrange(i, e);
                let head = seq![Piece::Var(o, state_ctx(st))];
                lemma_append(head, scan(s, e, st), seq![], 0, 0);
                lemma_single(Piece::Var(o, state_ctx(st)), seq![], 0, 0);
                assert(s.subrange(i, e) + s.skip(e) =~= s.skip(i));
                assert(o[0] == s[i]);
                assert(o.last() == s[e - 1]);
                let ps = scan(s, i, st);
                assert(ps == head + scan(s, e, st));
                assert forall|t: int| 0 <= t < ps.len() implies match #[trigger] ps[t] {
                    Piece::Var(o, _) => o.len() >= 2 && o[0] == '{' && o.last() == '}',
                    Piece::Text(_) => true,
                } by {
                    if t > 0 {
                        assert(ps[t] == scan(s, e, st)[t - 1]);
                    } else {
                        assert(ps[0] == Piece::Var(o, state_ctx(st)));
                    }
                }
            },
            None => {
                lemma_step_advances(st, s, i);
                let (st2, i2) = step(st, s, i);
                lemma_scan_props(s, i2, st2);
                let tx = s.subrange(i, i2);
                let head = seq![Piece::Text(tx)];
                lemma_single(Piece::Text(tx), seq![], 0, 0);
                lemma_append(head, scan(s, i2, st2), seq![], 0, 0);
                assert(s.subrange(i, i2) + s.skip(i2) =~= s.skip(i));
                let ps = scan(s, i, st);
                assert(ps == head + scan(s, i2, st2));
                assert forall|t: int| 0 <= t < ps.len() implies match #[trigger] ps[t] {
                    Piece::Var(o, _) => o.len() >= 2 && o[0] == '{' && o.last() == '}',
                    Piece::Text(_) => true,
                } by {
                    if t >= 1 {
                        assert(ps[t] == scan(s, i2, st2)[t - 1]);
                    } else {
                        assert(ps[0] == Piece::Text(tx));
                    }
                }
            },
        }
    }
}

// ─── Facts about keys ─────────────────────────────────────────────────────────

/// A sentinel: at least one character, each of them `_`, `S` or a digit.
pub open spec fn sent_ok(sent: Seq<char>) -> bool {
    &&& sent.len() >= 1
    &&& forall|k: int| 0 <= k < sent.len() ==> sent_char(#[trigger] sent[k])
}

pub open spec fn sent_char(c: char) -> bool {
    c == '_' || c == 'S' || is_digit(c)
}

pub proof fn lemma_sentinel_ok(n: nat)
    ensures
        sent_ok(sentinel(n)),
{
    lemma_dec_props(n);
    let s = sentinel(n);
    assert forall|k: int| 0 <= k < s.len() implies sent_char(#[trigger] s[k]) by {
        if 3 <= k < 3 + dec(n).len() {
            assert(s[k] == dec(n)[k - 3]);
        }
    }
}

/// How every key ends: the sentinel, then `END`.
pub open spec fn key_end(sent: Seq<char>) -> Seq<char> {
    sent + end_mark()
}

/// The part of key number `k` after its neutral value and first sentinel.
pub open spec fn tail_of(sent: Seq<char>, k: nat) -> Seq<char> {
    var_mark() + dec(k) + sent + end_mark()
}

/// `tail_of(sent, t)` ends at position `e` of `x`.
pub open spec fn tail_ends_at(x: Seq<char>, sent: Seq<char>, t: nat, e: int) -> bool {
    let tl = tail_of(sent, t);
    tl.len() <= e <= x.len() && x.subrange(e - tl.len(), e) == tl
}

proof fn lemma_neutral_no_d(ctx: SubstContext)
    ensures
        forall|i: int| 0 <= i < neutral_seq(ctx).len() ==> #[trigger] neutral_seq(ctx)[i] != 'D',
{
}

/// A key is its neutral value, the sentinel and its tail; its only `D` is
/// its last character, and it ends with `key_end`.
proof fn lemma_key_facts(ctx: SubstContext, sent: Seq<char>, k: nat)
    requires
        sent_ok(sent),
    ensures
        ({
            let key = key_of(ctx, sent, k);
            let tl = tail_of(sent, k);
            let ke = key_end(sent);
            &&& key == neutral_seq(ctx) + sent + tl
            &&& key.len() >= tl.len() + sent.len()
            &&& tl.len() >= ke.len()
            &&& key.subrange(key.len() - tl.len(), key.len() as int) == tl
            &&& key.subrange(key.len() - ke.len(), key.len() as int) == ke
            &&& key.subrange(neutral_seq(ctx).len() as int, (neutral_seq(ctx).len() + sent.len()) as int) == sent
            &&& key.last() == 'D'
            &&& forall|i: int| 0 <= i < key.len() - 1 ==> #[trigger] key[i] != 'D'
        }),
{
    lemma_dec_props(k);
    lemma_neutral_no_d(ctx);
    let key = key_of(ctx, sent, k);
    let nl = neutral_seq(ctx);
    let tl = tail_of(sent, k);
    let d = dec(k);
    assert(key =~= nl + sent + tl);
    assert(key.subrange(key.len() - tl.len(), key.len() as int) =~= tl);
    assert(key.subrange(key.len() - key_end(sent).len(), key.len() as int) =~= key_end(sent));
    assert(key.subrange(nl.len() as int, (nl.len() + sent.len()) as int) =~= sent);
    assert forall|i: int| 0 <= i < key.len() - 1 implies #[trigger] key[i] != 'D' by {
        let a = nl.len() as int;
        let b = a + sent.len();
        let c = b + 3 + d.len();
        if i < a {
            assert(key[i] == nl[i]);
        } else if i < b {
            assert(key[i] == sent[i - a]);
            assert(sent_char(sent[i - a]));
        } else if i < b + 3 {
            assert(key[i] == var_mark()[i - b]);
        } else if i < c {
            assert(key[i] == d[i - b - 3]);
            assert(is_digit(d[i - b - 3]));
        } else if i < c + sent.len() {
            assert(key[i] == sent[i - c]);
            assert(sent_char(sent[i - c]));
        } else {
            assert(key[i] == end_mark()[i - c - sent.len()]);
        }
    }
}

/// The only `D` of `key_end` is its last character.
proof fn lemma_key_end_d(sent: Seq<char>)
    requires
        sent_ok(sent),
    ensures
        forall|i: int| 0 <= i < key_end(sent).len() - 1 ==> #[trigger] key_end(sent)[i] != 'D',
        key_end(sent).last() == 'D',
        key_end(sent).subrange(0, sent.len() as int) == sent,
{
    let ke = key_end(sent);
    assert forall|i: int| 0 <= i < ke.len() - 1 implies #[trigger] ke[i] != 'D' by {
        if i < sent.len() {
            assert(ke[i] == sent[i]);
            assert(sent_char(sent[i]));
        } else {
            assert(ke[i] == end_mark()[i - sent.len()]);
        }
    }
    assert(ke.subrange(0, sent.len() as int) =~= sent);
}

proof fn lemma_substring_free(x: Seq<char>, pat: Seq<char>, a: int, b: int)
    requires
        0 <= a <= b <= x.len(),
        !contains(x, pat),
    ensures
        !contains(x.subrange(a, b), pat),
{
    if contains(x.subrange(a, b), pat) {
        let q = choose|q: int| matches_at(x.subrange(a, b), pat, q);
        assert(x.subrange(a + q, a + q + pat.len()) =~= x.subrange(a, b).subrange(q, q + pat.len()));
        assert(matches_at(x, pat, a + q));
    }
}

/// A text that holds `key_end(sent)` holds the sentinel.
proof fn lemma_key_end_holds_sentinel(x: Seq<char>, sent: Seq<char>, q: int)
    requires
        sent_ok(sent),
        matches_at(x, key_end(sent), q),
    ensures
        contains(x, sent),
{
    lemma_key_end_d(sent);
    assert(x.subrange(q, q + sent.len()) =~= key_end(sent).subrange(0, sent.len() as int));
    assert(matches_at(x, sent, q));
}

proof fn lemma_tail_shift(a: Seq<char>, y: Seq<char>, sent: Seq<char>, t: nat, e: int)
    requires
        tail_ends_at(y, sent, t, e),
    ensures
        tail_ends_at(a + y, sent, t, e + a.len()),
{
    let tl = tail_of(sent, t);
    assert((a + y).subrange(e + a.len() - tl.len(), e + a.len()) =~= y.subrange(e - tl.len(), e));
}

/// Two tails ending at the same place are the same tail.
proof fn lemma_tails_same_end(x: Seq<char>, sent: Seq<char>, a: nat, b: nat, e: int)
    requires
        tail_ends_at(x, sent, a, e),
        tail_ends_at(x, sent, b, e),
    ensures
        a == b,
{
    lemma_dec_props(a);
    lemma_dec_props(b);
    let da = dec(a);
    let db = dec(b);
    let ta = tail_of(sent, a);
    let tb = tail_of(sent, b);
    let w = sent.len() + 3;
    if da.len() < db.len() {
        let pos = e - w - da.len() - 1;
        assert(ta[2] == 'R');
        assert(x[pos] == x.subrange(e - ta.len(), e)[2]);
        let ib = pos - (e - tb.len());
        assert(x[pos] == x.subrange(e - tb.len(), e)[ib]);
        assert(tb[ib] == db[ib - 3]);
        assert(is_digit(db[ib - 3]));
    } else if db.len() < da.len() {
        let pos = e - w - db.len() - 1;
        assert(tb[2] == 'R');
        assert(x[pos] == x.subrange(e - tb.len(), e)[2]);
        let ia = pos - (e - ta.len());
        assert(x[pos] == x.subrange(e - ta.len(), e)[ia]);
        assert(ta[ia] == da[ia - 3]);
        assert(is_digit(da[ia - 3]));
    } else {
        assert(ta == tb);
        assert(da =~= ta.subrange(3, (3 + da.len()) as int));
        assert(db =~= tb.subrange(3, (3 + db.len()) as int));
        lemma_dec_injective(a, b);
    }
}

/// In the protected form of pieces after a sentinel-free `pre`, every
/// occurrence of `key_end` ends where the tail of one of the keys ends.
#[verifier::spinoff_prover]
#[verifier::rlimit(60)]
pub proof fn lemma_key_end_sites(ps: Seq<Piece>, pre: Seq<char>, sent: Seq<char>, j: nat)
    requires
        sent_ok(sent),
        !contains(pre + orig_text(ps), sent),
    ensures
        forall|q: int|
            #[trigger] matches_at(pre + prot(ps, sent, j), key_end(sent), q) ==> exists|t: nat|
                j <= t < j + nvars(ps) && #[trigger] tail_ends_at(
                    pre + prot(ps, sent, j),
                    sent,
                    t,
                    q + key_end(sent).len(),
                ),
    decreases ps.len(),
{
    let x = pre + prot(ps, sent, j);
    let ke = key_end(sent);
    lemma_key_end_d(sent);
    if ps.len() == 0 {
        assert(x =~= pre);
        assert(pre + orig_text(ps) =~= pre);
        assert forall|q: int| #[trigger] matches_at(x, ke, q) implies false by {
            lemma_key_end_holds_sentinel(x, sent, q);
        }
    } else {
        let rest = ps.drop_first();
        match ps[0] {
            Piece::Text(t) => {
                assert(x =~= (pre + t) + prot(rest, sent, j));
                assert((pre + t) + orig_text(rest) =~= pre + orig_text(ps));
                lemma_key_end_sites(rest, pre + t, sent, j);
            },
            Piece::Var(o, ctx) => {
                let key = key_of(ctx, sent, j);
                let r = prot(rest, sent, j + 1);
                assert(x =~= pre + key + r);
                lemma_key_facts(ctx, sent, j);
                let whole = pre + orig_text(ps);
                assert(whole =~= pre + o + orig_text(rest));
                lemma_substring_free(whole, sent, 0, pre.len() as int);
                assert(whole.subrange(0, pre.len() as int) =~= pre);
                lemma_substring_free(whole, sent, (pre.len() + o.len()) as int, whole.len() as int);
                assert(whole.subrange((pre.len() + o.len()) as int, whole.len() as int) =~= seq![] + orig_text(rest));
                lemma_key_end_sites(rest, seq![], sent, j + 1);
                assert(seq![] + r =~= r);
                let b = pre.len() + key.len();
                assert forall|q: int| #[trigger] matches_at(x, ke, q) implies exists|t: nat|
                    j <= t < j + nvars(ps) && #[trigger] tail_ends_at(x, sent, t, q + ke.len()) by {
                    let e = q + ke.len();
                    assert(x[e - 1] == x.subrange(q, e)[ke.len() - 1]);
                    if e <= pre.len() {
                        assert(pre.subrange(q, e) =~= x.subrange(q, e));
                        assert(matches_at(pre, ke, q));
                        lemma_key_end_holds_sentinel(pre, sent, q);
                    } else if e <= b {
                        assert(x[e - 1] == key[e - 1 - pre.len()]);
                        assert(e == b);
                        let tl = tail_of(sent, j);
                        assert(x.subrange(e - tl.len(), e) =~= key.subrange(key.len() - tl.len(), key.len() as int));
                        assert(tail_ends_at(x, sent, j, e));
                    } else if q >= b {
                        assert(r.subrange(q - b, e - b) =~= x.subrange(q, e));
                        assert(matches_at(seq![] + r, ke, q - b));
                        let t = choose|t: nat|
                            j + 1 <= t < j + 1 + nvars(rest) && #[trigger] tail_ends_at(
                                seq![] + r,
                                sent,
                                t,
                                q - b + ke.len(),
                            );
                        lemma_tail_shift(pre + key, r, sent, t, q - b + ke.len());
                        assert((pre + key) + r =~= x);
                        assert(tail_ends_at(x, sent, t, e));
                    } else {
                        let m = b - q;
                        assert(x[b - 1] == x.subrange(q, e)[m - 1]);
                        assert(x[b - 1] == key[key.len() - 1]);
                    }
                }
            },
        }
    }
}

// ─── Restoration undoes protection ────────────────────────────────────────────

/// Splits the pieces at token number `k`.
proof fn lemma_split_at_var(ps: Seq<Piece>, k: nat) -> (a: int)
    requires
        k < nvars(ps),
    ensures
        0 <= a < ps.len(),
        ps[a] is Var,
        nvars(ps.take(a)) == k,
        ps == ps.take(a) + seq![ps[a]] + ps.skip(a + 1),
    decreases ps.len(),
{
    let rest = ps.drop_first();
    if ps[0] is Var && k == 0 {
        assert(ps.take(0) =~= Seq::<Piece>::empty());
        assert(nvars(Seq::<Piece>::empty()) == 0);
        assert(ps =~= ps.take(0) + seq![ps[0]] + ps.skip(1));
        0
    } else {
        let k2: nat = if ps[0] is Var {
            (k - 1) as nat
        } else {
            k
        };
        let a2 = lemma_split_at_var(rest, k2);
        let a = a2 + 1;
        assert(ps.take(a) =~= seq![ps[0]] + rest.take(a2));
        lemma_single(ps[0], seq![], 0, 0);
        lemma_nvars_append(seq![ps[0]], rest.take(a2));
        assert(rest[a2] == ps[a]);
        assert(ps =~= ps.take(a) + seq![ps[a]] + ps.skip(a + 1));
        a
    }
}

proof fn lemma_key_absent_at(x: Seq<char>, ctx: SubstContext, sent: Seq<char>, k: nat, p: int)
    requires
        sent_ok(sent),
        !contains(x, sent),
    ensures
        !matches_at(x, key_of(ctx, sent, k), p),
{
    let key = key_of(ctx, sent, k);
    let nl = neutral_seq(ctx);
    let a = nl.len() as int;
    if matches_at(x, key, p) {
        assert(key =~= nl + sent + tail_of(sent, k));
        let w = x.subrange(p, p + key.len());
        assert(w == key);
        assert(x.subrange(p + a, p + a + sent.len()) =~= w.subrange(a, a + sent.len()));
        assert(key.subrange(a, a + sent.len()) =~= sent);
        assert(matches_at(x, sent, p + a));
    }
}

proof fn lemma_key_absent_from(x: Seq<char>, ctx: SubstContext, sent: Seq<char>, k: nat)
    requires
        sent_ok(sent),
        !contains(x, sent),
    ensures
        forall|p: int| !matches_at(x, key_of(ctx, sent, k), p),
{
    assert forall|p: int| !matches_at(x, key_of(ctx, sent, k), p) by {
        lemma_key_absent_at(x, ctx, sent, k, p);
    }
}

proof fn lemma_no_match_at(
    pa: Seq<Piece>,
    sent: Seq<char>,
    k: nat,
    ctx: SubstContext,
    bo: Seq<char>,
    p: int,
)
    requires
        !contains(orig_text(pa), sent),
        sent_ok(sent),
        nvars(pa) == k,
        0 <= p < prot(pa, sent, 0).len(),
    ensures
        !matches_at(prot(pa, sent, 0) + key_of(ctx, sent, k) + bo, key_of(ctx, sent, k), p),
{
    let pp = prot(pa, sent, 0);
    let key = key_of(ctx, sent, k);
    let x = pp + key + bo;
    lemma_key_facts(ctx, sent, k);
    let ke = key_end(sent);
    let tl = tail_of(sent, k);
    if matches_at(x, key, p) {
        let e = p + key.len();
        assert(x.subrange(p, e) == key);
        assert(x[e - 1] == key[key.len() - 1]);
        if e <= pp.len() {
            assert(pp.subrange(e - ke.len(), e) =~= x.subrange(e - ke.len(), e));
            assert(x.subrange(e - ke.len(), e) =~= key.subrange(key.len() - ke.len(), key.len() as int));
            assert(seq![] + pp =~= pp);
            assert(seq![] + orig_text(pa) =~= orig_text(pa));
            lemma_key_end_sites(pa, seq![], sent, 0);
            assert(matches_at(seq![] + pp, ke, e - ke.len()));
            let t = choose|t: nat| 0 <= t < 0 + nvars(pa) && #[trigger] tail_ends_at(seq![] + pp, sent, t, e);
            assert(pp.subrange(e - tl.len(), e) =~= x.subrange(e - tl.len(), e));
            assert(x.subrange(e - tl.len(), e) =~= key.subrange(key.len() - tl.len(), key.len() as int));
            assert(tail_ends_at(pp, sent, k, e));
            lemma_tails_same_end(pp, sent, t, k, e);
        } else {
            assert(x[e - 1] == key[e - 1 - pp.len()]);
        }
    }
}

/// Before its own position, a key cannot match in the protected text.
proof fn lemma_no_early_match(pa: Seq<Piece>, sent: Seq<char>, k: nat, ctx: SubstContext, bo: Seq<char>)
    requires
        !contains(orig_text(pa), sent),
        sent_ok(sent),
        nvars(pa) == k,
    ensures
        forall|p: int|
            0 <= p < prot(pa, sent, 0).len() ==> !matches_at(
                prot(pa, sent, 0) + key_of(ctx, sent, k) + bo,
                key_of(ctx, sent, k),
                p,
            ),
{
    assert forall|p: int| 0 <= p < prot(pa, sent, 0).len() implies !matches_at(
        prot(pa, sent, 0) + key_of(ctx, sent, k) + bo,
        key_of(ctx, sent, k),
        p,
    ) by {
        lemma_no_match_at(pa, sent, k, ctx, bo, p);
    }
}

/// One restoration step turns token `k` back into its original text.
proof fn lemma_restore_step(ps: Seq<Piece>, sent: Seq<char>, k: nat) -> (cv: CapView)
    requires
        !contains(orig_text(ps), sent),
        sent_ok(sent),
        k < nvars(ps),
    ensures
        cv == captured(ps, sent, 0)[k as int],
        replace_all(render(ps, sent, k + 1, 0), cv.neutral + cv.placeholder, cv.original)
            == render(ps, sent, k, 0),
{
    let a = lemma_split_at_var(ps, k);
    let pa = ps.take(a);
    let pb = ps.skip(a + 1);
    let (o, ctx) = match ps[a] {
        Piece::Var(o, ctx) => (o, ctx),
        Piece::Text(_) => (seq![], SubstContext::Generic),
    };
    let mid = seq![ps[a]];
    // decompose the renderings
    lemma_append(pa, mid, sent, k + 1, 0);
    lemma_append(pa + mid, pb, sent, k + 1, 0);
    lemma_append(pa, mid, sent, k, 0);
    lemma_append(pa + mid, pb, sent, k, 0);
    lemma_append(pa + mid, pb, sent, 0, 0);
    lemma_append(pa, mid, sent, 0, 0);
    lemma_single(ps[a], sent, k + 1, k);
    lemma_single(ps[a], sent, k, k);
    assert(nvars(mid) == 1);
    lemma_render_all_keys(pa, sent, k + 1, 0);
    lemma_render_all_keys(pa, sent, k, 0);
    lemma_render_no_keys(pb, sent, k + 1, k + 1);
    lemma_render_no_keys(pb, sent, k, k + 1);
    let key = key_of(ctx, sent, k);
    let pp = prot(pa, sent, 0);
    let bo = orig_text(pb);
    assert(render(mid, sent, k + 1, k) == key);
    assert(render(mid, sent, k, k) == o);
    let x = render(ps, sent, k + 1, 0);
    assert(x == pp + key + bo);
    assert(render(ps, sent, k, 0) == pp + o + bo);
    // the captured variable
    assert(captured(mid, sent, k) == seq![
        CapView { original: o, placeholder: placeholder_of(sent, k), neutral: neutral_seq(ctx) },
    ]);
    let cv = CapView {
        original: o,
        placeholder: placeholder_of(sent, k),
        neutral: neutral_seq(ctx),
    };
    assert(captured(ps, sent, 0)[k as int] == cv) by {
        assert(captured(ps, sent, 0) == captured(pa, sent, 0) + captured(mid, sent, k) + captured(
            pb,
            sent,
            k + 1,
        ));
        lemma_captured_len(pa, sent, 0);
    }
    assert(cv.neutral + cv.placeholder == key);
    // text facts
    let ot = orig_text(ps);
    assert(ot == orig_text(pa) + o + bo) by {
        assert(orig_text(mid) == o);
    }
    lemma_substring_free(ot, sent, 0, orig_text(pa).len() as int);
    assert(ot.subrange(0, orig_text(pa).len() as int) == orig_text(pa));
    lemma_substring_free(ot, sent, (orig_text(pa).len() + o.len()) as int, ot.len() as int);
    assert(ot.subrange((orig_text(pa).len() + o.len()) as int, ot.len() as int) == bo);
    lemma_no_early_match(pa, sent, k, ctx, bo);
    lemma_key_facts(ctx, sent, k);
    assert(matches_at(x, key, pp.len() as int)) by {
        assert(x.subrange(pp.len() as int, (pp.len() + key.len()) as int) == key);
    }
    lemma_replace_first_match(x, key, o, pp.len() as int);
    assert(x.take(pp.len() as int) == pp);
    assert(x.skip((pp.len() + key.len()) as int) == bo);
    lemma_key_absent_from(bo, ctx, sent, k);
    lemma_replace_no_match(bo, key, o);
    cv
}

proof fn lemma_captured_len(ps: Seq<Piece>, sent: Seq<char>, j: nat)
    ensures
        captured(ps, sent, j).len() == nvars(ps),
    decreases ps.len(),
{
    if ps.len() > 0 {
        match ps[0] {
            Piece::Text(_) => lemma_captured_len(ps.drop_first(), sent, j),
            Piece::Var(_, _) => lemma_captured_len(ps.drop_first(), sent, j + 1),
        }
    }
}

proof fn lemma_restore_from(ps: Seq<Piece>, sent: Seq<char>, k: nat)
    requires
        !contains(orig_text(ps), sent),
        sent_ok(sent),
        k <= nvars(ps),
    ensures
        restore_spec(render(ps, sent, k, 0), captured(ps, sent, 0).take(k as int)) == orig_text(
            ps,
        ),
    decreases k,
{
    lemma_captured_len(ps, sent, 0);
    let caps = captured(ps, sent, 0);
    if k == 0 {
        lemma_render_no_keys(ps, sent, 0, 0);
    } else {
        let cv = lemma_restore_step(ps, sent, (k - 1) as nat);
        assert(caps.take(k as int).last() == cv);
        assert(caps.take(k as int).drop_last() == caps.take(k - 1));
        lemma_restore_from(ps, sent, (k - 1) as nat);
    }
}

/// Restoring the protected text gives back the input, for every input.
pub proof fn lemma_restore_protect(s: Seq<char>)
    ensures
        restore_spec(protect_spec(s).0, protect_spec(s).1) == s,
{
    lemma_sentinel_n(s);
    let sent = sentinel(sentinel_n(s));
    lemma_sentinel_ok(sentinel_n(s));
    let ps = scan(s, 0, ScanState::Outside);
    lemma_scan_props(s, 0, ScanState::Outside);
    assert(s.skip(0) == s);
    lemma_restore_from(ps, sent, nvars(ps));
    lemma_render_all_keys(ps, sent, nvars(ps), 0);
    lemma_captured_len(ps, sent, 0);
    assert(captured(ps, sent, 0).take(nvars(ps) as int) == captured(ps, sent, 0));
}


// ─── The shape of what protection captures ───────────────────────────────────

/// A token as written: `{{`, a valid inner name, `}}`.
pub open spec fn is_token(o: Seq<char>) -> bool {
    &&& o.len() >= 4
    &&& o[0] == '{' && o[1] == '{'
    &&& o[o.len() - 2] == '}' && o[o.len() - 1] == '}'
    &&& valid_inner(o.subrange(2, o.len() - 2))
}

/// Every captured piece is a token.
pub open spec fn tokens_ok(ps: Seq<Piece>) -> bool {
    forall|t: int|
        0 <= t < ps.len() ==> match #[trigger] ps[t] {
            Piece::Var(o, _) => is_token(o),
            Piece::Text(_) => true,
        }
}

/// No `{{` starts at or after `i`.
pub open spec fn no_open_from(s: Seq<char>, i: int) -> bool {
    forall|j: int| i <= j && j + 1 < s.len() ==> !(#[trigger] s[j] == '{' && s[j + 1] == '{')
}

proof fn lemma_tokens_cons(p: Piece, ps: Seq<Piece>)
    requires
        tokens_ok(ps),
        match p {
            Piece::Var(o, _) => is_token(o),
            Piece::Text(_) => true,
        },
    ensures
        tokens_ok(seq![p] + ps),
{
    let qs = seq![p] + ps;
    assert forall|t: int| 0 <= t < qs.len() implies match #[trigger] qs[t] {
        Piece::Var(o, _) => is_token(o),
        Piece::Text(_) => true,
    } by {
        if t > 0 {
            assert(qs[t] == ps[t - 1]);
        } else {
            assert(qs[0] == p);
        }
    }
}

proof fn lemma_scan_shape(s: Seq<char>, i: int, st: ScanState<Seq<char>>)
    requires
        0 <= i <= s.len(),
    ensures
        tokens_ok(scan(s, i, st)),
        no_open_from(s, i) ==> nvars(scan(s, i, st)) == 0,
    decreases s.len() - i,
{
    if i < s.len() {
        match token_at(s, i) {
            Some(e) => {
                lemma_token_at(s, i);
                lemma_close_of(s, i + 2);
                lemma_scan_shape(s, e, st);
                let o = s.subrange(i, e);
                assert(o.subrange(2, o.len() - 2) =~= s.subrange(i + 2, e - 2));
                assert(o[0] == s[i] && o[1] == s[i + 1]);
                assert(o[o.len() - 2] == s[e - 2] && o[o.len() - 1] == s[e - 1]);
                let p = Piece::Var(o, state_ctx(st));
                lemma_tokens_cons(p, scan(s, e, st));
                assert(scan(s, i, st) == seq![p] + scan(s, e, st));
                if no_open_from(s, i) {
                    assert(!(s[i] == '{' && s[i + 1] == '{'));
                }
            },
            None => {
                lemma_step_advances(st, s, i);
                let (st2, i2) = step(st, s, i);
                lemma_scan_shape(s, i2, st2);
                let p = Piece::Text(s.subrange(i, i2));
                lemma_tokens_cons(p, scan(s, i2, st2));
                assert(scan(s, i, st) == seq![p] + scan(s, i2, st2));
                lemma_nvars_append(seq![p], scan(s, i2, st2));
                assert(nvars(seq![p]) == 0) by {
                    assert(seq![p][0] == p);
                    assert(seq![p].drop_first() =~= Seq::<Piece>::empty());
                    assert(nvars(Seq::<Piece>::empty()) == 0);
                }
                if no_open_from(s, i) {
                    assert(no_open_from(s, i2));
                }
            },
        }
    }
}

proof fn lemma_captured_shape(ps: Seq<Piece>, sent: Seq<char>, j: nat)
    requires
        tokens_ok(ps),
    ensures
        forall|k: int|
            0 <= k < captured(ps, sent, j).len() ==> {
                let cv = #[trigger] captured(ps, sent, j)[k];
                &&& cv.placeholder == placeholder_of(sent, (j + k) as nat)
                &&& is_token(cv.original)
                &&& exists|ctx: SubstContext| cv.neutral == neutral_seq(ctx)
            },
    decreases ps.len(),
{
    if ps.len() > 0 {
        let rest = ps.drop_first();
        assert(tokens_ok(rest)) by {
            assert forall|t: int| 0 <= t < rest.len() implies match #[trigger] rest[t] {
                Piece::Var(o, _) => is_token(o),
                Piece::Text(_) => true,
            } by {
                assert(rest[t] == ps[t + 1]);
            }
        }
        match ps[0] {
            Piece::Text(_) => {
                lemma_captured_shape(rest, sent, j);
                assert(captured(ps, sent, j) == captured(rest, sent, j));
            },
            Piece::Var(o, ctx) => {
                lemma_captured_shape(rest, sent, j + 1);
                let c = captured(ps, sent, j);
                let r = captured(rest, sent, j + 1);
                assert(c == seq![
                    CapView { original: o, placeholder: placeholder_of(sent, j), neutral: neutral_seq(ctx) },
                ] + r);
                assert forall|k: int| 0 <= k < c.len() implies {
                    let cv = #[trigger] c[k];
                    &&& cv.placeholder == placeholder_of(sent, (j + k) as nat)
                    &&& is_token(cv.original)
                    &&& exists|ctx: SubstContext| cv.neutral == neutral_seq(ctx)
                } by {
                    if k == 0 {
                        assert(c[0].neutral == neutral_seq(ctx));
                        assert(is_token(o)) by {
                            assert(ps[0] == Piece::Var(o, ctx));
                        }
                    } else {
                        assert(c[k] == r[k - 1]);
                        assert((j + 1 + (k - 1)) as nat == (j + k) as nat);
                    }
                }
            },
        }
    }
}

/// Text without `{{` comes back unchanged, with no variables. Otherwise
/// variable number `k` holds placeholder `<sentinel>VAR<k><sentinel>END`
/// (the sentinel `__S<n>__` for the least `n` absent from the text), the
/// neutral value of a context, and as original a token `{{name}}` with a
/// valid name.
pub proof fn lemma_protect_shape(s: Seq<char>)
    ensures
        no_open_from(s, 0) ==> protect_spec(s) == (s, Seq::<CapView>::empty()),
        forall|k: int|
            0 <= k < protect_spec(s).1.len() ==> {
                let cv = #[trigger] protect_spec(s).1[k];
                &&& cv.placeholder == placeholder_of(sentinel(sentinel_n(s)), k as nat)
                &&& is_token(cv.original)
                &&& exists|ctx: SubstContext| cv.neutral == neutral_seq(ctx)
            },
{
    let sent = sentinel(sentinel_n(s));
    let ps = scan(s, 0, ScanState::Outside);
    lemma_scan_shape(s, 0, ScanState::Outside);
    lemma_scan_props(s, 0, ScanState::Outside);
    lemma_captured_shape(ps, sent, 0);
    lemma_captured_len(ps, sent, 0);
    assert(s.skip(0) == s);
    if no_open_from(s, 0) {
        lemma_render_all_keys(ps, sent, 0, 0);
        lemma_render_no_keys(ps, sent, 0, 0);
        assert(captured(ps, sent, 0) =~= Seq::<CapView>::empty());
    }
    assert forall|k: int| 0 <= k < protect_spec(s).1.len() implies {
        let cv = #[trigger] protect_spec(s).1[k];
        &&& cv.placeholder == placeholder_of(sent, k as nat)
        &&& is_token(cv.original)
        &&& exists|ctx: SubstContext| cv.neutral == neutral_seq(ctx)
    } by {
        assert(protect_spec(s).1 == captured(ps, sent, 0));
        assert((0 + k) as nat == k as nat);
    }
}

// ─── The sentinel ─────────────────────────────────────────────────────────────

pub open spec fn sentinel_absent_first(s: Seq<char>, n: nat) -> bool {
    !contains(s, sentinel(n)) && forall|m: nat| m < n ==> contains(s, #[trigger] sentinel(m))
}

proof fn lemma_sentinel_at_unique(s: Seq<char>, m1: nat, m2: nat, p: int)
    requires
        matches_at(s, sentinel(m1), p),
        matches_at(s, sentinel(m2), p),
    ensures
        m1 == m2,
{
    lemma_dec_props(m1);
    lemma_dec_props(m2);
    let y = s.skip(p + 3);
    let s1 = sentinel(m1);
    let s2 = sentinel(m2);
    assert(y.take(dec(m1).len() as int + 1) =~= s1.subrange(3, 4 + dec(m1).len() as int)) by {
        assert(s.subrange(p, p + s1.len()) == s1);
    }
    assert(s1.subrange(3, 4 + dec(m1).len() as int) =~= dec(m1).push('_'));
    assert(y.take(dec(m2).len() as int + 1) =~= s2.subrange(3, 4 + dec(m2).len() as int)) by {
        assert(s.subrange(p, p + s2.len()) == s2);
    }
    assert(s2.subrange(3, 4 + dec(m2).len() as int) =~= dec(m2).push('_'));
    lemma_dec_before_underscore(m1, m2, y);
}

/// Some `n` no larger than the text's length gives an absent sentinel.
proof fn lemma_some_sentinel_absent(s: Seq<char>) -> (n: nat)
    ensures
        n <= s.len(),
        !contains(s, sentinel(n)),
{
    let len = s.len() as int;
    let dom = set_int_range(0, len + 1);
    if forall|n: nat| n <= len ==> contains(s, #[trigger] sentinel(n)) {
        let f = |n: int| choose|p: int| #[trigger] matches_at(s, sentinel(n as nat), p);
        lemma_int_range(0, len + 1);
        lemma_int_range(0, len);
        assert forall|a: int, b: int| dom.contains(a) && dom.contains(b) && #[trigger] f(a)
            == #[trigger] f(b) implies a == b by {
            assert(contains(s, sentinel(a as nat)));
            assert(contains(s, sentinel(b as nat)));
            lemma_sentinel_at_unique(s, a as nat, b as nat, f(a));
        }
        let img = dom.map(f);
        lemma_map_size(dom, img, f);
        assert(img.subset_of(set_int_range(0, len))) by {
            assert forall|p: int| img.contains(p) implies set_int_range(0, len).contains(p) by {
                let a = choose|a: int| dom.contains(a) && f(a) == p;
                assert(contains(s, sentinel(a as nat)));
                assert(sentinel(a as nat).len() >= 1) by {
                    lemma_dec_props(a as nat);
                }
            }
        }
        lemma_len_subset(img, set_int_range(0, len));
        assert(false);
        0
    } else {
        let n = choose|n: nat| n <= len && !contains(s, #[trigger] sentinel(n));
        n
    }
}

proof fn lemma_first_absent(s: Seq<char>, n0: nat) -> (n: nat)
    requires
        !contains(s, sentinel(n0)),
    ensures
        n <= n0,
        sentinel_absent_first(s, n),
    decreases n0,
{
    if forall|m: nat| m < n0 ==> contains(s, #[trigger] sentinel(m)) {
        n0
    } else {
        let m = choose|m: nat| m < n0 && !contains(s, #[trigger] sentinel(m));
        lemma_first_absent(s, m)
    }
}

proof fn lemma_first_absent_unique(s: Seq<char>, a: nat, b: nat)
    requires
        sentinel_absent_first(s, a),
        sentinel_absent_first(s, b),
    ensures
        a == b,
{
    if a < b {
        assert(contains(s, sentinel(a)));
    } else if b < a {
        assert(contains(s, sentinel(b)));
    }
}

/// The chosen sentinel is absent from the text, all smaller ones are present,
/// and it is no larger than the text's length.
pub proof fn lemma_sentinel_n(s: Seq<char>)
    ensures
        sentinel_absent_first(s, sentinel_n(s)),
        sentinel_n(s) <= s.len(),
{
    let n0 = lemma_some_sentinel_absent(s);
    let n = lemma_first_absent(s, n0);
    assert(sentinel_absent_first(s, n));
    let c = sentinel_n(s);
    assert(sentinel_absent_first(s, c));
    lemma_first_absent_unique(s, n, c);
}

fn sentinel_vec(n: usize) -> (r: Vec<char>)
    ensures
        r@ == sentinel(n as nat),
{
    let mut r: Vec<char> = Vec::new();
    r.push('_');
    r.push('_');
    r.push('S');
    let d = decimal(n);
    append(&mut r, &d);
    r.push('_');
    r.push('_');
    assert(r@ =~= sentinel(n as nat));
    r
}

/// Find the smallest N such that `__SN__` is absent from `text`.
fn find_sentinel_n(text: &Vec<char>) -> (n: usize)
    ensures
        n as nat == sentinel_n(text@),
{
    proof {
        lemma_sentinel_n(text@);
    }
    let ghost bound = sentinel_n(text@);
    let mut n: usize = 0;
    loop
        invariant
            n <= bound,
            bound == sentinel_n(text@),
            bound <= text@.len(),
            sentinel_absent_first(text@, bound),
            forall|m: nat| m < n ==> contains(text@, #[trigger] sentinel(m)),
        decreases bound - n,
    {
        let pat = sentinel_vec(n);
        if !contains_vec(text, &pat) {
            proof {
                assert(sentinel_absent_first(text@, n as nat));
                lemma_first_absent_unique(text@, n as nat, bound);
            }
            return n;
        }
        proof {
            if n == bound {
                assert(!contains(text@, sentinel(bound)));
            }
        }
        assert(n < bound);
        assert(bound <= text.len());
        n += 1;
    }
}

// ─── The scanner ──────────────────────────────────────────────────────────────

fn copy_chars(v: &Vec<char>) -> (r: Vec<char>)
    ensures
        r@ == v@,
{
    let r = slice_vec(v, 0, v.len());
    assert(v@.subrange(0, v@.len() as int) == v@);
    r
}

/// Determine the substitution context from the current parser state.
fn context_from_state(state: &ScanState<Vec<char>>) -> (r: SubstContext)
    ensures
        r == state_ctx(state_view(*state)),
{
    match state {
        ScanState::InValue(attr, _) => context_for_attr_chars(attr),
        ScanState::InText => SubstContext::TextContent,
        _ => SubstContext::Generic,
    }
}

/// Advance the parser state machine over the characters of one step,
/// copying them to `out`.
fn advance_state(
    state: &mut ScanState<Vec<char>>,
    chars: &Vec<char>,
    i: &mut usize,
    ch: char,
    out: &mut Vec<char>,
)
    requires
        *old(i) < chars.len(),
        ch == chars@[*old(i) as int],
    ensures
        (state_view(*final(state)), *final(i) as int) == step(
            state_view(*old(state)),
            chars@,
            *old(i) as int,
        ),
        *old(i) < *final(i) <= chars.len(),
        final(out)@ == old(out)@ + chars@.subrange(*old(i) as int, *final(i) as int),
{
    let n = chars.len();
    let k = *i;
    let ghost s = chars@;
    let (new_state, adv): (ScanState<Vec<char>>, usize) = match &*state {
        ScanState::Outside | ScanState::InText => {
            if ch == '<' {
                if n - k > 3 && chars[k + 1] == '!' && chars[k + 2] == '-' && chars[k + 3] == '-' {
                    (ScanState::InComment, 1)
                } else if n - k > 8 && chars[k + 1] == '!' && chars[k + 2] == '[' && chars[k + 3]
                    == 'C' && chars[k + 4] == 'D' && chars[k + 5] == 'A' && chars[k + 6] == 'T'
                    && chars[k + 7] == 'A' && chars[k + 8] == '[' {
                    proof {
                        assert(s.subrange(k + 2, k + 9) =~= cdata_open());
                    }
                    (ScanState::InCdata, 1)
                } else {
                    proof {
                        if n - k > 8 && s[k + 1] == '!' && s.subrange(k + 2, k + 9)
                            == cdata_open() {
                            assert(s.subrange(k + 2, k + 9)[0] == s[k + 2]);
                            assert(s.subrange(k + 2, k + 9)[1] == s[k + 3]);
                            assert(s.subrange(k + 2, k + 9)[2] == s[k + 4]);
                            assert(s.subrange(k + 2, k + 9)[3] == s[k + 5]);
                            assert(s.subrange(k + 2, k + 9)[4] == s[k + 6]);
                            assert(s.subrange(k + 2, k + 9)[5] == s[k + 7]);
                            assert(s.subrange(k + 2, k + 9)[6] == s[k + 8]);
                        }
                    }
                    (ScanState::InTagName, 1)
                }
            } else if ch == '>' {
                (ScanState::InText, 1)
            } else {
                match &*state {
                    ScanState::InText => (ScanState::InText, 1),
                    _ => (ScanState::Outside, 1),
                }
            }
        },
        ScanState::InComment => {
            if ch == '-' && n - k > 2 && chars[k + 1] == '-' && chars[k + 2] == '>' {
                (ScanState::Outside, 3)
            } else {
                (ScanState::InComment, 1)
            }
        },
        ScanState::InCdata => {
            if ch == ']' && n - k > 2 && chars[k + 1] == ']' && chars[k + 2] == '>' {
                (ScanState::InText, 3)
            } else {
                (ScanState::InCdata, 1)
            }
        },
        ScanState::InTagName => {
            if ch == '>' {
                (ScanState::InText, 1)
            } else if ch == '/' && n - k > 1 && chars[k + 1] == '>' {
                (ScanState::Outside, 2)
            } else if is_whitespace(ch) {
                (ScanState::InTag, 1)
            } else {
                (ScanState::InTagName, 1)
            }
        },
        ScanState::InTag => {
            if ch == '>' {
                (ScanState::InText, 1)
            } else if ch == '/' && n - k > 1 && chars[k + 1] == '>' {
                (ScanState::Outside, 2)
            } else if is_whitespace(ch) || ch == ',' {
                (ScanState::InTag, 1)
            } else {
                let mut name: Vec<char> = Vec::new();
                name.push(ch);
                proof {
                    assert(name@ =~= seq![ch]);
                }
                (ScanState::InAttrName(name), 1)
            }
        },
        ScanState::InAttrName(name) => {
            if ch == '=' {
                (ScanState::AfterEquals(copy_chars(name)), 1)
            } else if ch == '>' {
                (ScanState::InText, 1)
            } else if is_whitespace(ch) {
                (ScanState::InTag, 1)
            } else {
                let mut nm = copy_chars(name);
                nm.push(ch);
                (ScanState::InAttrName(nm), 1)
            }
        },
        ScanState::AfterEquals(attr) => {
            if ch == '"' || ch == '\'' {
                (ScanState::InValue(copy_chars(attr), ch), 1)
            } else {
                (ScanState::AfterEquals(copy_chars(attr)), 1)
            }
        },
        ScanState::InValue(attr, q) => {
            if ch == *q {
                (ScanState::InTag, 1)
            } else {
                (ScanState::InValue(copy_chars(attr), *q), 1)
            }
        },
    };
    let mut t: usize = 0;
    while t < adv
        invariant
            k + adv <= n,
            n == chars.len(),
            t <= adv,
            out@ == old(out)@ + s.subrange(k as int, k + t),
            chars@ == s,
        decreases adv - t,
    {
        out.push(chars[k + t]);
        proof {
            assert(s.subrange(k as int, k + t + 1) == s.subrange(k as int, k + t).push(s[k + t]));
        }
        t += 1;
    }
    *state = new_state;
    *i = k + adv;
}

/// The inner part of a token: non-empty, alphanumeric, `-` or `_`.
fn is_valid_inner(s: &Vec<char>, lo: usize, hi: usize) -> (b: bool)
    requires
        lo <= hi <= s.len(),
    ensures
        b == valid_inner(s@.subrange(lo as int, hi as int)),
{
    let ghost t = s@.subrange(lo as int, hi as int);
    if lo == hi {
        return false;
    }
    let mut k = lo;
    while k < hi
        invariant
            lo <= k <= hi <= s.len(),
            t == s@.subrange(lo as int, hi as int),
            forall|m: int|
                0 <= m < k - lo ==> (spec_is_alphanumeric(#[trigger] t[m]) || t[m] == '-' || t[m]
                    == '_'),
        decreases hi - k,
    {
        let c = s[k];
        if !(char_is_alphanumeric(c) || c == '-' || c == '_') {
            assert(t[k - lo] == c);
            return false;
        }
        k += 1;
    }
    true
}

/// End of the first `}}` at or after `from`, if one comes before a tag
/// delimiter.
fn find_close(chars: &Vec<char>, from: usize) -> (r: Option<usize>)
    requires
        from <= chars.len(),
    ensures
        r matches Some(e) ==> close_of(chars@, from as int) == Some(e as int),
        r is None ==> close_of(chars@, from as int) is None,
{
    let n = chars.len();
    let mut j = from;
    while j < n && j + 1 < n
        invariant
            from <= j <= n,
            n == chars.len(),
            close_of(chars@, from as int) == close_of(chars@, j as int),
        decreases n - j,
    {
        if chars[j] == '}' && chars[j + 1] == '}' {
            return Some(j + 2);
        }
        if chars[j] == '<' || chars[j] == '>' {
            return None;
        }
        j += 1;
    }
    None
}

/// End of the valid `{{...}}` token that starts at `i`, if any.
fn token_end(chars: &Vec<char>, i: usize) -> (r: Option<usize>)
    requires
        i < chars.len(),
    ensures
        r matches Some(e) ==> token_at(chars@, i as int) == Some(e as int),
        r is None ==> token_at(chars@, i as int) is None,
{
    let n = chars.len();
    if i + 1 < n && chars[i] == '{' && chars[i + 1] == '{' {
        match find_close(chars, i + 2) {
            Some(j) => {
                proof {
                    lemma_close_of(chars@, i + 2);
                }
                if is_valid_inner(chars, i + 2, j - 2) {
                    Some(j)
                } else {
                    None
                }
            },
            None => None,
        }
    } else {
        None
    }
}

/// The placeholder `<sentinel>VAR<k><sentinel>END`.
fn placeholder_vec(sent: &Vec<char>, k: usize) -> (r: Vec<char>)
    ensures
        r@ == placeholder_of(sent@, k as nat),
{
    let mut r = copy_chars(sent);
    r.push('V');
    r.push('A');
    r.push('R');
    let d = decimal(k);
    append(&mut r, &d);
    append(&mut r, sent);
    r.push('E');
    r.push('N');
    r.push('D');
    assert(r@ =~= placeholder_of(sent@, k as nat));
    r
}

// ─── Main protection pass ─────────────────────────────────────────────────────

/// Replace every `{{var}}` in `input` with a context-aware XML-safe placeholder.
/// Returns `(protected_svg, captured_vars)`.
pub fn protect_subst_vars(input: &str) -> (r: (String, Vec<CapturedVar>))
    ensures
        r.0@ == protect_spec(input@).0,
        caps_view(r.1@) == protect_spec(input@).1,
{
    let chars = chars_of(input);
    let ghost s = chars@;
    let sn = find_sentinel_n(&chars);
    let sentinel_chars = sentinel_vec(sn);
    let ghost sent = sentinel_chars@;
    let mut vars: Vec<CapturedVar> = Vec::new();
    let mut out: Vec<char> = Vec::new();
    let n = chars.len();
    let mut i: usize = 0;
    let mut state: ScanState<Vec<char>> = ScanState::Outside;
    let ghost mut done: Seq<Piece> = seq![];
    proof {
        assert(done + scan(s, 0, ScanState::Outside) =~= scan(s, 0, ScanState::Outside));
        assert(caps_view(vars@) =~= Seq::<CapView>::empty());
    }
    while i < n
        invariant
            i <= n,
            n == s.len(),
            chars@ == s,
            sentinel_chars@ == sent,
            sent == sentinel(sentinel_n(s)),
            done + scan(s, i as int, state_view(state)) == scan(s, 0, ScanState::Outside),
            out@ == prot(done, sent, 0),
            caps_view(vars@) == captured(done, sent, 0),
            vars.len() == nvars(done),
        decreases n - i,
    {
        let ghost st = state_view(state);
        let ghost i0 = i as int;
        match token_end(&chars, i) {
            Some(j) => {
                proof {
                    lemma_token_at(s, i0);
                }
                let original = slice_vec(&chars, i, j);
                let k = vars.len();
                let ctx = context_from_state(&state);
                let neutral = chars_of(neutral_value(&ctx));
                let placeholder = placeholder_vec(&sentinel_chars, k);
                append(&mut out, &neutral);
                append(&mut out, &placeholder);
                let ghost p = Piece::Var(s.subrange(i0, j as int), ctx);
                proof {
                    lemma_append(done, seq![p], sent, 0, 0);
                    lemma_single(p, sent, 0, nvars(done));
                    assert(seq![p] + scan(s, j as int, st) == scan(s, i0, st));
                    assert(done.push(p) + scan(s, j as int, st) =~= done + (seq![p] + scan(
                        s,
                        j as int,
                        st,
                    )));
                    assert(done + seq![p] == done.push(p));
                }
                let cv = CapturedVar {
                    original: string_of(&original),
                    placeholder: string_of(&placeholder),
                    neutral: string_of(&neutral),
                };
                let ghost old_vars = vars@;
                vars.push(cv);
                proof {
                    assert(caps_view(vars@) =~= caps_view(old_vars).push(cv@));
                    done = done.push(p);
                }
                i = j;
            },
            None => {
                let ch = chars[i];
                advance_state(&mut state, &chars, &mut i, ch, &mut out);
                let ghost p = Piece::Text(s.subrange(i0, i as int));
                proof {
                    lemma_append(done, seq![p], sent, 0, 0);
                    lemma_single(p, sent, 0, nvars(done));
                    assert(seq![p] + scan(s, i as int, state_view(state)) == scan(s, i0, st));
                    assert(done.push(p) + scan(s, i as int, state_view(state)) =~= done + (seq![p]
                        + scan(s, i as int, state_view(state))));
                    assert(done + seq![p] == done.push(p));
                    done = done.push(p);
                }
            },
        }
    }
    proof {
        assert(done + scan(s, n as int, state_view(state)) =~= done);
    }
    (string_of(&out), vars)
}

// ─── Restore ──────────────────────────────────────────────────────────────────

/// Replace every `neutral+placeholder` string back to its original `{{token}}`.
pub fn restore_subst_vars(output: &str, vars: &[CapturedVar]) -> (r: String)
    ensures
        r@ == restore_spec(output@, caps_view(vars@)),
{
    let ghost cvs = caps_view(vars@);
    if vars.len() == 0 {
        proof {
            assert(cvs.len() == 0);
        }
        return string_of(&chars_of(output));
    }
    let mut result = chars_of(output);
    let mut idx = vars.len();
    assert(cvs.take(idx as int) =~= cvs);
    while idx > 0
        invariant
            idx <= vars.len(),
            cvs == caps_view(vars@),
            restore_spec(output@, cvs) == restore_spec(result@, cvs.take(idx as int)),
        decreases idx,
    {
        let cv = &vars[idx - 1];
        let mut key = chars_of(cv.neutral.as_str());
        let ph = chars_of(cv.placeholder.as_str());
        append(&mut key, &ph);
        let orig = chars_of(cv.original.as_str());
        proof {
            let t = cvs.take(idx as int);
            assert(t.last() == cvs[idx - 1]);
            assert(cvs[idx - 1] == vars@[idx - 1]@);
            assert(t.drop_last() =~= cvs.take(idx - 1));
        }
        result = replace_vec(&result, &key, &orig);
        idx -= 1;
    }
    proof {
        assert(cvs.take(0) =~= Seq::<CapView>::empty());
    }
    string_of(&result)
}

// ─── Guard helper ─────────────────────────────────────────────────────────────

/// Whether `val` holds the placeholder of one of the captured variables.
pub open spec fn has_placeholder(val: Seq<char>, cvs: Seq<CapView>) -> bool {
    exists|k: int| 0 <= k < cvs.len() && contains(val, #[trigger] cvs[k].placeholder)
}

/// Return true if `val` contains any placeholder.  Used by optimizer passes to
/// skip further transformation on values that encode a captured variable.
pub fn value_has_subst(val: &str, vars: &[CapturedVar]) -> (b: bool)
    ensures
        b == has_placeholder(val@, caps_view(vars@)),
{
    let ghost cvs = caps_view(vars@);
    let v = chars_of(val);
    let mut k: usize = 0;
    while k < vars.len()
        invariant
            k <= vars.len(),
            cvs == caps_view(vars@),
            v@ == val@,
            forall|m: int| 0 <= m < k ==> !contains(val@, #[trigger] cvs[m].placeholder),
        decreases vars.len() - k,
    {
        let ph = chars_of(vars[k].placeholder.as_str());
        proof {
            assert(cvs[k as int] == vars@[k as int]@);
        }
        if contains_vec(&v, &ph) {
            assert(contains(val@, cvs[k as int].placeholder));
            return true;
        }
        k += 1;
    }
    false
}

} // verus!
