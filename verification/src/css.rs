//! `style=""` handling: parsing declarations (substitution tokens kept
//! whole), serializing them sorted by property, simplifying color values,
//! moving presentation properties to attributes and spotting defaults.
use vstd::prelude::*;
use crate::color::{simplify_color, simplify_color_outcome};
use crate::text::{
    byte_prefix, byte_prefix_exec, byte_suffix, byte_suffix_exec, chars_of, contains,
    contains_vec, eq_vec, in_names, names_contain, string_of, trim, trim_vec, lowercase_vec,
    slice_vec, lowercased, all_ascii, ascii_lower, ascii_lower_char, is_ws, trim_start, trim_end,
};
use crate::subst::eq_str;

verus! {

/// A list of `(property, value)` pairs as character sequences.
pub open spec fn decls_view(v: Seq<(String, String)>) -> Seq<(Seq<char>, Seq<char>)> {
    v.map_values(|p: (String, String)| (p.0@, p.1@))
}

// ─── Property lists ───────────────────────────────────────────────────────────

pub open spec fn presentation_attrs_0() -> Seq<&'static str> {
    seq!["alignment-baseline", "baseline-shift", "clip", "clip-path", "clip-rule", "color", "color-interpolation", "color-interpolation-filters", "color-profile", "color-rendering", "cursor", "direction", "display", "dominant-baseline", "enable-background", "fill", "fill-opacity", "fill-rule", "filter", "flood-color", "flood-opacity", "font-family", "font-size", "font-size-adjust", "font-stretch"]
}

fn push_presentation_attrs_0(m: &mut Vec<&'static str>)
    ensures
        final(m)@ == old(m)@ + presentation_attrs_0(),
{
    m.push("alignment-baseline");
    m.push("baseline-shift");
    m.push("clip");
    m.push("clip-path");
    m.push("clip-rule");
    m.push("color");
    m.push("color-interpolation");
    m.push("color-interpolation-filters");
    m.push("color-profile");
    m.push("color-rendering");
    m.push("cursor");
    m.push("direction");
    m.push("display");
    m.push("dominant-baseline");
    m.push("enable-background");
    m.push("fill");
    m.push("fill-opacity");
    m.push("fill-rule");
    m.push("filter");
    m.push("flood-color");
    m.push("flood-opacity");
    m.push("font-family");
    m.push("font-size");
    m.push("font-size-adjust");
    m.push("font-stretch");
    assert(m@ =~= old(m)@ + presentation_attrs_0());
}

pub open spec fn presentation_attrs_1() -> Seq<&'static str> {
    seq!["font-style", "font-variant", "font-weight", "glyph-orientation-horizontal", "glyph-orientation-vertical", "image-rendering", "kerning", "letter-spacing", "lighting-color", "marker", "marker-end", "marker-mid", "marker-start", "mask", "opacity", "overflow", "paint-order", "pointer-events", "shape-rendering", "stop-color", "stop-opacity", "stroke", "stroke-dasharray", "stroke-dashoffset", "stroke-linecap"]
}

fn push_presentation_attrs_1(m: &mut Vec<&'static str>)
    ensures
        final(m)@ == old(m)@ + presentation_attrs_1(),
{
    m.push("font-style");
    m.push("font-variant");
    m.push("font-weight");
    m.push("glyph-orientation-horizontal");
    m.push("glyph-orientation-vertical");
    m.push("image-rendering");
    m.push("kerning");
    m.push("letter-spacing");
    m.push("lighting-color");
    m.push("marker");
    m.push("marker-end");
    m.push("marker-mid");
    m.push("marker-start");
    m.push("mask");
    m.push("opacity");
    m.push("overflow");
    m.push("paint-order");
    m.push("pointer-events");
    m.push("shape-rendering");
    m.push("stop-color");
    m.push("stop-opacity");
    m.push("stroke");
    m.push("stroke-dasharray");
    m.push("stroke-dashoffset");
    m.push("stroke-linecap");
    assert(m@ =~= old(m)@ + presentation_attrs_1());
}

pub open spec fn presentation_attrs_2() -> Seq<&'static str> {
    seq!["stroke-linejoin", "stroke-miterlimit", "stroke-opacity", "stroke-width", "text-anchor", "text-decoration", "text-rendering", "unicode-bidi", "vector-effect", "visibility", "word-spacing", "writing-mode"]
}

fn push_presentation_attrs_2(m: &mut Vec<&'static str>)
    ensures
        final(m)@ == old(m)@ + presentation_attrs_2(),
{
    m.push("stroke-linejoin");
    m.push("stroke-miterlimit");
    m.push("stroke-opacity");
    m.push("stroke-width");
    m.push("text-anchor");
    m.push("text-decoration");
    m.push("text-rendering");
    m.push("unicode-bidi");
    m.push("vector-effect");
    m.push("visibility");
    m.push("word-spacing");
    m.push("writing-mode");
    assert(m@ =~= old(m)@ + presentation_attrs_2());
}

/// SVG presentation attributes: these can be inlined from `style=""`.
pub open spec fn presentation_attrs() -> Seq<&'static str> {
    presentation_attrs_0() + presentation_attrs_1() + presentation_attrs_2()
}

fn presentation_attrs_vec() -> (m: Vec<&'static str>)
    ensures
        m@ == presentation_attrs(),
{
    let mut m: Vec<&'static str> = Vec::new();
    push_presentation_attrs_0(&mut m);
    push_presentation_attrs_1(&mut m);
    push_presentation_attrs_2(&mut m);
    assert(m@ =~= presentation_attrs());
    m
}

pub open spec fn color_props_0() -> Seq<&'static str> {
    seq!["fill", "stroke", "stop-color", "flood-color", "lighting-color", "color"]
}

fn push_color_props_0(m: &mut Vec<&'static str>)
    ensures
        final(m)@ == old(m)@ + color_props_0(),
{
    m.push("fill");
    m.push("stroke");
    m.push("stop-color");
    m.push("flood-color");
    m.push("lighting-color");
    m.push("color");
    assert(m@ =~= old(m)@ + color_props_0());
}

/// Color-related style properties.
pub open spec fn color_props() -> Seq<&'static str> {
    color_props_0()
}

fn color_props_vec() -> (m: Vec<&'static str>)
    ensures
        m@ == color_props(),
{
    let mut m: Vec<&'static str> = Vec::new();
    push_color_props_0(&mut m);
    assert(m@ =~= color_props());
    m
}

pub open spec fn is_presentation_attr(name: Seq<char>) -> bool {
    names_contain(presentation_attrs(), name)
}

pub open spec fn is_color_prop(name: Seq<char>) -> bool {
    names_contain(color_props(), name)
}

/// Whether `name` is an SVG presentation attribute.
pub fn presentation_attr(name: &Vec<char>) -> (b: bool)
    ensures
        b == is_presentation_attr(name@),
{
    in_names(&presentation_attrs_vec(), name)
}

pub(crate) fn color_prop(name: &Vec<char>) -> (b: bool)
    ensures
        b == is_color_prop(name@),
{
    in_names(&color_props_vec(), name)
}

// ─── Splitting ────────────────────────────────────────────────────────────────

pub open spec fn opens_at(s: Seq<char>, i: int) -> bool {
    i + 1 < s.len() && s[i] == '{' && s[i + 1] == '{'
}

pub open spec fn closes_at(s: Seq<char>, i: int) -> bool {
    i + 1 < s.len() && s[i] == '}' && s[i + 1] == '}'
}

/// The `;`-separated parts from index `i` on, with `depth` open `{{` and the
/// part read so far `cur`; a last part that is only whitespace is dropped.
pub open spec fn split_style_from(s: Seq<char>, i: int, depth: nat, cur: Seq<char>) -> Seq<
    Seq<char>,
>
    decreases s.len() - i,
{
    if i < 0 || i >= s.len() {
        if trim(cur).len() > 0 {
            seq![cur]
        } else {
            seq![]
        }
    } else if opens_at(s, i) {
        split_style_from(s, i + 2, depth + 1, cur + seq!['{', '{'])
    } else if closes_at(s, i) {
        split_style_from(
            s,
            i + 2,
            if depth > 0 {
                (depth - 1) as nat
            } else {
                0
            },
            cur + seq!['}', '}'],
        )
    } else if s[i] == ';' && depth == 0 {
        seq![cur] + split_style_from(s, i + 1, 0, seq![])
    } else {
        split_style_from(s, i + 1, depth, cur.push(s[i]))
    }
}

pub open spec fn split_style(s: Seq<char>) -> Seq<Seq<char>> {
    split_style_from(s, 0, 0, seq![])
}

/// Split a style string by ';', but not inside {{ ... }}
fn smart_split_style(style: &Vec<char>) -> (parts: Vec<Vec<char>>)
    ensures
        parts@.map_values(|v: Vec<char>| v@) == split_style(style@),
{
    let mut parts: Vec<Vec<char>> = Vec::new();
    let mut cur: Vec<char> = Vec::new();
    let mut depth: usize = 0;
    let n = style.len();
    let mut i: usize = 0;
    while i < n
        invariant
            i <= n == style.len(),
            depth <= i,
            parts@.map_values(|v: Vec<char>| v@) + split_style_from(style@, i as int, depth as nat, cur@)
                == split_style(style@),
        decreases n - i,
    {
        if i + 1 < n && style[i] == '{' && style[i + 1] == '{' {
            let ghost c0 = cur@;
            depth += 1;
            cur.push(style[i]);
            cur.push(style[i + 1]);
            assert(cur@ =~= c0 + seq!['{', '{']);
            i += 2;
            continue;
        }
        if i + 1 < n && style[i] == '}' && style[i + 1] == '}' {
            let ghost c0 = cur@;
            if depth > 0 {
                depth -= 1;
            }
            cur.push(style[i]);
            cur.push(style[i + 1]);
            assert(cur@ =~= c0 + seq!['}', '}']);
            i += 2;
            continue;
        }
        if style[i] == ';' && depth == 0 {
            let ghost old_parts = parts@;
            let done = cur;
            cur = Vec::new();
            parts.push(done);
            proof {
                assert(parts@.map_values(|v: Vec<char>| v@) =~= old_parts.map_values(
                    |v: Vec<char>| v@,
                ).push(done@));
                assert(cur@ =~= Seq::<char>::empty());
            }
            i += 1;
            continue;
        }
        cur.push(style[i]);
        i += 1;
    }
    let t = trim_vec(&cur);
    if t.len() > 0 {
        let ghost old_parts = parts@;
        parts.push(cur);
        proof {
            assert(parts@.map_values(|v: Vec<char>| v@) =~= old_parts.map_values(|v: Vec<char>| v@)
                + seq![cur@]);
        }
    } else {
        proof {
            assert(parts@.map_values(|v: Vec<char>| v@) + Seq::<Seq<char>>::empty() =~= parts@.map_values(|v: Vec<char>| v@));
        }
    }
    parts
}

/// Index of the first `:` from `i` on that is outside `{{ }}`.
pub open spec fn colon_from(s: Seq<char>, i: int, depth: nat) -> Option<int>
    decreases s.len() - i,
{
    if i < 0 || i >= s.len() {
        None
    } else if opens_at(s, i) {
        colon_from(s, i + 2, depth + 1)
    } else if closes_at(s, i) {
        colon_from(
            s,
            i + 2,
            if depth > 0 {
                (depth - 1) as nat
            } else {
                0
            },
        )
    } else if s[i] == ':' && depth == 0 {
        Some(i)
    } else {
        colon_from(s, i + 1, depth)
    }
}

fn find_colon(s: &Vec<char>) -> (r: Option<usize>)
    ensures
        r matches Some(p) ==> colon_from(s@, 0, 0) == Some(p as int) && p < s.len(),
        r is None ==> colon_from(s@, 0, 0) is None,
{
    let n = s.len();
    let mut depth: usize = 0;
    let mut i: usize = 0;
    while i < n
        invariant
            i <= n == s.len(),
            depth <= i,
            colon_from(s@, 0, 0) == colon_from(s@, i as int, depth as nat),
        decreases n - i,
    {
        if i + 1 < n && s[i] == '{' && s[i + 1] == '{' {
            depth += 1;
            i += 2;
            continue;
        }
        if i + 1 < n && s[i] == '}' && s[i + 1] == '}' {
            if depth > 0 {
                depth -= 1;
            }
            i += 2;
            continue;
        }
        if s[i] == ':' && depth == 0 {
            return Some(i);
        }
        i += 1;
    }
    None
}

// ─── Parsing ──────────────────────────────────────────────────────────────────

/// One declaration, cut at its first colon outside `{{...}}`: the property
/// (trimmed and lowercased as `str::to_lowercase` does) and the value
/// (trimmed); `Some(None)` where it is skipped (empty, no colon, or an empty
/// property).
pub open spec fn decl_outcome(decl: Seq<char>) -> Option<Option<(Seq<char>, Seq<char>)>> {
    let d = trim(decl);
    if d.len() == 0 {
        Some(None)
    } else {
        match colon_from(d, 0, 0) {
            None => Some(None),
            Some(c) => {
                let prop = lowercased(trim(d.take(c)));
                if prop.len() > 0 {
                    Some(Some((prop, trim(d.skip(c + 1)))))
                } else {
                    Some(None)
                }
            },
        }
    }
}

/// The declarations of the parts; `None` where one of them has no result.
pub open spec fn decls_of(parts: Seq<Seq<char>>) -> Option<Seq<(Seq<char>, Seq<char>)>>
    decreases parts.len(),
{
    if parts.len() == 0 {
        Some(seq![])
    } else {
        match decls_of(parts.drop_last()) {
            None => None,
            Some(ds) => match decl_outcome(parts.last()) {
                None => None,
                Some(None) => Some(ds),
                Some(Some(d)) => Some(ds.push(d)),
            },
        }
    }
}

/// What `parse_style` returns for `style`.
pub open spec fn parse_style_outcome(style: Seq<char>) -> Option<Seq<(Seq<char>, Seq<char>)>> {
    decls_of(split_style(style))
}

fn parse_decl(decl: &Vec<char>) -> (r: Option<Option<(String, String)>>)
    ensures
        match r {
            None => decl_outcome(decl@) is None,
            Some(None) => decl_outcome(decl@) == Some(None::<(Seq<char>, Seq<char>)>),
            Some(Some(p)) => decl_outcome(decl@) == Some(Some((p.0@, p.1@))),
        },
{
    let d = trim_vec(decl);
    if d.len() == 0 {
        return Some(None);
    }
    match find_colon(&d) {
        None => Some(None),
        Some(c) => {
            let p = slice_vec(&d, 0, c);
            let v = slice_vec(&d, c + 1, d.len());
            assert(p@ =~= d@.take(c as int));
            assert(v@ =~= d@.skip(c + 1));
            let prop = lowercase_vec(&trim_vec(&p));
            if prop.len() > 0 {
                Some(Some((string_of(&prop), string_of(&trim_vec(&v)))))
            } else {
                Some(None)
            }
        },
    }
}

fn parse_style_opt(style: &Vec<char>) -> (r: Option<Vec<(String, String)>>)
    ensures
        match r {
            None => parse_style_outcome(style@) is None,
            Some(v) => parse_style_outcome(style@) == Some(decls_view(v@)),
        },
{
    let parts = smart_split_style(style);
    let ghost ps = parts@.map_values(|v: Vec<char>| v@);
    let mut result: Vec<(String, String)> = Vec::new();
    let mut k: usize = 0;
    while k < parts.len()
        invariant
            k <= parts.len(),
            ps == parts@.map_values(|v: Vec<char>| v@),
            ps == split_style(style@),
            decls_of(ps.take(k as int)) == Some(decls_view(result@)),
        decreases parts.len() - k,
    {
        assert(ps.take(k + 1).drop_last() =~= ps.take(k as int));
        assert(ps.take(k + 1).last() == parts@[k as int]@);
        match parse_decl(&parts[k]) {
            None => {
                proof {
                    lemma_decls_of_none(ps, (k + 1) as int);
                }
                return None;
            },
            Some(None) => {},
            Some(Some(p)) => {
                let ghost old_r = result@;
                result.push(p);
                assert(decls_view(result@) =~= decls_view(old_r).push((p.0@, p.1@)));
            },
        }
        k += 1;
    }
    assert(ps.take(k as int) =~= ps);
    Some(result)
}

proof fn lemma_decls_of_none(ps: Seq<Seq<char>>, k: int)
    requires
        0 <= k <= ps.len(),
        decls_of(ps.take(k)) is None,
    ensures
        decls_of(ps) is None,
    decreases ps.len() - k,
{
    if k < ps.len() {
        assert(ps.take(k + 1).drop_last() =~= ps.take(k));
        lemma_decls_of_none(ps, k + 1);
    } else {
        assert(ps.take(k) =~= ps);
    }
}

/// Every style string parses: each declaration either gives a pair or is
/// skipped.
pub proof fn lemma_parse_style_total(style: Seq<char>)
    ensures
        parse_style_outcome(style) is Some,
{
    lemma_decls_of_some(split_style(style));
}

proof fn lemma_decls_of_some(ps: Seq<Seq<char>>)
    ensures
        decls_of(ps) is Some,
    decreases ps.len(),
{
    if ps.len() > 0 {
        lemma_decls_of_some(ps.drop_last());
        assert(decl_outcome(ps.last()) is Some);
    }
}

/// Parse a CSS style string into ordered (property, value) pairs.
/// Preserves substitution variables verbatim.
pub fn parse_style(style: &str) -> (r: Vec<(String, String)>)
    ensures
        parse_style_outcome(style@) == Some(decls_view(r@)),
{
    proof {
        lemma_parse_style_total(style@);
    }
    let s = chars_of(style);
    match parse_style_opt(&s) {
        Some(v) => v,
        None => Vec::new(),
    }
}

/// `parse_style` as an `Option`; every style string parses, so the result
/// is always `Some`.
pub fn try_parse_style(style: &str) -> (r: Option<Vec<(String, String)>>)
    ensures
        r is Some,
        match r {
            None => parse_style_outcome(style@) is None,
            Some(v) => parse_style_outcome(style@) == Some(decls_view(v@)),
        },
{
    proof {
        lemma_parse_style_total(style@);
    }
    Some(parse_style(style))
}


// ─── Serializing ──────────────────────────────────────────────────────────────

/// Lexicographic order of character sequences (the order of `str`'s `Ord`,
/// since UTF-8 bytes order as the code points do).
pub open spec fn seq_lt(a: Seq<char>, b: Seq<char>) -> bool
    decreases a.len(),
{
    if a.len() == 0 {
        b.len() > 0
    } else if b.len() == 0 {
        false
    } else if a[0] != b[0] {
        a[0] < b[0]
    } else {
        seq_lt(a.drop_first(), b.drop_first())
    }
}

/// Where a declaration with property `k` goes in a sorted list: after every
/// entry whose property is not greater.
pub open spec fn insert_pos(t: Seq<(Seq<char>, Seq<char>)>, k: Seq<char>) -> int
    decreases t.len(),
{
    if t.len() == 0 {
        0
    } else if seq_lt(k, t[0].0) {
        0
    } else {
        1 + insert_pos(t.drop_first(), k)
    }
}

/// The declarations stably sorted by property.
pub open spec fn sort_by_prop(s: Seq<(Seq<char>, Seq<char>)>) -> Seq<(Seq<char>, Seq<char>)>
    decreases s.len(),
{
    if s.len() == 0 {
        s
    } else {
        let t = sort_by_prop(s.drop_last());
        t.insert(insert_pos(t, s.last().0), s.last())
    }
}

/// `prop:value` pairs joined with `;`.
pub open spec fn join_decls(s: Seq<(Seq<char>, Seq<char>)>) -> Seq<char>
    decreases s.len(),
{
    if s.len() == 0 {
        seq![]
    } else if s.len() == 1 {
        s[0].0 + seq![':'] + s[0].1
    } else {
        join_decls(s.drop_last()) + seq![';'] + s.last().0 + seq![':'] + s.last().1
    }
}

fn lt_vec(a: &Vec<char>, b: &Vec<char>) -> (r: bool)
    ensures
        r == seq_lt(a@, b@),
{
    let mut i: usize = 0;
    assert(a@.skip(0) =~= a@);
    assert(b@.skip(0) =~= b@);
    while i < a.len() && i < b.len()
        invariant
            i <= a.len(),
            i <= b.len(),
            seq_lt(a@, b@) == seq_lt(a@.skip(i as int), b@.skip(i as int)),
        decreases a.len() - i,
    {
        assert(a@.skip(i as int)[0] == a@[i as int]);
        assert(b@.skip(i as int)[0] == b@[i as int]);
        if a[i] != b[i] {
            return a[i] < b[i];
        }
        assert(a@.skip(i as int).drop_first() =~= a@.skip(i + 1));
        assert(b@.skip(i as int).drop_first() =~= b@.skip(i + 1));
        i += 1;
    }
    i == a.len() && i < b.len()
}

fn insert_position(t: &Vec<(String, String)>, k: &Vec<char>) -> (p: usize)
    ensures
        p as int == insert_pos(decls_view(t@), k@),
        p <= t.len(),
{
    let ghost tv = decls_view(t@);
    let mut j: usize = 0;
    assert(tv.skip(0) =~= tv);
    while j < t.len()
        invariant
            j <= t.len(),
            tv == decls_view(t@),
            j + insert_pos(tv.skip(j as int), k@) == insert_pos(tv, k@),
        decreases t.len() - j,
    {
        assert(tv.skip(j as int)[0] == tv[j as int]);
        let key = chars_of(t[j].0.as_str());
        if lt_vec(k, &key) {
            return j;
        }
        assert(tv.skip(j as int).drop_first() =~= tv.skip(j + 1));
        j += 1;
    }
    j
}

/// The declarations stably sorted by property.
pub fn sort_decls(decls: &[(String, String)]) -> (sorted: Vec<(String, String)>)
    ensures
        decls_view(sorted@) == sort_by_prop(decls_view(decls@)),
{
    let ghost dv = decls_view(decls@);
    let mut sorted: Vec<(String, String)> = Vec::new();
    let mut k: usize = 0;
    while k < decls.len()
        invariant
            k <= decls.len(),
            dv == decls_view(decls@),
            decls_view(sorted@) == sort_by_prop(dv.take(k as int)),
        decreases decls.len() - k,
    {
        let key = chars_of(decls[k].0.as_str());
        let p = insert_position(&sorted, &key);
        let entry = (decls[k].0.clone(), decls[k].1.clone());
        let ghost old_s = sorted@;
        sorted.insert(p, entry);
        proof {
            assert(dv.take(k + 1).drop_last() =~= dv.take(k as int));
            assert(dv.take(k + 1).last() == dv[k as int]);
            assert(decls_view(sorted@) =~= decls_view(old_s).insert(p as int, dv[k as int]));
        }
        k += 1;
    }
    assert(dv.take(k as int) =~= dv);
    sorted
}

/// Serialize (property, value) pairs back to a style string, sorted for determinism.
pub fn serialize_style(decls: &[(String, String)]) -> (r: String)
    ensures
        r@ == join_decls(sort_by_prop(decls_view(decls@))),
{
    let sorted = sort_decls(decls);
    let ghost sv = decls_view(sorted@);
    let mut out: Vec<char> = Vec::new();
    let mut i: usize = 0;
    while i < sorted.len()
        invariant
            i <= sorted.len(),
            sv == decls_view(sorted@),
            out@ == join_decls(sv.take(i as int)),
        decreases sorted.len() - i,
    {
        let ghost o0 = out@;
        if i > 0 {
            out.push(';');
        }
        let kk = chars_of(sorted[i].0.as_str());
        let vv = chars_of(sorted[i].1.as_str());
        crate::text::append(&mut out, &kk);
        out.push(':');
        crate::text::append(&mut out, &vv);
        proof {
            assert(sv.take(i + 1).drop_last() =~= sv.take(i as int));
            assert(sv.take(i + 1).last() == sv[i as int]);
            if i == 0 {
                assert(sv.take(1)[0] == sv[0]);
                assert(out@ =~= sv[0].0 + seq![':'] + sv[0].1);
            } else {
                assert(out@ =~= o0 + seq![';'] + sv[i as int].0 + seq![':'] + sv[i as int].1);
            }
        }
        i += 1;
    }
    assert(sv.take(i as int) =~= sv);
    string_of(&out)
}

// ─── Color simplification ─────────────────────────────────────────────────────

/// A declaration with its color value simplified when its property is a
/// color property.
pub open spec fn simplified_decl(p: (Seq<char>, Seq<char>)) -> (Seq<char>, Seq<char>) {
    if is_color_prop(p.0) {
        match simplify_color_outcome(p.1) {
            Some(v) => (p.0, v),
            None => p,
        }
    } else {
        p
    }
}

/// Whether simplifying the colors of the declarations has a result.
pub open spec fn colors_simplifiable(ds: Seq<(Seq<char>, Seq<char>)>) -> bool {
    forall|i: int|
        0 <= i < ds.len() && is_color_prop(ds[i].0) ==> (#[trigger] simplify_color_outcome(
            ds[i].1,
        )) is Some
}

/// Whether `simplify_style_colors` has a result on these declarations.
pub fn colors_simplifiable_exec(decls: &[(String, String)]) -> (b: bool)
    ensures
        b == colors_simplifiable(decls_view(decls@)),
{
    let ghost dv = decls_view(decls@);
    let mut i: usize = 0;
    while i < decls.len()
        invariant
            i <= decls.len(),
            dv == decls_view(decls@),
            forall|j: int|
                0 <= j < i && is_color_prop(dv[j].0) ==> (#[trigger] simplify_color_outcome(dv[j].1)) is Some,
        decreases decls.len() - i,
    {
        if color_prop(&chars_of(decls[i].0.as_str())) {
            if crate::color::try_simplify_color(decls[i].1.as_str()).is_none() {
                assert(is_color_prop(dv[i as int].0) && simplify_color_outcome(dv[i as int].1) is None);
                return false;
            }
        }
        i += 1;
    }
    true
}

/// Simplify color values in a parsed style declaration list.
/// Leaves substitution variables intact.
pub fn simplify_style_colors(decls: &mut Vec<(String, String)>, simplify: bool)
    requires
        simplify ==> colors_simplifiable(decls_view(old(decls)@)),
    ensures
        decls_view(final(decls)@) == if simplify {
            decls_view(old(decls)@).map_values(|p: (Seq<char>, Seq<char>)| simplified_decl(p))
        } else {
            decls_view(old(decls)@)
        },
{
    if !simplify {
        return;
    }
    let ghost dv = decls_view(decls@);
    let mut out: Vec<(String, String)> = Vec::new();
    let mut i: usize = 0;
    while i < decls.len()
        invariant
            i <= decls.len(),
            dv == decls_view(decls@),
            colors_simplifiable(dv),
            decls_view(out@) == dv.take(i as int).map_values(
                |p: (Seq<char>, Seq<char>)| simplified_decl(p),
            ),
        decreases decls.len() - i,
    {
        let ghost o0 = out@;
        let prop = chars_of(decls[i].0.as_str());
        let k = decls[i].0.clone();
        if color_prop(&prop) {
            assert(simplify_color_outcome(dv[i as int].1) is Some);
            let nv = simplify_color(decls[i].1.as_str());
            out.push((k, nv));
        } else {
            out.push((k, decls[i].1.clone()));
        }
        proof {
            assert(dv.take(i + 1).map_values(|p: (Seq<char>, Seq<char>)| simplified_decl(p))
                =~= dv.take(i as int).map_values(|p: (Seq<char>, Seq<char>)| simplified_decl(p)).push(
                simplified_decl(dv[i as int])));
            assert(decls_view(out@) =~= decls_view(o0).push(simplified_decl(dv[i as int])));
        }
        i += 1;
    }
    assert(dv.take(i as int) =~= dv);
    *decls = out;
}

// ─── Presentation attributes ──────────────────────────────────────────────────

pub open spec fn is_pres_decl(p: (Seq<char>, Seq<char>)) -> bool {
    is_presentation_attr(p.0)
}

pub open spec fn is_not_pres_decl(p: (Seq<char>, Seq<char>)) -> bool {
    !is_presentation_attr(p.0)
}

/// Returns declarations that are valid presentation attributes (can be moved to XML attrs).
/// Removes them from the input and returns them separately.
pub fn extract_presentation_attrs(decls: &mut Vec<(String, String)>) -> (extracted: Vec<
    (String, String),
>)
    ensures
        decls_view(extracted@) == decls_view(old(decls)@).filter(
            |p: (Seq<char>, Seq<char>)| is_pres_decl(p),
        ),
        decls_view(final(decls)@) == decls_view(old(decls)@).filter(
            |p: (Seq<char>, Seq<char>)| is_not_pres_decl(p),
        ),
{
    let ghost dv = decls_view(decls@);
    let mut extracted: Vec<(String, String)> = Vec::new();
    let mut kept: Vec<(String, String)> = Vec::new();
    let mut i: usize = 0;
    while i < decls.len()
        invariant
            i <= decls.len(),
            dv == decls_view(decls@),
            decls_view(extracted@) == dv.take(i as int).filter(
                |p: (Seq<char>, Seq<char>)| is_pres_decl(p),
            ),
            decls_view(kept@) == dv.take(i as int).filter(
                |p: (Seq<char>, Seq<char>)| is_not_pres_decl(p),
            ),
        decreases decls.len() - i,
    {
        let entry = (decls[i].0.clone(), decls[i].1.clone());
        let name = chars_of(decls[i].0.as_str());
        let ghost e0 = extracted@;
        let ghost k0 = kept@;
        proof {
            assert(dv.take(i + 1) =~= dv.take(i as int).push(dv[i as int]));
            dv.take(i as int).lemma_filter_push(dv[i as int], |p: (Seq<char>, Seq<char>)| is_pres_decl(p));
            dv.take(i as int).lemma_filter_push(dv[i as int], |p: (Seq<char>, Seq<char>)| is_not_pres_decl(p));
        }
        if presentation_attr(&name) {
            extracted.push(entry);
            assert(decls_view(extracted@) =~= decls_view(e0).push(dv[i as int]));
        } else {
            kept.push(entry);
            assert(decls_view(kept@) =~= decls_view(k0).push(dv[i as int]));
        }
        i += 1;
    }
    assert(dv.take(i as int) =~= dv);
    *decls = kept;
    extracted
}

// ─── Defaults ─────────────────────────────────────────────────────────────────

/// Whether `val` is the SVG default of presentation property `prop`; never for
/// a value holding `{{`.
pub open spec fn default_value(prop: Seq<char>, val: Seq<char>) -> bool {
    if contains(val, seq!['{', '{']) {
        false
    } else if prop == "fill"@ {
        val == "black"@ || val == "#000"@ || val == "#000000"@
    } else if prop == "fill-opacity"@ {
        val == "1"@
    } else if prop == "fill-rule"@ {
        val == "nonzero"@
    } else if prop == "stroke"@ {
        val == "none"@
    } else if prop == "stroke-opacity"@ {
        val == "1"@
    } else if prop == "stroke-width"@ {
        val == "1"@
    } else if prop == "stroke-linecap"@ {
        val == "butt"@
    } else if prop == "stroke-linejoin"@ {
        val == "miter"@
    } else if prop == "stroke-miterlimit"@ {
        val == "4"@
    } else if prop == "stroke-dasharray"@ {
        val == "none"@
    } else if prop == "stroke-dashoffset"@ {
        val == "0"@
    } else if prop == "opacity"@ {
        val == "1"@
    } else if prop == "display"@ {
        val == "inline"@
    } else if prop == "visibility"@ {
        val == "visible"@
    } else if prop == "overflow"@ {
        val == "visible"@
    } else if prop == "color-interpolation"@ {
        val == "sRGB"@
    } else if prop == "color-rendering"@ {
        val == "auto"@
    } else if prop == "image-rendering"@ {
        val == "auto"@
    } else if prop == "shape-rendering"@ {
        val == "auto"@
    } else if prop == "text-rendering"@ {
        val == "auto"@
    } else if prop == "font-style"@ {
        val == "normal"@
    } else if prop == "font-variant"@ {
        val == "normal"@
    } else if prop == "font-weight"@ {
        val == "normal"@
    } else if prop == "font-stretch"@ {
        val == "normal"@
    } else if prop == "text-decoration"@ {
        val == "none"@
    } else if prop == "text-anchor"@ {
        val == "start"@
    } else if prop == "direction"@ {
        val == "ltr"@
    } else if prop == "unicode-bidi"@ {
        val == "normal"@
    } else if prop == "cursor"@ {
        val == "auto"@
    } else if prop == "pointer-events"@ {
        val == "visiblePainted"@
    } else if prop == "stop-opacity"@ {
        val == "1"@
    } else if prop == "flood-opacity"@ {
        val == "1"@
    } else {
        false
    }
}

pub fn default_value_chars(p: &Vec<char>, v: &Vec<char>) -> (b: bool)
    ensures
        b == default_value(p@, v@),
{
    let mut open: Vec<char> = Vec::new();
    open.push('{');
    open.push('{');
    assert(open@ =~= seq!['{', '{']);
    if contains_vec(v, &open) {
        false
    } else if eq_str(p, "fill") {
        eq_str(v, "black") || eq_str(v, "#000") || eq_str(v, "#000000")
    } else if eq_str(p, "fill-opacity") {
        eq_str(v, "1")
    } else if eq_str(p, "fill-rule") {
        eq_str(v, "nonzero")
    } else if eq_str(p, "stroke") {
        eq_str(v, "none")
    } else if eq_str(p, "stroke-opacity") {
        eq_str(v, "1")
    } else if eq_str(p, "stroke-width") {
        eq_str(v, "1")
    } else if eq_str(p, "stroke-linecap") {
        eq_str(v, "butt")
    } else if eq_str(p, "stroke-linejoin") {
        eq_str(v, "miter")
    } else if eq_str(p, "stroke-miterlimit") {
        eq_str(v, "4")
    } else if eq_str(p, "stroke-dasharray") {
        eq_str(v, "none")
    } else if eq_str(p, "stroke-dashoffset") {
        eq_str(v, "0")
    } else if eq_str(p, "opacity") {
        eq_str(v, "1")
    } else if eq_str(p, "display") {
        eq_str(v, "inline")
    } else if eq_str(p, "visibility") {
        eq_str(v, "visible")
    } else if eq_str(p, "overflow") {
        eq_str(v, "visible")
    } else if eq_str(p, "color-interpolation") {
        eq_str(v, "sRGB")
    } else if eq_str(p, "color-rendering") {
        eq_str(v, "auto")
    } else if eq_str(p, "image-rendering") {
        eq_str(v, "auto")
    } else if eq_str(p, "shape-rendering") {
        eq_str(v, "auto")
    } else if eq_str(p, "text-rendering") {
        eq_str(v, "auto")
    } else if eq_str(p, "font-style") {
        eq_str(v, "normal")
    } else if eq_str(p, "font-variant") {
        eq_str(v, "normal")
    } else if eq_str(p, "font-weight") {
        eq_str(v, "normal")
    } else if eq_str(p, "font-stretch") {
        eq_str(v, "normal")
    } else if eq_str(p, "text-decoration") {
        eq_str(v, "none")
    } else if eq_str(p, "text-anchor") {
        eq_str(v, "start")
    } else if eq_str(p, "direction") {
        eq_str(v, "ltr")
    } else if eq_str(p, "unicode-bidi") {
        eq_str(v, "normal")
    } else if eq_str(p, "cursor") {
        eq_str(v, "auto")
    } else if eq_str(p, "pointer-events") {
        eq_str(v, "visiblePainted")
    } else if eq_str(p, "stop-opacity") {
        eq_str(v, "1")
    } else if eq_str(p, "flood-opacity") {
        eq_str(v, "1")
    } else {
        false
    }
}

/// Default values for presentation attributes — don't emit if value equals default.
pub fn is_default_value(prop: &str, val: &str) -> (b: bool)
    ensures
        b == default_value(prop@, val@),
{
    default_value_chars(&chars_of(prop), &chars_of(val))
}

// ─── Laws of the sort ─────────────────────────────────────────────────────────

proof fn lemma_insert_pos(t: Seq<(Seq<char>, Seq<char>)>, k: Seq<char>)
    ensures
        0 <= insert_pos(t, k) <= t.len(),
        forall|i: int| 0 <= i < insert_pos(t, k) ==> !seq_lt(k, (#[trigger] t[i]).0),
        insert_pos(t, k) < t.len() ==> seq_lt(k, t[insert_pos(t, k)].0),
    decreases t.len(),
{
    if t.len() > 0 && !seq_lt(k, t[0].0) {
        lemma_insert_pos(t.drop_first(), k);
        assert forall|i: int| 0 <= i < insert_pos(t, k) implies !seq_lt(k, (#[trigger] t[i]).0) by {
            if i > 0 {
                assert(t[i] == t.drop_first()[i - 1]);
            }
        }
    }
}

proof fn lemma_seq_lt_trans(a: Seq<char>, b: Seq<char>, c: Seq<char>)
    requires
        seq_lt(a, b),
        seq_lt(b, c),
    ensures
        seq_lt(a, c),
    decreases a.len(),
{
    if a.len() > 0 && b.len() > 0 && c.len() > 0 && a[0] == b[0] && b[0] == c[0] {
        lemma_seq_lt_trans(a.drop_first(), b.drop_first(), c.drop_first());
    }
}

proof fn lemma_seq_lt_irrefl(a: Seq<char>)
    ensures
        !seq_lt(a, a),
    decreases a.len(),
{
    if a.len() > 0 {
        lemma_seq_lt_irrefl(a.drop_first());
    }
}

/// Sorting declarations by property keeps every declaration, and orders
/// them so that no property comes after a greater one.
pub proof fn lemma_sort_by_prop(s: Seq<(Seq<char>, Seq<char>)>)
    ensures
        sort_by_prop(s).len() == s.len(),
        forall|x: (Seq<char>, Seq<char>)| sort_by_prop(s).contains(x) <==> s.contains(x),
        forall|i: int, j: int|
            0 <= i < j < s.len() ==> !seq_lt((#[trigger] sort_by_prop(s)[j]).0, (#[trigger] sort_by_prop(s)[i]).0),
    decreases s.len(),
{
    if s.len() > 0 {
        let s0 = s.drop_last();
        lemma_sort_by_prop(s0);
        let t = sort_by_prop(s0);
        let x = s.last();
        let p = insert_pos(t, x.0);
        lemma_insert_pos(t, x.0);
        let r = t.insert(p, x);
        assert(sort_by_prop(s) == r);
        assert forall|y: (Seq<char>, Seq<char>)| r.contains(y) <==> s.contains(y) by {
            if r.contains(y) {
                let i = choose|i: int| 0 <= i < r.len() && r[i] == y;
                if i < p {
                    assert(r[i] == t[i]);
                    assert(t.contains(y));
                    assert(s0.contains(y));
                    let k = choose|k: int| 0 <= k < s0.len() && s0[k] == y;
                    assert(s0[k] == s[k]);
                    assert(s.contains(y));
                } else if i > p {
                    assert(r[i] == t[i - 1]);
                    assert(t.contains(y));
                    assert(s0.contains(y));
                    let k = choose|k: int| 0 <= k < s0.len() && s0[k] == y;
                    assert(s0[k] == s[k]);
                    assert(s.contains(y));
                } else {
                    assert(s[s.len() - 1] == y);
                }
            }
            if s.contains(y) {
                let i = choose|i: int| 0 <= i < s.len() && s[i] == y;
                if i < s.len() - 1 {
                    assert(s0[i] == y);
                    assert(s0.contains(y));
                    let k = choose|k: int| 0 <= k < t.len() && t[k] == y;
                    if k < p {
                        assert(r[k] == y);
                    } else {
                        assert(r[k + 1] == y);
                    }
                } else {
                    assert(r[p] == y);
                }
            }
        }
        assert forall|i: int, j: int| 0 <= i < j < r.len() implies !seq_lt((#[trigger] r[j]).0, (#[trigger] r[i]).0) by {
            if j < p {
                assert(r[i] == t[i] && r[j] == t[j]);
                assert(!seq_lt(t[j].0, t[i].0));
            } else if j == p {
                assert(r[i] == t[i]);
            } else if i < p {
                assert(r[i] == t[i] && r[j] == t[j - 1]);
                assert(!seq_lt(t[j - 1].0, t[i].0));
            } else if i == p {
                assert(r[j] == t[j - 1]);
                if p < t.len() {
                    if seq_lt(t[j - 1].0, x.0) {
                        lemma_seq_lt_trans(t[j - 1].0, x.0, t[p].0);
                        if j - 1 > p {
                            assert(!seq_lt(t[j - 1].0, t[p].0));
                        } else {
                            lemma_seq_lt_irrefl(t[p].0);
                        }
                    }
                }
            } else {
                assert(r[i] == t[i - 1] && r[j] == t[j - 1]);
                assert(!seq_lt(t[j - 1].0, t[i - 1].0));
            }
        }
    }
}


/// The declarations of `s` whose property is `k`, in order.
pub open spec fn with_key(s: Seq<(Seq<char>, Seq<char>)>, k: Seq<char>) -> Seq<(Seq<char>, Seq<char>)>
    decreases s.len(),
{
    if s.len() == 0 {
        seq![]
    } else if s.last().0 == k {
        with_key(s.drop_last(), k).push(s.last())
    } else {
        with_key(s.drop_last(), k)
    }
}

pub proof fn lemma_with_key_append(a: Seq<(Seq<char>, Seq<char>)>, b: Seq<(Seq<char>, Seq<char>)>, k: Seq<char>)
    ensures
        with_key(a + b, k) == with_key(a, k) + with_key(b, k),
    decreases b.len(),
{
    if b.len() == 0 {
        assert(a + b =~= a);
        assert(with_key(a, k) + with_key(b, k) =~= with_key(a, k));
    } else {
        assert((a + b).drop_last() =~= a + b.drop_last());
        assert((a + b).last() == b.last());
        lemma_with_key_append(a, b.drop_last(), k);
        if b.last().0 == k {
            assert(with_key(a, k) + with_key(b.drop_last(), k).push(b.last()) =~= (with_key(a, k)
                + with_key(b.drop_last(), k)).push(b.last()));
        }
    }
}

pub proof fn lemma_with_key_none(b: Seq<(Seq<char>, Seq<char>)>, k: Seq<char>)
    requires
        forall|i: int| 0 <= i < b.len() ==> (#[trigger] b[i]).0 != k,
    ensures
        with_key(b, k) == Seq::<(Seq<char>, Seq<char>)>::empty(),
    decreases b.len(),
{
    if b.len() > 0 {
        assert forall|i: int| 0 <= i < b.drop_last().len() implies (#[trigger] b.drop_last()[i]).0 != k by {
            assert(b.drop_last()[i] == b[i]);
        }
        lemma_with_key_none(b.drop_last(), k);
        assert(b[b.len() - 1].0 != k);
    }
}

/// The sort is stable: for every property, the declarations with that
/// property come out in the order they went in.
pub proof fn lemma_sort_by_prop_stable(s: Seq<(Seq<char>, Seq<char>)>, k: Seq<char>)
    ensures
        with_key(sort_by_prop(s), k) == with_key(s, k),
    decreases s.len(),
{
    if s.len() > 0 {
        let s0 = s.drop_last();
        let t = sort_by_prop(s0);
        let x = s.last();
        let p = insert_pos(t, x.0);
        lemma_sort_by_prop_stable(s0, k);
        lemma_sort_by_prop(s0);
        lemma_insert_pos(t, x.0);
        let r = t.insert(p, x);
        assert(sort_by_prop(s) == r);
        let a = t.take(p);
        let b = t.skip(p);
        assert(r =~= (a + seq![x]) + b);
        assert(t =~= a + b);
        lemma_with_key_append(a + seq![x], b, k);
        lemma_with_key_append(a, seq![x], k);
        lemma_with_key_append(a, b, k);
        let one = seq![x];
        assert(one.drop_last() =~= Seq::<(Seq<char>, Seq<char>)>::empty());
        assert(one.last() == x);
        assert(with_key(one.drop_last(), k) =~= Seq::<(Seq<char>, Seq<char>)>::empty());
        if x.0 == k {
            assert forall|i: int| 0 <= i < b.len() implies (#[trigger] b[i]).0 != k by {
                assert(b[i] == t[p + i]);
                if t[p + i].0 == k {
                    if i == 0 {
                        lemma_seq_lt_irrefl(k);
                    } else {
                        assert(!seq_lt(t[p + i].0, t[p].0));
                    }
                }
            }
            lemma_with_key_none(b, k);
            assert(with_key(a, k) + with_key(b, k) =~= with_key(a, k));
            assert(with_key(seq![x], k) =~= seq![x]);
            assert(with_key(a, k) + with_key(seq![x], k) + with_key(b, k) =~= with_key(t, k).push(x));
        } else {
            assert(with_key(seq![x], k) =~= Seq::<(Seq<char>, Seq<char>)>::empty());
            assert(with_key(a, k) + with_key(seq![x], k) + with_key(b, k) =~= with_key(t, k));
        }
    }
}


// ─── Round trip of serializing ────────────────────────────────────────────────

/// ASCII text with no `{`, `}` or `;` in it.
pub open spec fn plain_text(x: Seq<char>) -> bool {
    &&& all_ascii(x)
    &&& !x.contains('{')
    &&& !x.contains('}')
    &&& !x.contains(';')
}

/// No whitespace at either end.
pub open spec fn trimmed(x: Seq<char>) -> bool {
    x.len() == 0 || (!is_ws(x[0]) && !is_ws(x.last()))
}

/// A declaration as parsing gives it from plain text: a non-empty,
/// lowercase property without `:`, and a value, both plain and trimmed.
pub open spec fn clean_decl(e: (Seq<char>, Seq<char>)) -> bool {
    &&& plain_text(e.0)
    &&& plain_text(e.1)
    &&& e.0.len() > 0
    &&& !e.0.contains(':')
    &&& ascii_lower(e.0) == e.0
    &&& trimmed(e.0)
    &&& trimmed(e.1)
}

/// `prop:value`.
pub open spec fn decl_text(e: (Seq<char>, Seq<char>)) -> Seq<char> {
    e.0 + seq![':'] + e.1
}

pub open spec fn brace_free(s: Seq<char>) -> bool {
    !s.contains('{') && !s.contains('}')
}

proof fn lemma_trimmed_trim(y: Seq<char>)
    requires
        trimmed(y),
    ensures
        trim(y) == y,
{
    assert(trim_start(y) == y);
    assert(trim_end(y) == y);
}

proof fn lemma_trim_trimmed(y: Seq<char>)
    ensures
        trimmed(trim(y)),
        forall|c: char| trim(y).contains(c) ==> y.contains(c),
{
    let t = trim_start(y);
    crate::text::lemma_trim_start_empty_or_nonws(y);
    crate::text::lemma_trim_start_skip(y, 0);
    assert(y.skip(0) =~= y);
    crate::text::lemma_trim_end_take(t, t.len() as int);
    assert(t.take(t.len() as int) =~= t);
    crate::text::lemma_trim_end_empty_or_nonws(t);
    let u = trim_end(t);
    if u.len() > 0 {
        assert(u[0] == t[0]);
    }
    let f = crate::text::first_non_ws(y, 0);
    assert forall|c: char| trim(y).contains(c) implies y.contains(c) by {
        let j = choose|j: int| 0 <= j < u.len() && u[j] == c;
        assert(u[j] == t[j]);
        assert(t[j] == y[f + j]);
    }
}

/// Text whose characters all occur in plain text is plain.
proof fn lemma_plain_within(x: Seq<char>, y: Seq<char>)
    requires
        plain_text(y),
        forall|c: char| x.contains(c) ==> y.contains(c),
    ensures
        plain_text(x),
{
    assert forall|i: int| 0 <= i < x.len() implies (x[i] as u32) < 128 by {
        assert(x.contains(x[i]));
        let j = choose|j: int| 0 <= j < y.len() && y[j] == x[i];
    }
}

proof fn lemma_ascii_lower_plain(y: Seq<char>)
    requires
        plain_text(y),
        trimmed(y),
        !y.contains(':'),
    ensures
        plain_text(ascii_lower(y)),
        trimmed(ascii_lower(y)),
        !ascii_lower(y).contains(':'),
        ascii_lower(ascii_lower(y)) == ascii_lower(y),
        ascii_lower(y).len() == y.len(),
{
    let k = ascii_lower(y);
    assert forall|c: char| k.contains(c) && (c == '{' || c == '}' || c == ';' || c == ':') implies y.contains(c) by {
        let j = choose|j: int| 0 <= j < k.len() && k[j] == c;
        assert(k[j] == ascii_lower_char(y[j]));
        assert(y[j] == c);
    }
    assert forall|i: int| 0 <= i < k.len() implies (k[i] as u32) < 128 by {
        assert(k[i] == ascii_lower_char(y[i]));
    }
    assert(ascii_lower(k) =~= k);
    if y.len() > 0 {
        assert(k[0] == ascii_lower_char(y[0]));
        assert(k.last() == ascii_lower_char(y.last()));
    }
}

/// Index of the first `:` from `i` on in text without braces.
proof fn lemma_colon_plain(s: Seq<char>, i: int)
    requires
        brace_free(s),
        0 <= i <= s.len(),
    ensures
        colon_from(s, i, 0) matches Some(c) ==> i <= c < s.len() && s[c] == ':' && forall|j: int|
            i <= j < c ==> s[j] != ':',
        colon_from(s, i, 0) is None ==> forall|j: int| i <= j < s.len() ==> s[j] != ':',
    decreases s.len() - i,
{
    if i < s.len() {
        assert(s[i] != '{' && s[i] != '}');
        if s[i] != ':' {
            lemma_colon_plain(s, i + 1);
        }
    }
}

/// The parts of text without braces, after the part `cur` read so far, are
/// plain.
proof fn lemma_split_plain(s: Seq<char>, i: int, cur: Seq<char>)
    requires
        all_ascii(s),
        brace_free(s),
        plain_text(cur),
        0 <= i <= s.len(),
    ensures
        forall|j: int| 0 <= j < split_style_from(s, i, 0, cur).len() ==> plain_text(
            #[trigger] split_style_from(s, i, 0, cur)[j],
        ),
    decreases s.len() - i,
{
    if i >= s.len() {
        if trim(cur).len() > 0 {
            assert(split_style_from(s, i, 0, cur) == seq![cur]);
            assert(split_style_from(s, i, 0, cur)[0] == cur);
        } else {
            assert(split_style_from(s, i, 0, cur).len() == 0);
        }
    } else {
        assert(s[i] != '{' && s[i] != '}');
        assert(!opens_at(s, i) && !closes_at(s, i));
        if s[i] == ';' {
            lemma_split_plain(s, i + 1, seq![]);
            let rest = split_style_from(s, i + 1, 0, seq![]);
            assert(split_style_from(s, i, 0, cur) == seq![cur] + rest);
            assert forall|j: int| 0 <= j < split_style_from(s, i, 0, cur).len() implies plain_text(
                #[trigger] split_style_from(s, i, 0, cur)[j],
            ) by {
                if j > 0 {
                    assert(split_style_from(s, i, 0, cur)[j] == rest[j - 1]);
                }
            }
        } else {
            let c2 = cur.push(s[i]);
            assert forall|j: int| 0 <= j < c2.len() implies (c2[j] as u32) < 128 && c2[j] != '{'
                && c2[j] != '}' && c2[j] != ';' by {
                if j < cur.len() {
                    assert(c2[j] == cur[j]);
                    assert(cur.contains(cur[j]));
                }
            }
            assert(plain_text(c2));
            lemma_split_plain(s, i + 1, c2);
            assert(split_style_from(s, i, 0, cur) == split_style_from(s, i + 1, 0, c2));
        }
    }
}

/// A declaration parsed from plain text is clean.
proof fn lemma_decl_clean(part: Seq<char>)
    requires
        plain_text(part),
    ensures
        decl_outcome(part) matches Some(Some(e)) ==> clean_decl(e),
{
    let x = trim(part);
    lemma_trim_trimmed(part);
    lemma_plain_within(x, part);
    if x.len() > 0 {
        lemma_colon_plain(x, 0);
        match colon_from(x, 0, 0) {
            Some(c) => {
                let a = x.take(c);
                let b = x.skip(c + 1);
                assert forall|ch: char| a.contains(ch) implies x.contains(ch) by {
                    let j = choose|j: int| 0 <= j < a.len() && a[j] == ch;
                    assert(x[j] == ch);
                }
                assert forall|ch: char| b.contains(ch) implies x.contains(ch) by {
                    let j = choose|j: int| 0 <= j < b.len() && b[j] == ch;
                    assert(x[c + 1 + j] == ch);
                }
                let y = trim(a);
                lemma_trim_trimmed(a);
                lemma_trim_trimmed(b);
                lemma_plain_within(a, x);
                lemma_plain_within(y, a);
                lemma_plain_within(b, x);
                lemma_plain_within(trim(b), b);
                assert(!y.contains(':')) by {
                    if y.contains(':') {
                        assert(a.contains(':'));
                        let j = choose|j: int| 0 <= j < a.len() && a[j] == ':';
                        assert(x[j] == ':');
                    }
                }
                lemma_ascii_lower_plain(y);
            },
            None => {},
        }
    }
}

proof fn lemma_decls_clean(ps: Seq<Seq<char>>)
    requires
        forall|j: int| 0 <= j < ps.len() ==> plain_text(#[trigger] ps[j]),
    ensures
        decls_of(ps) matches Some(d) ==> forall|i: int| 0 <= i < d.len() ==> clean_decl(#[trigger] d[i]),
    decreases ps.len(),
{
    if ps.len() > 0 {
        assert forall|j: int| 0 <= j < ps.drop_last().len() implies plain_text(#[trigger] ps.drop_last()[j]) by {
            assert(ps.drop_last()[j] == ps[j]);
        }
        lemma_decls_clean(ps.drop_last());
        assert(plain_text(ps[ps.len() - 1]));
        lemma_decl_clean(ps.last());
    }
}

/// Splitting text without braces over a run without `;` from `i` to `e`.
proof fn lemma_split_run(s: Seq<char>, i: int, e: int, cur: Seq<char>)
    requires
        brace_free(s),
        0 <= i <= e <= s.len(),
        forall|j: int| i <= j < e ==> s[j] != ';',
        e < s.len() ==> s[e] == ';',
    ensures
        split_style_from(s, i, 0, cur) == if e < s.len() {
            seq![cur + s.subrange(i, e)] + split_style_from(s, e + 1, 0, seq![])
        } else if trim(cur + s.subrange(i, e)).len() > 0 {
            seq![cur + s.subrange(i, e)]
        } else {
            Seq::<Seq<char>>::empty()
        },
    decreases e - i,
{
    if i < e {
        assert(s[i] != '{' && s[i] != '}');
        lemma_split_run(s, i + 1, e, cur.push(s[i]));
        assert(cur.push(s[i]) + s.subrange(i + 1, e) =~= cur + s.subrange(i, e));
    } else {
        assert(cur + s.subrange(i, i) =~= cur);
        if e < s.len() {
            assert(s[e] != '{' && s[e] != '}');
        }
    }
}

/// Splitting from inside the second half of `a + b` is splitting `b`.
proof fn lemma_split_shift(a: Seq<char>, b: Seq<char>, i: int, depth: nat, cur: Seq<char>)
    requires
        0 <= i <= b.len(),
    ensures
        split_style_from(a + b, a.len() + i, depth, cur) == split_style_from(b, i, depth, cur),
    decreases b.len() - i,
{
    let s = a + b;
    let k = a.len() + i;
    if i < b.len() {
        assert(s[k] == b[i]);
        if i + 1 < b.len() {
            assert(s[k + 1] == b[i + 1]);
        }
        assert(opens_at(s, k) == opens_at(b, i));
        assert(closes_at(s, k) == closes_at(b, i));
        if opens_at(b, i) {
            lemma_split_shift(a, b, i + 2, depth + 1, cur + seq!['{', '{']);
        } else if closes_at(b, i) {
            lemma_split_shift(
                a,
                b,
                i + 2,
                if depth > 0 {
                    (depth - 1) as nat
                } else {
                    0
                },
                cur + seq!['}', '}'],
            );
        } else if b[i] == ';' && depth == 0 {
            lemma_split_shift(a, b, i + 1, 0, seq![]);
        } else {
            lemma_split_shift(a, b, i + 1, depth, cur.push(b[i]));
        }
    }
}

proof fn lemma_join_front(u: Seq<(Seq<char>, Seq<char>)>)
    requires
        u.len() >= 2,
    ensures
        join_decls(u) == decl_text(u[0]) + seq![';'] + join_decls(u.drop_first()),
    decreases u.len(),
{
    let u0 = u.drop_last();
    let t = u.drop_first();
    let l = u.last();
    assert(t.drop_last() =~= u0.drop_first());
    assert(t.last() == l);
    assert(join_decls(u) == join_decls(u0) + seq![';'] + l.0 + seq![':'] + l.1);
    if u.len() == 2 {
        assert(u0.len() == 1 && u0[0] == u[0]);
        assert(t.len() == 1 && t[0] == l);
        assert(join_decls(u0) == decl_text(u[0]));
        assert(join_decls(t) == decl_text(l));
        assert(join_decls(u) =~= decl_text(u[0]) + seq![';'] + join_decls(t));
    } else {
        lemma_join_front(u0);
        assert(u0[0] == u[0]);
        assert(join_decls(t) == join_decls(t.drop_last()) + seq![';'] + l.0 + seq![':'] + l.1);
        assert(join_decls(u) =~= decl_text(u[0]) + seq![';'] + join_decls(t));
    }
}

proof fn lemma_decl_text_plain(e: (Seq<char>, Seq<char>))
    requires
        clean_decl(e),
    ensures
        all_ascii(decl_text(e)),
        brace_free(decl_text(e)),
        !decl_text(e).contains(';'),
        trimmed(decl_text(e)),
        decl_text(e).len() > 0,
{
    let w = decl_text(e);
    let n = e.0.len();
    assert forall|j: int| 0 <= j < w.len() implies (w[j] as u32) < 128 && w[j] != '{' && w[j] != '}' && w[j] != ';' by {
        if j < n {
            assert(w[j] == e.0[j]);
            assert(e.0.contains(e.0[j]));
        } else if j > n {
            assert(w[j] == e.1[j - n - 1]);
            assert(e.1.contains(e.1[j - n - 1]));
        }
    }
    assert(w[0] == e.0[0]);
    if e.1.len() > 0 {
        assert(w.last() == e.1.last());
    }
}

proof fn lemma_join_plain(u: Seq<(Seq<char>, Seq<char>)>)
    requires
        forall|i: int| 0 <= i < u.len() ==> clean_decl(#[trigger] u[i]),
    ensures
        brace_free(join_decls(u)),
    decreases u.len(),
{
    if u.len() >= 2 {
        assert forall|i: int| 0 <= i < u.drop_last().len() implies clean_decl(#[trigger] u.drop_last()[i]) by {
            assert(u.drop_last()[i] == u[i]);
        }
        lemma_join_plain(u.drop_last());
        let j0 = join_decls(u.drop_last());
        let l = u.last();
        assert(clean_decl(u[u.len() - 1]));
        lemma_decl_text_plain(l);
        let w = join_decls(u);
        assert(w =~= j0 + seq![';'] + decl_text(l));
        assert forall|j: int| 0 <= j < w.len() implies w[j] != '{' && w[j] != '}' by {
            if j < j0.len() {
                assert(w[j] == j0[j]);
                assert(j0.contains(j0[j]));
            } else if j > j0.len() {
                assert(w[j] == decl_text(l)[j - j0.len() - 1]);
                assert(decl_text(l).contains(decl_text(l)[j - j0.len() - 1]));
            }
        }
    } else if u.len() == 1 {
        assert(clean_decl(u[0]));
        lemma_decl_text_plain(u[0]);
    }
}

/// The `prop:value` texts of declarations.
pub open spec fn decl_texts(u: Seq<(Seq<char>, Seq<char>)>) -> Seq<Seq<char>> {
    u.map_values(|e: (Seq<char>, Seq<char>)| decl_text(e))
}

#[verifier::rlimit(40)]
proof fn lemma_split_join_front(u: Seq<(Seq<char>, Seq<char>)>)
    requires
        u.len() >= 2,
        forall|i: int| 0 <= i < u.len() ==> clean_decl(#[trigger] u[i]),
    ensures
        split_style(join_decls(u)) == seq![decl_text(u[0])] + split_style(join_decls(u.drop_first())),
{
    assert(clean_decl(u[0]));
    lemma_decl_text_plain(u[0]);
    let t0 = decl_text(u[0]);
    lemma_join_front(u);
    lemma_join_plain(u);
    let rest = u.drop_first();
    let w = join_decls(u);
    let a = t0 + seq![';'];
    let b = join_decls(rest);
    assert(w =~= a + b);
    assert(w[t0.len() as int] == ';');
    assert forall|j: int| 0 <= j < t0.len() implies w[j] != ';' by {
        assert(w[j] == t0[j]);
        assert(t0.contains(t0[j]));
    }
    lemma_split_run(w, 0, t0.len() as int, seq![]);
    assert(Seq::<char>::empty() + w.subrange(0, t0.len() as int) =~= t0);
    lemma_split_shift(a, b, 0, 0, seq![]);
}

/// Splitting what `join_decls` wrote gives back each `prop:value`.
proof fn lemma_split_join(u: Seq<(Seq<char>, Seq<char>)>)
    requires
        forall|i: int| 0 <= i < u.len() ==> clean_decl(#[trigger] u[i]),
    ensures
        split_style(join_decls(u)) == decl_texts(u),
    decreases u.len(),
{
    if u.len() == 0 {
        assert(trim(Seq::<char>::empty()).len() == 0) by {
            lemma_trimmed_trim(Seq::<char>::empty());
        }
        assert(split_style(join_decls(u)) =~= decl_texts(u));
    } else if u.len() == 1 {
        assert(clean_decl(u[0]));
        lemma_decl_text_plain(u[0]);
        let t0 = decl_text(u[0]);
        assert forall|j: int| 0 <= j < t0.len() implies t0[j] != ';' by {
            assert(t0.contains(t0[j]));
        }
        let w = join_decls(u);
        assert(w == t0);
        lemma_split_run(w, 0, w.len() as int, seq![]);
        assert(Seq::<char>::empty() + w.subrange(0, w.len() as int) =~= t0);
        lemma_trimmed_trim(t0);
        assert(split_style(w) =~= decl_texts(u));
    } else {
        let rest = u.drop_first();
        assert forall|i: int| 0 <= i < rest.len() implies clean_decl(#[trigger] rest[i]) by {
            assert(rest[i] == u[i + 1]);
        }
        lemma_split_join(rest);
        lemma_split_join_front(u);
        assert(decl_texts(u) =~= seq![decl_text(u[0])] + decl_texts(rest));
    }
}

/// Parsing `prop:value` of a clean declaration gives it back.
proof fn lemma_decl_text_outcome(e: (Seq<char>, Seq<char>))
    requires
        clean_decl(e),
    ensures
        decl_outcome(decl_text(e)) == Some(Some(e)),
{
    let w = decl_text(e);
    let n = e.0.len() as int;
    lemma_decl_text_plain(e);
    lemma_trimmed_trim(w);
    lemma_colon_plain(w, 0);
    assert(w[n] == ':');
    assert forall|j: int| 0 <= j < n implies w[j] != ':' by {
        assert(w[j] == e.0[j]);
        assert(e.0.contains(e.0[j]));
    }
    match colon_from(w, 0, 0) {
        Some(c) => {
            if c < n {
                assert(w[c] != ':');
            } else if c > n {
                assert(w[n] != ':');
            }
        },
        None => {
            assert(w[n] != ':');
        },
    }
    assert(w.take(n) =~= e.0);
    assert(w.skip(n + 1) =~= e.1);
    lemma_trimmed_trim(e.0);
    lemma_trimmed_trim(e.1);
}

proof fn lemma_decls_of_texts(u: Seq<(Seq<char>, Seq<char>)>)
    requires
        forall|i: int| 0 <= i < u.len() ==> clean_decl(#[trigger] u[i]),
    ensures
        decls_of(decl_texts(u)) == Some(u),
    decreases u.len(),
{
    let texts = decl_texts(u);
    if u.len() > 0 {
        let u0 = u.drop_last();
        assert forall|i: int| 0 <= i < u0.len() implies clean_decl(#[trigger] u0[i]) by {
            assert(u0[i] == u[i]);
        }
        lemma_decls_of_texts(u0);
        assert(texts.drop_last() =~= decl_texts(u0));
        assert(texts.last() == decl_text(u.last()));
        assert(clean_decl(u[u.len() - 1]));
        lemma_decl_text_outcome(u.last());
        assert(u0.push(u.last()) =~= u);
    }
}

/// Serializing parsed declarations and parsing the result gives the
/// declarations back, stably sorted by property: for an ASCII style string
/// without braces, `parse_style(serialize_style(parse_style(s)))` is
/// `parse_style(s)` sorted.
pub proof fn lemma_style_round_trip(s: Seq<char>)
    requires
        all_ascii(s),
        brace_free(s),
    ensures
        parse_style_outcome(s) matches Some(d) ==> parse_style_outcome(join_decls(sort_by_prop(d)))
            == Some(sort_by_prop(d)),
{
    lemma_split_plain(s, 0, seq![]);
    let ps = split_style(s);
    lemma_decls_clean(ps);
    match decls_of(ps) {
        Some(d) => {
            let u = sort_by_prop(d);
            lemma_sort_by_prop(d);
            assert forall|i: int| 0 <= i < u.len() implies clean_decl(#[trigger] u[i]) by {
                assert(u.contains(u[i]));
                assert(d.contains(u[i]));
                let k = choose|k: int| 0 <= k < d.len() && d[k] == u[i];
            }
            lemma_split_join(u);
            lemma_decls_of_texts(u);
        },
        None => {},
    }
}


// ─── The sort is determined by each property's declarations ──────────────────

proof fn lemma_seq_lt_total(a: Seq<char>, b: Seq<char>)
    requires
        a != b,
    ensures
        seq_lt(a, b) || seq_lt(b, a),
    decreases a.len(),
{
    if a.len() > 0 && b.len() > 0 && a[0] == b[0] {
        if a.drop_first() == b.drop_first() {
            assert(a =~= seq![a[0]] + a.drop_first());
            assert(b =~= seq![b[0]] + b.drop_first());
        }
        lemma_seq_lt_total(a.drop_first(), b.drop_first());
    } else if a.len() == 0 && b.len() == 0 {
        assert(a =~= b);
    }
}

proof fn lemma_with_key_front(u: Seq<(Seq<char>, Seq<char>)>, k: Seq<char>)
    requires
        u.len() > 0,
    ensures
        with_key(u, k) == (if u[0].0 == k {
            seq![u[0]]
        } else {
            Seq::<(Seq<char>, Seq<char>)>::empty()
        }) + with_key(u.drop_first(), k),
{
    let h = seq![u[0]];
    assert(u =~= h + u.drop_first());
    lemma_with_key_append(h, u.drop_first(), k);
    assert(h.drop_last() =~= Seq::<(Seq<char>, Seq<char>)>::empty());
    assert(h.last() == u[0]);
    assert(with_key(h.drop_last(), k) =~= Seq::<(Seq<char>, Seq<char>)>::empty());
    if u[0].0 == k {
        assert(with_key(h, k) =~= h);
    } else {
        assert(with_key(h, k) =~= Seq::<(Seq<char>, Seq<char>)>::empty());
    }
}

proof fn lemma_with_key_has(u: Seq<(Seq<char>, Seq<char>)>, j: int)
    requires
        0 <= j < u.len(),
    ensures
        with_key(u, u[j].0).len() > 0,
    decreases u.len(),
{
    if j < u.len() - 1 {
        assert(u.drop_last()[j] == u[j]);
        lemma_with_key_has(u.drop_last(), j);
    }
}

pub open spec fn sorted_by_prop(u: Seq<(Seq<char>, Seq<char>)>) -> bool {
    forall|i: int, j: int| 0 <= i < j < u.len() ==> !seq_lt((#[trigger] u[j]).0, (#[trigger] u[i]).0)
}

proof fn lemma_sorted_unique(u: Seq<(Seq<char>, Seq<char>)>, v: Seq<(Seq<char>, Seq<char>)>)
    requires
        sorted_by_prop(u),
        sorted_by_prop(v),
        forall|k: Seq<char>| #[trigger] with_key(u, k) == with_key(v, k),
    ensures
        u == v,
    decreases u.len() + v.len(),
{
    if u.len() == 0 && v.len() == 0 {
        assert(u =~= v);
    } else if u.len() == 0 {
        lemma_with_key_has(v, 0);
        assert(with_key(u, v[0].0) =~= Seq::<(Seq<char>, Seq<char>)>::empty());
    } else if v.len() == 0 {
        lemma_with_key_has(u, 0);
        assert(with_key(v, u[0].0) =~= Seq::<(Seq<char>, Seq<char>)>::empty());
    } else {
        let a = u[0].0;
        let b = v[0].0;
        // The first names agree: each is the least name of both lists.
        assert(a == b) by {
            if a != b {
                lemma_with_key_front(u, b);
                lemma_with_key_front(v, a);
                lemma_with_key_has(u, 0);
                lemma_with_key_has(v, 0);
                // `b` occurs in `u` after its first element, so `a` is not above it.
                lemma_with_key_contains(u.drop_first(), b);
                lemma_with_key_contains(v.drop_first(), a);
                let ju = choose|j: int| 0 <= j < u.drop_first().len() && u.drop_first()[j].0 == b;
                let jv = choose|j: int| 0 <= j < v.drop_first().len() && v.drop_first()[j].0 == a;
                assert(u[ju + 1].0 == b && v[jv + 1].0 == a);
                assert(!seq_lt(b, a) && !seq_lt(a, b));
                lemma_seq_lt_total(a, b);
            }
        }
        lemma_with_key_front(u, a);
        lemma_with_key_front(v, a);
        assert(with_key(u, a)[0] == u[0]);
        assert(with_key(v, a)[0] == v[0]);
        assert(u[0] == v[0]);
        let u1 = u.drop_first();
        let v1 = v.drop_first();
        assert forall|k: Seq<char>| #[trigger] with_key(u1, k) == with_key(v1, k) by {
            lemma_with_key_front(u, k);
            lemma_with_key_front(v, k);
            assert(with_key(u, k) == with_key(v, k));
            if u[0].0 == k {
                assert(with_key(u1, k) =~= with_key(u, k).drop_first());
                assert(with_key(v1, k) =~= with_key(v, k).drop_first());
            } else {
                assert(with_key(u1, k) =~= with_key(u, k));
                assert(with_key(v1, k) =~= with_key(v, k));
            }
        }
        assert(sorted_by_prop(u1)) by {
            assert forall|i: int, j: int| 0 <= i < j < u1.len() implies !seq_lt((#[trigger] u1[j]).0, (#[trigger] u1[i]).0) by {
                assert(u1[j] == u[j + 1] && u1[i] == u[i + 1]);
            }
        }
        assert(sorted_by_prop(v1)) by {
            assert forall|i: int, j: int| 0 <= i < j < v1.len() implies !seq_lt((#[trigger] v1[j]).0, (#[trigger] v1[i]).0) by {
                assert(v1[j] == v[j + 1] && v1[i] == v[i + 1]);
            }
        }
        lemma_sorted_unique(u1, v1);
        assert(u =~= seq![u[0]] + u1);
        assert(v =~= seq![v[0]] + v1);
    }
}

proof fn lemma_with_key_contains(u: Seq<(Seq<char>, Seq<char>)>, k: Seq<char>)
    requires
        with_key(u, k).len() > 0,
    ensures
        exists|j: int| 0 <= j < u.len() && u[j].0 == k,
    decreases u.len(),
{
    if u.last().0 == k {
        assert(u[u.len() - 1].0 == k);
    } else {
        lemma_with_key_contains(u.drop_last(), k);
        let j = choose|j: int| 0 <= j < u.drop_last().len() && u.drop_last()[j].0 == k;
        assert(u[j] == u.drop_last()[j]);
    }
}

/// Sorting by property depends only on each property's declarations in
/// order: lists that agree on those sort to the same list.
pub proof fn lemma_sort_by_prop_determined(x: Seq<(Seq<char>, Seq<char>)>, y: Seq<(Seq<char>, Seq<char>)>)
    requires
        forall|k: Seq<char>| #[trigger] with_key(x, k) == with_key(y, k),
    ensures
        sort_by_prop(x) == sort_by_prop(y),
{
    lemma_sort_by_prop(x);
    lemma_sort_by_prop(y);
    assert forall|k: Seq<char>| #[trigger] with_key(sort_by_prop(x), k) == with_key(sort_by_prop(y), k) by {
        lemma_sort_by_prop_stable(x, k);
        lemma_sort_by_prop_stable(y, k);
        assert(with_key(x, k) == with_key(y, k));
    }
    lemma_sorted_unique(sort_by_prop(x), sort_by_prop(y));
}

} // verus!
