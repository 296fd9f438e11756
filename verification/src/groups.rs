//! Grouping of sibling elements: runs of siblings that share presentation
//! attributes are wrapped in a `<g>` that carries the shared attributes.
use vstd::prelude::*;
use crate::css::{decls_view, is_presentation_attr, presentation_attr};
use crate::gradient::{last_value, opt_string_view};
use crate::subst::{caps_view, has_placeholder, value_has_subst, CapturedVar};
use crate::text::{
    append, chars_of, contains, contains_vec, eq_vec, find_from, find_vec, in_names,
    lemma_find_from, names_contain, replace_all, replace_vec, slice_vec, string_of, trim_start,
};

verus! {

pub open spec fn groupable_attrs_0() -> Seq<&'static str> {
    seq!["fill", "fill-opacity", "fill-rule", "stroke", "stroke-dasharray", "stroke-dashoffset", "stroke-linecap", "stroke-linejoin", "stroke-miterlimit", "stroke-opacity", "stroke-width", "opacity", "color", "color-interpolation", "color-rendering", "cursor", "direction", "display", "font-family", "font-size", "font-size-adjust", "font-stretch", "font-style", "font-variant", "font-weight"]
}

fn push_groupable_attrs_0(m: &mut Vec<&'static str>)
    ensures
        final(m)@ == old(m)@ + groupable_attrs_0(),
{
    m.push("fill");
    m.push("fill-opacity");
    m.push("fill-rule");
    m.push("stroke");
    m.push("stroke-dasharray");
    m.push("stroke-dashoffset");
    m.push("stroke-linecap");
    m.push("stroke-linejoin");
    m.push("stroke-miterlimit");
    m.push("stroke-opacity");
    m.push("stroke-width");
    m.push("opacity");
    m.push("color");
    m.push("color-interpolation");
    m.push("color-rendering");
    m.push("cursor");
    m.push("direction");
    m.push("display");
    m.push("font-family");
    m.push("font-size");
    m.push("font-size-adjust");
    m.push("font-stretch");
    m.push("font-style");
    m.push("font-variant");
    m.push("font-weight");
    assert(m@ =~= old(m)@ + groupable_attrs_0());
}

pub open spec fn groupable_attrs_1() -> Seq<&'static str> {
    seq!["letter-spacing", "word-spacing", "text-anchor", "text-decoration", "text-rendering", "visibility", "pointer-events", "shape-rendering", "image-rendering", "clip-rule", "paint-order"]
}

fn push_groupable_attrs_1(m: &mut Vec<&'static str>)
    ensures
        final(m)@ == old(m)@ + groupable_attrs_1(),
{
    m.push("letter-spacing");
    m.push("word-spacing");
    m.push("text-anchor");
    m.push("text-decoration");
    m.push("text-rendering");
    m.push("visibility");
    m.push("pointer-events");
    m.push("shape-rendering");
    m.push("image-rendering");
    m.push("clip-rule");
    m.push("paint-order");
    assert(m@ =~= old(m)@ + groupable_attrs_1());
}

/// Presentation attributes that a `<g>` can carry for its children.
pub open spec fn groupable_attrs() -> Seq<&'static str> {
    groupable_attrs_0() + groupable_attrs_1()
}

fn groupable_attrs_vec() -> (m: Vec<&'static str>)
    ensures
        m@ == groupable_attrs(),
{
    let mut m: Vec<&'static str> = Vec::new();
    push_groupable_attrs_0(&mut m);
    push_groupable_attrs_1(&mut m);
    assert(m@ =~= groupable_attrs());
    m
}

pub open spec fn structural_tags_0() -> Seq<&'static str> {
    seq!["g", "defs", "symbol", "marker", "clipPath", "mask", "pattern", "switch", "svg", "use"]
}

fn push_structural_tags_0(m: &mut Vec<&'static str>)
    ensures
        final(m)@ == old(m)@ + structural_tags_0(),
{
    m.push("g");
    m.push("defs");
    m.push("symbol");
    m.push("marker");
    m.push("clipPath");
    m.push("mask");
    m.push("pattern");
    m.push("switch");
    m.push("svg");
    m.push("use");
    assert(m@ =~= old(m)@ + structural_tags_0());
}

/// Elements that are never grouped.
pub open spec fn structural_tags() -> Seq<&'static str> {
    structural_tags_0()
}

fn structural_tags_vec() -> (m: Vec<&'static str>)
    ensures
        m@ == structural_tags(),
{
    let mut m: Vec<&'static str> = Vec::new();
    push_structural_tags_0(&mut m);
    assert(m@ =~= structural_tags());
    m
}

// ─── Public types ─────────────────────────────────────────────────────────────

#[derive(Debug, Clone)]
pub struct ElementFragment {
    pub text: String,
    pub tag: String,
    pub groupable_attrs: Vec<(String, String)>,
}

pub struct FragView {
    pub text: Seq<char>,
    pub tag: Seq<char>,
    pub attrs: Seq<(Seq<char>, Seq<char>)>,
}

impl View for ElementFragment {
    type V = FragView;

    open spec fn view(&self) -> FragView {
        FragView { text: self.text@, tag: self.tag@, attrs: decls_view(self.groupable_attrs@) }
    }
}

pub open spec fn frags_view(f: Seq<ElementFragment>) -> Seq<FragView> {
    f.map_values(|x: ElementFragment| x@)
}

/// An attribute that can move to a group: groupable, a presentation
/// attribute, and free of substitution placeholders.
pub open spec fn groupable_decl(p: (Seq<char>, Seq<char>), cvs: Seq<crate::subst::CapView>) -> bool {
    names_contain(groupable_attrs(), p.0) && is_presentation_attr(p.0) && !has_placeholder(p.1, cvs)
}

fn extract_groupable(attrs: &[(String, String)], vars: &[CapturedVar]) -> (r: Vec<(String, String)>)
    ensures
        decls_view(r@) == decls_view(attrs@).filter(
            |p: (Seq<char>, Seq<char>)| groupable_decl(p, caps_view(vars@)),
        ),
{
    let ghost av = decls_view(attrs@);
    let ghost cvs = caps_view(vars@);
    let names = groupable_attrs_vec();
    let mut out: Vec<(String, String)> = Vec::new();
    let mut i: usize = 0;
    while i < attrs.len()
        invariant
            i <= attrs.len(),
            av == decls_view(attrs@),
            cvs == caps_view(vars@),
            names@ == groupable_attrs(),
            decls_view(out@) == av.take(i as int).filter(
                |p: (Seq<char>, Seq<char>)| groupable_decl(p, cvs),
            ),
        decreases attrs.len() - i,
    {
        let ghost o0 = out@;
        proof {
            assert(av.take(i + 1) =~= av.take(i as int).push(av[i as int]));
            av.take(i as int).lemma_filter_push(av[i as int], |p: (Seq<char>, Seq<char>)| groupable_decl(p, cvs));
        }
        let k = chars_of(attrs[i].0.as_str());
        if in_names(&names, &k) && presentation_attr(&k) && !value_has_subst(attrs[i].1.as_str(), vars) {
            out.push((attrs[i].0.clone(), attrs[i].1.clone()));
            assert(decls_view(out@) =~= decls_view(o0).push(av[i as int]));
        }
        i += 1;
    }
    assert(av.take(i as int) =~= av);
    out
}

impl ElementFragment {
    pub fn new(tag: &str, text: String, all_attrs: &[(String, String)], vars: &[CapturedVar]) -> (r:
        Self)
        ensures
            r@ == (FragView {
                text: text@,
                tag: tag@,
                attrs: decls_view(all_attrs@).filter(
                    |p: (Seq<char>, Seq<char>)| groupable_decl(p, caps_view(vars@)),
                ),
            }),
    {
        let groupable_attrs = extract_groupable(all_attrs, vars);
        Self { text, tag: string_of(&chars_of(tag)), groupable_attrs }
    }
}

// ─── Run detection ────────────────────────────────────────────────────────────

pub open spec fn is_structural(tag: Seq<char>) -> bool {
    names_contain(structural_tags(), tag)
}

/// The shared attributes that the next element also has with the same value.
pub open spec fn keep_shared(
    shared: Seq<(Seq<char>, Seq<char>)>,
    next: Seq<(Seq<char>, Seq<char>)>,
) -> Seq<(Seq<char>, Seq<char>)> {
    shared.filter(|p: (Seq<char>, Seq<char>)| last_value(next, p.0) == Some(p.1))
}

/// Extend a run from `end` while elements are not structural and something
/// stays shared.
pub open spec fn run_from(frags: Seq<FragView>, end: int, shared: Seq<(Seq<char>, Seq<char>)>) -> (
    int,
    Seq<(Seq<char>, Seq<char>)>,
)
    decreases frags.len() - end,
{
    if end < 0 || end >= frags.len() || is_structural(frags[end].tag) {
        (end, shared)
    } else {
        let s2 = keep_shared(shared, frags[end].attrs);
        if s2.len() == 0 {
            (end, s2)
        } else {
            run_from(frags, end + 1, s2)
        }
    }
}

/// The end of the run that starts at `start` and the attributes it shares.
pub open spec fn find_run_spec(frags: Seq<FragView>, start: int) -> (int, Seq<(Seq<char>, Seq<char>)>) {
    if start >= frags.len() || is_structural(frags[start].tag) || frags[start].attrs.len() == 0 {
        (start + 1, seq![])
    } else {
        run_from(frags, start + 1, frags[start].attrs)
    }
}

pub proof fn lemma_run_from(frags: Seq<FragView>, end: int, shared: Seq<(Seq<char>, Seq<char>)>)
    ensures
        run_from(frags, end, shared).0 >= end,
        end >= 0 && end <= frags.len() ==> run_from(frags, end, shared).0 <= frags.len(),
    decreases frags.len() - end,
{
    if end < 0 || end >= frags.len() || is_structural(frags[end].tag) {
    } else {
        let s2 = keep_shared(shared, frags[end].attrs);
        if s2.len() > 0 {
            lemma_run_from(frags, end + 1, s2);
        }
    }
}

fn is_structural_tag(tag: &String) -> (b: bool)
    ensures
        b == is_structural(tag@),
{
    in_names(&structural_tags_vec(), &chars_of(tag.as_str()))
}

fn lookup_last(m: &Vec<(String, String)>, k: &String) -> (r: Option<String>)
    ensures
        opt_string_view(r) == last_value(decls_view(m@), k@),
{
    let ghost mv = decls_view(m@);
    let kc = chars_of(k.as_str());
    let mut i = m.len();
    assert(mv.take(i as int) =~= mv);
    while i > 0
        invariant
            i <= m.len(),
            mv == decls_view(m@),
            kc@ == k@,
            last_value(mv, k@) == last_value(mv.take(i as int), k@),
        decreases i,
    {
        assert(mv.take(i as int).last() == mv[i - 1]);
        assert(mv.take(i as int).drop_last() =~= mv.take(i - 1));
        let key = chars_of(m[i - 1].0.as_str());
        if eq_vec(&key, &kc) {
            return Some(m[i - 1].1.clone());
        }
        i -= 1;
    }
    None
}

fn retain_shared(shared: &Vec<(String, String)>, next: &Vec<(String, String)>) -> (r: Vec<
    (String, String),
>)
    ensures
        decls_view(r@) == keep_shared(decls_view(shared@), decls_view(next@)),
{
    let ghost sv = decls_view(shared@);
    let ghost nv = decls_view(next@);
    let mut out: Vec<(String, String)> = Vec::new();
    let mut i: usize = 0;
    while i < shared.len()
        invariant
            i <= shared.len(),
            sv == decls_view(shared@),
            nv == decls_view(next@),
            decls_view(out@) == sv.take(i as int).filter(
                |p: (Seq<char>, Seq<char>)| last_value(nv, p.0) == Some(p.1),
            ),
        decreases shared.len() - i,
    {
        let ghost o0 = out@;
        proof {
            assert(sv.take(i + 1) =~= sv.take(i as int).push(sv[i as int]));
            sv.take(i as int).lemma_filter_push(sv[i as int], |p: (Seq<char>, Seq<char>)| last_value(nv, p.0) == Some(p.1));
        }
        let keep = match lookup_last(next, &shared[i].0) {
            Some(v) => eq_vec(&chars_of(v.as_str()), &chars_of(shared[i].1.as_str())),
            None => false,
        };
        if keep {
            out.push((shared[i].0.clone(), shared[i].1.clone()));
            assert(decls_view(out@) =~= decls_view(o0).push(sv[i as int]));
        }
        i += 1;
    }
    assert(sv.take(i as int) =~= sv);
    out
}

fn copy_decls(s: &Vec<(String, String)>) -> (r: Vec<(String, String)>)
    ensures
        decls_view(r@) == decls_view(s@),
{
    let mut r: Vec<(String, String)> = Vec::new();
    let mut i: usize = 0;
    while i < s.len()
        invariant
            i <= s.len(),
            decls_view(r@) == decls_view(s@).take(i as int),
        decreases s.len() - i,
    {
        let ghost r0 = r@;
        r.push((s[i].0.clone(), s[i].1.clone()));
        assert(decls_view(r@) =~= decls_view(r0).push((s@[i as int].0@, s@[i as int].1@)));
        assert(decls_view(s@).take(i + 1) =~= decls_view(s@).take(i as int).push(
            (s@[i as int].0@, s@[i as int].1@),
        ));
        i += 1;
    }
    assert(decls_view(s@).take(i as int) =~= decls_view(s@));
    r
}

fn find_run(fragments: &[ElementFragment], start: usize) -> (r: (usize, Vec<(String, String)>))
    requires
        start < fragments.len(),
    ensures
        (r.0 as int, decls_view(r.1@)) == find_run_spec(frags_view(fragments@), start as int),
{
    let ghost fv = frags_view(fragments@);
    assert(fv[start as int] == fragments@[start as int]@);
    if is_structural_tag(&fragments[start].tag) {
        return (start + 1, Vec::new());
    }
    let mut shared = copy_decls(&fragments[start].groupable_attrs);
    if shared.len() == 0 {
        return (start + 1, Vec::new());
    }
    let mut end = start + 1;
    while end < fragments.len()
        invariant
            start < end <= fragments.len(),
            fv == frags_view(fragments@),
            decls_view(shared@).len() > 0,
            find_run_spec(fv, start as int) == run_from(fv, end as int, decls_view(shared@)),
        ensures
            end == fragments.len() || is_structural(fv[end as int].tag),
            find_run_spec(fv, start as int) == run_from(fv, end as int, decls_view(shared@)),
        decreases fragments.len() - end,
    {
        assert(fv[end as int] == fragments@[end as int]@);
        if is_structural_tag(&fragments[end].tag) {
            break;
        }
        shared = retain_shared(&shared, &fragments[end].groupable_attrs);
        if shared.len() == 0 {
            return (end, shared);
        }
        end += 1;
    }
    (end, shared)
}

// ─── Attribute helpers ────────────────────────────────────────────────────────

/// `&`, `<`, `>` and `"` escaped for an attribute value.
pub open spec fn escape_attr_spec(s: Seq<char>) -> Seq<char> {
    replace_all(
        replace_all(
            replace_all(replace_all(s, seq!['&'], "&amp;"@), seq!['<'], "&lt;"@),
            seq!['>'],
            "&gt;"@,
        ),
        seq!['"'],
        "&quot;"@,
    )
}

fn one_char(c: char) -> (r: Vec<char>)
    ensures
        r@ == seq![c],
{
    let mut r: Vec<char> = Vec::new();
    r.push(c);
    assert(r@ =~= seq![c]);
    r
}

pub fn escape_attr_chars(s: &Vec<char>) -> (r: Vec<char>)
    ensures
        r@ == escape_attr_spec(s@),
{
    let a = replace_vec(s, &one_char('&'), &chars_of("&amp;"));
    let b = replace_vec(&a, &one_char('<'), &chars_of("&lt;"));
    let c = replace_vec(&b, &one_char('>'), &chars_of("&gt;"));
    replace_vec(&c, &one_char('"'), &chars_of("&quot;"))
}

/// ` k="v"` with the value escaped.
pub open spec fn dq_attr(k: Seq<char>, v: Seq<char>) -> Seq<char> {
    seq![' '] + k + seq!['=', '"'] + escape_attr_spec(v) + seq!['"']
}

/// ` k='v'` with the value escaped.
pub open spec fn sq_attr(k: Seq<char>, v: Seq<char>) -> Seq<char> {
    seq![' '] + k + seq!['=', '\''] + escape_attr_spec(v) + seq!['\'']
}

fn attr_text(k: &String, v: &String, q: char) -> (r: Vec<char>)
    ensures
        q == '"' ==> r@ == dq_attr(k@, v@),
        q == '\'' ==> r@ == sq_attr(k@, v@),
{
    let mut r: Vec<char> = Vec::new();
    r.push(' ');
    append(&mut r, &chars_of(k.as_str()));
    r.push('=');
    r.push(q);
    append(&mut r, &escape_attr_chars(&chars_of(v.as_str())));
    r.push(q);
    proof {
        if q == '"' {
            assert(r@ =~= dq_attr(k@, v@));
        }
        if q == '\'' {
            assert(r@ =~= sq_attr(k@, v@));
        }
    }
    r
}

/// `str::replacen(pat, "", 1)`: the first occurrence of `pat` removed.
pub open spec fn remove_first(s: Seq<char>, pat: Seq<char>) -> Seq<char> {
    match find_from(s, pat, 0) {
        Some(p) => s.take(p) + s.skip(p + pat.len()),
        None => s,
    }
}

/// The text with the first ` k="v"` (or else ` k='v'`) of each attribute removed.
pub open spec fn strip_attrs_spec(text: Seq<char>, attrs: Seq<(Seq<char>, Seq<char>)>) -> Seq<char>
    decreases attrs.len(),
{
    if attrs.len() == 0 {
        text
    } else {
        let r = strip_attrs_spec(text, attrs.drop_last());
        let (k, v) = attrs.last();
        if contains(r, dq_attr(k, v)) {
            remove_first(r, dq_attr(k, v))
        } else if contains(r, sq_attr(k, v)) {
            remove_first(r, sq_attr(k, v))
        } else {
            r
        }
    }
}

fn remove_first_exec(s: &Vec<char>, pat: &Vec<char>) -> (r: Vec<char>)
    ensures
        r@ == remove_first(s@, pat@),
{
    match find_vec(s, pat, 0) {
        Some(p) => {
            proof {
                lemma_find_from(s@, pat@, 0);
            }
            let mut a = slice_vec(s, 0, p);
            let b = slice_vec(s, p + pat.len(), s.len());
            append(&mut a, &b);
            assert(a@ =~= s@.take(p as int) + s@.skip(p + pat@.len()));
            a
        },
        None => slice_vec(s, 0, s.len()),
    }
}

fn strip_attrs_from_text(text: &Vec<char>, attrs: &Vec<(String, String)>) -> (r: Vec<char>)
    ensures
        r@ == strip_attrs_spec(text@, decls_view(attrs@)),
{
    let ghost av = decls_view(attrs@);
    let mut result = slice_vec(text, 0, text.len());
    assert(result@ =~= text@);
    let mut i: usize = 0;
    while i < attrs.len()
        invariant
            i <= attrs.len(),
            av == decls_view(attrs@),
            result@ == strip_attrs_spec(text@, av.take(i as int)),
        decreases attrs.len() - i,
    {
        assert(av.take(i + 1).drop_last() =~= av.take(i as int));
        assert(av.take(i + 1).last() == av[i as int]);
        let dq = attr_text(&attrs[i].0, &attrs[i].1, '"');
        let sq = attr_text(&attrs[i].0, &attrs[i].1, '\'');
        if contains_vec(&result, &dq) {
            result = remove_first_exec(&result, &dq);
        } else if contains_vec(&result, &sq) {
            result = remove_first_exec(&result, &sq);
        }
        i += 1;
    }
    assert(av.take(i as int) =~= av);
    result
}


// ─── Grouping ─────────────────────────────────────────────────────────────────

/// `str::repeat`.
pub open spec fn repeat_spec(s: Seq<char>, n: nat) -> Seq<char>
    decreases n,
{
    if n == 0 {
        seq![]
    } else {
        repeat_spec(s, (n - 1) as nat) + s
    }
}

fn repeat_chars(s: &Vec<char>, n: usize) -> (r: Vec<char>)
    ensures
        r@ == repeat_spec(s@, n as nat),
{
    let mut r: Vec<char> = Vec::new();
    let mut i: usize = 0;
    while i < n
        invariant
            i <= n,
            r@ == repeat_spec(s@, i as nat),
        decreases n - i,
    {
        append(&mut r, s);
        i += 1;
    }
    r
}

/// The shared attributes written on the `<g>`.
pub open spec fn shared_attrs_text(shared: Seq<(Seq<char>, Seq<char>)>) -> Seq<char>
    decreases shared.len(),
{
    if shared.len() == 0 {
        seq![]
    } else {
        shared_attrs_text(shared.drop_last()) + dq_attr(shared.last().0, shared.last().1)
    }
}

/// The members of a group, each on its own indented line without the shared
/// attributes.
pub open spec fn members_text(
    frags: Seq<FragView>,
    shared: Seq<(Seq<char>, Seq<char>)>,
    cind: Seq<char>,
    nl: Seq<char>,
) -> Seq<char>
    decreases frags.len(),
{
    if frags.len() == 0 {
        seq![]
    } else {
        members_text(frags.drop_last(), shared, cind, nl) + cind + trim_start(
            strip_attrs_spec(frags.last().text, shared),
        ) + nl
    }
}

pub open spec fn group_text(
    members: Seq<FragView>,
    shared: Seq<(Seq<char>, Seq<char>)>,
    ind: Seq<char>,
    cind: Seq<char>,
    nl: Seq<char>,
) -> Seq<char> {
    ind + seq!['<', 'g'] + shared_attrs_text(shared) + seq!['>'] + nl + members_text(
        members,
        shared,
        cind,
        nl,
    ) + ind + seq!['<', '/', 'g', '>'] + nl
}

pub proof fn lemma_find_run(frags: Seq<FragView>, i: int)
    requires
        0 <= i < frags.len(),
    ensures
        i < find_run_spec(frags, i).0 <= frags.len(),
{
    if !(i >= frags.len() || is_structural(frags[i].tag) || frags[i].attrs.len() == 0) {
        lemma_run_from(frags, i + 1, frags[i].attrs);
    }
}

/// The output from fragment `i` on: each run of two or more fragments sharing
/// attributes becomes a group, every other fragment is copied.
pub open spec fn group_from(
    frags: Seq<FragView>,
    i: int,
    ind: Seq<char>,
    cind: Seq<char>,
    nl: Seq<char>,
) -> Seq<char>
    decreases frags.len() - i,
{
    if i < 0 || i >= frags.len() {
        seq![]
    } else {
        let (e, shared) = find_run_spec(frags, i);
        proof {
            lemma_find_run(frags, i);
        }
        if e - i >= 2 && shared.len() > 0 {
            group_text(frags.subrange(i, e), shared, ind, cind, nl) + group_from(
                frags,
                e,
                ind,
                cind,
                nl,
            )
        } else {
            frags[i].text + group_from(frags, i + 1, ind, cind, nl)
        }
    }
}

pub open spec fn concat_texts(frags: Seq<FragView>) -> Seq<char>
    decreases frags.len(),
{
    if frags.len() == 0 {
        seq![]
    } else {
        concat_texts(frags.drop_last()) + frags.last().text
    }
}

/// What `group_runs` returns.
pub open spec fn group_runs_spec(frags: Seq<FragView>, unit: Seq<char>, depth: nat, no_line_breaks: bool) -> Seq<char> {
    if frags.len() < 2 {
        concat_texts(frags)
    } else {
        group_from(
            frags,
            0,
            repeat_spec(unit, depth),
            repeat_spec(unit, depth + 1),
            if no_line_breaks {
                seq![]
            } else {
                seq!['\n']
            },
        )
    }
}

fn write_group(
    out: &mut Vec<char>,
    fragments: &[ElementFragment],
    i: usize,
    e: usize,
    shared: &Vec<(String, String)>,
    ind: &Vec<char>,
    cind: &Vec<char>,
    nl: &Vec<char>,
)
    requires
        i <= e <= fragments.len(),
    ensures
        final(out)@ == old(out)@ + group_text(
            frags_view(fragments@).subrange(i as int, e as int),
            decls_view(shared@),
            ind@,
            cind@,
            nl@,
        ),
{
    let ghost sv = decls_view(shared@);
    let ghost fv = frags_view(fragments@);
    let ghost o0 = out@;
    append(out, ind);
    out.push('<');
    out.push('g');
    let ghost o1 = out@;
    let mut k: usize = 0;
    while k < shared.len()
        invariant
            k <= shared.len(),
            sv == decls_view(shared@),
            out@ == o1 + shared_attrs_text(sv.take(k as int)),
        decreases shared.len() - k,
    {
        assert(sv.take(k + 1).drop_last() =~= sv.take(k as int));
        assert(sv.take(k + 1).last() == sv[k as int]);
        let a = attr_text(&shared[k].0, &shared[k].1, '"');
        append(out, &a);
        k += 1;
    }
    assert(sv.take(k as int) =~= sv);
    out.push('>');
    append(out, nl);
    let ghost o2 = out@;
    let mut j = i;
    while j < e
        invariant
            i <= j <= e <= fragments.len(),
            fv == frags_view(fragments@),
            sv == decls_view(shared@),
            out@ == o2 + members_text(fv.subrange(i as int, j as int), sv, cind@, nl@),
        decreases e - j,
    {
        assert(fv.subrange(i as int, j + 1).drop_last() =~= fv.subrange(i as int, j as int));
        assert(fv.subrange(i as int, j + 1).last() == fragments@[j as int]@);
        let stripped = strip_attrs_from_text(&chars_of(fragments[j].text.as_str()), shared);
        let t = crate::text::trim_start_vec(&stripped);
        append(out, cind);
        append(out, &t);
        append(out, nl);
        j += 1;
    }
    append(out, ind);
    out.push('<');
    out.push('/');
    out.push('g');
    out.push('>');
    append(out, nl);
    assert(out@ =~= o0 + group_text(fv.subrange(i as int, e as int), sv, ind@, cind@, nl@));
}


pub fn group_runs(fragments: &[ElementFragment], indent_unit: &str, depth: usize, no_line_breaks: bool) -> (r:
    String)
    requires
        depth < usize::MAX,
    ensures
        r@ == group_runs_spec(frags_view(fragments@), indent_unit@, depth as nat, no_line_breaks),
{
    let ghost fv = frags_view(fragments@);
    if fragments.len() < 2 {
        let mut out: Vec<char> = Vec::new();
        let mut i: usize = 0;
        while i < fragments.len()
            invariant
                i <= fragments.len(),
                fv == frags_view(fragments@),
                out@ == concat_texts(fv.take(i as int)),
            decreases fragments.len() - i,
        {
            assert(fv.take(i + 1).drop_last() =~= fv.take(i as int));
            assert(fv.take(i + 1).last() == fragments@[i as int]@);
            append(&mut out, &chars_of(fragments[i].text.as_str()));
            i += 1;
        }
        assert(fv.take(i as int) =~= fv);
        return string_of(&out);
    }
    let mut nl: Vec<char> = Vec::new();
    if !no_line_breaks {
        nl.push('\n');
    }
    assert(nl@ =~= (if no_line_breaks {
        Seq::<char>::empty()
    } else {
        seq!['\n']
    }));
    let unit = chars_of(indent_unit);
    let ind = repeat_chars(&unit, depth);
    let cind = repeat_chars(&unit, depth + 1);
    let mut out: Vec<char> = Vec::new();
    let mut i: usize = 0;
    while i < fragments.len()
        invariant
            i <= fragments.len(),
            fv == frags_view(fragments@),
            out@ + group_from(fv, i as int, ind@, cind@, nl@) == group_from(
                fv,
                0,
                ind@,
                cind@,
                nl@,
            ),
        decreases fragments.len() - i,
    {
        proof {
            lemma_find_run(fv, i as int);
        }
        let (run_end, shared) = find_run(fragments, i);
        if run_end - i >= 2 && shared.len() > 0 {
            let ghost o0 = out@;
            write_group(&mut out, fragments, i, run_end, &shared, &ind, &cind, &nl);
            proof {
                assert(out@ + group_from(fv, run_end as int, ind@, cind@, nl@) =~= o0 + group_from(
                    fv,
                    i as int,
                    ind@,
                    cind@,
                    nl@,
                ));
            }
            i = run_end;
        } else {
            let ghost o0 = out@;
            assert(fv[i as int] == fragments@[i as int]@);
            append(&mut out, &chars_of(fragments[i].text.as_str()));
            proof {
                assert(out@ + group_from(fv, i + 1, ind@, cind@, nl@) =~= o0 + group_from(
                    fv,
                    i as int,
                    ind@,
                    cind@,
                    nl@,
                ));
            }
            i += 1;
        }
    }
    assert(out@ =~= group_from(fv, 0, ind@, cind@, nl@));
    string_of(&out)
}


// ─── Laws of runs ─────────────────────────────────────────────────────────────

/// Every shared attribute has its value on the run's first element and on
/// each element of the run after it up to `end`.
pub open spec fn shared_by(
    frags: Seq<FragView>,
    start: int,
    end: int,
    shared: Seq<(Seq<char>, Seq<char>)>,
) -> bool {
    forall|p: (Seq<char>, Seq<char>)|
        #[trigger] shared.contains(p) ==> frags[start].attrs.contains(p) && forall|k: int|
            start < k < end ==> last_value(#[trigger] frags[k].attrs, p.0) == Some(p.1)
}

proof fn lemma_run_from_shared(
    frags: Seq<FragView>,
    start: int,
    end: int,
    shared: Seq<(Seq<char>, Seq<char>)>,
)
    requires
        0 <= start < end,
        shared_by(frags, start, end, shared),
    ensures
        shared_by(frags, start, run_from(frags, end, shared).0, run_from(frags, end, shared).1),
    decreases frags.len() - end,
{
    if !(end < 0 || end >= frags.len() || is_structural(frags[end].tag)) {
        let next = frags[end].attrs;
        let pred = |p: (Seq<char>, Seq<char>)| last_value(next, p.0) == Some(p.1);
        let s2 = keep_shared(shared, next);
        assert(s2 == shared.filter(pred));
        assert forall|p: (Seq<char>, Seq<char>)| #[trigger] s2.contains(p) implies frags[start].attrs.contains(p)
            && forall|k: int| start < k < end + 1 ==> last_value(#[trigger] frags[k].attrs, p.0) == Some(p.1) by {
            shared.lemma_filter_contains_rev(pred, p);
            let j = choose|j: int| 0 <= j < s2.len() && s2[j] == p;
            shared.lemma_filter_pred(pred, j);
            assert(shared.contains(p));
        }
        if s2.len() > 0 {
            lemma_run_from_shared(frags, start, end + 1, s2);
        }
    }
}

proof fn lemma_last_value_unique(m: Seq<(Seq<char>, Seq<char>)>, p: (Seq<char>, Seq<char>))
    requires
        m.contains(p),
        forall|a: int, b: int| 0 <= a < b < m.len() ==> m[a].0 != m[b].0,
    ensures
        last_value(m, p.0) == Some(p.1),
    decreases m.len(),
{
    let j = choose|j: int| 0 <= j < m.len() && m[j] == p;
    if j < m.len() - 1 {
        assert(m.last().0 != p.0) by {
            assert(m[j].0 != m[m.len() - 1].0);
        }
        assert(m.drop_last()[j] == p);
        lemma_last_value_unique(m.drop_last(), p);
    }
}

/// The attributes a run shares are ones every element of the run has, with
/// the same value: the first element has each of them, every later element
/// of the run gives the name that value, and so does the first when its
/// attribute names are all different.
pub proof fn lemma_find_run_shared(frags: Seq<FragView>, i: int)
    requires
        0 <= i < frags.len(),
    ensures
        ({
            let (e, shared) = find_run_spec(frags, i);
            forall|p: (Seq<char>, Seq<char>)|
                #[trigger] shared.contains(p) ==> {
                    &&& frags[i].attrs.contains(p)
                    &&& forall|k: int| i < k < e ==> last_value(#[trigger] frags[k].attrs, p.0) == Some(p.1)
                    &&& (forall|a: int, b: int|
                        0 <= a < b < frags[i].attrs.len() ==> frags[i].attrs[a].0 != frags[i].attrs[b].0)
                        ==> last_value(frags[i].attrs, p.0) == Some(p.1)
                }
        }),
{
    let (e, shared) = find_run_spec(frags, i);
    if !(is_structural(frags[i].tag) || frags[i].attrs.len() == 0) {
        assert(shared_by(frags, i, i + 1, frags[i].attrs));
        lemma_run_from_shared(frags, i, i + 1, frags[i].attrs);
    }
    assert forall|p: (Seq<char>, Seq<char>)| #[trigger] shared.contains(p) implies {
        &&& frags[i].attrs.contains(p)
        &&& forall|k: int| i < k < e ==> last_value(#[trigger] frags[k].attrs, p.0) == Some(p.1)
        &&& (forall|a: int, b: int|
            0 <= a < b < frags[i].attrs.len() ==> frags[i].attrs[a].0 != frags[i].attrs[b].0)
            ==> last_value(frags[i].attrs, p.0) == Some(p.1)
    } by {
        if forall|a: int, b: int|
            0 <= a < b < frags[i].attrs.len() ==> frags[i].attrs[a].0 != frags[i].attrs[b].0 {
            lemma_last_value_unique(frags[i].attrs, p);
        }
    }
}


proof fn lemma_run_from_keeps(
    frags: Seq<FragView>,
    start: int,
    end: int,
    shared: Seq<(Seq<char>, Seq<char>)>,
    p: (Seq<char>, Seq<char>),
)
    requires
        0 <= start < end,
        shared.contains(p),
        run_from(frags, end, shared).1.len() > 0,
        forall|k: int| end <= k < run_from(frags, end, shared).0 ==> last_value(#[trigger] frags[k].attrs, p.0) == Some(p.1),
    ensures
        run_from(frags, end, shared).1.contains(p),
    decreases frags.len() - end,
{
    if !(end < 0 || end >= frags.len() || is_structural(frags[end].tag)) {
        let next = frags[end].attrs;
        let pred = |q: (Seq<char>, Seq<char>)| last_value(next, q.0) == Some(q.1);
        let s2 = keep_shared(shared, next);
        let j = choose|j: int| 0 <= j < shared.len() && shared[j] == p;
        lemma_run_from(frags, end, shared);
        assert(s2 == shared.filter(pred));
        if s2.len() > 0 {
            lemma_run_from(frags, end + 1, s2);
            assert(run_from(frags, end, shared) == run_from(frags, end + 1, s2));
            assert(last_value(frags[end].attrs, p.0) == Some(p.1));
            shared.lemma_filter_contains(pred, j);
            lemma_run_from_keeps(frags, start, end + 1, s2, p);
        }
    }
}

/// A run that shares attributes shares every attribute of its first element
/// that each later element of the run has with the same value.
pub proof fn lemma_find_run_keeps(frags: Seq<FragView>, i: int, p: (Seq<char>, Seq<char>))
    requires
        0 <= i < frags.len(),
        find_run_spec(frags, i).1.len() > 0,
        frags[i].attrs.contains(p),
        forall|k: int| i < k < find_run_spec(frags, i).0 ==> last_value(#[trigger] frags[k].attrs, p.0) == Some(p.1),
    ensures
        find_run_spec(frags, i).1.contains(p),
{
    assert(!is_structural(frags[i].tag) && frags[i].attrs.len() > 0);
    lemma_run_from_keeps(frags, i, i + 1, frags[i].attrs, p);
}


proof fn lemma_run_from_plain(frags: Seq<FragView>, end: int, shared: Seq<(Seq<char>, Seq<char>)>)
    requires
        0 <= end,
    ensures
        run_from(frags, end, shared).1.len() > 0 ==> forall|k: int|
            end <= k < run_from(frags, end, shared).0 ==> !is_structural(#[trigger] frags[k].tag),
    decreases frags.len() - end,
{
    if !(end >= frags.len() || is_structural(frags[end].tag)) {
        let s2 = keep_shared(shared, frags[end].attrs);
        if s2.len() > 0 {
            lemma_run_from_plain(frags, end + 1, s2);
        }
    }
}

/// A run that shares attributes holds no structural element (`g`, `defs`,
/// `use` and the like), its first element included.
pub proof fn lemma_find_run_plain(frags: Seq<FragView>, i: int)
    requires
        0 <= i < frags.len(),
    ensures
        find_run_spec(frags, i).1.len() > 0 ==> forall|k: int|
            i <= k < find_run_spec(frags, i).0 ==> !is_structural(#[trigger] frags[k].tag),
{
    if !(is_structural(frags[i].tag) || frags[i].attrs.len() == 0) {
        lemma_run_from_plain(frags, i + 1, frags[i].attrs);
    }
}

} // verus!
