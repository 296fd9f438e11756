//! The serializer: executable functions that write the document model as
//! the specs of `serialize` state, pass by pass.
use vstd::prelude::*;
use crate::css::{decls_view, sort_decls};
use crate::document::{attr_pairs, attribute, dup_ids, get_attribute, pairs_of, NodeKind, XmlAttr, XmlNode};
use crate::gradient::opt_string_view;
use crate::ids::entries_view;
use crate::optimizer::{is_editor_ns, write_attr, ScourOptions};
use crate::serialize::{
    collapse_outcome, defs_content, emits, find_prefix, has_defs_content, has_meaningful,
    has_visible, is_dup_gradient, is_xmlns_attr, meaningful_attr, non_default, ns_decls,
    prefixed, qualified_name, scope_of, visible_child, Ctx, AttrKind, attr_kind_spec, number_attrs,
    number_attrs_0, number_attrs_1, number_list_attrs, optimized_value, skip_attr, attr_qname,
    simplified_value, gather_spec, has_key, merged, all_attrs_spec, final_attrs, attrs_out,
    opt_attr_out, SerState, tree_size, sizes, style_text, style_element_out, ind, nl, not_d,
    without_d, attr_or_empty, combine_outcome, synthetic_path_out, flush, ser_element,
    element_body, ser_collapsed, ser_plain, ser_grouped, pi_spec, children_out, head_out, close_out,
    lemma_collapsed_step, lemma_plain_step, lemma_grouped_step, lemma_element_unfold,
    lemma_body_unfold, lemma_children_unfold, ser_top, ser_document, prolog,
};
use crate::groups::FragView;
use crate::subst::{caps_view, eq_str, value_has_subst, CapturedVar};
use crate::text::{append, chars_of, eq_vec, in_names, starts_with_vec, string_of, trim_vec};

verus! {

/// What the serializer reads besides the tree.
pub struct Env<'a> {
    pub opts: &'a ScourOptions,
    pub id_map: &'a [(String, Option<String>)],
    pub renames: &'a [(String, String)],
    pub vars: &'a [CapturedVar],
}

/// The serialization context of options, a rename map, gradient renames
/// and substitution variables.
pub open spec fn ctx_from(
    opts: ScourOptions,
    id_map: Seq<(String, Option<String>)>,
    renames: Seq<(String, String)>,
    vars: Seq<CapturedVar>,
) -> Ctx {
    Ctx { opts, m: entries_view(id_map), dups: dup_ids(decls_view(renames)), cvs: caps_view(vars) }
}

pub open spec fn ctx_of(e: Env) -> Ctx {
    ctx_from(*e.opts, e.id_map@, e.renames@, e.vars@)
}

// ─── Namespaces ───────────────────────────────────────────────────────────────

fn find_prefix_exec(scope: &Vec<(String, String)>, ns: &Vec<char>) -> (r: Option<Vec<char>>)
    ensures
        match r {
            Some(p) => find_prefix(decls_view(scope@), ns@) == Some(p@),
            None => find_prefix(decls_view(scope@), ns@) is None,
        },
{
    let ghost sv = decls_view(scope@);
    let pfx = chars_of("xmlns:");
    let mut i: usize = 0;
    assert(sv.skip(0) =~= sv);
    while i < scope.len()
        invariant
            i <= scope.len(),
            sv == decls_view(scope@),
            pfx@ == "xmlns:"@,
            find_prefix(sv, ns@) == find_prefix(sv.skip(i as int), ns@),
        decreases scope.len() - i,
    {
        assert(sv.skip(i as int)[0] == sv[i as int]);
        let name = chars_of(scope[i].0.as_str());
        let val = chars_of(scope[i].1.as_str());
        if eq_vec(&val, ns) {
            if eq_str(&name, "xmlns") {
                return Some(Vec::new());
            }
            if starts_with_vec(&name, &pfx) {
                proof {
                    reveal_strlit("xmlns:");
                }
                let p = crate::text::slice_vec(&name, 6, name.len());
                assert(p@ =~= name@.skip(6));
                return Some(p);
            }
        }
        assert(sv.skip(i as int).drop_first() =~= sv.skip(i + 1));
        i += 1;
    }
    None
}

fn prefixed_exec(local: &Vec<char>, ns: &Vec<char>, scope: &Vec<(String, String)>) -> (r: Vec<char>)
    ensures
        r@ == prefixed(local@, ns@, decls_view(scope@)),
{
    match find_prefix_exec(scope, ns) {
        Some(p) => {
            if p.len() > 0 {
                let mut r = p;
                r.push(':');
                append(&mut r, local);
                r
            } else {
                local.clone()
            }
        },
        None => local.clone(),
    }
}

fn qualified_name_exec(local: &str, ns: &str, scope: &Vec<(String, String)>) -> (r: Vec<char>)
    ensures
        r@ == qualified_name(local@, ns@, decls_view(scope@)),
{
    let l = chars_of(local);
    let n = chars_of(ns);
    if n.len() == 0 || eq_str(&n, "http://www.w3.org/2000/svg") {
        l
    } else {
        prefixed_exec(&l, &n, scope)
    }
}

fn is_xmlns_attr_exec(a: &XmlAttr) -> (b: bool)
    ensures
        b == is_xmlns_attr(*a),
{
    let n = chars_of(a.name.as_str());
    eq_str(&chars_of(a.namespace.as_str()), "http://www.w3.org/2000/xmlns/") || eq_str(&n, "xmlns")
        || starts_with_vec(&n, &chars_of("xmlns:"))
}

fn write_ns_decls(attrs: &Vec<XmlAttr>, out: &mut Vec<char>, opts: &ScourOptions)
    ensures
        final(out)@ == old(out)@ + ns_decls(attrs@, *opts),
{
    let ghost o0 = out@;
    let mut i: usize = 0;
    while i < attrs.len()
        invariant
            i <= attrs.len(),
            out@ == o0 + ns_decls(attrs@.take(i as int), *opts),
        decreases attrs.len() - i,
    {
        assert(attrs@.take(i + 1).drop_last() =~= attrs@.take(i as int));
        assert(attrs@.take(i + 1).last() == attrs@[i as int]);
        let a = &attrs[i];
        let v = chars_of(a.value.as_str());
        if is_xmlns_attr_exec(a) && !(!opts.keep_editor_data && v.len() > 0 && is_editor_ns(a.value.as_str())) {
            let ghost o1 = out@;
            out.push(' ');
            append(out, &chars_of(a.name.as_str()));
            out.push('=');
            out.push('"');
            append(out, &chars_of(crate::optimizer::escape_xml_attr(a.value.as_str()).as_str()));
            out.push('"');
            assert(out@ =~= o1 + seq![' '] + a.name@ + seq!['=', '"'] + crate::optimizer::escape_xml_attr_spec(a.value@) + seq!['"']);
        }
        i += 1;
    }
    assert(attrs@.take(i as int) =~= attrs@);
}

/// The scope of an element: its own attributes before its parent's scope.
fn child_scope(n: &XmlNode, parent: &Vec<(String, String)>) -> (r: Vec<(String, String)>)
    ensures
        decls_view(r@) == scope_of(*n, decls_view(parent@)),
{
    let mut r = pairs_of(&n.attrs);
    let ghost r0 = decls_view(r@);
    let mut i: usize = 0;
    while i < parent.len()
        invariant
            i <= parent.len(),
            decls_view(r@) == r0 + decls_view(parent@).take(i as int),
        decreases parent.len() - i,
    {
        let ghost rv = decls_view(r@);
        r.push((parent[i].0.clone(), parent[i].1.clone()));
        assert(decls_view(r@) =~= rv.push(decls_view(parent@)[i as int]));
        assert(decls_view(parent@).take(i + 1) =~= decls_view(parent@).take(i as int).push(decls_view(parent@)[i as int]));
        assert(decls_view(r@) =~= r0 + decls_view(parent@).take(i + 1));
        i += 1;
    }
    assert(decls_view(parent@).take(i as int) =~= decls_view(parent@));
    r
}

// ─── Element decisions ────────────────────────────────────────────────────────

fn is_dup_gradient_exec(c: &XmlNode, renames: &[(String, String)]) -> (b: bool)
    ensures
        b == is_dup_gradient(*c, dup_ids(decls_view(renames@))),
{
    let ghost dups = dup_ids(decls_view(renames@));
    let name = chars_of(c.name.as_str());
    if !(eq_str(&name, "linearGradient") || eq_str(&name, "radialGradient") || eq_str(&name, "pattern")) {
        return false;
    }
    match get_attribute(c, "id") {
        None => false,
        Some(id) => {
            let idc = chars_of(id.as_str());
            let mut found = false;
            let mut j: usize = 0;
            while j < renames.len()
                invariant
                    j <= renames.len(),
                    dups == dup_ids(decls_view(renames@)),
                    idc@ == id@,
                    found == exists|t: int| 0 <= t < j && dups[t] == id@,
                decreases renames.len() - j,
            {
                assert(dups[j as int] == renames@[j as int].0@);
                if eq_vec(&chars_of(renames[j].0.as_str()), &idc) {
                    found = true;
                }
                j += 1;
            }
            proof {
                if found {
                    let t = choose|t: int| 0 <= t < j && dups[t] == id@;
                    assert(dups.contains(id@));
                } else {
                    assert(!dups.contains(id@));
                }
            }
            found
        },
    }
}

fn emits_exec(c: &XmlNode, opts: &ScourOptions) -> (b: bool)
    ensures
        b == emits(*c, *opts),
{
    crate::optimizer::should_emit_element(c.name.as_str(), c.namespace.as_str(), opts)
}

fn blank(s: &str) -> (b: bool)
    ensures
        b == (crate::text::trim(s@).len() == 0),
{
    trim_vec(&chars_of(s)).len() == 0
}

fn defs_content_exec(c: &XmlNode, e: &Env) -> (b: bool)
    ensures
        b == defs_content(*c, ctx_of(*e)),
{
    match c.kind {
        NodeKind::Element => emits_exec(c, e.opts) && !is_dup_gradient_exec(c, e.renames),
        NodeKind::Text => !blank(c.text.as_str()),
        _ => false,
    }
}

fn visible_child_exec(c: &XmlNode, e: &Env) -> (b: bool)
    ensures
        b == visible_child(*c, ctx_of(*e)),
{
    match c.kind {
        NodeKind::Element => emits_exec(c, e.opts) && !is_dup_gradient_exec(c, e.renames),
        NodeKind::Text => !blank(c.text.as_str()),
        NodeKind::Comment => !e.opts.strip_comments,
        _ => false,
    }
}

fn has_defs_content_exec(n: &XmlNode, e: &Env) -> (b: bool)
    ensures
        b == has_defs_content(n.children@, ctx_of(*e)),
{
    let mut i: usize = 0;
    while i < n.children.len()
        invariant
            i <= n.children.len(),
            forall|t: int| 0 <= t < i ==> !defs_content(#[trigger] n.children@[t], ctx_of(*e)),
        decreases n.children.len() - i,
    {
        if defs_content_exec(&n.children[i], e) {
            return true;
        }
        i += 1;
    }
    false
}

fn has_visible_exec(n: &XmlNode, e: &Env) -> (b: bool)
    ensures
        b == has_visible(n.children@, ctx_of(*e)),
{
    let mut i: usize = 0;
    while i < n.children.len()
        invariant
            i <= n.children.len(),
            forall|t: int| 0 <= t < i ==> !visible_child(#[trigger] n.children@[t], ctx_of(*e)),
        decreases n.children.len() - i,
    {
        if visible_child_exec(&n.children[i], e) {
            return true;
        }
        i += 1;
    }
    false
}

fn has_meaningful_exec(attrs: &Vec<XmlAttr>, opts: &ScourOptions) -> (b: bool)
    ensures
        b == has_meaningful(attrs@, *opts),
{
    let mut i: usize = 0;
    while i < attrs.len()
        invariant
            i <= attrs.len(),
            forall|t: int| 0 <= t < i ==> !meaningful_attr(#[trigger] attrs@[t], *opts),
        decreases attrs.len() - i,
    {
        let a = &attrs[i];
        let n = chars_of(a.name.as_str());
        let ns = chars_of(a.namespace.as_str());
        if !(eq_str(&n, "id") || eq_str(&n, "style") || eq_str(&n, "class")) && (ns.len() == 0 || (
        !opts.keep_editor_data && !is_editor_ns(a.namespace.as_str()))) {
            return true;
        }
        i += 1;
    }
    false
}

fn collapse_outcome_exec(n: &XmlNode, opts: &ScourOptions, parent_is_defs: bool) -> (r: Option<bool>)
    ensures
        r == collapse_outcome(*n, *opts, parent_is_defs),
{
    if get_attribute(n, "id").is_some() || get_attribute(n, "class").is_some() || get_attribute(
        n,
        "transform",
    ).is_some() {
        return Some(false);
    }
    match get_attribute(n, "style") {
        Some(s) => {
            match crate::css::try_parse_style(s.as_str()) {
                None => {
                    return None;
                },
                Some(ds) => {
                    let ghost dv = decls_view(ds@);
                    let mut any = false;
                    let mut i: usize = 0;
                    while i < ds.len()
                        invariant
                            i <= ds.len(),
                            dv == decls_view(ds@),
                            any == exists|t: int| 0 <= t < i && !crate::css::default_value((#[trigger] dv[t]).0, dv[t].1),
                        decreases ds.len() - i,
                    {
                        if !crate::css::is_default_value(ds[i].0.as_str(), ds[i].1.as_str()) {
                            assert(!crate::css::default_value(dv[i as int].0, dv[i as int].1));
                            any = true;
                        }
                        i += 1;
                    }
                    assert(any == non_default(dv));
                    if any {
                        return Some(false);
                    }
                },
            }
        },
        None => {},
    }
    Some(!has_meaningful_exec(&n.attrs, opts) && !parent_is_defs)
}

// ─── Attribute values ─────────────────────────────────────────────────────────

fn push_number_attrs_0(m: &mut Vec<&'static str>)
    ensures
        final(m)@ == old(m)@ + number_attrs_0(),
{
    m.push("x");
    m.push("y");
    m.push("x1");
    m.push("y1");
    m.push("x2");
    m.push("y2");
    m.push("cx");
    m.push("cy");
    m.push("r");
    m.push("rx");
    m.push("ry");
    m.push("fx");
    m.push("fy");
    m.push("offset");
    m.push("stroke-width");
    m.push("stroke-miterlimit");
    m.push("stroke-dashoffset");
    m.push("font-size");
    m.push("letter-spacing");
    m.push("word-spacing");
    m.push("kerning");
    assert(m@ =~= old(m)@ + number_attrs_0());
}

fn push_number_attrs_1(m: &mut Vec<&'static str>)
    ensures
        final(m)@ == old(m)@ + number_attrs_1(),
{
    m.push("opacity");
    m.push("fill-opacity");
    m.push("stroke-opacity");
    m.push("stop-opacity");
    m.push("flood-opacity");
    m.push("k");
    m.push("k1");
    m.push("k2");
    m.push("k3");
    m.push("k4");
    m.push("amplitude");
    m.push("exponent");
    m.push("intercept");
    m.push("slope");
    m.push("specularConstant");
    m.push("specularExponent");
    m.push("diffuseConstant");
    m.push("surfaceScale");
    m.push("seed");
    m.push("numOctaves");
    assert(m@ =~= old(m)@ + number_attrs_1());
}

fn number_attrs_vec() -> (m: Vec<&'static str>)
    ensures
        m@ == number_attrs(),
{
    let mut m: Vec<&'static str> = Vec::new();
    push_number_attrs_0(&mut m);
    push_number_attrs_1(&mut m);
    assert(m@ =~= number_attrs());
    m
}

fn number_list_attrs_vec() -> (m: Vec<&'static str>)
    ensures
        m@ == number_list_attrs(),
{
    let mut m: Vec<&'static str> = Vec::new();
    m.push("viewBox");
    m.push("points");
    m.push("stdDeviation");
    m.push("baseFrequency");
    m.push("kernelMatrix");
    m.push("tableValues");
    m.push("values");
    m.push("keyTimes");
    m.push("keySplines");
    m.push("order");
    assert(m@ =~= number_list_attrs());
    m
}

/// How the value of attribute `name` on element `element` is optimized.
pub fn attr_kind(name: &str, element: &str) -> (k: AttrKind)
    ensures
        k == attr_kind_spec(name@, element@),
{
    let n = chars_of(name);
    let el = chars_of(element);
    if eq_str(&n, "d") && eq_str(&el, "path") {
        AttrKind::PathData
    } else if eq_str(&n, "transform") || eq_str(&n, "patternTransform") || eq_str(&n, "gradientTransform") {
        AttrKind::Transform
    } else if crate::css::color_prop(&n) {
        AttrKind::Color
    } else if in_names(&number_attrs_vec(), &n) {
        AttrKind::Number
    } else if (eq_str(&n, "width") || eq_str(&n, "height")) && !eq_str(&el, "svg") {
        AttrKind::Number
    } else if in_names(&number_list_attrs_vec(), &n) {
        AttrKind::NumberList
    } else {
        AttrKind::Plain
    }
}

/// The written value of an attribute; `None` where its color has no
/// simplification.
fn optimize_attr(a: &XmlAttr, element: &str, e: &Env) -> (r: Option<String>)
    ensures
        opt_string_view(r) == optimized_value(*a, element@, ctx_of(*e)),
{
    let remapped = crate::optimizer::remap_id_refs(a.value.as_str(), e.id_map);
    if value_has_subst(remapped.as_str(), e.vars) {
        return Some(remapped);
    }
    match attr_kind(a.name.as_str(), element) {
        AttrKind::Plain => Some(remapped),
        AttrKind::Color => {
            if e.opts.simplify_colors {
                crate::color::try_simplify_color(remapped.as_str())
            } else {
                Some(remapped)
            }
        },
        _ => match &a.numeric {
            Some(x) => Some(x.clone()),
            None => Some(remapped),
        },
    }
}

fn skip_attr_exec(a: &XmlAttr, opts: &ScourOptions) -> (b: bool)
    ensures
        b == skip_attr(*a, *opts),
{
    let n = chars_of(a.name.as_str());
    let ns = chars_of(a.namespace.as_str());
    (eq_str(&n, "id") && ns.len() == 0) || (eq_str(&n, "style") && ns.len() == 0) || eq_str(
        &ns,
        "http://www.w3.org/2000/xmlns/",
    ) || eq_str(&n, "xmlns") || starts_with_vec(&n, &chars_of("xmlns:")) || (!opts.keep_editor_data
        && ns.len() > 0 && is_editor_ns(a.namespace.as_str())) || (eq_str(&n, "space") && eq_str(
        &ns,
        "http://www.w3.org/XML/1998/namespace",
    ) && opts.strip_xml_space)
}

fn attr_qname_exec(a: &XmlAttr, scope: &Vec<(String, String)>) -> (r: Vec<char>)
    ensures
        r@ == attr_qname(*a, decls_view(scope@)),
{
    let n = chars_of(a.name.as_str());
    let ns = chars_of(a.namespace.as_str());
    if ns.len() == 0 {
        n
    } else {
        prefixed_exec(&n, &ns, scope)
    }
}

fn simplify_value(a: &XmlAttr, v: String, q: &Vec<char>, element: &str, e: &Env, simplify: bool) -> (r: (
    String,
    usize,
))
    ensures
        (r.0@, r.1 as nat) == simplified_value(*a, v@, q@, element@, ctx_of(*e), simplify),
{
    if simplify && eq_str(&chars_of(element), "path") && eq_str(q, "d") && !value_has_subst(v.as_str(), e.vars) {
        match &a.simplified {
            Some(s) => {
                if !eq_vec(&chars_of(s.as_str()), &chars_of(v.as_str())) {
                    (s.clone(), 1)
                } else {
                    (v, 0)
                }
            },
            None => (v, 0),
        }
    } else {
        (v, 0)
    }
}

/// The attributes copied onto an element, and how many path data values
/// simplification changed; `None` where a color has no simplification.
fn gather(n: &XmlNode, scope: &Vec<(String, String)>, e: &Env, simplify: bool) -> (r: Option<
    (Vec<(String, String)>, usize),
>)
    ensures
        match r {
            Some(g) => gather_spec(n.attrs@, n.name@, decls_view(scope@), ctx_of(*e), simplify) == Some(
                (decls_view(g.0@), g.1 as nat),
            ) && g.1 <= n.attrs@.len(),
            None => gather_spec(n.attrs@, n.name@, decls_view(scope@), ctx_of(*e), simplify) is None,
        },
{
    let ghost cx = ctx_of(*e);
    let ghost sc = decls_view(scope@);
    let ghost attrs = n.attrs@;
    let mut out: Vec<(String, String)> = Vec::new();
    let mut count: usize = 0;
    let mut ok = true;
    let mut i: usize = 0;
    while i < n.attrs.len()
        invariant
            i <= n.attrs.len(),
            cx == ctx_of(*e),
            sc == decls_view(scope@),
            attrs == n.attrs@,
            ok ==> gather_spec(attrs.take(i as int), n.name@, sc, cx, simplify) == Some(
                (decls_view(out@), count as nat),
            ),
            ok ==> count <= i,
            !ok ==> gather_spec(attrs.take(i as int), n.name@, sc, cx, simplify) is None,
        decreases n.attrs.len() - i,
    {
        assert(attrs.take(i + 1).drop_last() =~= attrs.take(i as int));
        assert(attrs.take(i + 1).last() == attrs[i as int]);
        if ok {
            let a = &n.attrs[i];
            if !skip_attr_exec(a, e.opts) {
                match optimize_attr(a, n.name.as_str(), e) {
                    None => {
                        ok = false;
                    },
                    Some(v) => {
                        let q = attr_qname_exec(a, scope);
                        let (v2, c) = simplify_value(a, v, &q, n.name.as_str(), e, simplify);
                        let ghost o0 = decls_view(out@);
                        out.push((string_of(&q), v2));
                        assert(decls_view(out@) =~= o0.push((q@, v2@)));
                        count = count + c;
                    },
                }
            }
        }
        i += 1;
    }
    assert(attrs.take(i as int) =~= attrs);
    if ok {
        Some((out, count))
    } else {
        None
    }
}

fn has_key_exec(attrs: &Vec<(String, String)>, k: &Vec<char>) -> (b: bool)
    ensures
        b == has_key(decls_view(attrs@), k@),
{
    let ghost av = decls_view(attrs@);
    let mut i: usize = 0;
    while i < attrs.len()
        invariant
            i <= attrs.len(),
            av == decls_view(attrs@),
            forall|t: int| 0 <= t < i ==> (#[trigger] av[t]).0 != k@,
        decreases attrs.len() - i,
    {
        if eq_vec(&chars_of(attrs[i].0.as_str()), k) {
            assert(av[i as int].0 == k@);
            return true;
        }
        i += 1;
    }
    false
}

fn merge(attrs: Vec<(String, String)>, extra: &Vec<(String, String)>) -> (r: Vec<(String, String)>)
    ensures
        decls_view(r@) == merged(decls_view(attrs@), decls_view(extra@)),
{
    let ghost av = decls_view(attrs@);
    let ghost ev = decls_view(extra@);
    let mut out = attrs;
    let mut i: usize = 0;
    assert(ev.take(0) =~= Seq::<(Seq<char>, Seq<char>)>::empty());
    while i < extra.len()
        invariant
            i <= extra.len(),
            ev == decls_view(extra@),
            decls_view(out@) == merged(av, ev.take(i as int)),
        decreases extra.len() - i,
    {
        assert(ev.take(i + 1).drop_last() =~= ev.take(i as int));
        assert(ev.take(i + 1).last() == ev[i as int]);
        let k = chars_of(extra[i].0.as_str());
        if !has_key_exec(&out, &k) {
            let ghost o0 = decls_view(out@);
            out.push((extra[i].0.clone(), extra[i].1.clone()));
            assert(decls_view(out@) =~= o0.push(ev[i as int]));
        }
        i += 1;
    }
    assert(ev.take(i as int) =~= ev);
    out
}

fn opt_ref(s: &Option<String>) -> (r: Option<&str>)
    ensures
        crate::ids::opt_view(r) == opt_string_view(*s),
{
    match s {
        Some(x) => Some(x.as_str()),
        None => None,
    }
}

/// All attributes of an element as grouping and combination compare them.
fn all_attrs(n: &XmlNode, scope: &Vec<(String, String)>, e: &Env) -> (r: Option<Vec<(String, String)>>)
    ensures
        match r {
            Some(v) => all_attrs_spec(*n, ctx_of(*e), decls_view(scope@)) == Some(decls_view(v@)),
            None => all_attrs_spec(*n, ctx_of(*e), decls_view(scope@)) is None,
        },
{
    let style = get_attribute(n, "style");
    let sref = opt_ref(&style);
    if !crate::optimizer::style_processable(sref, e.opts.simplify_colors) {
        return None;
    }
    match gather(n, scope, e, false) {
        None => None,
        Some((g, _)) => {
            let (sx, _) = crate::optimizer::process_style(sref, e.opts, e.vars);
            Some(merge(g, &sx))
        },
    }
}

/// The attribute list written on an element.
fn final_attrs_exec(n: &XmlNode, e: &Env, gathered: Vec<(String, String)>, style_xml: &Vec<(String, String)>) -> (r:
    Vec<(String, String)>)
    ensures
        decls_view(r@) == final_attrs(*n, ctx_of(*e), decls_view(gathered@), decls_view(style_xml@)),
{
    let m = merge(gathered, style_xml);
    let kept = crate::optimizer::filter_kept(m, e.vars);
    let mut sorted = sort_decls(&kept);
    let w = get_attribute(n, "width");
    let h = get_attribute(n, "height");
    let has_vb = get_attribute(n, "viewBox").is_some();
    crate::optimizer::apply_viewboxing(has_vb, n.name.as_str(), e.opts, opt_ref(&w), opt_ref(&h), &mut sorted, e.vars);
    sorted
}

fn write_attrs(list: &Vec<(String, String)>, out: &mut Vec<char>, e: &Env)
    ensures
        final(out)@ == old(out)@ + attrs_out(decls_view(list@), ctx_of(*e)),
{
    let ghost lv = decls_view(list@);
    let ghost o0 = out@;
    let mut i: usize = 0;
    while i < list.len()
        invariant
            i <= list.len(),
            lv == decls_view(list@),
            out@ == o0 + attrs_out(lv.take(i as int), ctx_of(*e)),
        decreases list.len() - i,
    {
        assert(lv.take(i + 1).drop_last() =~= lv.take(i as int));
        assert(lv.take(i + 1).last() == lv[i as int]);
        write_attr(out, list[i].0.as_str(), list[i].1.as_str(), e.opts, e.id_map);
        assert(out@ =~= o0 + attrs_out(lv.take(i + 1), ctx_of(*e)));
        i += 1;
    }
    assert(lv.take(i as int) =~= lv);
}

fn write_opt_attr(name: &str, v: &Option<String>, out: &mut Vec<char>, e: &Env)
    ensures
        final(out)@ == old(out)@ + opt_attr_out(name@, opt_string_view(*v), ctx_of(*e)),
{
    match v {
        Some(s) => write_attr(out, name, s.as_str(), e.opts, e.id_map),
        None => {
            assert(old(out)@ + Seq::<char>::empty() =~= old(out)@);
        },
    }
}

// ─── Counters and bounds ──────────────────────────────────────────────────────

/// The counters that serialization keeps.
pub struct Tally {
    pub simplified: usize,
    pub combined: usize,
    pub defs_removed: usize,
}

pub open spec fn state_of(out: Seq<char>, t: Tally) -> SerState {
    SerState { out, simplified: t.simplified as nat, combined: t.combined as nat, defs_removed: t.defs_removed as nat }
}

pub open spec fn total(t: Tally) -> nat {
    (t.simplified + t.combined + t.defs_removed) as nat
}

proof fn lemma_sizes_mono(cs: Seq<XmlNode>, k: int)
    requires
        0 <= k <= cs.len(),
    ensures
        sizes(cs, 0) >= sizes(cs, k),
        k < cs.len() ==> sizes(cs, k) >= tree_size(cs[k]) + sizes(cs, k + 1),
    decreases k,
{
    if k > 0 {
        lemma_sizes_mono(cs, k - 1);
    }
}

proof fn lemma_indent_ok(d: nat, bound: nat, nindent: nat)
    requires
        d <= bound,
        bound * 256 <= usize::MAX,
        nindent < 256,
    ensures
        d * nindent <= usize::MAX,
{
    assert(d * nindent <= bound * 256) by (nonlinear_arith)
        requires
            d <= bound,
            nindent < 256,
    ;
}

proof fn lemma_child_decreases(n: XmlNode, k: int)
    requires
        0 <= k < n.children@.len(),
    ensures
        decreases_to!(n => n.children@[k]),
{
    assert(decreases_to!(n => n.children));
    assert(decreases_to!(n.children => n.children@));
    assert(decreases_to!(n.children@ => n.children@[k]));
}

// ─── The `<style>` element ────────────────────────────────────────────────────

fn style_text_exec(n: &XmlNode, strip_comments: bool) -> (r: String)
    ensures
        r@ == style_text(n.children@, strip_comments),
{
    let ghost cs = n.children@;
    let mut acc: Vec<char> = Vec::new();
    let mut i: usize = 0;
    while i < n.children.len()
        invariant
            i <= n.children.len(),
            cs == n.children@,
            acc@ == style_text(cs.take(i as int), strip_comments),
        decreases n.children.len() - i,
    {
        assert(cs.take(i + 1).drop_last() =~= cs.take(i as int));
        assert(cs.take(i + 1).last() == cs[i as int]);
        let c = &n.children[i];
        let ghost a0 = acc@;
        match c.kind {
            NodeKind::Text => {
                append(&mut acc, &chars_of(c.text.as_str()));
            },
            NodeKind::Comment => {
                if !strip_comments {
                    acc.push('/');
                    acc.push('*');
                    append(&mut acc, &chars_of(c.text.as_str()));
                    acc.push('*');
                    acc.push('/');
                    assert(acc@ =~= a0 + (seq!['/', '*'] + c.text@ + seq!['*', '/']));
                } else {
                    assert(acc@ =~= a0 + Seq::<char>::empty());
                }
            },
            _ => {
                assert(acc@ =~= a0 + Seq::<char>::empty());
            },
        }
        i += 1;
    }
    assert(cs.take(i as int) =~= cs);
    string_of(&acc)
}

fn write_style_element(n: &XmlNode, e: &Env, depth: usize, out: &mut Vec<char>, t: &Tally) -> (ok: bool)
    requires
        depth < usize::MAX,
        (depth + 1) * (e.opts.nindent as nat) <= usize::MAX,
    ensures
        ok == style_element_out(n.children@, ctx_of(*e), depth as nat, state_of(old(out)@, *t)) is Some,
        ok ==> style_element_out(n.children@, ctx_of(*e), depth as nat, state_of(old(out)@, *t)) == Some(
            state_of(final(out)@, *t),
        ),
{
    let css = style_text_exec(n, e.opts.strip_comments);
    match crate::style_block::try_optimize_style_block(css.as_str(), e.id_map, e.opts.simplify_colors, e.vars) {
        None => false,
        Some(opt) => {
            let oc = chars_of(opt.as_str());
            if trim_vec(&oc).len() > 0 {
                let ghost o0 = out@;
                crate::optimizer::indent(out, e.opts, depth + 1);
                append(out, &oc);
                crate::optimizer::maybe_newline(out, e.opts);
                assert(out@ =~= o0 + (ind(*e.opts, (depth + 1) as nat) + opt@ + nl(*e.opts)));
            }
            true
        },
    }
}

// ─── Path combination ─────────────────────────────────────────────────────────

fn without_d_exec(a: &Vec<(String, String)>) -> (r: Vec<(String, String)>)
    ensures
        decls_view(r@) == without_d(decls_view(a@)),
{
    let ghost av = decls_view(a@);
    let mut out: Vec<(String, String)> = Vec::new();
    let mut i: usize = 0;
    while i < a.len()
        invariant
            i <= a.len(),
            av == decls_view(a@),
            decls_view(out@) == av.take(i as int).filter(|p: (Seq<char>, Seq<char>)| not_d(p)),
        decreases a.len() - i,
    {
        proof {
            assert(av.take(i + 1) =~= av.take(i as int).push(av[i as int]));
            av.take(i as int).lemma_filter_push(av[i as int], |p: (Seq<char>, Seq<char>)| not_d(p));
        }
        if !eq_str(&chars_of(a[i].0.as_str()), "d") {
            let ghost o0 = decls_view(out@);
            out.push((a[i].0.clone(), a[i].1.clone()));
            assert(decls_view(out@) =~= o0.push(av[i as int]));
        }
        i += 1;
    }
    assert(av.take(i as int) =~= av);
    out
}

fn attr_or_empty_exec(n: &XmlNode, name: &str) -> (r: String)
    ensures
        r@ == attr_or_empty(*n, name@),
{
    match get_attribute(n, name) {
        Some(v) => v,
        None => String::new(),
    }
}

/// Whether the child at `k` is combined with the next one, and if so the
/// first one's attributes without `d` and the joined data.
fn combine_exec(n: &XmlNode, k: usize, e: &Env, scope: &Vec<(String, String)>) -> (r: Option<
    Option<(Vec<(String, String)>, String)>,
>)
    requires
        k < n.children.len(),
    ensures
        match r {
            None => combine_outcome(n.children@, k as int, ctx_of(*e), decls_view(scope@)) is None,
            Some(None) => combine_outcome(n.children@, k as int, ctx_of(*e), decls_view(scope@)) == Some(
                None::<(Seq<(Seq<char>, Seq<char>)>, Seq<char>)>,
            ),
            Some(Some(p)) => combine_outcome(n.children@, k as int, ctx_of(*e), decls_view(scope@)) == Some(
                Some((decls_view(p.0@), p.1@)),
            ),
        },
{
    let c = &n.children[k];
    if !(e.opts.combine_paths && eq_str(&chars_of(c.name.as_str()), "path") && get_attribute(c, "id").is_none()
        && k + 1 < n.children.len()) {
        return Some(None);
    }
    let nx = &n.children[k + 1];
    if !(nx.kind == NodeKind::Element && eq_str(&chars_of(nx.name.as_str()), "path") && get_attribute(
        nx,
        "id",
    ).is_none()) {
        return Some(None);
    }
    let s1 = child_scope(c, scope);
    let s2 = child_scope(nx, scope);
    let a1 = match all_attrs(c, &s1, e) {
        Some(a) => a,
        None => return None,
    };
    let a2 = match all_attrs(nx, &s2, e) {
        Some(a) => a,
        None => return None,
    };
    let n1 = without_d_exec(&a1);
    let n2 = without_d_exec(&a2);
    if !crate::path_combine::paths_are_combinable(&n1, &n2, e.vars) {
        return Some(None);
    }
    let d1 = attr_or_empty_exec(c, "d");
    let d2 = attr_or_empty_exec(nx, "d");
    match crate::path_combine::combine_path_d(d1.as_str(), d2.as_str(), e.vars) {
        Some(d) => Some(Some((n1, d))),
        None => Some(None),
    }
}

fn write_synthetic_path(attrs: &Vec<(String, String)>, d: &String, e: &Env, depth: usize, out: &mut Vec<char>)
    requires
        depth * (e.opts.nindent as nat) <= usize::MAX,
    ensures
        final(out)@ == old(out)@ + synthetic_path_out(decls_view(attrs@), d@, ctx_of(*e), depth as nat),
{
    let ghost o0 = out@;
    crate::optimizer::indent(out, e.opts, depth);
    append(out, &chars_of("<path"));
    let mut sorted = sort_decls(attrs);
    let ghost sv = decls_view(sorted@);
    sorted.push((string_of(&chars_of("d")), d.clone()));
    assert(decls_view(sorted@) =~= sv.push(("d"@, d@)));
    write_attrs(&sorted, out, e);
    out.push('/');
    out.push('>');
    crate::optimizer::maybe_newline(out, e.opts);
    assert(out@ =~= o0 + synthetic_path_out(decls_view(attrs@), d@, ctx_of(*e), depth as nat));
}

// ─── Grouping ─────────────────────────────────────────────────────────────────

fn flush_exec(frags: &mut Vec<crate::groups::ElementFragment>, e: &Env, depth: usize, out: &mut Vec<char>, t: &Tally)
    requires
        depth + 1 < usize::MAX,
    ensures
        state_of(final(out)@, *t) == flush(
            crate::groups::frags_view(old(frags)@),
            ctx_of(*e),
            depth as nat,
            state_of(old(out)@, *t),
        ),
        final(frags)@.len() == 0,
{
    if frags.len() > 0 {
        let unit = crate::optimizer::make_indent_unit(e.opts);
        let g = crate::groups::group_runs(frags.as_slice(), unit.as_str(), depth + 1, e.opts.no_line_breaks);
        append(out, &chars_of(g.as_str()));
        frags.clear();
    } else {
        assert(crate::groups::frags_view(old(frags)@) =~= Seq::<FragView>::empty());
    }
}

// ─── Elements and their children ──────────────────────────────────────────────

/// An element and its subtree; `false` where it cannot be written (see
/// `serialize_document`).
fn write_element(
    n: &XmlNode,
    e: &Env,
    depth: usize,
    parent_is_defs: bool,
    pscope: &Vec<(String, String)>,
    out: &mut Vec<char>,
    t: &mut Tally,
) -> (ok: bool)
    requires
        total(*old(t)) + tree_size(*n) <= usize::MAX,
        (depth + tree_size(*n)) * 256 <= usize::MAX,
    ensures
        ok == ser_element(*n, ctx_of(*e), depth as nat, parent_is_defs, decls_view(pscope@), state_of(old(out)@, *old(t))) is Some,
        ok ==> ser_element(*n, ctx_of(*e), depth as nat, parent_is_defs, decls_view(pscope@), state_of(old(out)@, *old(t)))
            == Some(state_of(final(out)@, *final(t))),
        ok ==> total(*final(t)) <= total(*old(t)) + tree_size(*n),
    decreases *n, 4nat,
{
    proof {
        lemma_element_unfold(*n, ctx_of(*e), depth as nat, parent_is_defs, decls_view(pscope@), state_of(out@, *t));
        lemma_sizes_mono(n.children@, 0);
    }
    if !emits_exec(n, e.opts) || is_dup_gradient_exec(n, e.renames) {
        return true;
    }
    let name = chars_of(n.name.as_str());
    if eq_str(&name, "defs") && !e.opts.keep_unreferenced_defs && !has_defs_content_exec(n, e) {
        t.defs_removed = t.defs_removed + 1;
        return true;
    }
    if e.opts.group_collapsing && eq_str(&name, "g") {
        match collapse_outcome_exec(n, e.opts, parent_is_defs) {
            None => {
                return false;
            },
            Some(true) => {
                let scope = child_scope(n, pscope);
                return write_collapsed(n, e, depth, &scope, out, t);
            },
            Some(false) => {},
        }
    }
    write_body(n, e, depth, pscope, out, t)
}

/// The children of a collapsed `<g>`, in its place.
fn write_collapsed(
    n: &XmlNode,
    e: &Env,
    depth: usize,
    scope: &Vec<(String, String)>,
    out: &mut Vec<char>,
    t: &mut Tally,
) -> (ok: bool)
    requires
        total(*old(t)) + sizes(n.children@, 0) <= usize::MAX,
        (depth + tree_size(*n)) * 256 <= usize::MAX,
    ensures
        ok == ser_collapsed(n.children@, ctx_of(*e), depth as nat, decls_view(scope@), 0, state_of(old(out)@, *old(t))) is Some,
        ok ==> ser_collapsed(n.children@, ctx_of(*e), depth as nat, decls_view(scope@), 0, state_of(old(out)@, *old(t)))
            == Some(state_of(final(out)@, *final(t))),
        ok ==> total(*final(t)) <= total(*old(t)) + sizes(n.children@, 0),
    decreases *n, 0nat,
{
    let ghost cs = n.children@;
    let ghost cx = ctx_of(*e);
    let ghost sc = decls_view(scope@);
    let ghost st0 = state_of(out@, *t);
    let ghost t0 = total(*t);
    let mut k: usize = 0;
    while k < n.children.len()
        invariant
            k <= n.children.len(),
            cs == n.children@,
            cx == ctx_of(*e),
            sc == decls_view(scope@),
            ser_collapsed(cs, cx, depth as nat, sc, 0, st0) == ser_collapsed(cs, cx, depth as nat, sc, k as int, state_of(out@, *t)),
            total(*t) + sizes(cs, k as int) <= t0 + sizes(cs, 0),
            t0 + sizes(cs, 0) <= usize::MAX,
            (depth + tree_size(*n)) * 256 <= usize::MAX,
            st0 == state_of(old(out)@, *old(t)),
            t0 == total(*old(t)),
        decreases n.children.len() - k,
    {
        proof {
            lemma_sizes_mono(cs, k as int);
            lemma_sizes_mono(cs, 0);
            lemma_collapsed_step(cs, cx, depth as nat, sc, k as int, state_of(out@, *t));
        }
        let c = &n.children[k];
        match c.kind {
            NodeKind::Element => {
                proof {
                    lemma_child_decreases(*n, k as int);
                }
                if !write_element(c, e, depth, false, scope, out, t) {
                    return false;
                }
            },
            NodeKind::Text => {
                if !blank(c.text.as_str()) {
                    append(out, &chars_of(crate::optimizer::escape_xml_text(c.text.as_str()).as_str()));
                }
            },
            NodeKind::Comment => {
                if !e.opts.strip_comments {
                    crate::optimizer::write_comment(c.text.as_str(), out);
                }
            },
            _ => {},
        }
        k += 1;
    }
    proof {
        lemma_collapsed_step(cs, cx, depth as nat, sc, k as int, state_of(out@, *t));
    }
    true
}

/// The children of an element, one level deeper, with adjacent paths
/// combined.
fn write_plain(
    n: &XmlNode,
    e: &Env,
    depth: usize,
    parent_is_defs: bool,
    scope: &Vec<(String, String)>,
    out: &mut Vec<char>,
    t: &mut Tally,
) -> (ok: bool)
    requires
        total(*old(t)) + sizes(n.children@, 0) <= usize::MAX,
        (depth + tree_size(*n)) * 256 <= usize::MAX,
    ensures
        ok == ser_plain(n.children@, ctx_of(*e), depth as nat, parent_is_defs, decls_view(scope@), 0, state_of(old(out)@, *old(t))) is Some,
        ok ==> ser_plain(n.children@, ctx_of(*e), depth as nat, parent_is_defs, decls_view(scope@), 0, state_of(old(out)@, *old(t)))
            == Some(state_of(final(out)@, *final(t))),
        ok ==> total(*final(t)) <= total(*old(t)) + sizes(n.children@, 0),
    decreases *n, 0nat,
{
    let ghost cs = n.children@;
    let ghost cx = ctx_of(*e);
    let ghost sc = decls_view(scope@);
    let ghost st0 = state_of(out@, *t);
    let ghost t0 = total(*t);
    let mut k: usize = 0;
    while k < n.children.len()
        invariant
            k <= n.children.len(),
            cs == n.children@,
            cx == ctx_of(*e),
            sc == decls_view(scope@),
            ser_plain(cs, cx, depth as nat, parent_is_defs, sc, 0, st0) == ser_plain(cs, cx, depth as nat, parent_is_defs, sc, k as int, state_of(out@, *t)),
            total(*t) + sizes(cs, k as int) <= t0 + sizes(cs, 0),
            t0 + sizes(cs, 0) <= usize::MAX,
            (depth + tree_size(*n)) * 256 <= usize::MAX,
            st0 == state_of(old(out)@, *old(t)),
            t0 == total(*old(t)),
        decreases n.children.len() - k,
    {
        proof {
            lemma_sizes_mono(cs, k as int);
            lemma_sizes_mono(cs, 0);
            lemma_indent_ok((depth + 1) as nat, (depth + tree_size(*n)) as nat, e.opts.nindent as nat);
            lemma_plain_step(cs, cx, depth as nat, parent_is_defs, sc, k as int, state_of(out@, *t));
        }
        let c = &n.children[k];
        let mut step: usize = 1;
        match c.kind {
            NodeKind::Element => {
                match combine_exec(n, k, e, scope) {
                    None => {
                        return false;
                    },
                    Some(Some((attrs, d))) => {
                        proof {
                            lemma_sizes_mono(cs, k + 1);
                        }
                        write_synthetic_path(&attrs, &d, e, depth + 1, out);
                        t.combined = t.combined + 1;
                        step = 2;
                    },
                    Some(None) => {
                        proof {
                            lemma_child_decreases(*n, k as int);
                        }
                        if !write_element(c, e, depth + 1, parent_is_defs, scope, out, t) {
                            return false;
                        }
                    },
                }
            },
            NodeKind::Text => {
                crate::optimizer::emit_text(c.text.as_str(), out, e.opts, depth + 1);
            },
            NodeKind::Comment => {
                if !e.opts.strip_comments {
                    let ghost o0 = out@;
                    crate::optimizer::indent(out, e.opts, depth + 1);
                    crate::optimizer::write_comment(c.text.as_str(), out);
                    crate::optimizer::maybe_newline(out, e.opts);
                    assert(out@ =~= o0 + (ind(*e.opts, (depth + 1) as nat) + crate::optimizer::comment_spec(c.text@) + nl(*e.opts)));
                }
            },
            NodeKind::ProcessingInstruction => {
                let ghost o0 = out@;
                crate::optimizer::indent(out, e.opts, depth + 1);
                write_pi(c, out);
                crate::optimizer::maybe_newline(out, e.opts);
                assert(out@ =~= o0 + (ind(*e.opts, (depth + 1) as nat) + pi_spec(*c) + nl(*e.opts)));
            },
            NodeKind::Root => {},
        }
        k += step;
    }
    proof {
        lemma_plain_step(cs, cx, depth as nat, parent_is_defs, sc, k as int, state_of(out@, *t));
    }
    true
}

fn write_pi(c: &XmlNode, out: &mut Vec<char>)
    ensures
        final(out)@ == old(out)@ + pi_spec(*c),
{
    let ghost o0 = out@;
    out.push('<');
    out.push('?');
    append(out, &chars_of(c.name.as_str()));
    out.push(' ');
    append(out, &chars_of(c.text.as_str()));
    out.push('?');
    out.push('>');
    assert(out@ =~= o0 + pi_spec(*c));
}

/// The children of an element with runs of sibling elements grouped.
fn write_grouped(
    n: &XmlNode,
    e: &Env,
    depth: usize,
    parent_is_defs: bool,
    scope: &Vec<(String, String)>,
    out: &mut Vec<char>,
    t: &mut Tally,
) -> (ok: bool)
    requires
        total(*old(t)) + sizes(n.children@, 0) <= usize::MAX,
        (depth + tree_size(*n)) * 256 <= usize::MAX,
    ensures
        ok == ser_grouped(n.children@, ctx_of(*e), depth as nat, parent_is_defs, decls_view(scope@), 0, seq![], state_of(old(out)@, *old(t))) is Some,
        ok ==> ser_grouped(n.children@, ctx_of(*e), depth as nat, parent_is_defs, decls_view(scope@), 0, seq![], state_of(old(out)@, *old(t)))
            == Some(state_of(final(out)@, *final(t))),
        ok ==> total(*final(t)) <= total(*old(t)) + sizes(n.children@, 0),
    decreases *n, 0nat,
{
    let ghost cs = n.children@;
    let ghost cx = ctx_of(*e);
    let ghost sc = decls_view(scope@);
    let ghost st0 = state_of(out@, *t);
    let ghost t0 = total(*t);
    let mut frags: Vec<crate::groups::ElementFragment> = Vec::new();
    assert(crate::groups::frags_view(frags@) =~= Seq::<FragView>::empty());
    let mut k: usize = 0;
    while k < n.children.len()
        invariant
            k <= n.children.len(),
            cs == n.children@,
            cx == ctx_of(*e),
            sc == decls_view(scope@),
            ser_grouped(cs, cx, depth as nat, parent_is_defs, sc, 0, seq![], st0) == ser_grouped(
                cs,
                cx,
                depth as nat,
                parent_is_defs,
                sc,
                k as int,
                crate::groups::frags_view(frags@),
                state_of(out@, *t),
            ),
            total(*t) + sizes(cs, k as int) <= t0 + sizes(cs, 0),
            t0 + sizes(cs, 0) <= usize::MAX,
            (depth + tree_size(*n)) * 256 <= usize::MAX,
            st0 == state_of(old(out)@, *old(t)),
            t0 == total(*old(t)),
        decreases n.children.len() - k,
    {
        proof {
            lemma_sizes_mono(cs, k as int);
            lemma_sizes_mono(cs, 0);
            lemma_indent_ok((depth + 1) as nat, (depth + tree_size(*n)) as nat, e.opts.nindent as nat);
            lemma_grouped_step(cs, cx, depth as nat, parent_is_defs, sc, k as int, crate::groups::frags_view(frags@), state_of(out@, *t));
        }
        let c = &n.children[k];
        match c.kind {
            NodeKind::Element => {
                let cscope = child_scope(c, scope);
                let all = match all_attrs(c, &cscope, e) {
                    None => {
                        return false;
                    },
                    Some(a) => a,
                };
                let mut ft: Vec<char> = Vec::new();
                proof {
                    lemma_child_decreases(*n, k as int);
                }
                if !write_element(c, e, depth + 1, parent_is_defs, scope, &mut ft, t) {
                    return false;
                }
                let frag = crate::groups::ElementFragment::new(c.name.as_str(), string_of(&ft), &all, e.vars);
                let ghost f0 = crate::groups::frags_view(frags@);
                let ghost fv = frag@;
                frags.push(frag);
                assert(crate::groups::frags_view(frags@) =~= f0.push(fv));
            },
            NodeKind::Text => {
                flush_exec(&mut frags, e, depth, out, t);
                assert(crate::groups::frags_view(frags@) =~= Seq::<FragView>::empty());
                crate::optimizer::emit_text(c.text.as_str(), out, e.opts, depth + 1);
            },
            NodeKind::Comment => {
                if !e.opts.strip_comments {
                    flush_exec(&mut frags, e, depth, out, t);
                    assert(crate::groups::frags_view(frags@) =~= Seq::<FragView>::empty());
                    let ghost o0 = out@;
                    crate::optimizer::indent(out, e.opts, depth + 1);
                    crate::optimizer::write_comment(c.text.as_str(), out);
                    crate::optimizer::maybe_newline(out, e.opts);
                    assert(out@ =~= o0 + (ind(*e.opts, (depth + 1) as nat) + crate::optimizer::comment_spec(c.text@) + nl(*e.opts)));
                }
            },
            _ => {},
        }
        k += 1;
    }
    proof {
        lemma_grouped_step(cs, cx, depth as nat, parent_is_defs, sc, k as int, crate::groups::frags_view(frags@), state_of(out@, *t));
    }
    flush_exec(&mut frags, e, depth, out, t);
    true
}

/// The opening tag of a written element.
#[verifier::rlimit(40)]
fn write_head(
    n: &XmlNode,
    e: &Env,
    depth: usize,
    scope: &Vec<(String, String)>,
    gathered: Vec<(String, String)>,
    style_xml: &Vec<(String, String)>,
    rest: &Option<String>,
    out: &mut Vec<char>,
)
    requires
        depth * (e.opts.nindent as nat) <= usize::MAX,
    ensures
        final(out)@ == old(out)@ + head_out(
            *n,
            ctx_of(*e),
            depth as nat,
            decls_view(scope@),
            decls_view(gathered@),
            (decls_view(style_xml@), opt_string_view(*rest)),
        ),
{
    let ghost cx = ctx_of(*e);
    let ghost gv = decls_view(gathered@);
    let tag = qualified_name_exec(n.name.as_str(), n.namespace.as_str(), scope);
    let raw_id = get_attribute(n, "id");
    let rid = crate::optimizer::resolve_id(opt_ref(&raw_id), e.opts, e.id_map, e.vars);
    let attrs = final_attrs_exec(n, e, gathered, style_xml);
    proof {
        reveal(head_out);
    }
    let ghost o0 = out@;
    crate::optimizer::indent(out, e.opts, depth);
    out.push('<');
    append(out, &tag);
    write_ns_decls(&n.attrs, out, e.opts);
    write_opt_attr("id", &rid, out, e);
    write_attrs(&attrs, out, e);
    write_opt_attr("style", rest, out, e);
    assert(out@ =~= o0 + head_out(*n, cx, depth as nat, decls_view(scope@), gv, (decls_view(style_xml@), opt_string_view(*rest))));
}

/// The content of a written element.
fn write_children(
    n: &XmlNode,
    e: &Env,
    depth: usize,
    scope: &Vec<(String, String)>,
    out: &mut Vec<char>,
    t: &mut Tally,
) -> (ok: bool)
    requires
        total(*old(t)) + sizes(n.children@, 0) <= usize::MAX,
        (depth + tree_size(*n)) * 256 <= usize::MAX,
    ensures
        ok == children_out(*n, ctx_of(*e), depth as nat, decls_view(scope@), state_of(old(out)@, *old(t))) is Some,
        ok ==> children_out(*n, ctx_of(*e), depth as nat, decls_view(scope@), state_of(old(out)@, *old(t)))
            == Some(state_of(final(out)@, *final(t))),
        ok ==> total(*final(t)) <= total(*old(t)) + sizes(n.children@, 0),
    decreases *n, 1nat,
{
    proof {
        lemma_children_unfold(*n, ctx_of(*e), depth as nat, decls_view(scope@), state_of(out@, *t));
        lemma_indent_ok((depth + 1) as nat, (depth + tree_size(*n)) as nat, e.opts.nindent as nat);
    }
    let name = chars_of(n.name.as_str());
    if eq_str(&name, "style") {
        write_style_element(n, e, depth, out, t)
    } else if e.opts.create_groups {
        write_grouped(n, e, depth, eq_str(&name, "defs"), scope, out, t)
    } else {
        write_plain(n, e, depth, eq_str(&name, "defs"), scope, out, t)
    }
}

/// A written element: its tag and attributes, then its content and closing
/// tag, or `/>`.
fn write_body(
    n: &XmlNode,
    e: &Env,
    depth: usize,
    pscope: &Vec<(String, String)>,
    out: &mut Vec<char>,
    t: &mut Tally,
) -> (ok: bool)
    requires
        total(*old(t)) + tree_size(*n) <= usize::MAX,
        (depth + tree_size(*n)) * 256 <= usize::MAX,
    ensures
        ok == element_body(*n, ctx_of(*e), depth as nat, decls_view(pscope@), state_of(old(out)@, *old(t))) is Some,
        ok ==> element_body(*n, ctx_of(*e), depth as nat, decls_view(pscope@), state_of(old(out)@, *old(t)))
            == Some(state_of(final(out)@, *final(t))),
        ok ==> total(*final(t)) <= total(*old(t)) + tree_size(*n),
    decreases *n, 2nat,
{
    let ghost cx = ctx_of(*e);
    let ghost o = *e.opts;
    proof {
        lemma_body_unfold(*n, cx, depth as nat, decls_view(pscope@), state_of(out@, *t));
        lemma_indent_ok(depth as nat, (depth + tree_size(*n)) as nat, e.opts.nindent as nat);
    }
    let scope = child_scope(n, pscope);
    let style = get_attribute(n, "style");
    let sref = opt_ref(&style);
    if !crate::optimizer::style_processable(sref, e.opts.simplify_colors) {
        return false;
    }
    let (sx, rest) = crate::optimizer::process_style(sref, e.opts, e.vars);
    let (g, cnt) = match gather(n, &scope, e, e.opts.simplify_paths) {
        None => {
            return false;
        },
        Some(x) => x,
    };
    write_head(n, e, depth, &scope, g, &sx, &rest, out);
    t.simplified = t.simplified + cnt;
    if !has_visible_exec(n, e) {
        let ghost o1 = out@;
        out.push('/');
        out.push('>');
        crate::optimizer::maybe_newline(out, e.opts);
        assert(out@ =~= o1 + (seq!['/', '>'] + nl(o)));
        return true;
    }
    let ghost o1 = out@;
    out.push('>');
    crate::optimizer::maybe_newline(out, e.opts);
    assert(out@ =~= o1 + (seq!['>'] + nl(o)));
    if !write_children(n, e, depth, &scope, out, t) {
        return false;
    }
    let tag = qualified_name_exec(n.name.as_str(), n.namespace.as_str(), &scope);
    let ghost o2 = out@;
    crate::optimizer::indent(out, e.opts, depth);
    out.push('<');
    out.push('/');
    append(out, &tag);
    out.push('>');
    crate::optimizer::maybe_newline(out, e.opts);
    assert(out@ =~= o2 + close_out(*n, cx, depth as nat, decls_view(scope@)));
    true
}

// ─── The document ─────────────────────────────────────────────────────────────

fn write_top(root: &XmlNode, e: &Env, out: &mut Vec<char>, t: &mut Tally) -> (ok: bool)
    requires
        total(*old(t)) + sizes(root.children@, 0) <= usize::MAX,
        tree_size(*root) * 256 <= usize::MAX,
    ensures
        ok == ser_top(root.children@, ctx_of(*e), root.name@ == "defs"@, attr_pairs(root.attrs@), 0, state_of(old(out)@, *old(t))) is Some,
        ok ==> ser_top(root.children@, ctx_of(*e), root.name@ == "defs"@, attr_pairs(root.attrs@), 0, state_of(old(out)@, *old(t)))
            == Some(state_of(final(out)@, *final(t))),
{
    let ghost cs = root.children@;
    let ghost cx = ctx_of(*e);
    let ghost st0 = state_of(out@, *t);
    let ghost t0 = total(*t);
    let scope = pairs_of(&root.attrs);
    let is_defs = eq_str(&chars_of(root.name.as_str()), "defs");
    let mut k: usize = 0;
    while k < root.children.len()
        invariant
            k <= root.children.len(),
            cs == root.children@,
            cx == ctx_of(*e),
            decls_view(scope@) == attr_pairs(root.attrs@),
            is_defs == (root.name@ == "defs"@),
            ser_top(cs, cx, is_defs, decls_view(scope@), 0, st0) == ser_top(cs, cx, is_defs, decls_view(scope@), k as int, state_of(out@, *t)),
            total(*t) + sizes(cs, k as int) <= t0 + sizes(cs, 0),
            t0 + sizes(cs, 0) <= usize::MAX,
            tree_size(*root) * 256 <= usize::MAX,
            st0 == state_of(old(out)@, *old(t)),
        decreases root.children.len() - k,
    {
        proof {
            lemma_sizes_mono(cs, k as int);
            lemma_sizes_mono(cs, 0);
        }
        let c = &root.children[k];
        match c.kind {
            NodeKind::ProcessingInstruction => {
                if !eq_str(&chars_of(c.name.as_str()), "xml") {
                    let ghost o0 = out@;
                    write_pi(c, out);
                    crate::optimizer::maybe_newline(out, e.opts);
                    assert(out@ =~= o0 + (pi_spec(*c) + nl(*e.opts)));
                }
            },
            NodeKind::Comment => {
                if !e.opts.strip_comments {
                    let ghost o0 = out@;
                    crate::optimizer::write_comment(c.text.as_str(), out);
                    crate::optimizer::maybe_newline(out, e.opts);
                    assert(out@ =~= o0 + (crate::optimizer::comment_spec(c.text@) + nl(*e.opts)));
                }
            },
            NodeKind::Element => {
                if !write_element(c, e, 0, is_defs, &scope, out, t) {
                    return false;
                }
            },
            _ => {},
        }
        k += 1;
    }
    true
}

/// Write a document tree: the XML prolog unless stripped, then the
/// document's instructions, comments and elements, with IDs renamed through
/// `id_map` and the gradients renamed in `grad_renames` left out. The
/// counters come back beside the text. `None` where writing fails: on a
/// color that cannot be sliced, or a `<style>` block that
/// cannot be optimized.
pub fn serialize_document(
    root: &XmlNode,
    opts: &ScourOptions,
    id_map: &[(String, Option<String>)],
    grad_renames: &[(String, String)],
    vars: &[CapturedVar],
) -> (r: Option<(String, Tally)>)
    requires
        tree_size(*root) * 256 <= usize::MAX,
    ensures
        match r {
            None => ser_document(*root, ctx_from(*opts, id_map@, grad_renames@, vars@)) is None,
            Some(p) => ser_document(*root, ctx_from(*opts, id_map@, grad_renames@, vars@)) == Some(state_of(p.0@, p.1)),
        },
{
    let e = Env { opts, id_map, renames: grad_renames, vars };
    let mut out: Vec<char> = Vec::new();
    if !opts.strip_xml_prolog {
        append(&mut out, &chars_of("<?xml version=\"1.0\" encoding=\"utf-8\"?>\n"));
    }
    assert(out@ =~= prolog(*opts));
    let mut t = Tally { simplified: 0, combined: 0, defs_removed: 0 };
    assert(tree_size(*root) >= sizes(root.children@, 0));
    if write_top(root, &e, &mut out, &mut t) {
        Some((string_of(&out), t))
    } else {
        None
    }
}

/// Everything after parsing: the tree written with the decisions of the
/// analysis, the placeholders restored, and the statistics of the run.
/// `None` where writing fails, as `serialize_document` says.
pub fn render_document(
    root: &XmlNode,
    vars: &[CapturedVar],
    opts: &ScourOptions,
    analysis: &crate::document::Analysis,
) -> (r: Option<(String, crate::optimizer::OptimizeStats)>)
    requires
        tree_size(*root) * 256 <= usize::MAX,
    ensures
        ({
            let doc = ser_document(*root, ctx_from(*opts, analysis.id_map@, analysis.grad_renames@, vars@));
            match r {
                None => doc is None,
                Some(p) => doc is Some && p.0@ == crate::subst::restore_spec(doc->Some_0.out, caps_view(vars@))
                    && p.1.has_flowtext == analysis.has_flowtext
                    && p.1.subst_vars_preserved == vars.len()
                    && p.1.gradients_deduplicated == analysis.grad_renames.len()
                    && p.1.paths_simplified == doc->Some_0.simplified
                    && p.1.paths_combined == doc->Some_0.combined
                    && p.1.empty_defs_removed == doc->Some_0.defs_removed,
            }
        }),
{
    match serialize_document(root, opts, &analysis.id_map, &analysis.grad_renames, vars) {
        None => None,
        Some((text, t)) => {
            let restored = crate::subst::restore_subst_vars(text.as_str(), vars);
            let stats = crate::optimizer::OptimizeStats {
                has_flowtext: analysis.has_flowtext,
                subst_vars_preserved: vars.len(),
                gradients_deduplicated: analysis.grad_renames.len(),
                paths_simplified: t.simplified,
                paths_combined: t.combined,
                empty_defs_removed: t.defs_removed,
            };
            Some((restored, stats))
        },
    }
}

} // verus!
