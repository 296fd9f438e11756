//! The document model and the whole-document passes: collecting IDs,
//! references and gradient definitions, and building the rename map.
//!
//! The tree holds, as plain values, what the passes read of a parsed SVG
//! document: node kinds, names and namespaces, attributes and text.
//! Attributes also carry the results of the numeric optimizers (number,
//! number list, path and transform formatting), which are computed outside
//! the library because they work in floating point.
use vstd::prelude::*;
use crate::css::decls_view;
use crate::gradient::{
    gradient_key_spec, make_gradient_key, make_stop_key, stop_key_spec, stops_view, DefView,
    GradientDef, StopKey, StopView,
};
use crate::optimizer::{id_refs, strings_of};
use crate::subst::{caps_view, has_placeholder, value_has_subst, CapView, CapturedVar};
use crate::text::{chars_of, eq_vec, slice_vec, string_of};
use crate::subst::eq_str;
use crate::xml::{build_tree, depths_ok, lemma_preorder_len, parse_xml_records, preorder, recs_view, spec_xml_records};

verus! {

/// Kinds of nodes.
#[derive(Debug, Clone, Copy, PartialEq, Eq, Structural)]
pub enum NodeKind {
    Root,
    Element,
    Text,
    Comment,
    ProcessingInstruction,
}

/// An attribute: local name, namespace URI (empty for none), value, and the
/// numeric optimizers' results for it.
#[derive(Debug, Clone)]
pub struct XmlAttr {
    pub name: String,
    pub namespace: String,
    pub value: String,
    /// The number, number-list, path or transform optimizer applied to the
    /// value after ID remapping, where the attribute is of such a kind.
    pub numeric: Option<String>,
    /// The path simplifier applied to that result, for the `d` of a path.
    pub simplified: Option<String>,
}

/// A node: kind, element local name or instruction target, element
/// namespace, attributes, text (of a text or comment node, or an
/// instruction's value) and children.
#[derive(Debug)]
pub struct XmlNode {
    pub kind: NodeKind,
    pub name: String,
    pub namespace: String,
    pub attrs: Vec<XmlAttr>,
    pub text: String,
    pub children: Vec<XmlNode>,
}

pub open spec fn is_element(n: XmlNode) -> bool {
    n.kind == NodeKind::Element
}

/// `Node::attribute(name)`: the value of the attribute with that local name
/// and no namespace.
pub open spec fn attr_from(attrs: Seq<XmlAttr>, name: Seq<char>, i: int) -> Option<Seq<char>>
    decreases attrs.len() - i,
{
    if i < 0 || i >= attrs.len() {
        None
    } else if attrs[i].name@ == name && attrs[i].namespace@.len() == 0 {
        Some(attrs[i].value@)
    } else {
        attr_from(attrs, name, i + 1)
    }
}

pub open spec fn attribute(n: XmlNode, name: Seq<char>) -> Option<Seq<char>> {
    attr_from(n.attrs@, name, 0)
}

pub fn get_attribute(n: &XmlNode, name: &str) -> (r: Option<String>)
    ensures
        crate::gradient::opt_string_view(r) == attribute(*n, name@),
{
    let nm = chars_of(name);
    let mut i: usize = 0;
    while i < n.attrs.len()
        invariant
            i <= n.attrs.len(),
            nm@ == name@,
            attribute(*n, name@) == attr_from(n.attrs@, name@, i as int),
        decreases n.attrs.len() - i,
    {
        let a = &n.attrs[i];
        if eq_vec(&chars_of(a.name.as_str()), &nm) && chars_of(a.namespace.as_str()).len() == 0 {
            return Some(a.value.clone());
        }
        i += 1;
    }
    None
}

// ─── Gradient definitions ─────────────────────────────────────────────────────

pub open spec fn is_gradient_tag(name: Seq<char>) -> bool {
    name == "linearGradient"@ || name == "radialGradient"@ || name == "pattern"@
}

fn gradient_tag(name: &Vec<char>) -> (b: bool)
    ensures
        b == is_gradient_tag(name@),
{
    eq_str(name, "linearGradient") || eq_str(name, "radialGradient") || eq_str(name, "pattern")
}

/// `str::trim_start_matches('#')`.
pub open spec fn strip_hashes(s: Seq<char>) -> Seq<char>
    decreases s.len(),
{
    if s.len() > 0 && s[0] == '#' {
        strip_hashes(s.drop_first())
    } else {
        s
    }
}

fn strip_hashes_exec(s: &Vec<char>) -> (r: Vec<char>)
    ensures
        r@ == strip_hashes(s@),
{
    let mut a: usize = 0;
    assert(s@.skip(0) =~= s@);
    while a < s.len() && s[a] == '#'
        invariant
            a <= s.len(),
            strip_hashes(s@) == strip_hashes(s@.skip(a as int)),
        decreases s.len() - a,
    {
        assert(s@.skip(a as int).drop_first() =~= s@.skip(a + 1));
        a += 1;
    }
    let r = slice_vec(s, a, s.len());
    assert(r@ =~= s@.skip(a as int));
    r
}

/// All attributes as `(local name, value)` pairs.
pub open spec fn attr_pairs(attrs: Seq<XmlAttr>) -> Seq<(Seq<char>, Seq<char>)> {
    attrs.map_values(|a: XmlAttr| (a.name@, a.value@))
}

pub open spec fn not_id_pair(p: (Seq<char>, Seq<char>)) -> bool {
    p.0 != "id"@
}

/// The first `href`-like attribute's value without leading `#`s.
pub open spec fn href_target(raw: Seq<(Seq<char>, Seq<char>)>) -> Option<Seq<char>>
    decreases raw.len(),
{
    if raw.len() == 0 {
        None
    } else if raw[0].0 == "href"@ || raw[0].0 == "xlink:href"@ {
        Some(strip_hashes(raw[0].1))
    } else {
        href_target(raw.drop_first())
    }
}

/// The stops of a gradient: its `stop` element children, in order.
pub open spec fn stops_of(children: Seq<XmlNode>) -> Seq<StopView>
    decreases children.len(),
{
    if children.len() == 0 {
        seq![]
    } else {
        let c = children.last();
        let rest = stops_of(children.drop_last());
        if is_element(c) && c.name@ == "stop"@ {
            rest.push(stop_key_spec(attr_pairs(c.attrs@)))
        } else {
            rest
        }
    }
}

/// The gradient definition of an element with an `id`.
pub open spec fn gradient_def_spec(n: XmlNode) -> Option<DefView> {
    match attribute(n, "id"@) {
        None => None,
        Some(id) => {
            let raw = attr_pairs(n.attrs@).filter(|p: (Seq<char>, Seq<char>)| not_id_pair(p));
            Some(
                DefView {
                    id,
                    key: gradient_key_spec(n.name@, raw, stops_of(n.children@)),
                    inherits: href_target(raw),
                    attrs: raw,
                },
            )
        },
    }
}

pub(crate) fn pairs_of(attrs: &Vec<XmlAttr>) -> (r: Vec<(String, String)>)
    ensures
        decls_view(r@) == attr_pairs(attrs@),
{
    let mut r: Vec<(String, String)> = Vec::new();
    let mut i: usize = 0;
    while i < attrs.len()
        invariant
            i <= attrs.len(),
            decls_view(r@) == attr_pairs(attrs@).take(i as int),
        decreases attrs.len() - i,
    {
        let ghost r0 = r@;
        r.push((attrs[i].name.clone(), attrs[i].value.clone()));
        assert(decls_view(r@) =~= decls_view(r0).push((attrs@[i as int].name@, attrs@[i as int].value@)));
        assert(attr_pairs(attrs@).take(i + 1) =~= attr_pairs(attrs@).take(i as int).push((attrs@[i as int].name@, attrs@[i as int].value@)));
        i += 1;
    }
    assert(attr_pairs(attrs@).take(i as int) =~= attr_pairs(attrs@));
    r
}

fn extract_gradient_def(n: &XmlNode) -> (r: Option<GradientDef>)
    ensures
        match r {
            Some(d) => gradient_def_spec(*n) == Some(d@),
            None => gradient_def_spec(*n) is None,
        },
{
    let id = match get_attribute(n, "id") {
        Some(id) => id,
        None => return None,
    };
    let all = pairs_of(&n.attrs);
    let ghost av = decls_view(all@);
    let mut raw: Vec<(String, String)> = Vec::new();
    let mut i: usize = 0;
    while i < all.len()
        invariant
            i <= all.len(),
            av == decls_view(all@),
            decls_view(raw@) == av.take(i as int).filter(|p: (Seq<char>, Seq<char>)| not_id_pair(p)),
        decreases all.len() - i,
    {
        let ghost r0 = raw@;
        proof {
            assert(av.take(i + 1) =~= av.take(i as int).push(av[i as int]));
            av.take(i as int).lemma_filter_push(av[i as int], |p: (Seq<char>, Seq<char>)| not_id_pair(p));
        }
        if !eq_str(&chars_of(all[i].0.as_str()), "id") {
            raw.push((all[i].0.clone(), all[i].1.clone()));
            assert(decls_view(raw@) =~= decls_view(r0).push(av[i as int]));
        }
        i += 1;
    }
    assert(av.take(i as int) =~= av);
    let ghost rv = decls_view(raw@);
    let mut inherits: Option<String> = None;
    let mut j: usize = 0;
    assert(rv.skip(0) =~= rv);
    while j < raw.len()
        invariant_except_break
            inherits is None,
            href_target(rv) == href_target(rv.skip(j as int)),
        invariant
            j <= raw.len(),
            rv == decls_view(raw@),
        ensures
            crate::gradient::opt_string_view(inherits) == href_target(rv),
        decreases raw.len() - j,
    {
        assert(rv.skip(j as int)[0] == rv[j as int]);
        let k = chars_of(raw[j].0.as_str());
        if eq_str(&k, "href") || eq_str(&k, "xlink:href") {
            inherits = Some(string_of(&strip_hashes_exec(&chars_of(raw[j].1.as_str()))));
            break;
        }
        assert(rv.skip(j as int).drop_first() =~= rv.skip(j + 1));
        j += 1;
        proof {
            if j >= raw.len() {
                assert(rv.skip(j as int) =~= Seq::<(Seq<char>, Seq<char>)>::empty());
            }
        }
    }
    let mut stops: Vec<StopKey> = Vec::new();
    let mut c: usize = 0;
    while c < n.children.len()
        invariant
            c <= n.children.len(),
            stops_view(stops@) == stops_of(n.children@.take(c as int)),
        decreases n.children.len() - c,
    {
        let ch = &n.children[c];
        assert(n.children@.take(c + 1).drop_last() =~= n.children@.take(c as int));
        assert(n.children@.take(c + 1).last() == *ch);
        if ch.kind == NodeKind::Element && eq_str(&chars_of(ch.name.as_str()), "stop") {
            let sa = pairs_of(&ch.attrs);
            let sk = make_stop_key(&sa);
            let ghost s0 = stops@;
            stops.push(sk);
            assert(stops_view(stops@) =~= stops_view(s0).push(sk@));
        }
        c += 1;
    }
    assert(n.children@.take(c as int) =~= n.children@);
    let key = make_gradient_key(n.name.as_str(), &raw, stops);
    Some(GradientDef { id, key, inherits, attrs: raw })
}


// ─── Collecting IDs and references ────────────────────────────────────────────

/// What the collection pass gathers: defined IDs, referenced IDs (with
/// repeats), whether flowing text occurs, and the gradient definitions in
/// `<defs>`.
pub struct Collected {
    pub ids: Seq<Seq<char>>,
    pub refs: Seq<Seq<char>>,
    pub flowtext: bool,
    pub defs: Seq<DefView>,
}

/// The IDs every attribute value refers to, in order.
pub open spec fn attrs_refs(attrs: Seq<XmlAttr>) -> Seq<Seq<char>>
    decreases attrs.len(),
{
    if attrs.len() == 0 {
        seq![]
    } else {
        attrs_refs(attrs.drop_last()) + id_refs(attrs.last().value@)
    }
}

pub open spec fn is_flow_tag(name: Seq<char>) -> bool {
    name == "flowRoot"@ || name == "flowPara"@ || name == "flowSpan"@ || name == "flowRegion"@
}

/// What one element adds (before its children).
pub open spec fn collect_one(c: XmlNode, parent_is_defs: bool, cvs: Seq<CapView>, acc: Collected) -> Collected {
    Collected {
        ids: match attribute(c, "id"@) {
            Some(id) => if !has_placeholder(id, cvs) && id.len() > 0 {
                acc.ids.push(id)
            } else {
                acc.ids
            },
            None => acc.ids,
        },
        refs: acc.refs + attrs_refs(c.attrs@),
        flowtext: acc.flowtext || is_flow_tag(c.name@),
        defs: if parent_is_defs && is_gradient_tag(c.name@) {
            match gradient_def_spec(c) {
                Some(d) => acc.defs.push(d),
                None => acc.defs,
            }
        } else {
            acc.defs
        },
    }
}

/// The pass over the descendants of `n`, in document order.
pub open spec fn collect_node(n: XmlNode, cvs: Seq<CapView>, acc: Collected) -> Collected
    decreases n, 0nat,
{
    collect_children(n.children@, n.name@ == "defs"@, cvs, acc, 0)
}

pub open spec fn collect_children(
    cs: Seq<XmlNode>,
    parent_is_defs: bool,
    cvs: Seq<CapView>,
    acc: Collected,
    k: int,
) -> Collected
    decreases cs, (cs.len() - k) as nat,
{
    if k < 0 || k >= cs.len() {
        acc
    } else {
        let c = cs[k];
        let acc2 = if is_element(c) {
            collect_node(c, cvs, collect_one(c, parent_is_defs, cvs, acc))
        } else {
            acc
        };
        collect_children(cs, parent_is_defs, cvs, acc2, k + 1)
    }
}

pub open spec fn defs_view_of(v: Seq<GradientDef>) -> Seq<DefView> {
    v.map_values(|d: GradientDef| d@)
}

fn collect_ids_and_refs(
    node: &XmlNode,
    all_ids: &mut Vec<String>,
    referenced: &mut Vec<String>,
    has_flowtext: &mut bool,
    gradient_defs: &mut Vec<GradientDef>,
    vars: &[CapturedVar],
)
    ensures
        ({
            let r = collect_node(
                *node,
                caps_view(vars@),
                Collected {
                    ids: strings_of(old(all_ids)@),
                    refs: strings_of(old(referenced)@),
                    flowtext: *old(has_flowtext),
                    defs: defs_view_of(old(gradient_defs)@),
                },
            );
            &&& strings_of(final(all_ids)@) == r.ids
            &&& strings_of(final(referenced)@) == r.refs
            &&& *final(has_flowtext) == r.flowtext
            &&& defs_view_of(final(gradient_defs)@) == r.defs
        }),
    decreases node,
{
    let ghost cvs = caps_view(vars@);
    let parent_is_defs = eq_str(&chars_of(node.name.as_str()), "defs");
    let mut k: usize = 0;
    while k < node.children.len()
        invariant
            k <= node.children.len(),
            cvs == caps_view(vars@),
            parent_is_defs == (node.name@ == "defs"@),
            collect_node(
                *node,
                cvs,
                Collected {
                    ids: strings_of(old(all_ids)@),
                    refs: strings_of(old(referenced)@),
                    flowtext: *old(has_flowtext),
                    defs: defs_view_of(old(gradient_defs)@),
                },
            ) == collect_children(
                node.children@,
                parent_is_defs,
                cvs,
                Collected {
                    ids: strings_of(all_ids@),
                    refs: strings_of(referenced@),
                    flowtext: *has_flowtext,
                    defs: defs_view_of(gradient_defs@),
                },
                k as int,
            ),
        decreases node.children.len() - k,
    {
        let child = &node.children[k];
        if child.kind == NodeKind::Element {
            let ename = chars_of(child.name.as_str());
            if eq_str(&ename, "flowRoot") || eq_str(&ename, "flowPara") || eq_str(&ename, "flowSpan")
                || eq_str(&ename, "flowRegion") {
                *has_flowtext = true;
            }
            match get_attribute(child, "id") {
                Some(id) => {
                    if !value_has_subst(id.as_str(), vars) && chars_of(id.as_str()).len() > 0 {
                        let ghost i0 = strings_of(all_ids@);
                        all_ids.push(id);
                        assert(strings_of(all_ids@) =~= i0.push(id@));
                    }
                },
                None => {},
            }
            let mut a: usize = 0;
            let ghost r0 = strings_of(referenced@);
            while a < child.attrs.len()
                invariant
                    a <= child.attrs.len(),
                    strings_of(referenced@) == r0 + attrs_refs(child.attrs@.take(a as int)),
                decreases child.attrs.len() - a,
            {
                crate::optimizer::extract_id_refs(child.attrs[a].value.as_str(), referenced);
                proof {
                    assert(child.attrs@.take(a + 1).drop_last() =~= child.attrs@.take(a as int));
                    assert(child.attrs@.take(a + 1).last() == child.attrs@[a as int]);
                    assert(r0 + attrs_refs(child.attrs@.take(a + 1)) =~= r0 + attrs_refs(child.attrs@.take(a as int)) + id_refs(child.attrs@[a as int].value@));
                }
                a += 1;
            }
            assert(child.attrs@.take(a as int) =~= child.attrs@);
            if parent_is_defs && gradient_tag(&ename) {
                match extract_gradient_def(child) {
                    Some(g) => {
                        let ghost d0 = defs_view_of(gradient_defs@);
                        let ghost gv = g@;
                        gradient_defs.push(g);
                        assert(defs_view_of(gradient_defs@) =~= d0.push(gv));
                    },
                    None => {},
                }
            }
            proof {
                assert(decreases_to!(*node => node.children));
                assert(decreases_to!(node.children => node.children@));
                assert(decreases_to!(node.children@ => node.children@[k as int]));
            }
            collect_ids_and_refs(child, all_ids, referenced, has_flowtext, gradient_defs, vars);
        }
        k += 1;
    }
}


// ─── Sizes ────────────────────────────────────────────────────────────────────

/// The number of nodes in a tree.
pub open spec fn node_count(n: XmlNode) -> nat
    decreases n, 0nat,
{
    1 + count_children(n.children@, 0)
}

pub open spec fn count_children(cs: Seq<XmlNode>, k: int) -> nat
    decreases cs, (cs.len() - k) as nat,
{
    if k < 0 || k >= cs.len() {
        0
    } else {
        node_count(cs[k]) + count_children(cs, k + 1)
    }
}

proof fn lemma_collect_ids_len(n: XmlNode, cvs: Seq<CapView>, acc: Collected)
    ensures
        collect_node(n, cvs, acc).ids.len() <= acc.ids.len() + count_children(n.children@, 0),
    decreases n, 0nat,
{
    lemma_collect_children_ids_len(n.children@, n.name@ == "defs"@, cvs, acc, 0);
}

proof fn lemma_collect_children_ids_len(
    cs: Seq<XmlNode>,
    parent_is_defs: bool,
    cvs: Seq<CapView>,
    acc: Collected,
    k: int,
)
    ensures
        collect_children(cs, parent_is_defs, cvs, acc, k).ids.len() <= acc.ids.len() + count_children(cs, k),
    decreases cs, (cs.len() - k) as nat,
{
    if 0 <= k < cs.len() {
        let c = cs[k];
        assert(node_count(c) == 1 + count_children(c.children@, 0));
        assert(count_children(cs, k) == node_count(c) + count_children(cs, k + 1));
        if is_element(c) {
            let a1 = collect_one(c, parent_is_defs, cvs, acc);
            lemma_collect_ids_len(c, cvs, a1);
            let a2 = collect_node(c, cvs, a1);
            lemma_collect_children_ids_len(cs, parent_is_defs, cvs, a2, k + 1);
        } else {
            lemma_collect_children_ids_len(cs, parent_is_defs, cvs, acc, k + 1);
        }
    }
}

// ─── Analysis ─────────────────────────────────────────────────────────────────

/// What the document passes decide before serialization.
pub struct Analysis {
    /// The rename map: `Some(new)` renames (or keeps), `None` removes.
    pub id_map: Vec<(String, Option<String>)>,
    /// `duplicate → canonical` for deduplicated gradients.
    pub grad_renames: Vec<(String, String)>,
    pub has_flowtext: bool,
}

pub open spec fn dup_ids(renames: Seq<(Seq<char>, Seq<char>)>) -> Seq<Seq<char>> {
    renames.map_values(|r: (Seq<char>, Seq<char>)| r.0)
}

pub open spec fn not_dup(r: Seq<char>, dups: Seq<Seq<char>>) -> bool {
    !dups.contains(r)
}

/// Each gradient rename entered into the rename map.
pub open spec fn with_renames(
    m: Seq<(Seq<char>, Option<Seq<char>>)>,
    renames: Seq<(Seq<char>, Seq<char>)>,
) -> Seq<(Seq<char>, Option<Seq<char>>)>
    decreases renames.len(),
{
    if renames.len() == 0 {
        m
    } else {
        crate::ids::map_insert(
            with_renames(m, renames.drop_last()),
            renames.last().0,
            Some(renames.last().1),
        )
    }
}

pub open spec fn root_collected(root: XmlNode, cvs: Seq<CapView>) -> Collected {
    collect_node(root, cvs, Collected { ids: seq![], refs: seq![], flowtext: false, defs: seq![] })
}

/// The gradient renames of a document.
pub open spec fn grad_renames_spec(root: XmlNode, cvs: Seq<CapView>) -> Seq<(Seq<char>, Seq<char>)> {
    crate::gradient::dedup(crate::gradient::resolved_defs(root_collected(root, cvs).defs), cvs).renames
}

/// The rename map of a document.
pub open spec fn id_map_spec(
    root: XmlNode,
    cvs: Seq<CapView>,
    strip: bool,
    shorten: bool,
    prefix: Option<Seq<char>>,
    noninkscape: bool,
    protect_list: Seq<Seq<char>>,
    protect_prefix: Option<Seq<char>>,
) -> Seq<(Seq<char>, Option<Seq<char>>)> {
    let c = root_collected(root, cvs);
    let renames = grad_renames_spec(root, cvs);
    let refs = c.refs.filter(|r: Seq<char>| not_dup(r, dup_ids(renames)));
    let base = if strip || shorten {
        let p = crate::ids::IdParams {
            ids: c.ids,
            referenced: refs,
            strip,
            shorten,
            prefix,
            noninkscape,
            protect_list,
            protect_prefix,
        };
        crate::ids::id_map_of(c.ids, p).entries
    } else {
        seq![]
    };
    with_renames(base, renames)
}

/// `a` is what `analyse_document` finds in `root`: the gradient renames, the
/// ID map and whether the document uses flowing text.
pub open spec fn is_analysis(a: Analysis, root: XmlNode, cvs: Seq<CapView>, opts: crate::optimizer::ScourOptions) -> bool {
    &&& decls_view(a.grad_renames@) == grad_renames_spec(root, cvs)
    &&& crate::ids::entries_view(a.id_map@) == id_map_spec(
        root,
        cvs,
        opts.strip_ids,
        opts.shorten_ids,
        crate::gradient::opt_string_view(opts.shorten_ids_prefix),
        opts.protect_ids_noninkscape,
        strings_of(opts.protect_ids_list@),
        crate::gradient::opt_string_view(opts.protect_ids_prefix),
    )
    &&& a.has_flowtext == root_collected(root, cvs).flowtext
}

pub fn analyse_document(root: &XmlNode, vars: &[CapturedVar], opts: &crate::optimizer::ScourOptions) -> (r: Analysis)
    requires
        node_count(*root) < usize::MAX / 2,
    ensures
        is_analysis(r, *root, caps_view(vars@), *opts),
{
    let ghost cvs = caps_view(vars@);
    let mut all_ids: Vec<String> = Vec::new();
    let mut referenced: Vec<String> = Vec::new();
    let mut has_flowtext = false;
    let mut gradient_defs: Vec<GradientDef> = Vec::new();
    proof {
        assert(strings_of(all_ids@) =~= Seq::<Seq<char>>::empty());
        assert(strings_of(referenced@) =~= Seq::<Seq<char>>::empty());
        assert(defs_view_of(gradient_defs@) =~= Seq::<DefView>::empty());
        lemma_collect_ids_len(*root, cvs, Collected { ids: seq![], refs: seq![], flowtext: false, defs: seq![] });
    }
    collect_ids_and_refs(root, &mut all_ids, &mut referenced, &mut has_flowtext, &mut gradient_defs, vars);
    let ghost c = root_collected(*root, cvs);
    assert(crate::gradient::defs_view(gradient_defs@) =~= defs_view_of(gradient_defs@));
    let grad_renames = crate::gradient::find_duplicate_gradients(&gradient_defs, vars);
    let ghost renames = decls_view(grad_renames@);
    let ghost dups = dup_ids(renames);
    // Drop the references to deduplicated gradients.
    let mut refs: Vec<String> = Vec::new();
    let mut i: usize = 0;
    while i < referenced.len()
        invariant
            i <= referenced.len(),
            dups == dup_ids(decls_view(grad_renames@)),
            strings_of(refs@) == strings_of(referenced@).take(i as int).filter(|r: Seq<char>| not_dup(r, dups)),
        decreases referenced.len() - i,
    {
        let ghost f0 = strings_of(refs@);
        let ghost rv = strings_of(referenced@);
        proof {
            assert(rv.take(i + 1) =~= rv.take(i as int).push(rv[i as int]));
            rv.take(i as int).lemma_filter_push(rv[i as int], |r: Seq<char>| not_dup(r, dups));
        }
        let rc = chars_of(referenced[i].as_str());
        let mut is_dup = false;
        let mut j: usize = 0;
        while j < grad_renames.len()
            invariant
                j <= grad_renames.len(),
                dups == dup_ids(decls_view(grad_renames@)),
                rc@ == rv[i as int],
                is_dup == exists|t: int| 0 <= t < j && dups[t] == rc@,
            decreases grad_renames.len() - j,
        {
            if eq_vec(&chars_of(grad_renames[j].0.as_str()), &rc) {
                is_dup = true;
            }
            assert(dups[j as int] == grad_renames@[j as int].0@);
            j += 1;
        }
        proof {
            if is_dup {
                let t = choose|t: int| 0 <= t < j && dups[t] == rc@;
                assert(dups.contains(rc@));
            } else {
                assert(!dups.contains(rc@));
            }
        }
        if !is_dup {
            refs.push(referenced[i].clone());
            assert(strings_of(refs@) =~= f0.push(rv[i as int]));
        }
        i += 1;
    }
    assert(strings_of(referenced@).take(i as int) =~= strings_of(referenced@));
    proof {
        assert(strings_of(refs@) =~= c.refs.filter(|r: Seq<char>| not_dup(r, dup_ids(grad_renames_spec(*root, cvs)))));
        assert(crate::ids::strings_view(all_ids@) =~= strings_of(all_ids@));
        assert(crate::ids::strings_view(refs@) =~= strings_of(refs@));
        assert(crate::ids::strings_view(opts.protect_ids_list@) =~= strings_of(opts.protect_ids_list@));
    }
    let mut id_map: Vec<(String, Option<String>)> = if opts.strip_ids || opts.shorten_ids {
        let prefix: Option<&str> = match &opts.shorten_ids_prefix {
            Some(p) => Some(p.as_str()),
            None => None,
        };
        let pprefix: Option<&str> = match &opts.protect_ids_prefix {
            Some(p) => Some(p.as_str()),
            None => None,
        };
        assert(crate::ids::opt_view(prefix) == crate::gradient::opt_string_view(opts.shorten_ids_prefix));
        assert(crate::ids::opt_view(pprefix) == crate::gradient::opt_string_view(opts.protect_ids_prefix));
        let (m, _) = crate::ids::build_id_map(
            &all_ids,
            &refs,
            opts.strip_ids,
            opts.shorten_ids,
            prefix,
            opts.protect_ids_noninkscape,
            &opts.protect_ids_list,
            pprefix,
        );
        proof {
            let p = crate::ids::params_of(
                all_ids@,
                refs@,
                opts.strip_ids,
                opts.shorten_ids,
                prefix,
                opts.protect_ids_noninkscape,
                opts.protect_ids_list@,
                pprefix,
            );
            let q = crate::ids::IdParams {
                ids: c.ids,
                referenced: c.refs.filter(|r: Seq<char>| not_dup(r, dup_ids(grad_renames_spec(*root, cvs)))),
                strip: opts.strip_ids,
                shorten: opts.shorten_ids,
                prefix: crate::gradient::opt_string_view(opts.shorten_ids_prefix),
                noninkscape: opts.protect_ids_noninkscape,
                protect_list: strings_of(opts.protect_ids_list@),
                protect_prefix: crate::gradient::opt_string_view(opts.protect_ids_prefix),
            };
            assert(p == q);
        }
        m
    } else {
        let e: Vec<(String, Option<String>)> = Vec::new();
        assert(crate::ids::entries_view(e@) =~= Seq::<(Seq<char>, Option<Seq<char>>)>::empty());
        e
    };
    let ghost base = crate::ids::entries_view(id_map@);
    assert(crate::ids::strings_view(all_ids@) == strings_of(all_ids@));
    let mut k: usize = 0;
    while k < grad_renames.len()
        invariant
            k <= grad_renames.len(),
            crate::ids::entries_view(id_map@) == with_renames(base, decls_view(grad_renames@).take(k as int)),
        decreases grad_renames.len() - k,
    {
        let ghost rn = decls_view(grad_renames@);
        assert(rn.take(k + 1).drop_last() =~= rn.take(k as int));
        assert(rn.take(k + 1).last() == rn[k as int]);
        let dup = grad_renames[k].0.clone();
        let canon = grad_renames[k].1.clone();
        crate::ids::insert_entry(&mut id_map, &dup, Some(canon));
        k += 1;
    }
    assert(decls_view(grad_renames@).take(k as int) =~= decls_view(grad_renames@));
    assert(decls_view(grad_renames@) == grad_renames_spec(*root, cvs));
    assert(base == (if opts.strip_ids || opts.shorten_ids {
        crate::ids::id_map_of(c.ids, crate::ids::IdParams {
            ids: c.ids,
            referenced: c.refs.filter(|r: Seq<char>| not_dup(r, dup_ids(grad_renames_spec(*root, cvs)))),
            strip: opts.strip_ids,
            shorten: opts.shorten_ids,
            prefix: crate::gradient::opt_string_view(opts.shorten_ids_prefix),
            noninkscape: opts.protect_ids_noninkscape,
            protect_list: strings_of(opts.protect_ids_list@),
            protect_prefix: crate::gradient::opt_string_view(opts.protect_ids_prefix),
        }).entries
    } else {
        seq![]
    }));
    Analysis { id_map, grad_renames, has_flowtext }
}

/// Everything before serialization: the substitution variables protected,
/// the protected text parsed into the document model, and the document
/// analysed. Where the protected text is not one well-formed XML tree (or
/// has more nodes than half the address space), the input comes back
/// unchanged with the count of variables and all other counters zero.
pub fn prepare_document(input: &str, opts: &crate::optimizer::ScourOptions) -> (r: Result<
    (XmlNode, Vec<CapturedVar>, Analysis),
    (String, crate::optimizer::OptimizeStats),
>)
    ensures
        match r {
            Ok((root, vars, a)) => {
                &&& caps_view(vars@) == crate::subst::protect_spec(input@).1
                &&& spec_xml_records(crate::subst::protect_spec(input@).0) matches Some(rv) && depths_ok(rv)
                    && preorder(root, rv[0].depth) == rv
                &&& crate::xml::fresh(root)
                &&& node_count(root) < usize::MAX / 2
                &&& is_analysis(a, root, caps_view(vars@), *opts)
            },
            Err((out, st)) => {
                &&& out@ == input@
                &&& match spec_xml_records(crate::subst::protect_spec(input@).0) {
                    None => true,
                    Some(rv) => !depths_ok(rv) || rv.len() >= usize::MAX / 2,
                }
                &&& st.subst_vars_preserved == crate::subst::protect_spec(input@).1.len()
                &&& !st.has_flowtext
                &&& st.gradients_deduplicated == 0
                &&& st.paths_simplified == 0
                &&& st.paths_combined == 0
                &&& st.empty_defs_removed == 0
            },
        },
{
    let (protected, vars) = crate::subst::protect_subst_vars(input);
    let unchanged = crate::optimizer::OptimizeStats {
        has_flowtext: false,
        subst_vars_preserved: vars.len(),
        gradients_deduplicated: 0,
        paths_simplified: 0,
        paths_combined: 0,
        empty_defs_removed: 0,
    };
    assert(caps_view(vars@).len() == vars@.len());
    match parse_xml_records(protected.as_str()) {
        None => Err((string_of(&chars_of(input)), unchanged)),
        Some(recs) => {
            if recs.len() >= usize::MAX / 2 {
                return Err((string_of(&chars_of(input)), unchanged));
            }
            match build_tree(&recs) {
                None => Err((string_of(&chars_of(input)), unchanged)),
                Some(root) => {
                    proof {
                        lemma_preorder_len(root, recs_view(recs@)[0].depth);
                    }
                    let a = analyse_document(&root, &vars, opts);
                    Ok((root, vars, a))
                },
            }
        },
    }
}

} // verus!
