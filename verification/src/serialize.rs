//! Serialization of the document model: which elements and attributes are
//! written, how attribute values are optimized, empty `<defs>` removal, group
//! collapsing, path combination, grouping of siblings and the `<style>`
//! block, with indentation and line breaks.
//!
//! Each pass is stated as a spec function from a serialization state (the
//! output so far and the counters) to the next, `None` where the pass would
//! panic on its input; the executable functions follow them exactly.
use vstd::prelude::*;
use crate::css::{decls_view, default_value, is_color_prop, parse_style_outcome, sort_by_prop};
use crate::document::{attr_pairs, attribute, is_element, is_gradient_tag, NodeKind, XmlAttr, XmlNode};
use crate::groups::{group_runs_spec, groupable_decl, FragView};
use crate::optimizer::{
    attr_out, comment_spec, emit_element, escape_xml_attr_spec, escape_xml_text_spec,
    indent_spec, indent_unit_spec, is_editor_namespace, keep_decl, process_style_spec,
    remap_id_spec, resolve_id_spec, style_ok, text_out, viewbox_spec, viewboxed, Indent,
    ScourOptions,
};
use crate::subst::{caps_view, has_placeholder, CapView, CapturedVar};
use crate::text::{names_contain, starts_with, trim};

verus! {

// ─── Context and state ────────────────────────────────────────────────────────

/// What serialization reads besides the tree: the options, the rename map,
/// the IDs of deduplicated gradients and the substitution variables.
pub struct Ctx {
    pub opts: ScourOptions,
    pub m: Seq<(Seq<char>, Option<Seq<char>>)>,
    pub dups: Seq<Seq<char>>,
    pub cvs: Seq<CapView>,
}

/// The output written so far and the counters of simplified paths, combined
/// paths and removed empty `<defs>`.
pub struct SerState {
    pub out: Seq<char>,
    pub simplified: nat,
    pub combined: nat,
    pub defs_removed: nat,
}

pub open spec fn emit(st: SerState, s: Seq<char>) -> SerState {
    SerState { out: st.out + s, simplified: st.simplified, combined: st.combined, defs_removed: st.defs_removed }
}

pub open spec fn nl(o: ScourOptions) -> Seq<char> {
    if o.no_line_breaks {
        seq![]
    } else {
        seq!['\n']
    }
}

pub open spec fn ind(o: ScourOptions, depth: nat) -> Seq<char> {
    indent_spec(o.no_line_breaks, o.indent, o.nindent as nat, depth)
}

/// The `(name, value)` pairs of an element's attributes followed by those of
/// its ancestors, nearest first: where namespace prefixes are looked up.
pub type Scope = Seq<(Seq<char>, Seq<char>)>;

pub open spec fn scope_of(n: XmlNode, parent: Scope) -> Scope {
    attr_pairs(n.attrs@) + parent
}

// ─── Element decisions ────────────────────────────────────────────────────────

pub open spec fn emits(c: XmlNode, o: ScourOptions) -> bool {
    emit_element(c.name@, c.namespace@, o.keep_editor_data, o.remove_titles, o.remove_descriptions, o.remove_metadata)
}

/// A gradient whose ID was deduplicated away.
pub open spec fn is_dup_gradient(c: XmlNode, dups: Seq<Seq<char>>) -> bool {
    is_gradient_tag(c.name@) && match attribute(c, "id"@) {
        Some(id) => dups.contains(id),
        None => false,
    }
}

/// A child that keeps a `<defs>` from being dropped as empty.
pub open spec fn defs_content(c: XmlNode, cx: Ctx) -> bool {
    match c.kind {
        NodeKind::Element => emits(c, cx.opts) && !is_dup_gradient(c, cx.dups),
        NodeKind::Text => trim(c.text@).len() > 0,
        _ => false,
    }
}

/// A child that is written, so that its parent gets a closing tag.
pub open spec fn visible_child(c: XmlNode, cx: Ctx) -> bool {
    match c.kind {
        NodeKind::Element => emits(c, cx.opts) && !is_dup_gradient(c, cx.dups),
        NodeKind::Text => trim(c.text@).len() > 0,
        NodeKind::Comment => !cx.opts.strip_comments,
        _ => false,
    }
}

pub open spec fn has_defs_content(cs: Seq<XmlNode>, cx: Ctx) -> bool {
    exists|i: int| 0 <= i < cs.len() && defs_content(#[trigger] cs[i], cx)
}

pub open spec fn has_visible(cs: Seq<XmlNode>, cx: Ctx) -> bool {
    exists|i: int| 0 <= i < cs.len() && visible_child(#[trigger] cs[i], cx)
}

/// An attribute that keeps a `<g>` from being collapsed.
pub open spec fn meaningful_attr(a: XmlAttr, o: ScourOptions) -> bool {
    let n = a.name@;
    let ns = a.namespace@;
    !(n == "id"@ || n == "style"@ || n == "class"@) && (ns.len() == 0 || (!o.keep_editor_data
        && !is_editor_namespace(ns)))
}

pub open spec fn has_meaningful(attrs: Seq<XmlAttr>, o: ScourOptions) -> bool {
    exists|i: int| 0 <= i < attrs.len() && meaningful_attr(#[trigger] attrs[i], o)
}

pub open spec fn non_default(ds: Seq<(Seq<char>, Seq<char>)>) -> bool {
    exists|i: int| 0 <= i < ds.len() && !default_value((#[trigger] ds[i]).0, ds[i].1)
}

/// Whether a `<g>` is replaced by its children: no `id`, `class` or
/// `transform`, a style of defaults only, no other attribute that matters,
/// and not a child of `<defs>`. `None` where its style has no parse.
pub open spec fn collapse_outcome(n: XmlNode, o: ScourOptions, parent_is_defs: bool) -> Option<bool> {
    if attribute(n, "id"@) is Some || attribute(n, "class"@) is Some || attribute(n, "transform"@) is Some {
        Some(false)
    } else {
        let style_verdict = match attribute(n, "style"@) {
            Some(s) => match parse_style_outcome(s) {
                Some(ds) => Some(!non_default(ds)),
                None => None,
            },
            None => Some(true),
        };
        match style_verdict {
            None => None,
            Some(false) => Some(false),
            Some(true) => Some(!has_meaningful(n.attrs@, o) && !parent_is_defs),
        }
    }
}

// ─── Namespaces ───────────────────────────────────────────────────────────────

pub open spec fn xmlns_ns() -> Seq<char> {
    "http://www.w3.org/2000/xmlns/"@
}

pub open spec fn xml_ns() -> Seq<char> {
    "http://www.w3.org/XML/1998/namespace"@
}

pub open spec fn svg_ns() -> Seq<char> {
    "http://www.w3.org/2000/svg"@
}

/// The prefix declared for a namespace URI: the first declaration in scope
/// whose value is the URI, `xmlns` giving the empty prefix.
pub open spec fn find_prefix(scope: Scope, ns: Seq<char>) -> Option<Seq<char>>
    decreases scope.len(),
{
    if scope.len() == 0 {
        None
    } else if scope[0].1 == ns && scope[0].0 == "xmlns"@ {
        Some(seq![])
    } else if scope[0].1 == ns && starts_with(scope[0].0, "xmlns:"@) {
        Some(scope[0].0.skip(6))
    } else {
        find_prefix(scope.drop_first(), ns)
    }
}

/// A name written with the prefix of its namespace, when one is declared.
pub open spec fn prefixed(local: Seq<char>, ns: Seq<char>, scope: Scope) -> Seq<char> {
    match find_prefix(scope, ns) {
        Some(p) => if p.len() > 0 {
            p + seq![':'] + local
        } else {
            local
        },
        None => local,
    }
}

pub open spec fn qualified_name(local: Seq<char>, ns: Seq<char>, scope: Scope) -> Seq<char> {
    if ns.len() == 0 || ns == svg_ns() {
        local
    } else {
        prefixed(local, ns, scope)
    }
}

pub open spec fn is_xmlns_attr(a: XmlAttr) -> bool {
    a.namespace@ == xmlns_ns() || a.name@ == "xmlns"@ || starts_with(a.name@, "xmlns:"@)
}

/// The namespace declarations written on an element's tag.
pub open spec fn ns_decls(attrs: Seq<XmlAttr>, o: ScourOptions) -> Seq<char>
    decreases attrs.len(),
{
    if attrs.len() == 0 {
        seq![]
    } else {
        let a = attrs.last();
        let rest = ns_decls(attrs.drop_last(), o);
        if !is_xmlns_attr(a) || (!o.keep_editor_data && a.value@.len() > 0 && is_editor_namespace(
            a.value@,
        )) {
            rest
        } else {
            rest + seq![' '] + a.name@ + seq!['=', '"'] + escape_xml_attr_spec(a.value@) + seq!['"']
        }
    }
}

// ─── Attribute values ─────────────────────────────────────────────────────────

/// How an attribute's value is optimized.
#[derive(Debug, Clone, Copy, PartialEq, Eq, Structural)]
pub enum AttrKind {
    PathData,
    Transform,
    Color,
    Number,
    NumberList,
    Plain,
}

pub open spec fn number_attrs_0() -> Seq<&'static str> {
    seq!["x", "y", "x1", "y1", "x2", "y2", "cx", "cy", "r", "rx", "ry", "fx", "fy", "offset", "stroke-width", "stroke-miterlimit", "stroke-dashoffset", "font-size", "letter-spacing", "word-spacing", "kerning"]
}

pub open spec fn number_attrs_1() -> Seq<&'static str> {
    seq!["opacity", "fill-opacity", "stroke-opacity", "stop-opacity", "flood-opacity", "k", "k1", "k2", "k3", "k4", "amplitude", "exponent", "intercept", "slope", "specularConstant", "specularExponent", "diffuseConstant", "surfaceScale", "seed", "numOctaves"]
}

/// Attributes holding one number.
pub open spec fn number_attrs() -> Seq<&'static str> {
    number_attrs_0() + number_attrs_1()
}

/// Attributes holding a list of numbers.
pub open spec fn number_list_attrs() -> Seq<&'static str> {
    seq!["viewBox", "points", "stdDeviation", "baseFrequency", "kernelMatrix", "tableValues", "values", "keyTimes", "keySplines", "order"]
}

pub open spec fn attr_kind_spec(name: Seq<char>, element: Seq<char>) -> AttrKind {
    if name == "d"@ && element == "path"@ {
        AttrKind::PathData
    } else if name == "transform"@ || name == "patternTransform"@ || name == "gradientTransform"@ {
        AttrKind::Transform
    } else if is_color_prop(name) {
        AttrKind::Color
    } else if names_contain(number_attrs(), name) {
        AttrKind::Number
    } else if (name == "width"@ || name == "height"@) && element != "svg"@ {
        AttrKind::Number
    } else if names_contain(number_list_attrs(), name) {
        AttrKind::NumberList
    } else {
        AttrKind::Plain
    }
}

/// The written value of an attribute: its ID references renamed; then, when
/// no placeholder remains, its color simplified or the numeric optimizer's
/// result taken. `None` where the color has no
/// simplification.
pub open spec fn optimized_value(a: XmlAttr, element: Seq<char>, cx: Ctx) -> Option<Seq<char>> {
    let r = remap_id_spec(a.value@, cx.m);
    if has_placeholder(r, cx.cvs) {
        Some(r)
    } else {
        match attr_kind_spec(a.name@, element) {
            AttrKind::Plain => Some(r),
            AttrKind::Color => if cx.opts.simplify_colors {
                crate::color::simplify_color_outcome(r)
            } else {
                Some(r)
            },
            _ => match a.numeric {
                Some(x) => Some(x@),
                None => Some(r),
            },
        }
    }
}

/// Attributes that are never copied over as they stand: the ID and style
/// (written apart), namespace declarations, editor data and `xml:space`
/// when it is stripped.
pub open spec fn skip_attr(a: XmlAttr, o: ScourOptions) -> bool {
    let n = a.name@;
    let ns = a.namespace@;
    ||| (n == "id"@ && ns.len() == 0)
    ||| (n == "style"@ && ns.len() == 0)
    ||| ns == xmlns_ns()
    ||| n == "xmlns"@
    ||| starts_with(n, "xmlns:"@)
    ||| (!o.keep_editor_data && ns.len() > 0 && is_editor_namespace(ns))
    ||| (n == "space"@ && ns == xml_ns() && o.strip_xml_space)
}

pub open spec fn attr_qname(a: XmlAttr, scope: Scope) -> Seq<char> {
    if a.namespace@.len() == 0 {
        a.name@
    } else {
        prefixed(a.name@, a.namespace@, scope)
    }
}

/// The value of a path's `d` after simplification, and whether it changed.
/// `d` has no default and is no style property, so simplifying it while
/// gathering is the same as after the style attributes are merged in.
pub open spec fn simplified_value(
    a: XmlAttr,
    v: Seq<char>,
    q: Seq<char>,
    element: Seq<char>,
    cx: Ctx,
    simplify: bool,
) -> (Seq<char>, nat) {
    if simplify && element == "path"@ && q == "d"@ && !has_placeholder(v, cx.cvs) {
        match a.simplified {
            Some(s) => if s@ != v {
                (s@, 1)
            } else {
                (v, 0)
            },
            None => (v, 0),
        }
    } else {
        (v, 0)
    }
}

/// The attributes copied onto the written element, with optimized values,
/// and how many path data values simplification changed.
pub open spec fn gather_spec(
    attrs: Seq<XmlAttr>,
    element: Seq<char>,
    scope: Scope,
    cx: Ctx,
    simplify: bool,
) -> Option<(Seq<(Seq<char>, Seq<char>)>, nat)>
    decreases attrs.len(),
{
    if attrs.len() == 0 {
        Some((seq![], 0))
    } else {
        match gather_spec(attrs.drop_last(), element, scope, cx, simplify) {
            None => None,
            Some(g) => {
                let a = attrs.last();
                if skip_attr(a, cx.opts) {
                    Some(g)
                } else {
                    match optimized_value(a, element, cx) {
                        None => None,
                        Some(v) => {
                            let q = attr_qname(a, scope);
                            let sv = simplified_value(a, v, q, element, cx, simplify);
                            Some((g.0.push((q, sv.0)), g.1 + sv.1))
                        },
                    }
                }
            },
        }
    }
}

pub open spec fn has_key(attrs: Seq<(Seq<char>, Seq<char>)>, k: Seq<char>) -> bool {
    exists|i: int| 0 <= i < attrs.len() && (#[trigger] attrs[i]).0 == k
}

/// The attributes with the style's presentation properties added where the
/// element has no attribute of that name.
pub open spec fn merged(attrs: Seq<(Seq<char>, Seq<char>)>, extra: Seq<(Seq<char>, Seq<char>)>) -> Seq<
    (Seq<char>, Seq<char>),
>
    decreases extra.len(),
{
    if extra.len() == 0 {
        attrs
    } else {
        let m0 = merged(attrs, extra.drop_last());
        if has_key(m0, extra.last().0) {
            m0
        } else {
            m0.push(extra.last())
        }
    }
}

/// All attributes of an element as a group or a combination compares them:
/// the gathered ones and those from its style.
pub open spec fn all_attrs_spec(n: XmlNode, cx: Ctx, scope: Scope) -> Option<Seq<(Seq<char>, Seq<char>)>> {
    let style = attribute(n, "style"@);
    if !style_ok(style, cx.opts.simplify_colors) {
        None
    } else {
        match gather_spec(n.attrs@, n.name@, scope, cx, false) {
            None => None,
            Some(g) => Some(
                merged(g.0, process_style_spec(style, cx.opts.simplify_colors, cx.opts.style_to_xml, cx.cvs).0),
            ),
        }
    }
}

/// The attribute list written on an element: merged, defaults dropped,
/// sorted by name, then viewboxed.
pub open spec fn final_attrs(
    n: XmlNode,
    cx: Ctx,
    gathered: Seq<(Seq<char>, Seq<char>)>,
    style_xml: Seq<(Seq<char>, Seq<char>)>,
) -> Seq<(Seq<char>, Seq<char>)> {
    let kept = merged(gathered, style_xml).filter(|p: (Seq<char>, Seq<char>)| keep_decl(p, cx.cvs));
    let sorted = sort_by_prop(kept);
    match viewbox_spec(
        cx.opts.enable_viewboxing,
        n.name@,
        attribute(n, "viewBox"@) is Some,
        attribute(n, "width"@),
        attribute(n, "height"@),
        cx.cvs,
    ) {
        Some(vb) => viewboxed(sorted, vb),
        None => sorted,
    }
}

pub open spec fn rename_on(o: ScourOptions) -> bool {
    o.strip_ids || o.shorten_ids
}

pub open spec fn attrs_out(attrs: Seq<(Seq<char>, Seq<char>)>, cx: Ctx) -> Seq<char>
    decreases attrs.len(),
{
    if attrs.len() == 0 {
        seq![]
    } else {
        attrs_out(attrs.drop_last(), cx) + attr_out(attrs.last().0, attrs.last().1, rename_on(cx.opts), cx.m)
    }
}

pub open spec fn opt_attr_out(name: Seq<char>, v: Option<Seq<char>>, cx: Ctx) -> Seq<char> {
    match v {
        Some(s) => attr_out(name, s, rename_on(cx.opts), cx.m),
        None => seq![],
    }
}

/// `<?target value?>`.
pub open spec fn pi_spec(n: XmlNode) -> Seq<char> {
    seq!['<', '?'] + n.name@ + seq![' '] + n.text@ + seq!['?', '>']
}

// ─── Children ─────────────────────────────────────────────────────────────────

pub open spec fn flush(frags: Seq<FragView>, cx: Ctx, depth: nat, st: SerState) -> SerState {
    if frags.len() == 0 {
        st
    } else {
        emit(
            st,
            group_runs_spec(
                frags,
                indent_unit_spec(cx.opts.no_line_breaks, cx.opts.indent, cx.opts.nindent as nat),
                depth + 1,
                cx.opts.no_line_breaks,
            ),
        )
    }
}

/// The text of a `<style>` element: its text children, and its comments
/// (kept as CSS comments) unless comments are stripped.
pub open spec fn style_text(cs: Seq<XmlNode>, strip_comments: bool) -> Seq<char>
    decreases cs.len(),
{
    if cs.len() == 0 {
        seq![]
    } else {
        let c = cs.last();
        style_text(cs.drop_last(), strip_comments) + match c.kind {
            NodeKind::Text => c.text@,
            NodeKind::Comment => if strip_comments {
                seq![]
            } else {
                seq!['/', '*'] + c.text@ + seq!['*', '/']
            },
            _ => seq![],
        }
    }
}

pub open spec fn style_element_out(cs: Seq<XmlNode>, cx: Ctx, depth: nat, st: SerState) -> Option<SerState> {
    let o = cx.opts;
    match crate::style_block::style_block_outcome(style_text(cs, o.strip_comments), cx.m, o.simplify_colors, cx.cvs) {
        None => None,
        Some(css) => if trim(css).len() > 0 {
            Some(emit(st, ind(o, depth + 1) + css + nl(o)))
        } else {
            Some(st)
        },
    }
}

pub open spec fn not_d(p: (Seq<char>, Seq<char>)) -> bool {
    p.0 != "d"@
}

pub open spec fn without_d(a: Seq<(Seq<char>, Seq<char>)>) -> Seq<(Seq<char>, Seq<char>)> {
    a.filter(|p: (Seq<char>, Seq<char>)| not_d(p))
}

pub open spec fn attr_or_empty(n: XmlNode, name: Seq<char>) -> Seq<char> {
    match attribute(n, name) {
        Some(v) => v,
        None => seq![],
    }
}

/// Whether the path at `k` is combined with the next sibling: both are
/// `<path>` elements without an ID, their other attributes agree and their
/// data can be joined. The result is the first path's attributes without
/// `d` and the joined data; `None` where gathering the attributes has no
/// result.
pub open spec fn combine_outcome(cs: Seq<XmlNode>, k: int, cx: Ctx, scope: Scope) -> Option<
    Option<(Seq<(Seq<char>, Seq<char>)>, Seq<char>)>,
> {
    let c = cs[k];
    if cx.opts.combine_paths && c.name@ == "path"@ && attribute(c, "id"@) is None && k + 1 < cs.len() {
        let nx = cs[k + 1];
        if is_element(nx) && nx.name@ == "path"@ && attribute(nx, "id"@) is None {
            match (all_attrs_spec(c, cx, scope_of(c, scope)), all_attrs_spec(nx, cx, scope_of(nx, scope))) {
                (Some(a1), Some(a2)) => if crate::path_combine::combinable(
                    without_d(a1),
                    without_d(a2),
                    cx.cvs,
                ) {
                    match crate::path_combine::combine_spec(attr_or_empty(c, "d"@), attr_or_empty(nx, "d"@), cx.cvs) {
                        Some(d) => Some(Some((without_d(a1), d))),
                        None => Some(None),
                    }
                } else {
                    Some(None)
                },
                _ => None,
            }
        } else {
            Some(None)
        }
    } else {
        Some(None)
    }
}

/// A combined `<path>`: its attributes sorted by name with `d` last.
pub open spec fn synthetic_path_out(attrs: Seq<(Seq<char>, Seq<char>)>, d: Seq<char>, cx: Ctx, depth: nat) -> Seq<char> {
    ind(cx.opts, depth) + "<path"@ + attrs_out(sort_by_prop(attrs).push(("d"@, d)), cx) + seq!['/', '>'] + nl(cx.opts)
}

pub open spec fn counters(st: SerState, from: SerState) -> SerState {
    SerState { out: st.out, simplified: from.simplified, combined: from.combined, defs_removed: from.defs_removed }
}

/// An element and its subtree.
#[verifier::opaque]
pub open spec fn ser_element(
    n: XmlNode,
    cx: Ctx,
    depth: nat,
    parent_is_defs: bool,
    pscope: Scope,
    st: SerState,
) -> Option<SerState>
    decreases n, 3nat,
{
    let o = cx.opts;
    if !emits(n, o) || is_dup_gradient(n, cx.dups) {
        Some(st)
    } else if n.name@ == "defs"@ && !o.keep_unreferenced_defs && !has_defs_content(n.children@, cx) {
        Some(SerState { out: st.out, simplified: st.simplified, combined: st.combined, defs_removed: st.defs_removed + 1 })
    } else if o.group_collapsing && n.name@ == "g"@ {
        match collapse_outcome(n, o, parent_is_defs) {
            None => None,
            Some(true) => ser_collapsed(n.children@, cx, depth, scope_of(n, pscope), 0, st),
            Some(false) => element_body(n, cx, depth, pscope, st),
        }
    } else {
        element_body(n, cx, depth, pscope, st)
    }
}

/// The opening tag of a written element, with its namespace declarations,
/// ID, attributes and remaining style.
#[verifier::opaque]
pub open spec fn head_out(
    n: XmlNode,
    cx: Ctx,
    depth: nat,
    scope: Scope,
    gathered: Seq<(Seq<char>, Seq<char>)>,
    ps: (Seq<(Seq<char>, Seq<char>)>, Option<Seq<char>>),
) -> Seq<char> {
    let o = cx.opts;
    ind(o, depth) + seq!['<'] + qualified_name(n.name@, n.namespace@, scope) + ns_decls(n.attrs@, o)
        + opt_attr_out("id"@, resolve_id_spec(attribute(n, "id"@), rename_on(o), cx.m, cx.cvs), cx)
        + attrs_out(final_attrs(n, cx, gathered, ps.0), cx) + opt_attr_out("style"@, ps.1, cx)
}

pub open spec fn close_out(n: XmlNode, cx: Ctx, depth: nat, scope: Scope) -> Seq<char> {
    ind(cx.opts, depth) + seq!['<', '/'] + qualified_name(n.name@, n.namespace@, scope) + seq!['>'] + nl(cx.opts)
}

/// The content of a written element: a `<style>` element's optimized CSS,
/// or its children, grouped or not.
#[verifier::opaque]
pub open spec fn children_out(n: XmlNode, cx: Ctx, depth: nat, scope: Scope, st: SerState) -> Option<SerState>
    decreases n, 1nat,
{
    if n.name@ == "style"@ {
        style_element_out(n.children@, cx, depth, st)
    } else if cx.opts.create_groups {
        ser_grouped(n.children@, cx, depth, n.name@ == "defs"@, scope, 0, seq![], st)
    } else {
        ser_plain(n.children@, cx, depth, n.name@ == "defs"@, scope, 0, st)
    }
}

/// A written element: its tag with attributes, then its children or `/>`.
#[verifier::opaque]
pub open spec fn element_body(n: XmlNode, cx: Ctx, depth: nat, pscope: Scope, st: SerState) -> Option<SerState>
    decreases n, 2nat,
{
    let o = cx.opts;
    let scope = scope_of(n, pscope);
    let style = attribute(n, "style"@);
    if !style_ok(style, o.simplify_colors) {
        None
    } else {
        let ps = process_style_spec(style, o.simplify_colors, o.style_to_xml, cx.cvs);
        match gather_spec(n.attrs@, n.name@, scope, cx, o.simplify_paths) {
            None => None,
            Some(g) => {
                let st1 = SerState {
                    out: st.out + head_out(n, cx, depth, scope, g.0, ps),
                    simplified: st.simplified + g.1,
                    combined: st.combined,
                    defs_removed: st.defs_removed,
                };
                if !has_visible(n.children@, cx) {
                    Some(emit(st1, seq!['/', '>'] + nl(o)))
                } else {
                    match children_out(n, cx, depth, scope, emit(st1, seq!['>'] + nl(o))) {
                        None => None,
                        Some(st3) => Some(emit(st3, close_out(n, cx, depth, scope))),
                    }
                }
            },
        }
    }
}

/// The children of a collapsed `<g>`, written in its place.
#[verifier::opaque]
pub open spec fn ser_collapsed(cs: Seq<XmlNode>, cx: Ctx, depth: nat, scope: Scope, k: int, st: SerState) -> Option<
    SerState,
>
    decreases cs, (cs.len() - k) as nat,
{
    if k < 0 || k >= cs.len() {
        Some(st)
    } else {
        let c = cs[k];
        match c.kind {
            NodeKind::Element => match ser_element(c, cx, depth, false, scope, st) {
                None => None,
                Some(s2) => ser_collapsed(cs, cx, depth, scope, k + 1, s2),
            },
            NodeKind::Text => ser_collapsed(
                cs,
                cx,
                depth,
                scope,
                k + 1,
                if trim(c.text@).len() > 0 {
                    emit(st, escape_xml_text_spec(c.text@))
                } else {
                    st
                },
            ),
            NodeKind::Comment => ser_collapsed(
                cs,
                cx,
                depth,
                scope,
                k + 1,
                if cx.opts.strip_comments {
                    st
                } else {
                    emit(st, comment_spec(c.text@))
                },
            ),
            _ => ser_collapsed(cs, cx, depth, scope, k + 1, st),
        }
    }
}

/// The children of an element, one level deeper, with adjacent paths
/// combined.
#[verifier::opaque]
pub open spec fn ser_plain(
    cs: Seq<XmlNode>,
    cx: Ctx,
    depth: nat,
    parent_is_defs: bool,
    scope: Scope,
    k: int,
    st: SerState,
) -> Option<SerState>
    decreases cs, (cs.len() - k) as nat,
{
    if k < 0 || k >= cs.len() {
        Some(st)
    } else {
        let c = cs[k];
        let o = cx.opts;
        match c.kind {
            NodeKind::Element => match combine_outcome(cs, k, cx, scope) {
                None => None,
                Some(Some(pair)) => ser_plain(
                    cs,
                    cx,
                    depth,
                    parent_is_defs,
                    scope,
                    k + 2,
                    SerState {
                        out: st.out + synthetic_path_out(pair.0, pair.1, cx, depth + 1),
                        simplified: st.simplified,
                        combined: st.combined + 1,
                        defs_removed: st.defs_removed,
                    },
                ),
                Some(None) => match ser_element(c, cx, depth + 1, parent_is_defs, scope, st) {
                    None => None,
                    Some(s2) => ser_plain(cs, cx, depth, parent_is_defs, scope, k + 1, s2),
                },
            },
            NodeKind::Text => ser_plain(
                cs,
                cx,
                depth,
                parent_is_defs,
                scope,
                k + 1,
                emit(st, text_out(c.text@, o.no_line_breaks, o.indent, o.nindent as nat, depth + 1)),
            ),
            NodeKind::Comment => ser_plain(
                cs,
                cx,
                depth,
                parent_is_defs,
                scope,
                k + 1,
                if o.strip_comments {
                    st
                } else {
                    emit(st, ind(o, depth + 1) + comment_spec(c.text@) + nl(o))
                },
            ),
            NodeKind::ProcessingInstruction => ser_plain(
                cs,
                cx,
                depth,
                parent_is_defs,
                scope,
                k + 1,
                emit(st, ind(o, depth + 1) + pi_spec(c) + nl(o)),
            ),
            NodeKind::Root => ser_plain(cs, cx, depth, parent_is_defs, scope, k + 1, st),
        }
    }
}

/// The fragment an element child contributes to grouping.
pub open spec fn fragment(c: XmlNode, text: Seq<char>, all: Seq<(Seq<char>, Seq<char>)>, cx: Ctx) -> FragView {
    FragView {
        text,
        tag: c.name@,
        attrs: all.filter(|p: (Seq<char>, Seq<char>)| groupable_decl(p, cx.cvs)),
    }
}

/// The children of an element with runs of element siblings grouped; text
/// and comments end a run.
#[verifier::opaque]
pub open spec fn ser_grouped(
    cs: Seq<XmlNode>,
    cx: Ctx,
    depth: nat,
    parent_is_defs: bool,
    scope: Scope,
    k: int,
    frags: Seq<FragView>,
    st: SerState,
) -> Option<SerState>
    decreases cs, (cs.len() - k) as nat,
{
    if k < 0 || k >= cs.len() {
        Some(flush(frags, cx, depth, st))
    } else {
        let c = cs[k];
        let o = cx.opts;
        match c.kind {
            NodeKind::Element => match all_attrs_spec(c, cx, scope_of(c, scope)) {
                None => None,
                Some(all) => match ser_element(
                    c,
                    cx,
                    depth + 1,
                    parent_is_defs,
                    scope,
                    SerState { out: seq![], simplified: st.simplified, combined: st.combined, defs_removed: st.defs_removed },
                ) {
                    None => None,
                    Some(s2) => ser_grouped(
                        cs,
                        cx,
                        depth,
                        parent_is_defs,
                        scope,
                        k + 1,
                        frags.push(fragment(c, s2.out, all, cx)),
                        counters(st, s2),
                    ),
                },
            },
            NodeKind::Text => ser_grouped(
                cs,
                cx,
                depth,
                parent_is_defs,
                scope,
                k + 1,
                seq![],
                emit(flush(frags, cx, depth, st), text_out(c.text@, o.no_line_breaks, o.indent, o.nindent as nat, depth + 1)),
            ),
            NodeKind::Comment => if o.strip_comments {
                ser_grouped(cs, cx, depth, parent_is_defs, scope, k + 1, frags, st)
            } else {
                ser_grouped(
                    cs,
                    cx,
                    depth,
                    parent_is_defs,
                    scope,
                    k + 1,
                    seq![],
                    emit(flush(frags, cx, depth, st), ind(o, depth + 1) + comment_spec(c.text@) + nl(o)),
                )
            },
            _ => ser_grouped(cs, cx, depth, parent_is_defs, scope, k + 1, frags, st),
        }
    }
}

// ─── The document ─────────────────────────────────────────────────────────────

pub open spec fn prolog(o: ScourOptions) -> Seq<char> {
    if o.strip_xml_prolog {
        seq![]
    } else {
        "<?xml version=\"1.0\" encoding=\"utf-8\"?>\n"@
    }
}

/// The children of the document node: instructions other than `xml`,
/// comments unless stripped, and elements at depth zero.
pub open spec fn ser_top(cs: Seq<XmlNode>, cx: Ctx, parent_is_defs: bool, scope: Scope, k: int, st: SerState) -> Option<
    SerState,
>
    decreases cs.len() - k,
{
    if k < 0 || k >= cs.len() {
        Some(st)
    } else {
        let c = cs[k];
        let o = cx.opts;
        match c.kind {
            NodeKind::ProcessingInstruction => ser_top(
                cs,
                cx,
                parent_is_defs,
                scope,
                k + 1,
                if c.name@ != "xml"@ {
                    emit(st, pi_spec(c) + nl(o))
                } else {
                    st
                },
            ),
            NodeKind::Comment => ser_top(
                cs,
                cx,
                parent_is_defs,
                scope,
                k + 1,
                if o.strip_comments {
                    st
                } else {
                    emit(st, comment_spec(c.text@) + nl(o))
                },
            ),
            NodeKind::Element => match ser_element(c, cx, 0, parent_is_defs, scope, st) {
                None => None,
                Some(s2) => ser_top(cs, cx, parent_is_defs, scope, k + 1, s2),
            },
            _ => ser_top(cs, cx, parent_is_defs, scope, k + 1, st),
        }
    }
}

/// The whole document written out, before the placeholders are restored.
pub open spec fn ser_document(root: XmlNode, cx: Ctx) -> Option<SerState> {
    ser_top(
        root.children@,
        cx,
        root.name@ == "defs"@,
        attr_pairs(root.attrs@),
        0,
        SerState { out: prolog(cx.opts), simplified: 0, combined: 0, defs_removed: 0 },
    )
}

// ─── Sizes ────────────────────────────────────────────────────────────────────

/// The number of nodes and attributes in a tree: a bound on every counter
/// and on the depth that serialization reaches.
pub open spec fn tree_size(n: XmlNode) -> nat
    decreases n, 0nat,
{
    1 + n.attrs@.len() + sizes(n.children@, 0)
}

pub open spec fn sizes(cs: Seq<XmlNode>, k: int) -> nat
    decreases cs, (cs.len() - k) as nat,
{
    if k < 0 || k >= cs.len() {
        0
    } else {
        tree_size(cs[k]) + sizes(cs, k + 1)
    }
}

// ─── One step of each walk ────────────────────────────────────────────────────

pub(crate) proof fn lemma_collapsed_step(cs: Seq<XmlNode>, cx: Ctx, depth: nat, sc: Scope, k: int, st: SerState)
    requires
        0 <= k <= cs.len(),
    ensures
        k == cs.len() ==> ser_collapsed(cs, cx, depth, sc, k, st) == Some(st),
        k < cs.len() && cs[k].kind == NodeKind::Element ==> ser_collapsed(cs, cx, depth, sc, k, st) == match ser_element(
            cs[k],
            cx,
            depth,
            false,
            sc,
            st,
        ) {
            None => None,
            Some(s2) => ser_collapsed(cs, cx, depth, sc, k + 1, s2),
        },
        k < cs.len() && cs[k].kind == NodeKind::Text ==> ser_collapsed(cs, cx, depth, sc, k, st) == ser_collapsed(
            cs,
            cx,
            depth,
            sc,
            k + 1,
            if trim(cs[k].text@).len() > 0 {
                emit(st, escape_xml_text_spec(cs[k].text@))
            } else {
                st
            },
        ),
        k < cs.len() && cs[k].kind == NodeKind::Comment ==> ser_collapsed(cs, cx, depth, sc, k, st) == ser_collapsed(
            cs,
            cx,
            depth,
            sc,
            k + 1,
            if cx.opts.strip_comments {
                st
            } else {
                emit(st, comment_spec(cs[k].text@))
            },
        ),
        k < cs.len() && (cs[k].kind == NodeKind::Root || cs[k].kind == NodeKind::ProcessingInstruction)
            ==> ser_collapsed(cs, cx, depth, sc, k, st) == ser_collapsed(cs, cx, depth, sc, k + 1, st),
{
    reveal(ser_element);
    reveal(element_body);
    reveal(children_out);
    reveal(ser_collapsed);
    reveal(ser_plain);
    reveal(ser_grouped);
}

pub(crate) proof fn lemma_plain_step(
    cs: Seq<XmlNode>,
    cx: Ctx,
    depth: nat,
    pid: bool,
    sc: Scope,
    k: int,
    st: SerState,
)
    requires
        0 <= k <= cs.len(),
    ensures
        k == cs.len() ==> ser_plain(cs, cx, depth, pid, sc, k, st) == Some(st),
        k < cs.len() && cs[k].kind == NodeKind::Element ==> ser_plain(cs, cx, depth, pid, sc, k, st) == match combine_outcome(
            cs,
            k,
            cx,
            sc,
        ) {
            None => None,
            Some(Some(pair)) => ser_plain(
                cs,
                cx,
                depth,
                pid,
                sc,
                k + 2,
                SerState {
                    out: st.out + synthetic_path_out(pair.0, pair.1, cx, depth + 1),
                    simplified: st.simplified,
                    combined: st.combined + 1,
                    defs_removed: st.defs_removed,
                },
            ),
            Some(None) => match ser_element(cs[k], cx, depth + 1, pid, sc, st) {
                None => None,
                Some(s2) => ser_plain(cs, cx, depth, pid, sc, k + 1, s2),
            },
        },
        k < cs.len() && cs[k].kind == NodeKind::Text ==> ser_plain(cs, cx, depth, pid, sc, k, st) == ser_plain(
            cs,
            cx,
            depth,
            pid,
            sc,
            k + 1,
            emit(st, text_out(cs[k].text@, cx.opts.no_line_breaks, cx.opts.indent, cx.opts.nindent as nat, depth + 1)),
        ),
        k < cs.len() && cs[k].kind == NodeKind::Comment ==> ser_plain(cs, cx, depth, pid, sc, k, st) == ser_plain(
            cs,
            cx,
            depth,
            pid,
            sc,
            k + 1,
            if cx.opts.strip_comments {
                st
            } else {
                emit(st, ind(cx.opts, depth + 1) + comment_spec(cs[k].text@) + nl(cx.opts))
            },
        ),
        k < cs.len() && cs[k].kind == NodeKind::ProcessingInstruction ==> ser_plain(cs, cx, depth, pid, sc, k, st)
            == ser_plain(cs, cx, depth, pid, sc, k + 1, emit(st, ind(cx.opts, depth + 1) + pi_spec(cs[k]) + nl(cx.opts))),
        k < cs.len() && cs[k].kind == NodeKind::Root ==> ser_plain(cs, cx, depth, pid, sc, k, st) == ser_plain(
            cs,
            cx,
            depth,
            pid,
            sc,
            k + 1,
            st,
        ),
{
    reveal(ser_element);
    reveal(element_body);
    reveal(children_out);
    reveal(ser_collapsed);
    reveal(ser_plain);
    reveal(ser_grouped);
}

pub(crate) proof fn lemma_grouped_step(
    cs: Seq<XmlNode>,
    cx: Ctx,
    depth: nat,
    pid: bool,
    sc: Scope,
    k: int,
    frags: Seq<FragView>,
    st: SerState,
)
    requires
        0 <= k <= cs.len(),
    ensures
        k == cs.len() ==> ser_grouped(cs, cx, depth, pid, sc, k, frags, st) == Some(flush(frags, cx, depth, st)),
        k < cs.len() && cs[k].kind == NodeKind::Element ==> ser_grouped(cs, cx, depth, pid, sc, k, frags, st)
            == match all_attrs_spec(cs[k], cx, scope_of(cs[k], sc)) {
            None => None,
            Some(all) => match ser_element(
                cs[k],
                cx,
                depth + 1,
                pid,
                sc,
                SerState { out: seq![], simplified: st.simplified, combined: st.combined, defs_removed: st.defs_removed },
            ) {
                None => None,
                Some(s2) => ser_grouped(cs, cx, depth, pid, sc, k + 1, frags.push(fragment(cs[k], s2.out, all, cx)), counters(st, s2)),
            },
        },
        k < cs.len() && cs[k].kind == NodeKind::Text ==> ser_grouped(cs, cx, depth, pid, sc, k, frags, st) == ser_grouped(
            cs,
            cx,
            depth,
            pid,
            sc,
            k + 1,
            seq![],
            emit(
                flush(frags, cx, depth, st),
                text_out(cs[k].text@, cx.opts.no_line_breaks, cx.opts.indent, cx.opts.nindent as nat, depth + 1),
            ),
        ),
        k < cs.len() && cs[k].kind == NodeKind::Comment && cx.opts.strip_comments ==> ser_grouped(cs, cx, depth, pid, sc, k, frags, st)
            == ser_grouped(cs, cx, depth, pid, sc, k + 1, frags, st),
        k < cs.len() && cs[k].kind == NodeKind::Comment && !cx.opts.strip_comments ==> ser_grouped(cs, cx, depth, pid, sc, k, frags, st)
            == ser_grouped(
            cs,
            cx,
            depth,
            pid,
            sc,
            k + 1,
            seq![],
            emit(flush(frags, cx, depth, st), ind(cx.opts, depth + 1) + comment_spec(cs[k].text@) + nl(cx.opts)),
        ),
        k < cs.len() && (cs[k].kind == NodeKind::Root || cs[k].kind == NodeKind::ProcessingInstruction)
            ==> ser_grouped(cs, cx, depth, pid, sc, k, frags, st) == ser_grouped(cs, cx, depth, pid, sc, k + 1, frags, st),
{
    reveal(ser_element);
    reveal(element_body);
    reveal(children_out);
    reveal(ser_collapsed);
    reveal(ser_plain);
    reveal(ser_grouped);
}

pub(crate) proof fn lemma_element_unfold(n: XmlNode, cx: Ctx, depth: nat, pid: bool, pscope: Scope, st: SerState)
    ensures
        ser_element(n, cx, depth, pid, pscope, st) == (if !emits(n, cx.opts) || is_dup_gradient(n, cx.dups) {
            Some(st)
        } else if n.name@ == "defs"@ && !cx.opts.keep_unreferenced_defs && !has_defs_content(n.children@, cx) {
            Some(SerState { out: st.out, simplified: st.simplified, combined: st.combined, defs_removed: st.defs_removed + 1 })
        } else if cx.opts.group_collapsing && n.name@ == "g"@ {
            match collapse_outcome(n, cx.opts, pid) {
                None => None,
                Some(true) => ser_collapsed(n.children@, cx, depth, scope_of(n, pscope), 0, st),
                Some(false) => element_body(n, cx, depth, pscope, st),
            }
        } else {
            element_body(n, cx, depth, pscope, st)
        }),
{
    reveal(ser_element);
    reveal(element_body);
    reveal(children_out);
    reveal(ser_collapsed);
    reveal(ser_plain);
    reveal(ser_grouped);
}

pub(crate) proof fn lemma_body_unfold(n: XmlNode, cx: Ctx, depth: nat, pscope: Scope, st: SerState)
    ensures
        element_body(n, cx, depth, pscope, st) == ({
            let o = cx.opts;
            let scope = scope_of(n, pscope);
            let style = attribute(n, "style"@);
            if !style_ok(style, o.simplify_colors) {
                None
            } else {
                let ps = process_style_spec(style, o.simplify_colors, o.style_to_xml, cx.cvs);
                match gather_spec(n.attrs@, n.name@, scope, cx, o.simplify_paths) {
                    None => None,
                    Some(g) => {
                        let st1 = SerState {
                            out: st.out + head_out(n, cx, depth, scope, g.0, ps),
                            simplified: st.simplified + g.1,
                            combined: st.combined,
                            defs_removed: st.defs_removed,
                        };
                        if !has_visible(n.children@, cx) {
                            Some(emit(st1, seq!['/', '>'] + nl(o)))
                        } else {
                            match children_out(n, cx, depth, scope, emit(st1, seq!['>'] + nl(o))) {
                                None => None,
                                Some(st3) => Some(emit(st3, close_out(n, cx, depth, scope))),
                            }
                        }
                    },
                }
            }
        }),
{
    reveal(ser_element);
    reveal(element_body);
    reveal(children_out);
    reveal(ser_collapsed);
    reveal(ser_plain);
    reveal(ser_grouped);
}

pub(crate) proof fn lemma_children_unfold(n: XmlNode, cx: Ctx, depth: nat, scope: Scope, st: SerState)
    ensures
        children_out(n, cx, depth, scope, st) == (if n.name@ == "style"@ {
            style_element_out(n.children@, cx, depth, st)
        } else if cx.opts.create_groups {
            ser_grouped(n.children@, cx, depth, n.name@ == "defs"@, scope, 0, seq![], st)
        } else {
            ser_plain(n.children@, cx, depth, n.name@ == "defs"@, scope, 0, st)
        }),
{
    reveal(ser_element);
    reveal(element_body);
    reveal(children_out);
    reveal(ser_collapsed);
    reveal(ser_plain);
    reveal(ser_grouped);
}

// ─── Laws of serialization ────────────────────────────────────────────────────

/// A value that still holds a substitution placeholder once its ID
/// references are renamed is written as it is: no color simplification and
/// no numeric optimization touches it.
pub proof fn lemma_placeholder_values_kept(a: XmlAttr, element: Seq<char>, cx: Ctx)
    requires
        has_placeholder(remap_id_spec(a.value@, cx.m), cx.cvs),
    ensures
        optimized_value(a, element, cx) == Some(remap_id_spec(a.value@, cx.m)),
{
}

/// Editor data, removed descriptive elements and deduplicated gradients
/// write nothing and change no counter; an empty `<defs>` writes nothing and
/// is counted.
pub proof fn lemma_dropped_elements(n: XmlNode, cx: Ctx, depth: nat, pid: bool, pscope: Scope, st: SerState)
    ensures
        !emits(n, cx.opts) || is_dup_gradient(n, cx.dups) ==> ser_element(n, cx, depth, pid, pscope, st) == Some(st),
        emits(n, cx.opts) && !is_dup_gradient(n, cx.dups) && n.name@ == "defs"@ && !cx.opts.keep_unreferenced_defs
            && !has_defs_content(n.children@, cx) ==> ser_element(n, cx, depth, pid, pscope, st) == Some(
            SerState { out: st.out, simplified: st.simplified, combined: st.combined, defs_removed: st.defs_removed + 1 },
        ),
{
    lemma_element_unfold(n, cx, depth, pid, pscope, st);
}

/// Every attribute written on an element holds a substitution placeholder
/// or is not its property's default, except the `100%` width and height and
/// the `viewBox` that viewboxing writes; and the attributes come sorted by
/// name, with that `viewBox` last.
pub proof fn lemma_written_attrs(
    n: XmlNode,
    cx: Ctx,
    gathered: Seq<(Seq<char>, Seq<char>)>,
    style_xml: Seq<(Seq<char>, Seq<char>)>,
)
    ensures
        ({
            let fa = final_attrs(n, cx, gathered, style_xml);
            forall|i: int|
                0 <= i < fa.len() ==> keep_decl(#[trigger] fa[i], cx.cvs) || fa[i].0 == "viewBox"@ || fa[i].1
                    == "100%"@
        }),
        ({
            let fa = final_attrs(n, cx, gathered, style_xml);
            let sorted_len = if viewbox_spec(
                cx.opts.enable_viewboxing,
                n.name@,
                attribute(n, "viewBox"@) is Some,
                attribute(n, "width"@),
                attribute(n, "height"@),
                cx.cvs,
            ) is Some {
                fa.len() - 1
            } else {
                fa.len() as int
            };
            forall|i: int, j: int|
                0 <= i < j < sorted_len ==> !crate::css::seq_lt((#[trigger] fa[j]).0, (#[trigger] fa[i]).0)
        }),
{
    let kept = merged(gathered, style_xml).filter(|p: (Seq<char>, Seq<char>)| keep_decl(p, cx.cvs));
    let sorted = sort_by_prop(kept);
    crate::css::lemma_sort_by_prop(kept);
    assert forall|i: int| 0 <= i < sorted.len() implies keep_decl(#[trigger] sorted[i], cx.cvs) by {
        assert(sorted.contains(sorted[i]));
        assert(kept.contains(sorted[i]));
        let k = choose|k: int| 0 <= k < kept.len() && kept[k] == sorted[i];
        merged(gathered, style_xml).lemma_filter_pred(|p: (Seq<char>, Seq<char>)| keep_decl(p, cx.cvs), k);
    }
}


/// A `<g>` is replaced by its children only when nothing on it would be
/// lost: it has no `id`, `class` or `transform`, it is no child of
/// `<defs>`, every attribute it has without a namespace is its `style`, and
/// every declaration of that style is the property's default value.
pub proof fn lemma_collapse_loses_nothing(n: XmlNode, o: ScourOptions, parent_is_defs: bool)
    requires
        collapse_outcome(n, o, parent_is_defs) == Some(true),
    ensures
        attribute(n, "id"@) is None,
        attribute(n, "class"@) is None,
        attribute(n, "transform"@) is None,
        !parent_is_defs,
        forall|k: int|
            0 <= k < n.attrs@.len() && (#[trigger] n.attrs@[k]).namespace@.len() == 0 ==> n.attrs@[k].name@
                == "style"@ || n.attrs@[k].name@ == "id"@ || n.attrs@[k].name@ == "class"@,
        forall|s: Seq<char>|
            attribute(n, "style"@) == Some(s) ==> (parse_style_outcome(s) matches Some(ds) && forall|i: int|
                0 <= i < ds.len() ==> default_value((#[trigger] ds[i]).0, ds[i].1)),
{
    assert forall|k: int|
        0 <= k < n.attrs@.len() && (#[trigger] n.attrs@[k]).namespace@.len() == 0 implies n.attrs@[k].name@
            == "style"@ || n.attrs@[k].name@ == "id"@ || n.attrs@[k].name@ == "class"@ by {
        assert(!meaningful_attr(n.attrs@[k], o));
    }
}


/// A `<g>` whose removal would lose nothing is replaced by its children: no
/// `id`, `class` or `transform`, no child of `<defs>`, a style (if any) of
/// default values only, and every other attribute either namespaced editor
/// data that is not kept or in a namespace when editor data is kept.
pub proof fn lemma_collapse_when_nothing_lost(n: XmlNode, o: ScourOptions, parent_is_defs: bool)
    requires
        attribute(n, "id"@) is None,
        attribute(n, "class"@) is None,
        attribute(n, "transform"@) is None,
        !parent_is_defs,
        forall|s: Seq<char>|
            attribute(n, "style"@) == Some(s) ==> (parse_style_outcome(s) matches Some(ds) && forall|i: int|
                0 <= i < ds.len() ==> default_value((#[trigger] ds[i]).0, ds[i].1)),
        forall|k: int|
            0 <= k < n.attrs@.len() ==> {
                let a = #[trigger] n.attrs@[k];
                ||| a.name@ == "id"@
                ||| a.name@ == "style"@
                ||| a.name@ == "class"@
                ||| (a.namespace@.len() > 0 && (o.keep_editor_data || is_editor_namespace(a.namespace@)))
            },
    ensures
        collapse_outcome(n, o, parent_is_defs) == Some(true),
{
    match attribute(n, "style"@) {
        Some(s) => {
            assert(parse_style_outcome(s) is Some);
        },
        None => {},
    }
    assert(!has_meaningful(n.attrs@, o));
}

} // verus!
