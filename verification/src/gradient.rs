//! Gradient deduplication for `<defs>`.
//!
//! Gradient and pattern definitions are reduced to canonical keys; a
//! definition whose key equals an earlier one is renamed to it.  A gradient
//! whose key contains a placeholder of a substitution variable is always
//! treated as unique: its runtime values may differ.
use vstd::prelude::*;
use crate::css::{
    decls_view, lemma_sort_by_prop_determined, lemma_sort_by_prop_stable, lemma_with_key_append,
    lemma_with_key_none, sort_by_prop, sort_decls, with_key,
};
use crate::subst::{caps_view, has_placeholder, value_has_subst, CapView, CapturedVar};
use crate::text::{
    chars_of, eq_vec, first_index, first_index_of, in_names, names_contain, lowercase_vec,
    slice_vec, spec_to_lowercase, split_char, split_vec, string_of, trim, trim_vec,
};

verus! {

// ─── Public types ─────────────────────────────────────────────────────────────

#[derive(Debug, Clone, PartialEq, Eq, Hash)]
pub struct GradientKey {
    pub tag: String,
    /// Sorted (name, value) pairs for the defining attributes (not id/href)
    pub attrs: Vec<(String, String)>,
    /// Sorted child stop descriptors
    pub stops: Vec<StopKey>,
}

#[derive(Debug, Clone, PartialEq, Eq, Hash)]
pub struct StopKey {
    pub offset: String,
    pub color: String,
    pub opacity: String,
}

#[derive(Debug, Clone)]
pub struct GradientDef {
    pub id: String,
    pub key: GradientKey,
    pub inherits: Option<String>,
    /// The element's attributes other than `id`, as written.
    pub attrs: Vec<(String, String)>,
}

pub struct StopView {
    pub offset: Seq<char>,
    pub color: Seq<char>,
    pub opacity: Seq<char>,
}

pub struct KeyView {
    pub tag: Seq<char>,
    pub attrs: Seq<(Seq<char>, Seq<char>)>,
    pub stops: Seq<StopView>,
}

pub struct DefView {
    pub id: Seq<char>,
    pub key: KeyView,
    pub inherits: Option<Seq<char>>,
    pub attrs: Seq<(Seq<char>, Seq<char>)>,
}

impl View for StopKey {
    type V = StopView;

    open spec fn view(&self) -> StopView {
        StopView { offset: self.offset@, color: self.color@, opacity: self.opacity@ }
    }
}

pub open spec fn stops_view(s: Seq<StopKey>) -> Seq<StopView> {
    s.map_values(|x: StopKey| x@)
}

impl View for GradientKey {
    type V = KeyView;

    open spec fn view(&self) -> KeyView {
        KeyView { tag: self.tag@, attrs: decls_view(self.attrs@), stops: stops_view(self.stops@) }
    }
}

pub open spec fn opt_string_view(o: Option<String>) -> Option<Seq<char>> {
    match o {
        Some(s) => Some(s@),
        None => None,
    }
}

impl View for GradientDef {
    type V = DefView;

    open spec fn view(&self) -> DefView {
        DefView {
            id: self.id@,
            key: self.key@,
            inherits: opt_string_view(self.inherits),
            attrs: decls_view(self.attrs@),
        }
    }
}

pub open spec fn defs_view(d: Seq<GradientDef>) -> Seq<DefView> {
    d.map_values(|x: GradientDef| x@)
}

fn clone_stop(s: &StopKey) -> (r: StopKey)
    ensures
        r@ == s@,
{
    StopKey { offset: s.offset.clone(), color: s.color.clone(), opacity: s.opacity.clone() }
}

fn clone_stops(s: &Vec<StopKey>) -> (r: Vec<StopKey>)
    ensures
        stops_view(r@) == stops_view(s@),
{
    let mut r: Vec<StopKey> = Vec::new();
    let mut i: usize = 0;
    while i < s.len()
        invariant
            i <= s.len(),
            stops_view(r@) == stops_view(s@).take(i as int),
        decreases s.len() - i,
    {
        let ghost r0 = r@;
        r.push(clone_stop(&s[i]));
        assert(stops_view(r@) =~= stops_view(r0).push(s@[i as int]@));
        assert(stops_view(s@).take(i + 1) =~= stops_view(s@).take(i as int).push(s@[i as int]@));
        i += 1;
    }
    assert(stops_view(s@).take(i as int) =~= stops_view(s@));
    r
}

fn clone_decls(s: &Vec<(String, String)>) -> (r: Vec<(String, String)>)
    ensures
        decls_view(r@) == decls_view(s@),
{
    let mut r: Vec<(String, String)> = Vec::new();
    let mut i: usize = 0;
    while i < s.len()
        invariant
            i <= s.len(),
            decls_view(r@) == decls_view(s@).take(i as int),
        decreases s.len() - i,
    {
        let ghost r0 = r@;
        r.push((s[i].0.clone(), s[i].1.clone()));
        assert(decls_view(r@) =~= decls_view(r0).push((s@[i as int].0@, s@[i as int].1@)));
        assert(decls_view(s@).take(i + 1) =~= decls_view(s@).take(i as int).push(
            (s@[i as int].0@, s@[i as int].1@),
        ));
        i += 1;
    }
    assert(decls_view(s@).take(i as int) =~= decls_view(s@));
    r
}

fn clone_opt(o: &Option<String>) -> (r: Option<String>)
    ensures
        opt_string_view(r) == opt_string_view(*o),
{
    match o {
        Some(s) => Some(s.clone()),
        None => None,
    }
}

// ─── Key construction ─────────────────────────────────────────────────────────

pub open spec fn gradient_define_attrs_0() -> Seq<&'static str> {
    seq!["cx", "cy", "r", "fx", "fy", "fr", "x1", "y1", "x2", "y2", "gradientUnits", "gradientTransform", "spreadMethod", "patternUnits", "patternTransform", "patternContentUnits", "x", "y", "width", "height", "viewBox", "preserveAspectRatio"]
}

fn push_gradient_define_attrs_0(m: &mut Vec<&'static str>)
    ensures
        final(m)@ == old(m)@ + gradient_define_attrs_0(),
{
    m.push("cx");
    m.push("cy");
    m.push("r");
    m.push("fx");
    m.push("fy");
    m.push("fr");
    m.push("x1");
    m.push("y1");
    m.push("x2");
    m.push("y2");
    m.push("gradientUnits");
    m.push("gradientTransform");
    m.push("spreadMethod");
    m.push("patternUnits");
    m.push("patternTransform");
    m.push("patternContentUnits");
    m.push("x");
    m.push("y");
    m.push("width");
    m.push("height");
    m.push("viewBox");
    m.push("preserveAspectRatio");
    assert(m@ =~= old(m)@ + gradient_define_attrs_0());
}

/// Attributes that define the visual appearance of a gradient/pattern.
pub open spec fn gradient_define_attrs() -> Seq<&'static str> {
    gradient_define_attrs_0()
}

fn gradient_define_attrs_vec() -> (m: Vec<&'static str>)
    ensures
        m@ == gradient_define_attrs(),
{
    let mut m: Vec<&'static str> = Vec::new();
    push_gradient_define_attrs_0(&mut m);
    assert(m@ =~= gradient_define_attrs());
    m
}

pub open spec fn is_define_decl(p: (Seq<char>, Seq<char>)) -> bool {
    names_contain(gradient_define_attrs(), p.0)
}

/// The key of a gradient: its tag, its defining attributes sorted by name,
/// and its stops.
pub open spec fn gradient_key_spec(
    tag: Seq<char>,
    raw: Seq<(Seq<char>, Seq<char>)>,
    stops: Seq<StopView>,
) -> KeyView {
    KeyView {
        tag,
        attrs: sort_by_prop(raw.filter(|p: (Seq<char>, Seq<char>)| is_define_decl(p))),
        stops,
    }
}

pub fn make_gradient_key(tag: &str, raw_attrs: &[(String, String)], stops: Vec<StopKey>) -> (r:
    GradientKey)
    ensures
        r@ == gradient_key_spec(tag@, decls_view(raw_attrs@), stops_view(stops@)),
{
    let ghost rv = decls_view(raw_attrs@);
    let names = gradient_define_attrs_vec();
    let mut attrs: Vec<(String, String)> = Vec::new();
    let mut i: usize = 0;
    while i < raw_attrs.len()
        invariant
            i <= raw_attrs.len(),
            rv == decls_view(raw_attrs@),
            names@ == gradient_define_attrs(),
            decls_view(attrs@) == rv.take(i as int).filter(
                |p: (Seq<char>, Seq<char>)| is_define_decl(p),
            ),
        decreases raw_attrs.len() - i,
    {
        let ghost a0 = attrs@;
        proof {
            assert(rv.take(i + 1) =~= rv.take(i as int).push(rv[i as int]));
            rv.take(i as int).lemma_filter_push(rv[i as int], |p: (Seq<char>, Seq<char>)| is_define_decl(p));
        }
        let k = chars_of(raw_attrs[i].0.as_str());
        if in_names(&names, &k) {
            attrs.push((raw_attrs[i].0.clone(), raw_attrs[i].1.clone()));
            assert(decls_view(attrs@) =~= decls_view(a0).push(rv[i as int]));
        }
        i += 1;
    }
    assert(rv.take(i as int) =~= rv);
    let sorted = sort_decls(&attrs);
    let mut t: Vec<char> = chars_of(tag);
    GradientKey { tag: string_of(&t), attrs: sorted, stops }
}

/// The value of the first attribute named `name`, or empty.
pub open spec fn attr_get(raw: Seq<(Seq<char>, Seq<char>)>, name: Seq<char>) -> Seq<char>
    decreases raw.len(),
{
    if raw.len() == 0 {
        seq![]
    } else if raw[0].0 == name {
        raw[0].1
    } else {
        attr_get(raw.drop_first(), name)
    }
}

fn attr_get_exec(raw: &[(String, String)], name: &str) -> (r: String)
    ensures
        r@ == attr_get(decls_view(raw@), name@),
{
    let ghost rv = decls_view(raw@);
    let nm = chars_of(name);
    let mut i: usize = 0;
    assert(rv.skip(0) =~= rv);
    while i < raw.len()
        invariant
            i <= raw.len(),
            rv == decls_view(raw@),
            nm@ == name@,
            attr_get(rv, name@) == attr_get(rv.skip(i as int), name@),
        decreases raw.len() - i,
    {
        assert(rv.skip(i as int)[0] == rv[i as int]);
        let k = chars_of(raw[i].0.as_str());
        if eq_vec(&k, &nm) {
            return raw[i].1.clone();
        }
        assert(rv.skip(i as int).drop_first() =~= rv.skip(i + 1));
        i += 1;
    }
    assert(rv.skip(i as int) =~= Seq::<(Seq<char>, Seq<char>)>::empty());
    String::new()
}

/// One `key:value` declaration of an inline style, `None` when it is skipped.
pub open spec fn inline_decl(part: Seq<char>) -> Option<(Seq<char>, Seq<char>)> {
    let c = first_index(part, ':');
    if c >= part.len() {
        None
    } else {
        let k = spec_to_lowercase(trim(part.take(c)));
        if k.len() == 0 {
            None
        } else {
            Some((k, trim(part.skip(c + 1))))
        }
    }
}

pub open spec fn inline_decls(parts: Seq<Seq<char>>) -> Seq<(Seq<char>, Seq<char>)>
    decreases parts.len(),
{
    if parts.len() == 0 {
        seq![]
    } else {
        match inline_decl(parts.last()) {
            Some(d) => inline_decls(parts.drop_last()).push(d),
            None => inline_decls(parts.drop_last()),
        }
    }
}

/// The declarations of an inline style, in order.
pub open spec fn inline_style(style: Seq<char>) -> Seq<(Seq<char>, Seq<char>)> {
    inline_decls(split_char(style, ';'))
}

/// The value of the last declaration of `name` (what a map collected from the
/// declarations holds).
pub open spec fn last_value(m: Seq<(Seq<char>, Seq<char>)>, name: Seq<char>) -> Option<Seq<char>>
    decreases m.len(),
{
    if m.len() == 0 {
        None
    } else if m.last().0 == name {
        Some(m.last().1)
    } else {
        last_value(m.drop_last(), name)
    }
}

fn parse_inline_style(style: &Vec<char>) -> (r: Vec<(String, String)>)
    ensures
        decls_view(r@) == inline_style(style@),
{
    let parts = split_vec(style, ';');
    let ghost ps = parts@.map_values(|v: Vec<char>| v@);
    let mut out: Vec<(String, String)> = Vec::new();
    let mut i: usize = 0;
    while i < parts.len()
        invariant
            i <= parts.len(),
            ps == parts@.map_values(|v: Vec<char>| v@),
            ps == split_char(style@, ';'),
            decls_view(out@) == inline_decls(ps.take(i as int)),
        decreases parts.len() - i,
    {
        assert(ps.take(i + 1).drop_last() =~= ps.take(i as int));
        assert(ps.take(i + 1).last() == parts@[i as int]@);
        let part = &parts[i];
        let c = first_index_of(part, ':');
        if c < part.len() {
            let kpart = slice_vec(part, 0, c);
            assert(kpart@ =~= part@.take(c as int));
            let k = lowercase_vec(&trim_vec(&kpart));
            if k.len() > 0 {
                let vpart = slice_vec(part, c + 1, part.len());
                assert(vpart@ =~= part@.skip(c + 1));
                let v = trim_vec(&vpart);
                let ghost o0 = out@;
                out.push((string_of(&k), string_of(&v)));
                assert(decls_view(out@) =~= decls_view(o0).push((k@, v@)));
            }
        }
        i += 1;
    }
    assert(ps.take(i as int) =~= ps);
    out
}

fn last_value_exec(m: &Vec<(String, String)>, name: &str) -> (r: Option<String>)
    ensures
        opt_string_view(r) == last_value(decls_view(m@), name@),
{
    let ghost mv = decls_view(m@);
    let nm = chars_of(name);
    let mut i = m.len();
    assert(mv.take(i as int) =~= mv);
    while i > 0
        invariant
            i <= m.len(),
            mv == decls_view(m@),
            nm@ == name@,
            last_value(mv, name@) == last_value(mv.take(i as int), name@),
        decreases i,
    {
        assert(mv.take(i as int).last() == mv[i - 1]);
        assert(mv.take(i as int).drop_last() =~= mv.take(i - 1));
        let k = chars_of(m[i - 1].0.as_str());
        if eq_vec(&k, &nm) {
            return Some(m[i - 1].1.clone());
        }
        i -= 1;
    }
    None
}

/// The key of a `<stop>`: its offset, and its color and opacity taken from the
/// inline style when it sets them, else from the attributes.
pub open spec fn stop_key_spec(raw: Seq<(Seq<char>, Seq<char>)>) -> StopView {
    let style_map = inline_style(attr_get(raw, "style"@));
    StopView {
        offset: attr_get(raw, "offset"@),
        color: match last_value(style_map, "stop-color"@) {
            Some(c) => c,
            None => attr_get(raw, "stop-color"@),
        },
        opacity: match last_value(style_map, "stop-opacity"@) {
            Some(o) => o,
            None => attr_get(raw, "stop-opacity"@),
        },
    }
}

pub fn make_stop_key(raw_attrs: &[(String, String)]) -> (r: StopKey)
    ensures
        r@ == stop_key_spec(decls_view(raw_attrs@)),
{
    let style = attr_get_exec(raw_attrs, "style");
    let style_map = parse_inline_style(&chars_of(style.as_str()));
    let color = match last_value_exec(&style_map, "stop-color") {
        Some(c) => c,
        None => attr_get_exec(raw_attrs, "stop-color"),
    };
    let opacity = match last_value_exec(&style_map, "stop-opacity") {
        Some(o) => o,
        None => attr_get_exec(raw_attrs, "stop-opacity"),
    };
    StopKey { offset: attr_get_exec(raw_attrs, "offset"), color, opacity }
}


// ─── Inheritance resolution ───────────────────────────────────────────────────

/// Index of the last definition with ID `id` (the one a map collected from the
/// list keeps).
pub open spec fn last_def_index(defs: Seq<DefView>, id: Seq<char>) -> Option<int>
    decreases defs.len(),
{
    if defs.len() == 0 {
        None
    } else if defs.last().id == id {
        Some(defs.len() - 1)
    } else {
        last_def_index(defs.drop_last(), id)
    }
}

proof fn lemma_last_def_index(defs: Seq<DefView>, id: Seq<char>)
    ensures
        last_def_index(defs, id) matches Some(i) ==> 0 <= i < defs.len() && defs[i].id == id,
    decreases defs.len(),
{
    if defs.len() > 0 && defs.last().id != id {
        lemma_last_def_index(defs.drop_last(), id);
    }
}

/// The stops a definition inherits through `href` chains, at most 16 links
/// deep.
pub open spec fn resolve_stops_spec(defs: Seq<DefView>, id: Seq<char>, depth: nat) -> Seq<
    StopView,
>
    decreases 17 - depth,
{
    if depth > 16 {
        seq![]
    } else {
        match last_def_index(defs, id) {
            None => seq![],
            Some(i) => {
                let d = defs[i];
                if d.key.stops.len() > 0 {
                    d.key.stops
                } else {
                    match d.inherits {
                        Some(pid) => resolve_stops_spec(defs, pid, depth + 1),
                        None => seq![],
                    }
                }
            },
        }
    }
}

/// A definition with its inherited stops filled in, when it has none of its own.
pub open spec fn resolve_def(defs: Seq<DefView>, d: DefView) -> DefView {
    if d.inherits is None || d.key.stops.len() > 0 {
        d
    } else {
        DefView { key: KeyView { stops: resolve_stops_spec(defs, d.id, 0), ..d.key }, ..d }
    }
}

pub open spec fn resolved_defs(defs: Seq<DefView>) -> Seq<DefView> {
    defs.map_values(|d: DefView| resolve_def(defs, d))
}

fn last_def(defs: &[GradientDef], id: &Vec<char>) -> (r: Option<usize>)
    ensures
        match r {
            Some(i) => last_def_index(defs_view(defs@), id@) == Some(i as int),
            None => last_def_index(defs_view(defs@), id@) is None,
        },
{
    let ghost dv = defs_view(defs@);
    let mut i = defs.len();
    assert(dv.take(i as int) =~= dv);
    while i > 0
        invariant
            i <= defs.len(),
            dv == defs_view(defs@),
            last_def_index(dv, id@) == last_def_index(dv.take(i as int), id@),
        decreases i,
    {
        assert(dv.take(i as int).last() == dv[i - 1]);
        assert(dv.take(i as int).drop_last() =~= dv.take(i - 1));
        let d = chars_of(defs[i - 1].id.as_str());
        if eq_vec(&d, id) {
            return Some(i - 1);
        }
        i -= 1;
    }
    None
}

fn resolve_stops(id: &Vec<char>, defs: &[GradientDef], depth: usize) -> (r: Vec<StopKey>)
    requires
        depth <= 17,
    ensures
        stops_view(r@) == resolve_stops_spec(defs_view(defs@), id@, depth as nat),
    decreases 17 - depth,
{
    if depth > 16 {
        return Vec::new();
    }
    proof {
        lemma_last_def_index(defs_view(defs@), id@);
    }
    match last_def(defs, id) {
        None => Vec::new(),
        Some(i) => {
            let d = &defs[i];
            assert(defs_view(defs@)[i as int] == d@);
            if d.key.stops.len() > 0 {
                clone_stops(&d.key.stops)
            } else {
                match &d.inherits {
                    Some(pid) => resolve_stops(&chars_of(pid.as_str()), defs, depth + 1),
                    None => Vec::new(),
                }
            }
        },
    }
}

fn resolve_inheritance(defs: &[GradientDef]) -> (r: Vec<GradientDef>)
    ensures
        defs_view(r@) == resolved_defs(defs_view(defs@)),
{
    let ghost dv = defs_view(defs@);
    let mut out: Vec<GradientDef> = Vec::new();
    let mut i: usize = 0;
    while i < defs.len()
        invariant
            i <= defs.len(),
            dv == defs_view(defs@),
            defs_view(out@) == resolved_defs(dv).take(i as int),
        decreases defs.len() - i,
    {
        let def = &defs[i];
        assert(dv[i as int] == def@);
        let stops = if def.inherits.is_none() || def.key.stops.len() > 0 {
            clone_stops(&def.key.stops)
        } else {
            resolve_stops(&chars_of(def.id.as_str()), defs, 0)
        };
        let nd = GradientDef {
            id: def.id.clone(),
            key: GradientKey {
                tag: def.key.tag.clone(),
                attrs: clone_decls(&def.key.attrs),
                stops,
            },
            inherits: clone_opt(&def.inherits),
            attrs: clone_decls(&def.attrs),
        };
        let ghost o0 = out@;
        out.push(nd);
        proof {
            assert(nd@ == resolve_def(dv, dv[i as int]));
            assert(defs_view(out@) =~= defs_view(o0).push(nd@));
            assert(resolved_defs(dv).take(i + 1) =~= resolved_defs(dv).take(i as int).push(
                resolve_def(dv, dv[i as int]),
            ));
        }
        i += 1;
    }
    assert(resolved_defs(dv).take(i as int) =~= resolved_defs(dv));
    out
}

// ─── Placeholders ─────────────────────────────────────────────────────────────

pub open spec fn stop_has_ph(s: StopView, cvs: Seq<CapView>) -> bool {
    has_placeholder(s.offset, cvs) || has_placeholder(s.color, cvs) || has_placeholder(
        s.opacity,
        cvs,
    )
}

/// Whether a key holds the placeholder of a captured variable in an attribute
/// value or a stop.
pub open spec fn key_has_ph(k: KeyView, cvs: Seq<CapView>) -> bool {
    &&& cvs.len() > 0
    &&& {
        ||| exists|i: int| 0 <= i < k.attrs.len() && has_placeholder(#[trigger] k.attrs[i].1, cvs)
        ||| exists|i: int| 0 <= i < k.stops.len() && stop_has_ph(#[trigger] k.stops[i], cvs)
    }
}

/// Whether a definition holds the placeholder of a captured variable: in its
/// key, or in any attribute value of its element. Such a definition is
/// always kept as it is.
pub open spec fn def_has_ph(d: DefView, cvs: Seq<CapView>) -> bool {
    ||| key_has_ph(d.key, cvs)
    ||| cvs.len() > 0 && exists|i: int| 0 <= i < d.attrs.len() && has_placeholder(#[trigger] d.attrs[i].1, cvs)
}

fn def_has_placeholder(def: &GradientDef, vars: &[CapturedVar]) -> (b: bool)
    ensures
        b == def_has_ph(def@, caps_view(vars@)),
{
    let ghost cvs = caps_view(vars@);
    if key_has_placeholder(&def.key, vars) {
        return true;
    }
    if vars.len() == 0 {
        return false;
    }
    let mut i: usize = 0;
    while i < def.attrs.len()
        invariant
            i <= def.attrs.len(),
            cvs == caps_view(vars@),
            forall|k: int| 0 <= k < i ==> !has_placeholder(#[trigger] def@.attrs[k].1, cvs),
        decreases def.attrs.len() - i,
    {
        assert(def@.attrs[i as int].1 == def.attrs@[i as int].1@);
        if value_has_subst(def.attrs[i].1.as_str(), vars) {
            return true;
        }
        i += 1;
    }
    false
}

fn key_has_placeholder(key: &GradientKey, vars: &[CapturedVar]) -> (b: bool)
    ensures
        b == key_has_ph(key@, caps_view(vars@)),
{
    let ghost cvs = caps_view(vars@);
    if vars.len() == 0 {
        return false;
    }
    let mut i: usize = 0;
    while i < key.attrs.len()
        invariant
            i <= key.attrs.len(),
            cvs == caps_view(vars@),
            forall|k: int| 0 <= k < i ==> !has_placeholder(#[trigger] key@.attrs[k].1, cvs),
        decreases key.attrs.len() - i,
    {
        assert(key@.attrs[i as int].1 == key.attrs@[i as int].1@);
        if value_has_subst(key.attrs[i].1.as_str(), vars) {
            return true;
        }
        i += 1;
    }
    let mut j: usize = 0;
    while j < key.stops.len()
        invariant
            j <= key.stops.len(),
            cvs == caps_view(vars@),
            forall|k: int| 0 <= k < key.attrs.len() ==> !has_placeholder(#[trigger] key@.attrs[k].1, cvs),
            forall|k: int| 0 <= k < j ==> !stop_has_ph(#[trigger] key@.stops[k], cvs),
        decreases key.stops.len() - j,
    {
        let s = &key.stops[j];
        assert(key@.stops[j as int] == s@);
        if value_has_subst(s.offset.as_str(), vars) || value_has_subst(s.color.as_str(), vars)
            || value_has_subst(s.opacity.as_str(), vars) {
            return true;
        }
        j += 1;
    }
    false
}

// ─── Deduplication ────────────────────────────────────────────────────────────

/// Canonical keys with their IDs, and the renames found so far.
pub struct DedupState {
    pub canonical: Seq<(KeyView, Seq<char>)>,
    pub renames: Seq<(Seq<char>, Seq<char>)>,
}

/// The ID registered for key `k`, if any.
pub open spec fn canon_lookup(c: Seq<(KeyView, Seq<char>)>, k: KeyView) -> Option<Seq<char>>
    decreases c.len(),
{
    if c.len() == 0 {
        None
    } else if c[0].0 == k {
        Some(c[0].1)
    } else {
        canon_lookup(c.drop_first(), k)
    }
}

/// Index of the pair with first component `k`, or the length.
pub open spec fn pair_index(m: Seq<(Seq<char>, Seq<char>)>, k: Seq<char>) -> int
    decreases m.len(),
{
    if m.len() == 0 {
        0
    } else if m[0].0 == k {
        0
    } else {
        1 + pair_index(m.drop_first(), k)
    }
}

/// `HashMap::insert` on a list of pairs.
pub open spec fn pair_insert(m: Seq<(Seq<char>, Seq<char>)>, k: Seq<char>, v: Seq<char>) -> Seq<
    (Seq<char>, Seq<char>),
> {
    let j = pair_index(m, k);
    if j < m.len() {
        m.update(j, (k, v))
    } else {
        m.push((k, v))
    }
}

pub open spec fn dedup_step(st: DedupState, d: DefView, cvs: Seq<CapView>) -> DedupState {
    if def_has_ph(d, cvs) {
        st
    } else {
        match canon_lookup(st.canonical, d.key) {
            Some(e) => DedupState { renames: pair_insert(st.renames, d.id, e), ..st },
            None => DedupState { canonical: st.canonical.push((d.key, d.id)), ..st },
        }
    }
}

/// The deduplication state after the (resolved) definitions, in order.
pub open spec fn dedup(defs: Seq<DefView>, cvs: Seq<CapView>) -> DedupState
    decreases defs.len(),
{
    if defs.len() == 0 {
        DedupState { canonical: seq![], renames: seq![] }
    } else {
        dedup_step(dedup(defs.drop_last(), cvs), defs.last(), cvs)
    }
}

fn seq_eq_string(a: &String, b: &String) -> (r: bool)
    ensures
        r == (a@ == b@),
{
    eq_vec(&chars_of(a.as_str()), &chars_of(b.as_str()))
}

fn key_eq(a: &GradientKey, b: &GradientKey) -> (r: bool)
    ensures
        r == (a@ == b@),
{
    if !seq_eq_string(&a.tag, &b.tag) || a.attrs.len() != b.attrs.len() || a.stops.len()
        != b.stops.len() {
        proof {
            if a@ == b@ {
                assert(a@.attrs.len() == b@.attrs.len());
                assert(a@.stops.len() == b@.stops.len());
            }
        }
        return false;
    }
    let mut i: usize = 0;
    while i < a.attrs.len()
        invariant
            i <= a.attrs.len() == b.attrs.len(),
            forall|k: int| 0 <= k < i ==> a@.attrs[k] == b@.attrs[k],
        decreases a.attrs.len() - i,
    {
        if !seq_eq_string(&a.attrs[i].0, &b.attrs[i].0) || !seq_eq_string(&a.attrs[i].1, &b.attrs[i].1) {
            proof {
                if a@ == b@ {
                    assert(a@.attrs[i as int] == b@.attrs[i as int]);
                }
            }
            return false;
        }
        assert(a@.attrs[i as int] == b@.attrs[i as int]);
        i += 1;
    }
    let mut j: usize = 0;
    while j < a.stops.len()
        invariant
            j <= a.stops.len() == b.stops.len(),
            forall|k: int| 0 <= k < j ==> a@.stops[k] == b@.stops[k],
        decreases a.stops.len() - j,
    {
        if !seq_eq_string(&a.stops[j].offset, &b.stops[j].offset) || !seq_eq_string(
            &a.stops[j].color,
            &b.stops[j].color,
        ) || !seq_eq_string(&a.stops[j].opacity, &b.stops[j].opacity) {
            proof {
                if a@ == b@ {
                    assert(a@.stops[j as int] == b@.stops[j as int]);
                }
            }
            return false;
        }
        assert(a@.stops[j as int] == b@.stops[j as int]);
        j += 1;
    }
    assert(a@.attrs =~= b@.attrs);
    assert(a@.stops =~= b@.stops);
    true
}

fn pair_position(m: &Vec<(String, String)>, k: &String) -> (j: usize)
    ensures
        j as int == pair_index(decls_view(m@), k@),
        j <= m.len(),
{
    let ghost mv = decls_view(m@);
    let mut j: usize = 0;
    assert(mv.skip(0) =~= mv);
    while j < m.len()
        invariant
            j <= m.len(),
            mv == decls_view(m@),
            j + pair_index(mv.skip(j as int), k@) == pair_index(mv, k@),
        decreases m.len() - j,
    {
        assert(mv.skip(j as int)[0] == mv[j as int]);
        if seq_eq_string(&m[j].0, k) {
            return j;
        }
        assert(mv.skip(j as int).drop_first() =~= mv.skip(j + 1));
        j += 1;
    }
    j
}

pub open spec fn canon_view(c: Seq<(usize, String)>, defs: Seq<DefView>) -> Seq<(KeyView, Seq<char>)> {
    c.map_values(|e: (usize, String)| (defs[e.0 as int].key, e.1@))
}

/// Index into `canonical` of the entry whose key equals `key`.
fn canon_find(canonical: &Vec<(usize, String)>, defs: &Vec<GradientDef>, key: &GradientKey) -> (r:
    Option<usize>)
    requires
        forall|i: int| 0 <= i < canonical.len() ==> (#[trigger] canonical@[i]).0 < defs.len(),
    ensures
        match r {
            Some(i) => i < canonical.len() && canon_lookup(
                canon_view(canonical@, defs_view(defs@)),
                key@,
            ) == Some(canonical@[i as int].1@),
            None => canon_lookup(canon_view(canonical@, defs_view(defs@)), key@) is None,
        },
{
    let ghost cv = canon_view(canonical@, defs_view(defs@));
    let mut i: usize = 0;
    assert(cv.skip(0) =~= cv);
    while i < canonical.len()
        invariant
            i <= canonical.len(),
            cv == canon_view(canonical@, defs_view(defs@)),
            forall|k: int| 0 <= k < canonical.len() ==> (#[trigger] canonical@[k]).0 < defs.len(),
            canon_lookup(cv, key@) == canon_lookup(cv.skip(i as int), key@),
        decreases canonical.len() - i,
    {
        assert(cv.skip(i as int)[0] == cv[i as int]);
        let di = canonical[i].0;
        assert(defs_view(defs@)[di as int] == defs@[di as int]@);
        if key_eq(&defs[di].key, key) {
            return Some(i);
        }
        assert(cv.skip(i as int).drop_first() =~= cv.skip(i + 1));
        i += 1;
    }
    None
}

/// Given gradient definitions extracted from `<defs>`, return a map of
/// `duplicate_id → canonical_id` for every gradient that is a duplicate.
pub fn find_duplicate_gradients(defs: &[GradientDef], vars: &[CapturedVar]) -> (r: Vec<
    (String, String),
>)
    ensures
        decls_view(r@) == dedup(resolved_defs(defs_view(defs@)), caps_view(vars@)).renames,
{
    let resolved = resolve_inheritance(defs);
    let ghost rd = defs_view(resolved@);
    let ghost cvs = caps_view(vars@);
    let mut canonical: Vec<(usize, String)> = Vec::new();
    let mut renames: Vec<(String, String)> = Vec::new();
    let mut k: usize = 0;
    while k < resolved.len()
        invariant
            k <= resolved.len(),
            rd == defs_view(resolved@),
            cvs == caps_view(vars@),
            forall|i: int| 0 <= i < canonical.len() ==> (#[trigger] canonical@[i]).0 < resolved.len(),
            canon_view(canonical@, rd) == dedup(rd.take(k as int), cvs).canonical,
            decls_view(renames@) == dedup(rd.take(k as int), cvs).renames,
        decreases resolved.len() - k,
    {
        proof {
            assert(rd.take(k + 1).drop_last() =~= rd.take(k as int));
            assert(rd.take(k + 1).last() == rd[k as int]);
        }
        let def = &resolved[k];
        assert(rd[k as int] == def@);
        let ghost c0 = canonical@;
        if def_has_placeholder(def, vars) {
        } else {
            match canon_find(&canonical, &resolved, &def.key) {
                Some(ci) => {
                    let existing = canonical[ci].1.clone();
                    let j = pair_position(&renames, &def.id);
                    let ghost r0 = renames@;
                    if j < renames.len() {
                        renames.set(j, (def.id.clone(), existing));
                        assert(decls_view(renames@) =~= decls_view(r0).update(j as int, (def@.id, existing@)));
                    } else {
                        renames.push((def.id.clone(), existing));
                        assert(decls_view(renames@) =~= decls_view(r0).push((def@.id, existing@)));
                    }
                },
                None => {
                    canonical.push((k, def.id.clone()));
                    assert(canon_view(canonical@, rd) =~= canon_view(c0, rd).push((rd[k as int].key, rd[k as int].id)));
                },
            }
        }
        k += 1;
    }
    assert(rd.take(k as int) =~= rd);
    renames
}


// ─── Laws of deduplication ────────────────────────────────────────────────────

/// No definition before `j` is one without placeholders with key `k`.
pub open spec fn first_with_key(defs: Seq<DefView>, cvs: Seq<CapView>, j: int, k: KeyView) -> bool {
    forall|m: int| 0 <= m < j ==> (#[trigger] defs[m]).key != k || def_has_ph(defs[m], cvs)
}

/// A rename `dup → canonical` is justified by the definitions when a
/// definition with ID `dup` has no placeholder and `canonical` is the ID of
/// the first definition without placeholders that has exactly the same key,
/// an earlier one.
pub open spec fn rename_justified(defs: Seq<DefView>, cvs: Seq<CapView>, r: (Seq<char>, Seq<char>)) -> bool {
    exists|i: int, j: int|
        0 <= j < i < defs.len() && #[trigger] defs[i].id == r.0 && !def_has_ph(defs[i], cvs)
            && #[trigger] defs[j].id == r.1 && defs[j].key == defs[i].key && !def_has_ph(defs[j], cvs)
            && first_with_key(defs, cvs, j, defs[i].key)
}

pub open spec fn canon_justified(defs: Seq<DefView>, cvs: Seq<CapView>, c: (KeyView, Seq<char>)) -> bool {
    exists|j: int|
        0 <= j < defs.len() && #[trigger] defs[j].key == c.0 && defs[j].id == c.1 && !def_has_ph(defs[j], cvs)
            && first_with_key(defs, cvs, j, c.0)
}

proof fn lemma_canon_lookup(c: Seq<(KeyView, Seq<char>)>, k: KeyView)
    ensures
        canon_lookup(c, k) matches Some(e) ==> exists|t: int| 0 <= t < c.len() && #[trigger] c[t] == (k, e),
    decreases c.len(),
{
    if c.len() > 0 {
        if c[0].0 == k {
            assert(c[0] == (k, c[0].1));
        } else {
            lemma_canon_lookup(c.drop_first(), k);
            if let Some(e) = canon_lookup(c, k) {
                let t = choose|t: int| 0 <= t < c.drop_first().len() && #[trigger] c.drop_first()[t] == (k, e);
                assert(c[t + 1] == (k, e));
            }
        }
    }
}

proof fn lemma_pair_index(m: Seq<(Seq<char>, Seq<char>)>, k: Seq<char>)
    ensures
        0 <= pair_index(m, k) <= m.len(),
    decreases m.len(),
{
    if m.len() > 0 && m[0].0 != k {
        lemma_pair_index(m.drop_first(), k);
    }
}

proof fn lemma_dedup_inv(defs: Seq<DefView>, cvs: Seq<CapView>)
    ensures
        forall|t: int|
            0 <= t < dedup(defs, cvs).canonical.len() ==> canon_justified(
                defs,
                cvs,
                #[trigger] dedup(defs, cvs).canonical[t],
            ),
        forall|t: int|
            0 <= t < dedup(defs, cvs).renames.len() ==> rename_justified(
                defs,
                cvs,
                #[trigger] dedup(defs, cvs).renames[t],
            ),
    decreases defs.len(),
{
    if defs.len() > 0 {
        let d0 = defs.drop_last();
        lemma_dedup_inv(d0, cvs);
        lemma_dedup_complete_from(d0, cvs);
        let st = dedup(d0, cvs);
        let d = defs.last();
        let n = defs.len() - 1;
        assert(defs[n] == d);
        assert forall|j: int| 0 <= j < d0.len() implies defs[j] == d0[j] by {}
        let st2 = dedup(defs, cvs);
        assert forall|t: int| 0 <= t < st2.canonical.len() implies canon_justified(
            defs,
            cvs,
            #[trigger] st2.canonical[t],
        ) by {
            if t < st.canonical.len() {
                assert(st2.canonical[t] == st.canonical[t]);
                assert(canon_justified(d0, cvs, st.canonical[t]));
                let j = choose|j: int|
                    0 <= j < d0.len() && #[trigger] d0[j].key == st.canonical[t].0 && d0[j].id == st.canonical[t].1
                        && !def_has_ph(d0[j], cvs) && first_with_key(d0, cvs, j, st.canonical[t].0);
                assert(defs[j] == d0[j]);
                assert forall|m: int| 0 <= m < j implies (#[trigger] defs[m]).key != st.canonical[t].0 || def_has_ph(
                    defs[m],
                    cvs,
                ) by {
                    assert(defs[m] == d0[m]);
                }
            } else {
                assert(st2.canonical[t] == (d.key, d.id));
                assert(!def_has_ph(d, cvs));
                assert(canon_lookup(st.canonical, d.key) is None);
                assert forall|m: int| 0 <= m < n implies (#[trigger] defs[m]).key != d.key || def_has_ph(defs[m], cvs) by {
                    assert(defs[m] == d0[m]);
                }
            }
        }
        assert forall|t: int| 0 <= t < st2.renames.len() implies rename_justified(
            defs,
            cvs,
            #[trigger] st2.renames[t],
        ) by {
            if st2.renames == st.renames {
                assert(rename_justified(d0, cvs, st.renames[t]));
                let r = st.renames[t];
                let (i, j) = choose|i: int, j: int|
                    0 <= j < i < d0.len() && #[trigger] d0[i].id == r.0 && !def_has_ph(d0[i], cvs)
                        && #[trigger] d0[j].id == r.1 && d0[j].key == d0[i].key && !def_has_ph(d0[j], cvs)
                        && first_with_key(d0, cvs, j, d0[i].key);
                assert(defs[i] == d0[i] && defs[j] == d0[j]);
                assert forall|m: int| 0 <= m < j implies (#[trigger] defs[m]).key != defs[i].key || def_has_ph(
                    defs[m],
                    cvs,
                ) by {
                    assert(defs[m] == d0[m]);
                }
            } else {
                let e = canon_lookup(st.canonical, d.key)->Some_0;
                lemma_canon_lookup(st.canonical, d.key);
                lemma_pair_index(st.renames, d.id);
                let c = choose|c: int| 0 <= c < st.canonical.len() && #[trigger] st.canonical[c] == (d.key, e);
                assert(canon_justified(d0, cvs, st.canonical[c]));
                let j = choose|j: int|
                    0 <= j < d0.len() && #[trigger] d0[j].key == st.canonical[c].0 && d0[j].id == st.canonical[c].1
                        && !def_has_ph(d0[j], cvs) && first_with_key(d0, cvs, j, st.canonical[c].0);
                assert(defs[j] == d0[j]);
                assert forall|m: int| 0 <= m < j implies (#[trigger] defs[m]).key != d.key || def_has_ph(defs[m], cvs) by {
                    assert(defs[m] == d0[m]);
                }
                if st2.renames[t] == (d.id, e) {
                    assert(defs[n].id == d.id && defs[j].id == e);
                } else {
                    assert(t < st.renames.len() && st2.renames[t] == st.renames[t]);
                    assert(rename_justified(d0, cvs, st.renames[t]));
                    let r = st.renames[t];
                    let (i2, j2) = choose|i: int, j: int|
                        0 <= j < i < d0.len() && #[trigger] d0[i].id == r.0 && !def_has_ph(d0[i], cvs)
                            && #[trigger] d0[j].id == r.1 && d0[j].key == d0[i].key && !def_has_ph(d0[j], cvs)
                            && first_with_key(d0, cvs, j, d0[i].key);
                    assert(defs[i2] == d0[i2] && defs[j2] == d0[j2]);
                    assert forall|m: int| 0 <= m < j2 implies (#[trigger] defs[m]).key != defs[i2].key
                        || def_has_ph(defs[m], cvs) by {
                        assert(defs[m] == d0[m]);
                    }
                }
            }
        }
    }
}

/// Deduplication only merges identical gradients, and a gradient that holds a
/// substitution placeholder (in its key or any attribute value) is never
/// merged: every rename `dup → canonical` comes from a definition `dup`
/// without placeholders, and `canonical` is the first definition without
/// placeholders with exactly the same key, an earlier one.
pub proof fn lemma_dedup_sound(defs: Seq<DefView>, cvs: Seq<CapView>)
    ensures
        forall|t: int|
            0 <= t < dedup(defs, cvs).renames.len() ==> rename_justified(
                defs,
                cvs,
                #[trigger] dedup(defs, cvs).renames[t],
            ),
{
    lemma_dedup_inv(defs, cvs);
}

proof fn lemma_canon_lookup_push(c: Seq<(KeyView, Seq<char>)>, k: KeyView, id: Seq<char>, k2: KeyView)
    requires
        canon_lookup(c, k2) is Some || k2 == k,
    ensures
        canon_lookup(c.push((k, id)), k2) is Some,
    decreases c.len(),
{
    if c.len() > 0 && c[0].0 != k2 {
        assert(c.push((k, id)).drop_first() =~= c.drop_first().push((k, id)));
        lemma_canon_lookup_push(c.drop_first(), k, id, k2);
    } else if c.len() == 0 {
        assert(c.push((k, id))[0] == (k, id));
    }
}

pub open spec fn has_rename(r: Seq<(Seq<char>, Seq<char>)>, id: Seq<char>) -> bool {
    exists|t: int| 0 <= t < r.len() && (#[trigger] r[t]).0 == id
}

proof fn lemma_pair_insert_keys(m: Seq<(Seq<char>, Seq<char>)>, k: Seq<char>, v: Seq<char>, k2: Seq<char>)
    requires
        has_rename(m, k2) || k2 == k,
    ensures
        has_rename(pair_insert(m, k, v), k2),
{
    lemma_pair_index(m, k);
    let j = pair_index(m, k);
    let m2 = pair_insert(m, k, v);
    if k2 == k {
        if j < m.len() {
            assert(m2[j].0 == k);
        } else {
            assert(m2[m.len() as int].0 == k);
        }
    } else {
        let t = choose|t: int| 0 <= t < m.len() && (#[trigger] m[t]).0 == k2;
        if j < m.len() {
            if t == j {
                assert(m2[t].0 == k);
                lemma_pair_index_key(m, k);
            }
            assert(m2[t].0 == k2);
        } else {
            assert(m2[t] == m[t]);
        }
    }
}

proof fn lemma_pair_index_key(m: Seq<(Seq<char>, Seq<char>)>, k: Seq<char>)
    ensures
        pair_index(m, k) < m.len() ==> m[pair_index(m, k)].0 == k,
    decreases m.len(),
{
    if m.len() > 0 && m[0].0 != k {
        lemma_pair_index_key(m.drop_first(), k);
        lemma_pair_index(m.drop_first(), k);
        if pair_index(m, k) < m.len() {
            assert(m[pair_index(m, k)] == m.drop_first()[pair_index(m.drop_first(), k)]);
        }
    }
}

proof fn lemma_dedup_complete_from(defs: Seq<DefView>, cvs: Seq<CapView>)
    ensures
        forall|j: int|
            0 <= j < defs.len() && !def_has_ph(#[trigger] defs[j], cvs) ==> canon_lookup(
                dedup(defs, cvs).canonical,
                defs[j].key,
            ) is Some,
        forall|i: int, j: int|
            0 <= j < i < defs.len() && !def_has_ph(#[trigger] defs[i], cvs) && !def_has_ph(#[trigger] defs[j], cvs)
                && defs[j].key == defs[i].key ==> has_rename(dedup(defs, cvs).renames, defs[i].id),
    decreases defs.len(),
{
    if defs.len() > 0 {
        let d0 = defs.drop_last();
        lemma_dedup_complete_from(d0, cvs);
        let st = dedup(d0, cvs);
        let d = defs.last();
        let n = defs.len() - 1;
        assert(defs[n] == d);
        assert forall|j: int| 0 <= j < n implies #[trigger] defs[j] == d0[j] by {}
        let st2 = dedup(defs, cvs);
        assert(st2 == dedup_step(st, d, cvs));
        assert forall|j: int| 0 <= j < defs.len() && !def_has_ph(#[trigger] defs[j], cvs) implies canon_lookup(
            st2.canonical,
            defs[j].key,
        ) is Some by {
            if j < n {
                assert(canon_lookup(st.canonical, d0[j].key) is Some);
            }
            if st2.canonical != st.canonical {
                assert(st2.canonical == st.canonical.push((d.key, d.id)));
                lemma_canon_lookup_push(st.canonical, d.key, d.id, defs[j].key);
            }
        }
        assert forall|i: int, j: int|
            0 <= j < i < defs.len() && !def_has_ph(#[trigger] defs[i], cvs) && !def_has_ph(#[trigger] defs[j], cvs)
                && defs[j].key == defs[i].key implies has_rename(st2.renames, defs[i].id) by {
            if i < n {
                assert(d0[i] == defs[i] && d0[j] == defs[j]);
                assert(has_rename(st.renames, defs[i].id));
                if st2.renames != st.renames {
                    let e = canon_lookup(st.canonical, d.key)->Some_0;
                    assert(st2.renames == pair_insert(st.renames, d.id, e));
                    lemma_pair_insert_keys(st.renames, d.id, e, defs[i].id);
                }
            } else {
                assert(d0[j] == defs[j]);
                assert(canon_lookup(st.canonical, d0[j].key) is Some);
                let e = canon_lookup(st.canonical, d.key)->Some_0;
                assert(st2.renames == pair_insert(st.renames, d.id, e));
                lemma_pair_insert_keys(st.renames, d.id, e, d.id);
            }
        }
    }
}

/// Every duplicate is found: a definition without placeholders whose key
/// equals the key of an earlier definition without placeholders gets a
/// rename.
pub proof fn lemma_dedup_complete(defs: Seq<DefView>, cvs: Seq<CapView>)
    ensures
        forall|i: int, j: int|
            0 <= j < i < defs.len() && !def_has_ph(#[trigger] defs[i], cvs) && !def_has_ph(#[trigger] defs[j], cvs)
                && defs[j].key == defs[i].key ==> has_rename(dedup(defs, cvs).renames, defs[i].id),
{
    lemma_dedup_complete_from(defs, cvs);
}

/// With distinct IDs, a gradient holding a placeholder takes no part in any
/// rename: it is neither renamed nor the target of a rename.
pub proof fn lemma_dedup_keeps_pinned(defs: Seq<DefView>, cvs: Seq<CapView>)
    requires
        forall|a: int, b: int| 0 <= a < b < defs.len() ==> (#[trigger] defs[a]).id != (#[trigger] defs[b]).id,
    ensures
        forall|t: int, m: int|
            0 <= t < dedup(defs, cvs).renames.len() && 0 <= m < defs.len() && def_has_ph(#[trigger] defs[m], cvs)
                ==> (#[trigger] dedup(defs, cvs).renames[t]).0 != defs[m].id && dedup(defs, cvs).renames[t].1
                != defs[m].id,
{
    lemma_dedup_inv(defs, cvs);
    assert forall|t: int, m: int|
        0 <= t < dedup(defs, cvs).renames.len() && 0 <= m < defs.len() && def_has_ph(#[trigger] defs[m], cvs)
            implies (#[trigger] dedup(defs, cvs).renames[t]).0 != defs[m].id && dedup(defs, cvs).renames[t].1
            != defs[m].id by {
        let r = dedup(defs, cvs).renames[t];
        assert(rename_justified(defs, cvs, r));
        let (i, j) = choose|i: int, j: int|
            0 <= j < i < defs.len() && #[trigger] defs[i].id == r.0 && !def_has_ph(defs[i], cvs)
                && #[trigger] defs[j].id == r.1 && defs[j].key == defs[i].key && !def_has_ph(defs[j], cvs)
                && first_with_key(defs, cvs, j, defs[i].key);
        if r.0 == defs[m].id {
            assert(m != i);
            if m < i {
                assert(defs[m].id != defs[i].id);
            } else {
                assert(defs[i].id != defs[m].id);
            }
        }
        if r.1 == defs[m].id {
            assert(m != j);
            if m < j {
                assert(defs[m].id != defs[j].id);
            } else {
                assert(defs[j].id != defs[m].id);
            }
        }
    }
}


// ─── Laws of keys ─────────────────────────────────────────────────────────────

/// The attributes that define how a gradient or pattern is drawn: its
/// geometry, units, transforms and spread.
pub open spec fn drawing_attr(name: Seq<char>) -> bool {
    name == "cx"@ ||
    name == "cy"@ ||
    name == "r"@ ||
    name == "fx"@ ||
    name == "fy"@ ||
    name == "fr"@ ||
    name == "x1"@ ||
    name == "y1"@ ||
    name == "x2"@ ||
    name == "y2"@ ||
    name == "gradientUnits"@ ||
    name == "gradientTransform"@ ||
    name == "spreadMethod"@ ||
    name == "patternUnits"@ ||
    name == "patternTransform"@ ||
    name == "patternContentUnits"@ ||
    name == "x"@ ||
    name == "y"@ ||
    name == "width"@ ||
    name == "height"@ ||
    name == "viewBox"@ ||
    name == "preserveAspectRatio"@
}

proof fn lemma_drawing_attr_defines(name: Seq<char>)
    requires
        drawing_attr(name),
    ensures
        names_contain(gradient_define_attrs(), name),
{
    let l = gradient_define_attrs();
    if name == "cx"@ {
        assert(l[0]@ == name);
    }     else if name == "cy"@ {
        assert(l[1]@ == name);
    }     else if name == "r"@ {
        assert(l[2]@ == name);
    }     else if name == "fx"@ {
        assert(l[3]@ == name);
    }     else if name == "fy"@ {
        assert(l[4]@ == name);
    }     else if name == "fr"@ {
        assert(l[5]@ == name);
    }     else if name == "x1"@ {
        assert(l[6]@ == name);
    }     else if name == "y1"@ {
        assert(l[7]@ == name);
    }     else if name == "x2"@ {
        assert(l[8]@ == name);
    }     else if name == "y2"@ {
        assert(l[9]@ == name);
    }     else if name == "gradientUnits"@ {
        assert(l[10]@ == name);
    }     else if name == "gradientTransform"@ {
        assert(l[11]@ == name);
    }     else if name == "spreadMethod"@ {
        assert(l[12]@ == name);
    }     else if name == "patternUnits"@ {
        assert(l[13]@ == name);
    }     else if name == "patternTransform"@ {
        assert(l[14]@ == name);
    }     else if name == "patternContentUnits"@ {
        assert(l[15]@ == name);
    }     else if name == "x"@ {
        assert(l[16]@ == name);
    }     else if name == "y"@ {
        assert(l[17]@ == name);
    }     else if name == "width"@ {
        assert(l[18]@ == name);
    }     else if name == "height"@ {
        assert(l[19]@ == name);
    }     else if name == "viewBox"@ {
        assert(l[20]@ == name);
    }     else if name == "preserveAspectRatio"@ {
        assert(l[21]@ == name);
    }
}

proof fn lemma_with_key_define(raw: Seq<(Seq<char>, Seq<char>)>, name: Seq<char>)
    requires
        names_contain(gradient_define_attrs(), name),
    ensures
        with_key(raw.filter(|p: (Seq<char>, Seq<char>)| is_define_decl(p)), name) == with_key(raw, name),
    decreases raw.len(),
{
    let pred = |p: (Seq<char>, Seq<char>)| is_define_decl(p);
    if raw.len() > 0 {
        let r0 = raw.drop_last();
        let x = raw.last();
        lemma_with_key_define(r0, name);
        assert(raw =~= r0.push(x));
        r0.lemma_filter_push(x, pred);
        let f0 = r0.filter(pred);
        if pred(x) {
            assert(f0.push(x).drop_last() =~= f0);
            assert(f0.push(x).last() == x);
        } else {
            assert(x.0 != name);
        }
    }
}

proof fn lemma_attr_get_first(raw: Seq<(Seq<char>, Seq<char>)>, name: Seq<char>)
    ensures
        attr_get(raw, name) == (if with_key(raw, name).len() > 0 {
            with_key(raw, name)[0].1
        } else {
            Seq::<char>::empty()
        }),
    decreases raw.len(),
{
    if raw.len() > 0 {
        let h = seq![raw[0]];
        let t = raw.drop_first();
        assert(raw =~= h + t);
        lemma_with_key_append(h, t, name);
        assert(h.drop_last() =~= Seq::<(Seq<char>, Seq<char>)>::empty());
        assert(h.last() == raw[0]);
        assert(with_key(h.drop_last(), name) =~= Seq::<(Seq<char>, Seq<char>)>::empty());
        lemma_attr_get_first(t, name);
        if raw[0].0 == name {
            assert(with_key(h, name) =~= h);
            assert(with_key(raw, name)[0] == raw[0]);
        } else {
            assert(with_key(h, name) =~= Seq::<(Seq<char>, Seq<char>)>::empty());
            assert(with_key(raw, name) =~= with_key(t, name));
        }
    }
}

/// Two gradients get equal keys only when they have the same tag and stops
/// and agree on every attribute that defines how they are drawn: for each
/// such name, the same declarations of it in the same order, so the same
/// value.
pub proof fn lemma_equal_keys_same_drawing(
    ta: Seq<char>,
    a: Seq<(Seq<char>, Seq<char>)>,
    sa: Seq<StopView>,
    tb: Seq<char>,
    b: Seq<(Seq<char>, Seq<char>)>,
    sb: Seq<StopView>,
    name: Seq<char>,
)
    requires
        gradient_key_spec(ta, a, sa) == gradient_key_spec(tb, b, sb),
        drawing_attr(name),
    ensures
        ta == tb,
        sa == sb,
        with_key(a, name) == with_key(b, name),
        attr_get(a, name) == attr_get(b, name),
{
    let pred = |p: (Seq<char>, Seq<char>)| is_define_decl(p);
    lemma_drawing_attr_defines(name);
    lemma_sort_by_prop_stable(a.filter(pred), name);
    lemma_sort_by_prop_stable(b.filter(pred), name);
    lemma_with_key_define(a, name);
    lemma_with_key_define(b, name);
    lemma_attr_get_first(a, name);
    lemma_attr_get_first(b, name);
}


proof fn lemma_define_is_drawing(name: Seq<char>)
    requires
        names_contain(gradient_define_attrs(), name),
    ensures
        drawing_attr(name),
{
    let l = gradient_define_attrs();
    let i = choose|i: int| 0 <= i < l.len() && (#[trigger] l[i])@ == name;
    assert(l.len() == 22);
    assert(i == 0 || i == 1 || i == 2 || i == 3 || i == 4 || i == 5 || i == 6 || i == 7 || i == 8 || i
        == 9 || i == 10 || i == 11 || i == 12 || i == 13 || i == 14 || i == 15 || i == 16 || i == 17
        || i == 18 || i == 19 || i == 20 || i == 21);
}

proof fn lemma_with_key_not_define(raw: Seq<(Seq<char>, Seq<char>)>, name: Seq<char>)
    requires
        !names_contain(gradient_define_attrs(), name),
    ensures
        with_key(raw.filter(|p: (Seq<char>, Seq<char>)| is_define_decl(p)), name) == Seq::<(Seq<char>, Seq<char>)>::empty(),
{
    let pred = |p: (Seq<char>, Seq<char>)| is_define_decl(p);
    let f = raw.filter(pred);
    assert forall|i: int| 0 <= i < f.len() implies (#[trigger] f[i]).0 != name by {
        raw.lemma_filter_pred(pred, i);
    }
    lemma_with_key_none(f, name);
}

/// Gradients with the same tag and stops that agree on every attribute that
/// defines how they are drawn (the same declarations of each such name, in
/// order) get equal keys, whatever other attributes they carry.
pub proof fn lemma_same_drawing_equal_keys(
    t: Seq<char>,
    a: Seq<(Seq<char>, Seq<char>)>,
    b: Seq<(Seq<char>, Seq<char>)>,
    st: Seq<StopView>,
)
    requires
        forall|name: Seq<char>| drawing_attr(name) ==> #[trigger] with_key(a, name) == with_key(b, name),
    ensures
        gradient_key_spec(t, a, st) == gradient_key_spec(t, b, st),
{
    let pred = |p: (Seq<char>, Seq<char>)| is_define_decl(p);
    let fa = a.filter(pred);
    let fb = b.filter(pred);
    assert forall|k: Seq<char>| #[trigger] with_key(fa, k) == with_key(fb, k) by {
        if names_contain(gradient_define_attrs(), k) {
            lemma_define_is_drawing(k);
            lemma_with_key_define(a, k);
            lemma_with_key_define(b, k);
            assert(with_key(a, k) == with_key(b, k));
        } else {
            lemma_with_key_not_define(a, k);
            lemma_with_key_not_define(b, k);
        }
    }
    lemma_sort_by_prop_determined(fa, fb);
}

} // verus!
