//! Path combination: consecutive `<path>` siblings with the same
//! presentation attributes are merged by joining their `d` values.  Paths
//! whose data or attributes hold a substitution placeholder are never
//! combined.
use vstd::prelude::*;
use crate::css::decls_view;
use crate::subst::{caps_view, has_placeholder, value_has_subst, CapView, CapturedVar};
use crate::text::{append, chars_of, eq_vec, string_of, trim, trim_vec};

verus! {

/// Given two path `d` strings, the text of the combined path: `None` if
/// either holds a substitution placeholder.
pub open spec fn combine_spec(d1: Seq<char>, d2: Seq<char>, cvs: Seq<CapView>) -> Option<Seq<char>> {
    if has_placeholder(d1, cvs) || has_placeholder(d2, cvs) {
        None
    } else if trim(d1).len() == 0 {
        Some(trim(d2))
    } else if trim(d2).len() == 0 {
        Some(trim(d1))
    } else {
        Some(trim(d1) + seq![' '] + trim(d2))
    }
}

/// Given two path `d` strings, attempt to combine them into one.
/// Returns `None` if either contains a subst placeholder.
pub fn combine_path_d(d1: &str, d2: &str, vars: &[CapturedVar]) -> (r: Option<String>)
    ensures
        match r {
            Some(s) => combine_spec(d1@, d2@, caps_view(vars@)) == Some(s@),
            None => combine_spec(d1@, d2@, caps_view(vars@)) is None,
        },
{
    if value_has_subst(d1, vars) || value_has_subst(d2, vars) {
        return None;
    }
    let a = trim_vec(&chars_of(d1));
    let b = trim_vec(&chars_of(d2));
    if a.len() == 0 {
        return Some(string_of(&b));
    }
    if b.len() == 0 {
        return Some(string_of(&a));
    }
    let mut out = a;
    out.push(' ');
    append(&mut out, &b);
    Some(string_of(&out))
}

pub open spec fn combine_attrs_0() -> Seq<&'static str> {
    seq!["fill", "fill-opacity", "fill-rule", "stroke", "stroke-width", "stroke-opacity", "stroke-linecap", "stroke-linejoin", "stroke-miterlimit", "stroke-dasharray", "stroke-dashoffset", "opacity", "clip-path", "mask", "filter", "transform", "visibility", "display"]
}

fn push_combine_attrs_0(m: &mut Vec<&'static str>)
    ensures
        final(m)@ == old(m)@ + combine_attrs_0(),
{
    m.push("fill");
    m.push("fill-opacity");
    m.push("fill-rule");
    m.push("stroke");
    m.push("stroke-width");
    m.push("stroke-opacity");
    m.push("stroke-linecap");
    m.push("stroke-linejoin");
    m.push("stroke-miterlimit");
    m.push("stroke-dasharray");
    m.push("stroke-dashoffset");
    m.push("opacity");
    m.push("clip-path");
    m.push("mask");
    m.push("filter");
    m.push("transform");
    m.push("visibility");
    m.push("display");
    assert(m@ =~= old(m)@ + combine_attrs_0());
}

/// Presentation attributes compared when deciding whether two paths can be merged.
pub open spec fn combine_attrs() -> Seq<&'static str> {
    combine_attrs_0()
}

fn combine_attrs_vec() -> (m: Vec<&'static str>)
    ensures
        m@ == combine_attrs(),
{
    let mut m: Vec<&'static str> = Vec::new();
    push_combine_attrs_0(&mut m);
    assert(m@ =~= combine_attrs());
    m
}

/// The value of the first attribute named `key`.
pub open spec fn attr_value(attrs: Seq<(Seq<char>, Seq<char>)>, key: Seq<char>) -> Option<Seq<char>>
    decreases attrs.len(),
{
    if attrs.len() == 0 {
        None
    } else if attrs[0].0 == key {
        Some(attrs[0].1)
    } else {
        attr_value(attrs.drop_first(), key)
    }
}

pub open spec fn opt_has_ph(v: Option<Seq<char>>, cvs: Seq<CapView>) -> bool {
    match v {
        Some(s) => has_placeholder(s, cvs),
        None => false,
    }
}

/// Whether the two attribute lists agree, free of placeholders, on one
/// compared attribute.
pub open spec fn agree_on(
    a1: Seq<(Seq<char>, Seq<char>)>,
    a2: Seq<(Seq<char>, Seq<char>)>,
    key: Seq<char>,
    cvs: Seq<CapView>,
) -> bool {
    !opt_has_ph(attr_value(a1, key), cvs) && !opt_has_ph(attr_value(a2, key), cvs) && attr_value(
        a1,
        key,
    ) == attr_value(a2, key)
}

pub open spec fn combinable(
    a1: Seq<(Seq<char>, Seq<char>)>,
    a2: Seq<(Seq<char>, Seq<char>)>,
    cvs: Seq<CapView>,
) -> bool {
    forall|i: int| 0 <= i < combine_attrs().len() ==> agree_on(a1, a2, (#[trigger] combine_attrs()[i])@, cvs)
}

fn attr_value_exec(attrs: &[(String, String)], key: &Vec<char>) -> (r: Option<Vec<char>>)
    ensures
        match r {
            Some(v) => attr_value(decls_view(attrs@), key@) == Some(v@),
            None => attr_value(decls_view(attrs@), key@) is None,
        },
{
    let ghost av = decls_view(attrs@);
    let mut i: usize = 0;
    assert(av.skip(0) =~= av);
    while i < attrs.len()
        invariant
            i <= attrs.len(),
            av == decls_view(attrs@),
            attr_value(av, key@) == attr_value(av.skip(i as int), key@),
        decreases attrs.len() - i,
    {
        assert(av.skip(i as int)[0] == av[i as int]);
        let k = chars_of(attrs[i].0.as_str());
        if eq_vec(&k, key) {
            return Some(chars_of(attrs[i].1.as_str()));
        }
        assert(av.skip(i as int).drop_first() =~= av.skip(i + 1));
        i += 1;
    }
    assert(av.skip(i as int) =~= Seq::<(Seq<char>, Seq<char>)>::empty());
    None
}

fn opt_has_subst(v: &Option<Vec<char>>, vars: &[CapturedVar]) -> (b: bool)
    ensures
        b == opt_has_ph(
            match v {
                Some(s) => Some(s@),
                None => None,
            },
            caps_view(vars@),
        ),
{
    match v {
        Some(s) => value_has_subst(string_of(s).as_str(), vars),
        None => false,
    }
}

/// Check whether two attribute lists are equal on the COMBINE_ATTRS subset.
/// Both must have the same value (or both absent) for every attribute in the list.
pub fn paths_are_combinable(
    attrs1: &[(String, String)],
    attrs2: &[(String, String)],
    vars: &[CapturedVar],
) -> (b: bool)
    ensures
        b == combinable(decls_view(attrs1@), decls_view(attrs2@), caps_view(vars@)),
{
    let ghost a1 = decls_view(attrs1@);
    let ghost a2 = decls_view(attrs2@);
    let ghost cvs = caps_view(vars@);
    let names = combine_attrs_vec();
    let mut i: usize = 0;
    while i < names.len()
        invariant
            i <= names.len(),
            names@ == combine_attrs(),
            a1 == decls_view(attrs1@),
            a2 == decls_view(attrs2@),
            cvs == caps_view(vars@),
            forall|k: int| 0 <= k < i ==> agree_on(a1, a2, (#[trigger] combine_attrs()[k])@, cvs),
        decreases names.len() - i,
    {
        let key = chars_of(names[i]);
        let v1 = attr_value_exec(attrs1, &key);
        let v2 = attr_value_exec(attrs2, &key);
        if opt_has_subst(&v1, vars) {
            return false;
        }
        if opt_has_subst(&v2, vars) {
            return false;
        }
        let same = match (&v1, &v2) {
            (Some(x), Some(y)) => eq_vec(x, y),
            (None, None) => true,
            _ => false,
        };
        if !same {
            return false;
        }
        i += 1;
    }
    true
}

/// Whether two paths can be merged does not depend on their order.
pub proof fn lemma_combinable_symmetric(
    a1: Seq<(Seq<char>, Seq<char>)>,
    a2: Seq<(Seq<char>, Seq<char>)>,
    cvs: Seq<CapView>,
)
    ensures
        combinable(a1, a2, cvs) == combinable(a2, a1, cvs),
{
    if combinable(a1, a2, cvs) {
        assert forall|i: int| 0 <= i < combine_attrs().len() implies agree_on(a2, a1, (#[trigger] combine_attrs()[i])@, cvs) by {
            assert(agree_on(a1, a2, combine_attrs()[i]@, cvs));
        }
    }
    if combinable(a2, a1, cvs) {
        assert forall|i: int| 0 <= i < combine_attrs().len() implies agree_on(a1, a2, (#[trigger] combine_attrs()[i])@, cvs) by {
            assert(agree_on(a2, a1, combine_attrs()[i]@, cvs));
        }
    }
}

} // verus!
