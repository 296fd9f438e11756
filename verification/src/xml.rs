//! Reading a document: roxmltree parses the text, each node comes back as a
//! record in document order with its depth, and the library builds its own
//! tree from the records.
use vstd::prelude::*;
use roxmltree::Document;
use roxmltree::NodeType::{Comment as XComment, Element as XElement, PI as XPi, Root as XRoot, Text as XText};
use crate::document::NodeKind::{Comment, Element, ProcessingInstruction, Root, Text};
use crate::document::{count_children, node_count, NodeKind, XmlAttr, XmlNode};

verus! {

/// One node of a parsed document, read in document order: its depth (the
/// document root at depth 1), its kind, its name (element local name or
/// instruction target), namespace, text, and attributes as
/// `(local name, namespace, value)`.
pub struct XmlRecord(
    pub usize,
    pub NodeKind,
    pub String,
    pub String,
    pub String,
    pub Vec<(String, String, String)>,
);

pub struct RecView {
    pub depth: nat,
    pub kind: NodeKind,
    pub name: Seq<char>,
    pub namespace: Seq<char>,
    pub text: Seq<char>,
    pub attrs: Seq<(Seq<char>, Seq<char>, Seq<char>)>,
}

pub open spec fn triple_view(a: (String, String, String)) -> (Seq<char>, Seq<char>, Seq<char>) {
    (a.0@, a.1@, a.2@)
}

impl View for XmlRecord {
    type V = RecView;

    open spec fn view(&self) -> RecView {
        RecView {
            depth: self.0 as nat,
            kind: self.1,
            name: self.2@,
            namespace: self.3@,
            text: self.4@,
            attrs: self.5@.map_values(|a: (String, String, String)| triple_view(a)),
        }
    }
}

pub open spec fn recs_view(v: Seq<XmlRecord>) -> Seq<RecView> {
    v.map_values(|r: XmlRecord| r@)
}

/// What `roxmltree::Document::parse` reads from a text: `None` where the
/// text is not well-formed XML, else the records of the document's nodes.
pub uninterp spec fn spec_xml_records(text: Seq<char>) -> Option<Seq<RecView>>;

/// Calls `roxmltree::Document::parse` and hands out every node of the
/// document (`Document::descendants`, in document order) as a record.
/// Claimed: the result is `spec_xml_records` of the text.
#[verifier::external_body]
pub(crate) fn parse_xml_records(text: &str) -> (r: Option<Vec<XmlRecord>>)
    ensures
        r matches Some(v) ==> spec_xml_records(text@) == Some(recs_view(v@)),
        r is None ==> spec_xml_records(text@) is None,
{
    Some(Document::parse(text).ok()?.descendants().map(|n| XmlRecord(
        n.ancestors().count(),
        match n.node_type() {
            XRoot => Root,
            XElement => Element,
            XPi => ProcessingInstruction,
            XComment => Comment,
            XText => Text
        },
        n.pi().map_or(n.tag_name().name(), |p| p.target).into(),
        n.tag_name().namespace().unwrap_or_default().into(),
        n.pi().map_or(n.text(), |p| p.value).unwrap_or_default().into(),
        n.attributes().map(|a| (a.name().into(), a.namespace().unwrap_or_default().into(), a.value().into())).collect()
    )).collect())
}

// ─── Trees as records ─────────────────────────────────────────────────────────

pub open spec fn attr_triple(a: XmlAttr) -> (Seq<char>, Seq<char>, Seq<char>) {
    (a.name@, a.namespace@, a.value@)
}

/// The record of node `n` at depth `d`.
pub open spec fn record_of(n: XmlNode, d: nat) -> RecView {
    RecView {
        depth: d,
        kind: n.kind,
        name: n.name@,
        namespace: n.namespace@,
        text: n.text@,
        attrs: n.attrs@.map_values(|a: XmlAttr| attr_triple(a)),
    }
}

/// The records of a tree in document order, the node at depth `d`.
pub open spec fn preorder(n: XmlNode, d: nat) -> Seq<RecView>
    decreases n, 0nat,
{
    seq![record_of(n, d)] + preorder_from(n.children@, 0, d + 1)
}

pub open spec fn preorder_from(cs: Seq<XmlNode>, k: int, d: nat) -> Seq<RecView>
    decreases cs, (cs.len() - k) as nat,
{
    if k < 0 || k >= cs.len() {
        seq![]
    } else {
        preorder(cs[k], d) + preorder_from(cs, k + 1, d)
    }
}

/// Records that form one tree: the first is the shallowest, and each later
/// one is at most one level below the one before it.
pub open spec fn depths_ok(rv: Seq<RecView>) -> bool {
    &&& rv.len() > 0
    &&& forall|j: int| 0 < j < rv.len() ==> rv[0].depth < #[trigger] rv[j].depth <= rv[j - 1].depth + 1
}

/// No attribute of the list carries a numeric or simplified result yet.
pub open spec fn attrs_fresh(attrs: Seq<XmlAttr>) -> bool {
    forall|k: int| 0 <= k < attrs.len() ==> (#[trigger] attrs[k]).numeric is None && attrs[k].simplified is None
}

/// No attribute anywhere in the tree carries a numeric or simplified result
/// yet.
pub open spec fn fresh(n: XmlNode) -> bool
    decreases n, 0nat,
{
    attrs_fresh(n.attrs@) && fresh_from(n.children@, 0)
}

pub open spec fn fresh_from(cs: Seq<XmlNode>, k: int) -> bool
    decreases cs, (cs.len() - k) as nat,
{
    if k < 0 || k >= cs.len() {
        true
    } else {
        fresh(cs[k]) && fresh_from(cs, k + 1)
    }
}

proof fn lemma_fresh_from_push(cs: Seq<XmlNode>, c: XmlNode, k: int)
    requires
        0 <= k <= cs.len(),
        fresh_from(cs, k),
        fresh(c),
    ensures
        fresh_from(cs.push(c), k),
    decreases cs.len() - k,
{
    if k < cs.len() {
        assert(fresh(cs[k]) && fresh_from(cs, k + 1));
        lemma_fresh_from_push(cs, c, k + 1);
        assert(cs.push(c)[k] == cs[k]);
    } else {
        assert(cs.push(c)[k] == c);
        assert(fresh_from(cs.push(c), k + 1));
    }
}

proof fn lemma_preorder_from_push(cs: Seq<XmlNode>, c: XmlNode, k: int, d: nat)
    requires
        0 <= k <= cs.len(),
    ensures
        preorder_from(cs.push(c), k, d) == preorder_from(cs, k, d) + preorder(c, d),
    decreases cs.len() - k,
{
    if k < cs.len() {
        lemma_preorder_from_push(cs, c, k + 1, d);
        assert(cs.push(c)[k] == cs[k]);
        assert(preorder_from(cs.push(c), k, d) == preorder(cs[k], d) + preorder_from(cs.push(c), k + 1, d));
    } else {
        assert(cs.push(c)[k] == c);
        assert(preorder_from(cs.push(c), k + 1, d) == Seq::<RecView>::empty());
        assert(preorder_from(cs, k, d) == Seq::<RecView>::empty());
    }
}

/// A tree has as many records as nodes.
pub proof fn lemma_preorder_len(n: XmlNode, d: nat)
    ensures
        preorder(n, d).len() == node_count(n),
    decreases n, 0nat,
{
    lemma_preorder_from_len(n.children@, 0, d + 1);
}

pub proof fn lemma_preorder_from_len(cs: Seq<XmlNode>, k: int, d: nat)
    ensures
        preorder_from(cs, k, d).len() == count_children(cs, k),
    decreases cs, (cs.len() - k) as nat,
{
    if 0 <= k < cs.len() {
        lemma_preorder_len(cs[k], d);
        lemma_preorder_from_len(cs, k + 1, d);
    }
}

fn build_attrs(attrs: &Vec<(String, String, String)>) -> (r: Vec<XmlAttr>)
    ensures
        r@.map_values(|a: XmlAttr| attr_triple(a)) == attrs@.map_values(
            |a: (String, String, String)| triple_view(a),
        ),
        attrs_fresh(r@),
{
    let mut r: Vec<XmlAttr> = Vec::new();
    let mut i: usize = 0;
    while i < attrs.len()
        invariant
            i <= attrs.len(),
            r@.map_values(|a: XmlAttr| attr_triple(a)) == attrs@.take(i as int).map_values(
                |a: (String, String, String)| triple_view(a),
            ),
            attrs_fresh(r@),
        decreases attrs.len() - i,
    {
        let a = XmlAttr {
            name: attrs[i].0.clone(),
            namespace: attrs[i].1.clone(),
            value: attrs[i].2.clone(),
            numeric: None,
            simplified: None,
        };
        let ghost r0 = r@;
        r.push(a);
        assert(r@.map_values(|a: XmlAttr| attr_triple(a)) =~= r0.map_values(|a: XmlAttr| attr_triple(a)).push(
            triple_view(attrs@[i as int]),
        ));
        assert(attrs@.take(i + 1).map_values(|a: (String, String, String)| triple_view(a)) =~= attrs@.take(
            i as int,
        ).map_values(|a: (String, String, String)| triple_view(a)).push(triple_view(attrs@[i as int])));
        i += 1;
    }
    assert(attrs@.take(i as int) =~= attrs@);
    r
}

proof fn lemma_children_step(rv: Seq<RecView>, cs: Seq<XmlNode>, c: XmlNode, d: nat, i: int, j: int, e: int)
    requires
        0 <= i < j < e <= rv.len(),
        preorder_from(cs, 0, d) == rv.subrange(i + 1, j),
        preorder(c, d) == rv.subrange(j, e),
    ensures
        preorder_from(cs.push(c), 0, d) == rv.subrange(i + 1, e),
{
    lemma_preorder_from_push(cs, c, 0, d);
    assert(rv.subrange(i + 1, e) =~= rv.subrange(i + 1, j) + rv.subrange(j, e));
}

/// Below record `i` (at depth `d`) up to `j`, every record is deeper than
/// `d` and at most one level below the one before it.
pub open spec fn under(rv: Seq<RecView>, d: nat, i: int, j: int) -> bool {
    &&& forall|m: int| i < m < j ==> d < #[trigger] rv[m].depth
    &&& forall|m: int| i < m < j ==> #[trigger] rv[m].depth <= rv[m - 1].depth + 1
}

proof fn lemma_under_step(rv: Seq<RecView>, d: nat, i: int, j: int, e: int)
    requires
        0 <= i < j < e <= rv.len(),
        rv[i].depth == d,
        under(rv, d, i, j),
        rv[j].depth == d + 1,
        under(rv, d + 1, j, e),
    ensures
        under(rv, d, i, e),
{
    assert(rv[j - 1].depth >= d);
    assert forall|m: int| i < m < e implies d < #[trigger] rv[m].depth by {
        if m > j {
            assert(d + 1 < rv[m].depth);
        }
    }
    assert forall|m: int| i < m < e implies #[trigger] rv[m].depth <= rv[m - 1].depth + 1 by {
        if m == j {
            assert(rv[j - 1].depth >= d);
        }
    }
}

/// The node of record `i` with its subtree: the records from `i` up to the
/// next one no deeper than record `i`. `None` where a record lies more than
/// one level below the one before it.
fn build_node(recs: &Vec<XmlRecord>, i: usize) -> (r: Option<(XmlNode, usize)>)
    requires
        i < recs.len(),
    ensures
        match r {
            Some((n, e)) => {
                &&& i < e <= recs.len()
                &&& preorder(n, recs_view(recs@)[i as int].depth) == recs_view(recs@).subrange(i as int, e as int)
                &&& e < recs.len() ==> recs_view(recs@)[e as int].depth <= recs_view(recs@)[i as int].depth
                &&& under(recs_view(recs@), recs_view(recs@)[i as int].depth, i as int, e as int)
                &&& fresh(n)
            },
            None => !depths_ok(recs_view(recs@)),
        },
    decreases recs.len() - i,
{
    let ghost rv = recs_view(recs@);
    let d = recs[i].0;
    assert(rv[i as int].depth == d);
    let mut children: Vec<XmlNode> = Vec::new();
    let mut j: usize = i + 1;
    proof {
        if depths_ok(rv) && i + 1 < recs.len() {
            assert(rv[i + 1].depth <= rv[i + 1 - 1].depth + 1);
        }
        assert(rv.subrange(i + 1, j as int) =~= Seq::<RecView>::empty());
    }
    while j < recs.len() && recs[j].0 > d
        invariant
            i < j <= recs.len(),
            rv == recs_view(recs@),
            d == rv[i as int].depth,
            preorder_from(children@, 0, d as nat + 1) == rv.subrange(i + 1, j as int),
            depths_ok(rv) ==> (j < recs.len() ==> rv[j as int].depth <= d + 1),
            under(rv, d as nat, i as int, j as int),
            fresh_from(children@, 0),
        decreases recs.len() - j,
    {
        assert(rv[j as int].depth == recs[j as int].0);
        if recs[j].0 != d + 1 {
            return None;
        }
        match build_node(recs, j) {
            None => {
                return None;
            },
            Some((c, e)) => {
                proof {
                    lemma_children_step(rv, children@, c, d as nat + 1, i as int, j as int, e as int);
                    lemma_under_step(rv, d as nat, i as int, j as int, e as int);
                    lemma_fresh_from_push(children@, c, 0);
                }
                children.push(c);
                j = e;
            },
        }
    }
    let n = XmlNode {
        kind: recs[i].1,
        name: recs[i].2.clone(),
        namespace: recs[i].3.clone(),
        attrs: build_attrs(&recs[i].5),
        text: recs[i].4.clone(),
        children,
    };
    proof {
        assert(record_of(n, d as nat) == rv[i as int]);
        assert(rv.subrange(i as int, j as int) =~= seq![rv[i as int]] + rv.subrange(i + 1, j as int));
        if j < recs.len() {
            assert(rv[j as int].depth == recs[j as int].0);
        }
    }
    Some((n, j))
}

/// The tree the records describe, with the records of its nodes in document
/// order; `None` where they do not form one tree.
pub fn build_tree(recs: &Vec<XmlRecord>) -> (r: Option<XmlNode>)
    ensures
        match r {
            Some(t) => depths_ok(recs_view(recs@)) && preorder(t, recs_view(recs@)[0].depth) == recs_view(recs@)
                && fresh(t),
            None => !depths_ok(recs_view(recs@)),
        },
{
    let ghost rv = recs_view(recs@);
    if recs.len() == 0 {
        return None;
    }
    match build_node(recs, 0) {
        None => None,
        Some((t, e)) => {
            if e < recs.len() {
                proof {
                    lemma_not_one_tree(rv, e as int);
                }
                None
            } else {
                proof {
                    assert(rv.subrange(0, e as int) =~= rv);
                    lemma_one_tree(rv);
                }
                Some(t)
            }
        },
    }
}

proof fn lemma_not_one_tree(rv: Seq<RecView>, e: int)
    requires
        0 < e < rv.len(),
        rv[e].depth <= rv[0].depth,
    ensures
        !depths_ok(rv),
{
}

proof fn lemma_one_tree(rv: Seq<RecView>)
    requires
        rv.len() > 0,
        under(rv, rv[0].depth, 0, rv.len() as int),
    ensures
        depths_ok(rv),
{
}

} // verus!
