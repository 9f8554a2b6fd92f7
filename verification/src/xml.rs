//! The configuration-document tree: named elements carrying an ordered
//! attribute list and a child list. This module walks the tree by tag name
//! at any depth, addresses elements by child-index paths, writes single
//! attributes in place, classifies connector elements by their protocol,
//! and computes the exact attribute-write set of the configure and reset
//! workflows, which it proves idempotent.

use vstd::prelude::*;

verus! {

use vstd::string::StrSliceExecFns;
use vstd::string::StringExecFns;
use crate::text::{contains_seq, lower_seq, str_eq, contains_lower, u16_to_string, dec_str};
use crate::ports::PortPlan;

broadcast use
    vstd::seq::axiom_seq_index_decreases,
    vstd::seq::axiom_seq_subrange_decreases,
    vstd::std_specs::vec::axiom_vec_index_decreases,
    vstd::string::group_string_axioms;

/// One attribute of an element.
pub struct XmlAttr {
    pub key: String,
    pub value: String,
}

/// One element of the configuration document.
pub struct XmlNode {
    pub name: String,
    pub attrs: Vec<XmlAttr>,
    pub children: Vec<XmlNode>,
}

/// The mathematical model of one attribute.
#[verifier::ext_equal]
pub struct AttrView {
    pub key: Seq<char>,
    pub value: Seq<char>,
}

/// The mathematical model of one element.
#[verifier::ext_equal]
pub struct NodeView {
    pub name: Seq<char>,
    pub attrs: Seq<AttrView>,
    pub children: Seq<NodeView>,
}

impl View for XmlAttr {
    type V = AttrView;

    open spec fn view(&self) -> AttrView {
        AttrView { key: self.key@, value: self.value@ }
    }
}

impl DeepView for XmlAttr {
    type V = AttrView;

    open spec fn deep_view(&self) -> AttrView {
        self.view()
    }
}

/// The models of a sequence of attributes.
pub open spec fn attrs_view(attrs: Seq<XmlAttr>) -> Seq<AttrView> {
    attrs.map_values(|a: XmlAttr| a@)
}

/// The models of a sequence of elements.
pub open spec fn children_view(cs: Seq<XmlNode>) -> Seq<NodeView>
    decreases cs,
{
    if cs.len() == 0 {
        Seq::empty()
    } else {
        children_view(cs.drop_last()).push(node_view(cs.last()))
    }
}

/// The mathematical model of an element subtree.
pub open spec fn node_view(n: XmlNode) -> NodeView
    decreases n,
{
    NodeView { name: n.name@, attrs: attrs_view(n.attrs@), children: children_view(n.children@) }
}

impl View for XmlNode {
    type V = NodeView;

    open spec fn view(&self) -> NodeView {
        node_view(*self)
    }
}

impl DeepView for XmlNode {
    type V = NodeView;

    open spec fn deep_view(&self) -> NodeView {
        self.view()
    }
}

/// The model of a child list is the list of the children's models.
pub proof fn lemma_children_view(cs: Seq<XmlNode>)
    ensures
        children_view(cs).len() == cs.len(),
        forall|i: int| 0 <= i < cs.len() ==> #[trigger] children_view(cs)[i] == node_view(cs[i]),
    decreases cs,
{
    if cs.len() > 0 {
        lemma_children_view(cs.drop_last());
    }
}

/// Index of the first attribute named `key`, or a negative number if no
/// attribute carries that key.
pub open spec fn attr_idx(attrs: Seq<AttrView>, key: Seq<char>) -> int
    decreases attrs.len(),
{
    if attrs.len() == 0 {
        -1
    } else if attrs[0].key == key {
        0
    } else {
        let r = attr_idx(attrs.drop_first(), key);
        if r < 0 {
            -1
        } else {
            r + 1
        }
    }
}

/// The value of the first attribute named `key`, if one exists.
pub open spec fn get_attr(attrs: Seq<AttrView>, key: Seq<char>) -> Option<Seq<char>> {
    let i = attr_idx(attrs, key);
    if i < 0 {
        Option::None
    } else {
        Option::Some(attrs[i].value)
    }
}

/// Overwrites the first attribute named `key`, or appends a new attribute
/// at the end if no attribute carries that key. Every other attribute is
/// untouched.
pub open spec fn set_attr(attrs: Seq<AttrView>, key: Seq<char>, value: Seq<char>) -> Seq<
    AttrView,
> {
    let i = attr_idx(attrs, key);
    if i < 0 {
        attrs.push(AttrView { key, value })
    } else {
        attrs.update(i, AttrView { key, value })
    }
}

/// `attr_idx` finds exactly the first attribute with the given key.
pub proof fn lemma_attr_idx(attrs: Seq<AttrView>, key: Seq<char>)
    ensures
        -1 <= attr_idx(attrs, key) < attrs.len(),
        attr_idx(attrs, key) >= 0 ==> attrs[attr_idx(attrs, key)].key == key,
        forall|t: int|
            0 <= t < attrs.len() && t < attr_idx(attrs, key) ==> attrs[t].key != key,
        attr_idx(attrs, key) < 0 ==> forall|t: int|
            0 <= t < attrs.len() ==> attrs[t].key != key,
    decreases attrs.len(),
{
    if attrs.len() > 0 && attrs[0].key != key {
        lemma_attr_idx(attrs.drop_first(), key);
        let d = attrs.drop_first();
        assert forall|t: int|
            0 <= t < attrs.len() && t < attr_idx(attrs, key) implies attrs[t].key != key by {
            if t > 0 {
                assert(attrs[t] == d[t - 1]);
            }
        }
        if attr_idx(attrs, key) < 0 {
            assert forall|t: int| 0 <= t < attrs.len() implies attrs[t].key != key by {
                if t > 0 {
                    assert(attrs[t] == d[t - 1]);
                }
            }
        }
    }
}

/// A scan that stopped at the first occurrence of `key` computed
/// `attr_idx`; a scan that found no occurrence certifies its absence.
pub proof fn lemma_attr_idx_is_first(attrs: Seq<AttrView>, key: Seq<char>, i: int)
    requires
        0 <= i < attrs.len(),
        attrs[i].key == key,
        forall|t: int| 0 <= t < i ==> attrs[t].key != key,
    ensures
        attr_idx(attrs, key) == i,
    decreases i,
{
    if i > 0 {
        lemma_attr_idx_is_first(attrs.drop_first(), key, i - 1);
    }
}

proof fn lemma_attr_idx_absent(attrs: Seq<AttrView>, key: Seq<char>)
    requires
        forall|t: int| 0 <= t < attrs.len() ==> attrs[t].key != key,
    ensures
        attr_idx(attrs, key) == -1,
    decreases attrs.len(),
{
    if attrs.len() > 0 {
        lemma_attr_idx_absent(attrs.drop_first(), key);
    }
}

/// Reading the key just written yields the written value; reading any
/// other key is unchanged; writing the same key twice keeps only the last
/// value; re-writing a value an attribute already holds changes nothing.
pub proof fn lemma_set_get_attr(attrs: Seq<AttrView>, key: Seq<char>, value: Seq<char>)
    ensures
        get_attr(set_attr(attrs, key, value), key) == Option::Some(value),
        forall|k2: Seq<char>|
            k2 != key ==> #[trigger] get_attr(set_attr(attrs, key, value), k2) == get_attr(
                attrs,
                k2,
            ),
        get_attr(attrs, key) == Option::Some(value) ==> set_attr(attrs, key, value) == attrs,
        set_attr(attrs, key, value).len() == if attr_idx(attrs, key) < 0 {
            attrs.len() + 1
        } else {
            attrs.len()
        },
{
    lemma_attr_idx(attrs, key);
    let i = attr_idx(attrs, key);
    let out = set_attr(attrs, key, value);
    if i < 0 {
        lemma_attr_idx_is_first(out, key, attrs.len() as int);
    } else {
        lemma_attr_idx_is_first(out, key, i);
        if get_attr(attrs, key) == Option::Some(value) {
            assert(attrs[i] =~= AttrView { key, value });
            assert(out =~= attrs);
        }
    }
    assert forall|k2: Seq<char>| k2 != key implies #[trigger] get_attr(out, k2) == get_attr(
        attrs,
        k2,
    ) by {
        lemma_attr_idx(attrs, k2);
        lemma_attr_idx(out, k2);
        let j = attr_idx(attrs, k2);
        if j >= 0 {
            if i >= 0 {
                lemma_attr_idx_is_first(out, k2, j);
            } else {
                lemma_attr_idx_is_first(out, k2, j);
            }
        } else {
            assert(forall|t: int| 0 <= t < out.len() ==> out[t].key != k2);
            lemma_attr_idx_absent(out, k2);
        }
    }
}

/// A child-index path is valid when every step indexes an existing child.
pub open spec fn valid_path(t: NodeView, p: Seq<usize>) -> bool
    decreases p.len(),
{
    p.len() == 0 || ((p[0] as int) < t.children.len() && valid_path(
        t.children[p[0] as int],
        p.drop_first(),
    ))
}

/// The element a valid path addresses.
pub open spec fn node_at(t: NodeView, p: Seq<usize>) -> NodeView
    decreases p.len(),
{
    if p.len() == 0 {
        t
    } else {
        node_at(t.children[p[0] as int], p.drop_first())
    }
}

/// Writes one attribute on the element a path addresses; a tree addressed
/// by an invalid path is returned unchanged.
pub open spec fn set_attr_at(t: NodeView, p: Seq<usize>, key: Seq<char>, value: Seq<char>) -> NodeView
    decreases p.len(),
{
    if !valid_path(t, p) {
        t
    } else if p.len() == 0 {
        NodeView { attrs: set_attr(t.attrs, key, value), ..t }
    } else {
        NodeView {
            children: t.children.update(
                p[0] as int,
                set_attr_at(t.children[p[0] as int], p.drop_first(), key, value),
            ),
            ..t
        }
    }
}

/// A single attribute write changes nothing but that one attribute: the
/// tree keeps its shape, every element keeps its name and child count,
/// every other attribute of every element keeps its value, and the written
/// attribute reads back as written.
pub proof fn lemma_set_attr_at(t: NodeView, p: Seq<usize>, key: Seq<char>, value: Seq<char>, q: Seq<usize>)
    ensures
        ({
            let t2 = set_attr_at(t, p, key, value);
            &&& valid_path(t2, q) == valid_path(t, q)
            &&& valid_path(t, q) ==> node_at(t2, q).name == node_at(t, q).name
            &&& valid_path(t, q) ==> node_at(t2, q).children.len() == node_at(t, q).children.len()
            &&& valid_path(t, q) ==> forall|k2: Seq<char>|
                !(q == p && k2 == key) ==> #[trigger] get_attr(node_at(t2, q).attrs, k2)
                    == get_attr(node_at(t, q).attrs, k2)
            &&& (valid_path(t, p) && q == p) ==> get_attr(node_at(t2, q).attrs, key)
                == Option::Some(value)
        }),
    decreases p.len() + q.len(),
{
    let t2 = set_attr_at(t, p, key, value);
    if !valid_path(t, p) {
        assert(t2 == t);
        return;
    }
    if p.len() == 0 {
        lemma_set_get_attr(t.attrs, key, value);
        if q.len() == 0 {
            assert(q =~= p);
            assert(node_at(t2, q) == t2);
            assert(node_at(t, q) == t);
        } else {
            assert(t2.children == t.children);
            assert(q != p);
            if valid_path(t, q) {
                assert(node_at(t2, q) == node_at(t2.children[q[0] as int], q.drop_first()));
                assert(node_at(t2, q) == node_at(t, q));
            }
        }
    } else {
        let p0 = p[0] as int;
        let pr = p.drop_first();
        let sub = t.children[p0];
        let sub2 = set_attr_at(sub, pr, key, value);
        assert(0 <= p0 < t.children.len());
        assert(t2.children == t.children.update(p0, sub2));
        assert(t2.attrs == t.attrs);
        if q.len() == 0 {
            assert(q != p);
            assert(node_at(t2, q) == t2);
            assert(node_at(t, q) == t);
        } else {
            let q0 = q[0] as int;
            let qr = q.drop_first();
            if q0 == p0 {
                lemma_set_attr_at(sub, pr, key, value, qr);
                assert(t2.children[q0] == sub2);
                assert(valid_path(t2, q) == valid_path(t, q));
                if valid_path(t, q) {
                    assert(node_at(t2, q) == node_at(sub2, qr));
                    assert(node_at(t, q) == node_at(sub, qr));
                    assert forall|k2: Seq<char>|
                        !(q == p && k2 == key) implies #[trigger] get_attr(
                        node_at(t2, q).attrs,
                        k2,
                    ) == get_attr(node_at(t, q).attrs, k2) by {
                        if qr == pr && k2 == key {
                            assert(q.len() == p.len());
                            assert forall|m: int| 0 <= m < q.len() implies q[m] == p[m] by {
                                if m > 0 {
                                    assert(q[m] == qr[m - 1]);
                                    assert(p[m] == pr[m - 1]);
                                }
                            }
                            assert(q =~= p);
                        }
                    }
                }
                if q == p {
                    assert(qr =~= pr);
                }
            } else {
                assert(q != p);
                if 0 <= q0 < t.children.len() {
                    assert(t2.children[q0] == t.children[q0]);
                    assert(valid_path(t2, q) == valid_path(t, q));
                    if valid_path(t, q) {
                        assert(node_at(t2, q) == node_at(t2.children[q0], qr));
                        assert(node_at(t, q) == node_at(t.children[q0], qr));
                    }
                } else {
                    assert(!valid_path(t, q));
                    assert(!valid_path(t2, q));
                }
            }
        }
    }
}

/// Looks up an attribute by key: the value of the first attribute carrying
/// the key, if one exists.
pub fn get_attribute<'a>(t: &'a XmlNode, key: &str) -> (r: Option<&'a String>)
    ensures
        match r {
            Option::Some(v) => get_attr(t@.attrs, key@) == Option::Some(v@),
            Option::None => get_attr(t@.attrs, key@) is None,
        },
{
    let ghost av = t@.attrs;
    proof {
        assert(av.len() == t.attrs@.len());
    }
    let mut i: usize = 0;
    while i < t.attrs.len()
        invariant
            i <= t.attrs.len(),
            av == node_view(*t).attrs,
            av.len() == t.attrs.len(),
            forall|k: int| 0 <= k < i ==> av[k].key != key@,
        decreases t.attrs.len() - i,
    {
        proof {
            assert(av[i as int] == t.attrs@[i as int]@);
        }
        if str_eq(t.attrs[i].key.as_str(), key) {
            proof {
                lemma_attr_idx_is_first(av, key@, i as int);
            }
            return Some(&t.attrs[i].value);
        }
        i += 1;
    }
    proof {
        lemma_attr_idx_absent(av, key@);
    }
    None
}

/// How a connector element is treated by the configure workflow.
#[derive(Clone, Copy, Debug, PartialEq, Eq, Structural)]
pub enum ConnectorKind {
    Http,
    Ajp,
    Other,
}

/// The element's protocol: its `protocol` attribute, defaulting to
/// `http/1.1` when absent.
pub open spec fn protocol_view(n: NodeView) -> Seq<char> {
    match get_attr(n.attrs, "protocol"@) {
        Option::Some(v) => v,
        Option::None => "http/1.1"@,
    }
}

/// Classification of a connector: the case-folded protocol is matched
/// against the substrings `http`, then `ajp`; first match wins, and an
/// unmatched protocol is left completely unmodified downstream.
pub open spec fn classify_view(n: NodeView) -> ConnectorKind {
    let p = lower_seq(protocol_view(n));
    if contains_seq(p, "http"@) {
        ConnectorKind::Http
    } else if contains_seq(p, "ajp"@) {
        ConnectorKind::Ajp
    } else {
        ConnectorKind::Other
    }
}

/// Classifies a connector element by its protocol attribute.
pub fn classify_connector(t: &XmlNode) -> (r: ConnectorKind)
    ensures
        r == classify_view(t@),
{
    let proto: &str = match get_attribute(t, "protocol") {
        Some(v) => v.as_str(),
        None => "http/1.1",
    };
    if contains_lower(proto, "http") {
        ConnectorKind::Http
    } else if contains_lower(proto, "ajp") {
        ConnectorKind::Ajp
    } else {
        ConnectorKind::Other
    }
}

/// The root's own path, when its tag matches.
pub open spec fn here_paths(t: NodeView, tag: Seq<char>) -> Seq<Seq<usize>> {
    if t.name == tag {
        seq![Seq::<usize>::empty()]
    } else {
        Seq::empty()
    }
}

/// Each path of `ps`, prefixed with child index `i`.
pub open spec fn prefix_paths(i: usize, ps: Seq<Seq<usize>>) -> Seq<Seq<usize>> {
    ps.map_values(|p: Seq<usize>| seq![i] + p)
}

/// The matching paths found under the first `n` children.
pub open spec fn collect_from(cs: Seq<NodeView>, tag: Seq<char>, n: int) -> Seq<Seq<usize>>
    decreases cs, n,
{
    if n <= 0 || n > cs.len() {
        Seq::empty()
    } else {
        collect_from(cs, tag, n - 1) + prefix_paths(
            (n - 1) as usize,
            collect_spec(cs[n - 1], tag),
        )
    }
}

/// Every path, in depth-last order, whose element's tag equals `tag`; the
/// root itself included.
pub open spec fn collect_spec(t: NodeView, tag: Seq<char>) -> Seq<Seq<usize>>
    decreases t, 1int,
{
    here_paths(t, tag) + collect_from(t.children, tag, t.children.len() as int)
}

fn prepend_path(i: usize, p: &Vec<usize>) -> (r: Vec<usize>)
    ensures
        r@ == seq![i] + p@,
{
    let mut r: Vec<usize> = Vec::new();
    r.push(i);
    proof {
        assert(r@ =~= seq![i] + p@.take(0));
    }
    let mut k: usize = 0;
    while k < p.len()
        invariant
            k <= p.len(),
            r@ == seq![i] + p@.take(k as int),
        decreases p.len() - k,
    {
        r.push(p[k]);
        proof {
            assert(r@ =~= seq![i] + p@.take(k + 1));
        }
        k += 1;
    }
    proof {
        assert(p@.take(p.len() as int) =~= p@);
    }
    r
}

fn find_attr(attrs: &Vec<XmlAttr>, key: &str) -> (r: Option<usize>)
    ensures
        match r {
            Option::Some(i) => i < attrs.len() && attr_idx(attrs_view(attrs@), key@) == i,
            Option::None => attr_idx(attrs_view(attrs@), key@) == -1,
        },
{
    let ghost av = attrs_view(attrs@);
    let mut i: usize = 0;
    while i < attrs.len()
        invariant
            i <= attrs.len(),
            av == attrs_view(attrs@),
            av.len() == attrs.len(),
            forall|k: int| 0 <= k < i ==> av[k].key != key@,
        decreases attrs.len() - i,
    {
        proof {
            assert(av[i as int] == attrs@[i as int]@);
        }
        if str_eq(attrs[i].key.as_str(), key) {
            proof {
                lemma_attr_idx_is_first(av, key@, i as int);
            }
            return Some(i);
        }
        i += 1;
    }
    proof {
        lemma_attr_idx_absent(av, key@);
    }
    None
}

fn set_attr_exec(attrs: &mut Vec<XmlAttr>, key: &str, value: &str)
    ensures
        attrs_view(final(attrs)@) == set_attr(attrs_view(old(attrs)@), key@, value@),
{
    let a = XmlAttr { key: key.to_owned(), value: value.to_owned() };
    match find_attr(attrs, key) {
        Some(i) => {
            attrs.set(i, a);
            proof {
                assert(attrs_view(final(attrs)@) =~= set_attr(
                    attrs_view(old(attrs)@),
                    key@,
                    value@,
                ));
            }
        },
        None => {
            attrs.push(a);
            proof {
                assert(attrs_view(final(attrs)@) =~= set_attr(
                    attrs_view(old(attrs)@),
                    key@,
                    value@,
                ));
            }
        },
    }
}

fn set_attribute_rec(t: XmlNode, path: &Vec<usize>, pos: usize, key: &str, value: &str) -> (r: XmlNode)
    requires
        pos <= path.len(),
    ensures
        r@ == set_attr_at(t@, path@.skip(pos as int), key@, value@),
    decreases path.len() - pos,
{
    let ghost p = path@.skip(pos as int);
    let ghost t0 = t@;
    if pos == path.len() {
        let mut u = t;
        set_attr_exec(&mut u.attrs, key, value);
        proof {
            assert(p.len() == 0);
            assert(valid_path(t0, p));
            assert(node_view(u) =~= set_attr_at(t0, p, key@, value@));
        }
        u
    } else {
        let idx: usize = path[pos];
        let ghost cs0 = t.children@;
        proof {
            lemma_children_view(cs0);
        }
        if idx >= t.children.len() {
            proof {
                assert(p[0] == idx);
                assert(!valid_path(t0, p));
            }
            return t;
        }
        let mut u = t;
        let child: XmlNode = u.children.remove(idx);
        let child2: XmlNode = set_attribute_rec(child, path, pos + 1, key, value);
        proof {
            assert(p.drop_first() =~= path@.skip(pos + 1));
        }
        u.children.insert(idx, child2);
        proof {
            assert(u.children@ =~= cs0.update(idx as int, child2));
            lemma_children_view(u.children@);
            assert(node_view(child) == t0.children[idx as int]);
            if valid_path(t0, p) {
                assert(children_view(u.children@) =~= t0.children.update(
                    idx as int,
                    set_attr_at(t0.children[idx as int], p.drop_first(), key@, value@),
                ));
                assert(node_view(u) =~= set_attr_at(t0, p, key@, value@));
            } else {
                assert(!valid_path(t0.children[idx as int], p.drop_first()));
                assert(node_view(child2) == node_view(child));
                assert(children_view(u.children@) =~= t0.children);
                assert(node_view(u) =~= t0);
            }
        }
        u
    }
}

/// Writes one attribute on the element `path` addresses, leaving every
/// other attribute and every other element untouched; a tree addressed by
/// an invalid path is returned unchanged.
pub fn set_attribute(t: XmlNode, path: &Vec<usize>, key: &str, value: &str) -> (r: XmlNode)
    ensures
        r@ == set_attr_at(t@, path@, key@, value@),
{
    proof {
        assert(path@.skip(0) =~= path@);
    }
    set_attribute_rec(t, path, 0, key, value)
}

/// One pending attribute write: the element addressed by `path` gets the
/// attribute `key` set to `value`.
pub struct AttrWrite {
    pub path: Vec<usize>,
    pub key: String,
    pub value: String,
}

/// The mathematical model of one pending write.
#[verifier::ext_equal]
pub struct WriteView {
    pub path: Seq<usize>,
    pub key: Seq<char>,
    pub value: Seq<char>,
}

impl View for AttrWrite {
    type V = WriteView;

    open spec fn view(&self) -> WriteView {
        WriteView { path: self.path@, key: self.key@, value: self.value@ }
    }
}

impl DeepView for AttrWrite {
    type V = WriteView;

    open spec fn deep_view(&self) -> WriteView {
        self.view()
    }
}

/// The tree after performing the writes in order.
pub open spec fn apply_writes_spec(t: NodeView, ws: Seq<WriteView>) -> NodeView
    decreases ws.len(),
{
    if ws.len() == 0 {
        t
    } else {
        apply_writes_spec(set_attr_at(t, ws[0].path, ws[0].key, ws[0].value), ws.drop_first())
    }
}

/// Performs the writes in order, front to back.
pub fn apply_writes(t: XmlNode, writes: &Vec<AttrWrite>) -> (r: XmlNode)
    ensures
        r@ == apply_writes_spec(t@, writes.deep_view()),
{
    let ghost ws = writes.deep_view();
    let ghost t0 = t@;
    let mut cur = t;
    let mut i: usize = 0;
    proof {
        assert(ws.skip(0) =~= ws);
    }
    while i < writes.len()
        invariant
            i <= writes.len(),
            ws == writes.deep_view(),
            ws.len() == writes.len(),
            apply_writes_spec(t0, ws) == apply_writes_spec(cur@, ws.skip(i as int)),
        decreases writes.len() - i,
    {
        let w: &AttrWrite = &writes[i];
        proof {
            assert(w@ == ws[i as int]);
        }
        cur = set_attribute(cur, &w.path, w.key.as_str(), w.value.as_str());
        proof {
            assert(ws.skip(i as int).drop_first() =~= ws.skip(i + 1));
        }
        i += 1;
    }
    proof {
        assert(ws.skip(ws.len() as int).len() == 0);
    }
    cur
}

fn node_at_ref<'a>(t: &'a XmlNode, path: &Vec<usize>) -> (r: &'a XmlNode)
    requires
        valid_path(t@, path@),
    ensures
        r@ == node_at(t@, path@),
{
    let mut cur: &XmlNode = t;
    let mut pos: usize = 0;
    proof {
        assert(path@.skip(0) =~= path@);
    }
    while pos < path.len()
        invariant
            pos <= path.len(),
            valid_path(cur@, path@.skip(pos as int)),
            node_at(t@, path@) == node_at(cur@, path@.skip(pos as int)),
        decreases path.len() - pos,
    {
        proof {
            lemma_children_view(cur.children@);
            assert(path@.skip(pos as int)[0] == path@[pos as int]);
            assert(path@.skip(pos as int).drop_first() =~= path@.skip(pos + 1));
        }
        cur = &cur.children[path[pos]];
        pos += 1;
    }
    proof {
        assert(path@.skip(path.len() as int).len() == 0);
    }
    cur
}

/// The connector port writes for the element at `p`: an HTTP connector
/// gets the plan's HTTP port, an AJP connector the plan's AJP port, both
/// get the SSL redirect port, and an unrecognised connector gets nothing.
pub open spec fn connector_writes(t: NodeView, p: Seq<usize>, plan: PortPlan) -> Seq<WriteView> {
    match classify_view(node_at(t, p)) {
        ConnectorKind::Http => seq![
            WriteView { path: p, key: "port"@, value: dec_str(plan.http_port as int) },
            WriteView {
                path: p,
                key: "redirectPort"@,
                value: dec_str(plan.ssl_redirect_port as int),
            },
        ],
        ConnectorKind::Ajp => seq![
            WriteView { path: p, key: "port"@, value: dec_str(plan.ajp_port as int) },
            WriteView {
                path: p,
                key: "redirectPort"@,
                value: dec_str(plan.ssl_redirect_port as int),
            },
        ],
        ConnectorKind::Other => Seq::empty(),
    }
}

/// The connector writes of all the listed elements, in order.
pub open spec fn connectors_writes(t: NodeView, ps: Seq<Seq<usize>>, plan: PortPlan) -> Seq<
    WriteView,
>
    decreases ps.len(),
{
    if ps.len() == 0 {
        Seq::empty()
    } else {
        connector_writes(t, ps[0], plan) + connectors_writes(t, ps.drop_first(), plan)
    }
}

/// Whether the root element receives the shutdown-port write: always,
/// unless the root is itself a connector about to receive a connector
/// write for the same `port` attribute, in which case the connector write
/// alone already yields the final document.
pub open spec fn root_gets_shutdown_write(t: NodeView) -> bool {
    !(t.name == "Connector"@ && classify_view(t) != ConnectorKind::Other)
}

/// The root shutdown-port write, where the root receives one.
pub open spec fn root_writes(t: NodeView, plan: PortPlan) -> Seq<WriteView> {
    if root_gets_shutdown_write(t) {
        seq![
            WriteView {
                path: Seq::empty(),
                key: "port"@,
                value: dec_str(plan.shutdown_port as int),
            },
        ]
    } else {
        Seq::empty()
    }
}

/// The full write set of the configure workflow on the server document:
/// the root's shutdown port, then for every connector element, at any
/// depth, its classified port writes. Each element-attribute pair is
/// written at most once.
pub open spec fn server_writes_spec(t: NodeView, plan: PortPlan) -> Seq<WriteView> {
    root_writes(t, plan) + connectors_writes(t, collect_spec(t, "Connector"@), plan)
}

/// Computes the configure workflow's writes on the server document.
pub fn server_document_writes(t: &XmlNode, plan: &PortPlan) -> (r: Vec<AttrWrite>)
    ensures
        r.deep_view() == server_writes_spec(t@, *plan),
{
    let mut out: Vec<AttrWrite> = Vec::new();
    let is_conn_root: bool = str_eq(t.name.as_str(), "Connector");
    let root_kind: ConnectorKind = if is_conn_root {
        classify_connector(t)
    } else {
        ConnectorKind::Other
    };
    if !(is_conn_root && !matches!(root_kind, ConnectorKind::Other)) {
        out.push(
            AttrWrite {
                path: Vec::new(),
                key: String::from_str("port"),
                value: u16_to_string(plan.shutdown_port),
            },
        );
    }
    proof {
        assert(out.deep_view() =~~= root_writes(t@, *plan));
    }
    let ghost base = out.deep_view();
    let conns: Vec<Vec<usize>> = collect_by_tag(t, "Connector");
    let ghost ps = conns.deep_view();
    proof {
        lemma_node_view_bounded(*t);
        lemma_collect_by_tag(t@, "Connector"@);
        assert(ps.skip(0) =~= ps);
    }
    let mut i: usize = 0;
    while i < conns.len()
        invariant
            i <= conns.len(),
            ps == conns.deep_view(),
            ps.len() == conns.len(),
            base == root_writes(t@, *plan),
            forall|k: int| 0 <= k < ps.len() ==> valid_path(t@, #[trigger] ps[k]),
            base + connectors_writes(t@, ps, *plan) == out.deep_view() + connectors_writes(
                t@,
                ps.skip(i as int),
                *plan,
            ),
        decreases conns.len() - i,
    {
        let path: &Vec<usize> = &conns[i];
        proof {
            assert(path@ == ps[i as int]);
        }
        let kind: ConnectorKind = classify_connector(node_at_ref(t, path));
        let ghost prev = out.deep_view();
        match kind {
            ConnectorKind::Http => {
                out.push(
                    AttrWrite {
                        path: path.clone(),
                        key: String::from_str("port"),
                        value: u16_to_string(plan.http_port),
                    },
                );
                out.push(
                    AttrWrite {
                        path: path.clone(),
                        key: String::from_str("redirectPort"),
                        value: u16_to_string(plan.ssl_redirect_port),
                    },
                );
                proof {
                    assert(out.deep_view() =~~= prev + connector_writes(t@, ps[i as int], *plan));
                }
            },
            ConnectorKind::Ajp => {
                out.push(
                    AttrWrite {
                        path: path.clone(),
                        key: String::from_str("port"),
                        value: u16_to_string(plan.ajp_port),
                    },
                );
                out.push(
                    AttrWrite {
                        path: path.clone(),
                        key: String::from_str("redirectPort"),
                        value: u16_to_string(plan.ssl_redirect_port),
                    },
                );
                proof {
                    assert(out.deep_view() =~~= prev + connector_writes(t@, ps[i as int], *plan));
                }
            },
            ConnectorKind::Other => {
                proof {
                    assert(out.deep_view() =~~= prev + connector_writes(t@, ps[i as int], *plan));
                }
            },
        }
        proof {
            assert(ps.skip(i as int).drop_first() =~= ps.skip(i + 1));
            assert(connectors_writes(t@, ps.skip(i as int), *plan) == connector_writes(
                t@,
                ps[i as int],
                *plan,
            ) + connectors_writes(t@, ps.skip(i + 1), *plan));
            assert(base + connectors_writes(t@, ps, *plan) =~~= out.deep_view()
                + connectors_writes(t@, ps.skip(i + 1), *plan));
        }
        i += 1;
    }
    proof {
        assert(connectors_writes(t@, ps.skip(ps.len() as int), *plan).len() == 0);
        assert(out.deep_view() =~~= base + connectors_writes(t@, ps, *plan));
        assert(ps == collect_spec(t@, "Connector"@));
    }
    out
}

/// The single write of the configure workflow on the context document: the
/// session cookie name on the root element.
pub open spec fn context_writes_spec(plan: PortPlan) -> Seq<WriteView> {
    seq![
        WriteView {
            path: Seq::empty(),
            key: "sessionCookieName"@,
            value: plan.session_cookie_name@,
        },
    ]
}

/// Computes the configure workflow's writes on the context document.
pub fn context_document_writes(plan: &PortPlan) -> (r: Vec<AttrWrite>)
    ensures
        r.deep_view() == context_writes_spec(*plan),
{
    let mut out: Vec<AttrWrite> = Vec::new();
    out.push(
        AttrWrite {
            path: Vec::new(),
            key: String::from_str("sessionCookieName"),
            value: plan.session_cookie_name.clone(),
        },
    );
    proof {
        assert(out.deep_view() =~~= context_writes_spec(*plan));
    }
    out
}

/// The server document after the configure workflow's writes.
pub open spec fn configure_server_spec(t: NodeView, plan: PortPlan) -> NodeView {
    apply_writes_spec(t, server_writes_spec(t, plan))
}

/// Applies the configure workflow to the server document: the root's
/// shutdown port and every connector's classified ports.
pub fn configure_server(t: XmlNode, plan: &PortPlan) -> (r: XmlNode)
    ensures
        r@ == configure_server_spec(t@, *plan),
{
    let ws: Vec<AttrWrite> = server_document_writes(&t, plan);
    apply_writes(t, &ws)
}

/// A tree every element of which has machine-representable child counts:
/// the model of every in-memory tree.
pub open spec fn bounded_tree(t: NodeView) -> bool
    decreases t,
{
    t.children.len() <= usize::MAX && (forall|i: int|
        0 <= i < t.children.len() ==> bounded_tree(#[trigger] t.children[i]))
}

/// The model of an in-memory tree is bounded.
pub proof fn lemma_node_view_bounded(n: XmlNode)
    ensures
        bounded_tree(node_view(n)),
    decreases n,
{
    vstd::std_specs::vec::axiom_spec_len(&n.children);
    lemma_children_view(n.children@);
    assert forall|i: int|
        0 <= i < node_view(n).children.len() implies bounded_tree(
        #[trigger] node_view(n).children[i],
    ) by {
        lemma_node_view_bounded(n.children@[i]);
    }
}

/// Every path `collect_by_tag` returns is valid and addresses an element
/// with the requested tag; every element with the tag, at any depth, is
/// found, exactly once; and the returned paths are pairwise distinct: the
/// traversal finds the set of matching elements, whatever its order.
pub proof fn lemma_collect_by_tag(t: NodeView, tag: Seq<char>)
    requires
        bounded_tree(t),
    ensures
        forall|k: int|
            0 <= k < collect_spec(t, tag).len() ==> valid_path(
                t,
                #[trigger] collect_spec(t, tag)[k],
            ) && node_at(t, collect_spec(t, tag)[k]).name == tag,
        forall|p: Seq<usize>|
            valid_path(t, p) && node_at(t, p).name == tag ==> collect_spec(t, tag).contains(p),
        forall|k1: int, k2: int|
            0 <= k1 < k2 < collect_spec(t, tag).len() ==> collect_spec(t, tag)[k1]
                != collect_spec(t, tag)[k2],
    decreases t, 1int,
{
    let c = collect_spec(t, tag);
    let cf = collect_from(t.children, tag, t.children.len() as int);
    lemma_collect_from(t.children, tag, t.children.len() as int);
    assert forall|k: int| 0 <= k < c.len() implies valid_path(t, #[trigger] c[k]) && node_at(
        t,
        c[k],
    ).name == tag by {
        if t.name == tag && k == 0 {
            assert(c[k] == Seq::<usize>::empty());
        } else {
            let kk = k - here_paths(t, tag).len();
            assert(c[k] == cf[kk]);
            assert(cf[kk].len() > 0);
            assert(valid_path(t, cf[kk]));
        }
    }
    assert forall|p: Seq<usize>|
        valid_path(t, p) && node_at(t, p).name == tag implies c.contains(p) by {
        if p.len() == 0 {
            assert(t.name == tag);
            assert(p =~= Seq::<usize>::empty());
            assert(c[0] == p);
            assert(c.contains(p));
        } else {
            assert((p[0] as int) < t.children.len());
            assert(cf.contains(p));
            let w = choose|w: int| 0 <= w < cf.len() && cf[w] == p;
            assert(c[here_paths(t, tag).len() + w] == p);
            assert(c.contains(p));
        }
    }
    assert forall|k1: int, k2: int|
        0 <= k1 < k2 < c.len() implies c[k1] != c[k2] by {
        let h = here_paths(t, tag).len() as int;
        if k1 >= h {
            assert(c[k1] == cf[k1 - h]);
            assert(c[k2] == cf[k2 - h]);
        } else {
            assert(c[k1].len() == 0);
            assert(c[k2] == cf[k2 - h]);
            assert(cf[k2 - h].len() > 0);
        }
    }
}

proof fn lemma_collect_from(cs: Seq<NodeView>, tag: Seq<char>, n: int)
    requires
        n <= cs.len() <= usize::MAX,
        forall|i: int| 0 <= i < cs.len() ==> bounded_tree(#[trigger] cs[i]),
    ensures
        ({
            let cf = collect_from(cs, tag, n);
            &&& forall|k: int|
                0 <= k < cf.len() ==> (#[trigger] cf[k]).len() > 0 && 0 <= (cf[k][0] as int) < n
                    && valid_path(cs[cf[k][0] as int], cf[k].drop_first()) && node_at(
                    cs[cf[k][0] as int],
                    cf[k].drop_first(),
                ).name == tag
            &&& forall|p: Seq<usize>|
                p.len() > 0 && 0 <= (p[0] as int) < n && valid_path(
                    cs[p[0] as int],
                    p.drop_first(),
                ) && node_at(cs[p[0] as int], p.drop_first()).name == tag ==> cf.contains(p)
            &&& forall|k1: int, k2: int| 0 <= k1 < k2 < cf.len() ==> cf[k1] != cf[k2]
        }),
    decreases cs, n,
{
    if n <= 0 {
        return;
    }
    let cf = collect_from(cs, tag, n);
    let rest = collect_from(cs, tag, n - 1);
    let child = cs[n - 1];
    let sub = collect_spec(child, tag);
    let pref = prefix_paths((n - 1) as usize, sub);
    lemma_collect_from(cs, tag, n - 1);
    lemma_collect_by_tag(child, tag);
    assert(cf == rest + pref);
    assert forall|k: int|
        0 <= k < cf.len() implies (#[trigger] cf[k]).len() > 0 && 0 <= (cf[k][0] as int) < n
            && valid_path(cs[cf[k][0] as int], cf[k].drop_first()) && node_at(
            cs[cf[k][0] as int],
            cf[k].drop_first(),
        ).name == tag by {
        if k < rest.len() {
            assert(cf[k] == rest[k]);
        } else {
            let m = k - rest.len();
            assert(cf[k] == pref[m]);
            assert(pref[m] == seq![(n - 1) as usize] + sub[m]);
            assert(cf[k][0] == (n - 1) as usize);
            assert(cf[k].drop_first() =~= sub[m]);
        }
    }
    assert forall|p: Seq<usize>|
        p.len() > 0 && 0 <= (p[0] as int) < n && valid_path(cs[p[0] as int], p.drop_first())
            && node_at(cs[p[0] as int], p.drop_first()).name == tag implies cf.contains(p) by {
        if (p[0] as int) < n - 1 {
            assert(rest.contains(p));
            let w = choose|w: int| 0 <= w < rest.len() && rest[w] == p;
            assert(cf[w] == p);
        } else {
            assert(sub.contains(p.drop_first()));
            let w = choose|w: int| 0 <= w < sub.len() && sub[w] == p.drop_first();
            assert(pref[w] == seq![(n - 1) as usize] + sub[w]);
            assert(pref[w] =~= p);
            assert(cf[rest.len() + w] == pref[w]);
        }
    }
    assert forall|k1: int, k2: int| 0 <= k1 < k2 < cf.len() implies cf[k1] != cf[k2] by {
        if k2 < rest.len() {
        } else if k1 >= rest.len() {
            let m1 = k1 - rest.len();
            let m2 = k2 - rest.len();
            assert(cf[k1] == pref[m1]);
            assert(cf[k2] == pref[m2]);
            if pref[m1] == pref[m2] {
                assert(pref[m1] == seq![(n - 1) as usize] + sub[m1]);
                assert(pref[m2] == seq![(n - 1) as usize] + sub[m2]);
                assert(sub[m1] =~= pref[m1].drop_first());
                assert(sub[m2] =~= pref[m2].drop_first());
                assert(false);
            }
        } else {
            assert(cf[k1] == rest[k1]);
            assert(cf[k2] == pref[k2 - rest.len()]);
            assert((rest[k1][0] as int) < n - 1);
            assert(cf[k2][0] == (n - 1) as usize);
        }
    }
}

/// Collects every element whose tag equals `tag`, at any depth, as
/// child-index paths. Callers must not depend on the order of the returned
/// paths; `lemma_collect_by_tag` states which set of elements is found.
pub fn collect_by_tag(t: &XmlNode, tag: &str) -> (r: Vec<Vec<usize>>)
    ensures
        r.deep_view() == collect_spec(t@, tag@),
    decreases *t,
{
    let ghost tv = t@;
    let mut r: Vec<Vec<usize>> = Vec::new();
    if str_eq(t.name.as_str(), tag) {
        r.push(Vec::new());
    }
    proof {
        lemma_children_view(t.children@);
        assert(r.deep_view() =~~= here_paths(tv, tag@) + collect_from(tv.children, tag@, 0));
    }
    let mut i: usize = 0;
    while i < t.children.len()
        invariant
            i <= t.children.len(),
            tv == node_view(*t),
            tv.children.len() == t.children.len(),
            r.deep_view() == here_paths(tv, tag@) + collect_from(tv.children, tag@, i as int),
        decreases t.children.len() - i,
    {
        let sub: Vec<Vec<usize>> = collect_by_tag(&t.children[i], tag);
        proof {
            lemma_children_view(t.children@);
            assert(tv.children[i as int] == node_view(t.children@[i as int]));
        }
        let ghost mid = r.deep_view();
        let mut j: usize = 0;
        proof {
            assert(prefix_paths(i, sub.deep_view()).take(0) =~= Seq::<Seq<usize>>::empty());
            assert(mid + prefix_paths(i, sub.deep_view()).take(0) =~~= mid);
        }
        while j < sub.len()
            invariant
                j <= sub.len(),
                sub.deep_view().len() == sub.len(),
                r.deep_view() == mid + prefix_paths(i, sub.deep_view()).take(j as int),
            decreases sub.len() - j,
        {
            let q = prepend_path(i, &sub[j]);
            proof {
                assert(q@ == prefix_paths(i, sub.deep_view())[j as int]);
            }
            let ghost prev = r.deep_view();
            r.push(q);
            proof {
                assert(r.deep_view() =~~= prev.push(q@));
                assert(prefix_paths(i, sub.deep_view()).take(j + 1) =~= prefix_paths(
                    i,
                    sub.deep_view(),
                ).take(j as int).push(prefix_paths(i, sub.deep_view())[j as int]));
                assert(r.deep_view() =~~= mid + prefix_paths(i, sub.deep_view()).take(j + 1));
            }
            j += 1;
        }
        proof {
            assert(prefix_paths(i, sub.deep_view()).take(sub.len() as int) =~= prefix_paths(
                i,
                sub.deep_view(),
            ));
            assert(r.deep_view() =~~= here_paths(tv, tag@) + collect_from(
                tv.children,
                tag@,
                i + 1,
            ));
        }
        i += 1;
    }
    r
}

/// No two writes target the same attribute of the same element.
pub open spec fn writes_distinct(ws: Seq<WriteView>) -> bool {
    forall|i: int, j: int|
        0 <= i < j < ws.len() ==> !((#[trigger] ws[i]).path == (#[trigger] ws[j]).path
            && ws[i].key == ws[j].key)
}

proof fn lemma_apply_writes_preserves(t: NodeView, ws: Seq<WriteView>, q: Seq<usize>, k: Seq<char>)
    ensures
        ({
            let t2 = apply_writes_spec(t, ws);
            &&& valid_path(t2, q) == valid_path(t, q)
            &&& valid_path(t, q) ==> node_at(t2, q).name == node_at(t, q).name
            &&& valid_path(t, q) ==> node_at(t2, q).children.len() == node_at(t, q).children.len()
            &&& (valid_path(t, q) && (forall|i: int|
                0 <= i < ws.len() ==> !((#[trigger] ws[i]).path == q && ws[i].key == k)))
                ==> get_attr(node_at(t2, q).attrs, k) == get_attr(node_at(t, q).attrs, k)
        }),
    decreases ws.len(),
{
    if ws.len() > 0 {
        let w = ws[0];
        let rest = ws.drop_first();
        let s1 = set_attr_at(t, w.path, w.key, w.value);
        lemma_set_attr_at(t, w.path, w.key, w.value, q);
        lemma_apply_writes_preserves(s1, rest, q, k);
        assert(forall|i: int| 0 <= i < rest.len() ==> #[trigger] rest[i] == ws[i + 1]);
    }
}

proof fn lemma_set_redundant(t: NodeView, p: Seq<usize>, k: Seq<char>, v: Seq<char>)
    requires
        valid_path(t, p),
        get_attr(node_at(t, p).attrs, k) == Option::Some(v),
    ensures
        set_attr_at(t, p, k, v) == t,
    decreases p.len(),
{
    if p.len() == 0 {
        lemma_set_get_attr(t.attrs, k, v);
        assert(set_attr_at(t, p, k, v) =~= t);
    } else {
        let p0 = p[0] as int;
        lemma_set_redundant(t.children[p0], p.drop_first(), k, v);
        assert(t.children.update(p0, t.children[p0]) =~= t.children);
        assert(set_attr_at(t, p, k, v) =~= t);
    }
}

proof fn lemma_apply_twice(s: NodeView, ws: Seq<WriteView>)
    requires
        writes_distinct(ws),
    ensures
        apply_writes_spec(apply_writes_spec(s, ws), ws) == apply_writes_spec(s, ws),
    decreases ws.len(),
{
    if ws.len() == 0 {
        return;
    }
    let w = ws[0];
    let rest = ws.drop_first();
    let s1 = set_attr_at(s, w.path, w.key, w.value);
    assert(forall|i: int| 0 <= i < rest.len() ==> #[trigger] rest[i] == ws[i + 1]);
    assert(writes_distinct(rest));
    let t1 = apply_writes_spec(s1, rest);
    assert(apply_writes_spec(s, ws) == t1);
    if valid_path(s, w.path) {
        lemma_set_attr_at(s, w.path, w.key, w.value, w.path);
        lemma_apply_writes_preserves(s1, rest, w.path, w.key);
        assert(get_attr(node_at(t1, w.path).attrs, w.key) == Option::Some(w.value));
        lemma_set_redundant(t1, w.path, w.key, w.value);
        assert(set_attr_at(t1, w.path, w.key, w.value) == t1);
    } else {
        assert(s1 == s);
        lemma_apply_writes_preserves(s1, rest, w.path, w.key);
        assert(!valid_path(t1, w.path));
        assert(set_attr_at(t1, w.path, w.key, w.value) == t1);
    }
    lemma_apply_twice(s1, rest);
    assert(apply_writes_spec(t1, ws) == apply_writes_spec(
        set_attr_at(t1, w.path, w.key, w.value),
        rest,
    ));
    assert(apply_writes_spec(t1, rest) == t1);
}

proof fn lemma_collect_from_same(cs1: Seq<NodeView>, cs2: Seq<NodeView>, tag: Seq<char>, n: int)
    requires
        cs1.len() == cs2.len(),
        n <= cs1.len(),
        forall|i: int|
            0 <= i < n ==> collect_spec(#[trigger] cs1[i], tag) == collect_spec(cs2[i], tag),
    ensures
        collect_from(cs1, tag, n) == collect_from(cs2, tag, n),
    decreases n,
{
    if n > 0 {
        lemma_collect_from_same(cs1, cs2, tag, n - 1);
    }
}

proof fn lemma_collect_same(t1: NodeView, t2: NodeView, tag: Seq<char>)
    requires
        bounded_tree(t2),
        forall|q: Seq<usize>| valid_path(t1, q) == valid_path(t2, q),
        forall|q: Seq<usize>| valid_path(t1, q) ==> node_at(t1, q).name == node_at(t2, q).name,
        forall|q: Seq<usize>|
            valid_path(t1, q) ==> node_at(t1, q).children.len() == node_at(t2, q).children.len(),
    ensures
        collect_spec(t1, tag) == collect_spec(t2, tag),
    decreases t2,
{
    let e = Seq::<usize>::empty();
    assert(valid_path(t1, e));
    assert(node_at(t1, e) == t1 && node_at(t2, e) == t2);
    assert(t1.name == t2.name);
    assert(t1.children.len() == t2.children.len());
    assert forall|i: int|
        0 <= i < t1.children.len() implies collect_spec(#[trigger] t1.children[i], tag)
        == collect_spec(t2.children[i], tag) by {
        let c1 = t1.children[i];
        let c2 = t2.children[i];
        assert forall|q: Seq<usize>| valid_path(c1, q) == valid_path(c2, q) by {
            let pre = seq![(i as usize)] + q;
            assert(pre[0] == i as usize);
            assert(pre.drop_first() =~= q);
            assert(valid_path(t1, pre) == valid_path(c1, q));
            assert(valid_path(t2, pre) == valid_path(c2, q));
        }
        assert forall|q: Seq<usize>| valid_path(c1, q) implies node_at(c1, q).name == node_at(
            c2,
            q,
        ).name && node_at(c1, q).children.len() == node_at(c2, q).children.len() by {
            let pre = seq![(i as usize)] + q;
            assert(pre[0] == i as usize);
            assert(pre.drop_first() =~= q);
            assert(valid_path(t1, pre) == valid_path(c1, q));
            assert(node_at(t1, pre) == node_at(c1, q));
            assert(node_at(t2, pre) == node_at(c2, q));
        }
        lemma_collect_same(c1, c2, tag);
    }
    lemma_collect_from_same(t1.children, t2.children, tag, t1.children.len() as int);
}

proof fn lemma_connectors_writes_same(
    t1: NodeView,
    t2: NodeView,
    ps: Seq<Seq<usize>>,
    plan: PortPlan,
)
    requires
        forall|i: int|
            0 <= i < ps.len() ==> classify_view(node_at(t1, #[trigger] ps[i])) == classify_view(
                node_at(t2, ps[i]),
            ),
    ensures
        connectors_writes(t1, ps, plan) == connectors_writes(t2, ps, plan),
    decreases ps.len(),
{
    if ps.len() > 0 {
        assert(forall|i: int|
            0 <= i < ps.drop_first().len() ==> #[trigger] ps.drop_first()[i] == ps[i + 1]);
        lemma_connectors_writes_same(t1, t2, ps.drop_first(), plan);
        assert(connector_writes(t1, ps[0], plan) == connector_writes(t2, ps[0], plan));
    }
}

proof fn lemma_connectors_writes_facts(t: NodeView, ps: Seq<Seq<usize>>, plan: PortPlan)
    requires
        forall|i: int, j: int| 0 <= i < j < ps.len() ==> ps[i] != ps[j],
    ensures
        ({
            let cw = connectors_writes(t, ps, plan);
            &&& forall|k: int|
                0 <= k < cw.len() ==> ((#[trigger] cw[k]).key == "port"@ || cw[k].key
                    == "redirectPort"@)
            &&& forall|k: int|
                0 <= k < cw.len() ==> ps.contains((#[trigger] cw[k]).path) && classify_view(
                    node_at(t, cw[k].path),
                ) != ConnectorKind::Other
            &&& writes_distinct(cw)
        }),
    decreases ps.len(),
{
    reveal_strlit("port");
    reveal_strlit("redirectPort");
    if ps.len() == 0 {
        return;
    }
    let p0 = ps[0];
    let b = connector_writes(t, p0, plan);
    let rest_ps = ps.drop_first();
    let rw = connectors_writes(t, rest_ps, plan);
    let cw = connectors_writes(t, ps, plan);
    assert(cw == b + rw);
    assert(forall|i: int| 0 <= i < rest_ps.len() ==> #[trigger] rest_ps[i] == ps[i + 1]);
    lemma_connectors_writes_facts(t, rest_ps, plan);
    assert("port"@.len() == 4);
    assert("redirectPort"@.len() == 12);
    assert("port"@ != "redirectPort"@);
    assert forall|k: int|
        0 <= k < cw.len() implies ps.contains((#[trigger] cw[k]).path) && classify_view(
        node_at(t, cw[k].path),
    ) != ConnectorKind::Other by {
        if k < b.len() {
            assert(cw[k] == b[k]);
            assert(ps[0] == p0);
            assert(ps.contains(p0));
        } else {
            assert(cw[k] == rw[k - b.len()]);
            let m = choose|m: int| 0 <= m < rest_ps.len() && rest_ps[m] == rw[k - b.len()].path;
            assert(ps[m + 1] == rw[k - b.len()].path);
            assert(ps.contains(cw[k].path));
        }
    }
    assert forall|k1: int, k2: int|
        0 <= k1 < k2 < cw.len() implies !((#[trigger] cw[k1]).path == (#[trigger] cw[k2]).path
        && cw[k1].key == cw[k2].key) by {
        if k2 < b.len() {
            assert(b.len() == 2);
            assert(cw[k1] == b[0] && cw[k2] == b[1]);
        } else if k1 >= b.len() {
            assert(cw[k1] == rw[k1 - b.len()]);
            assert(cw[k2] == rw[k2 - b.len()]);
        } else {
            assert(cw[k1] == b[k1]);
            assert(cw[k2] == rw[k2 - b.len()]);
            assert(cw[k1].path == p0);
            if cw[k2].path == p0 {
                let m = choose|m: int| 0 <= m < rest_ps.len() && rest_ps[m] == rw[k2 - b.len()].path;
                assert(ps[m + 1] == p0);
                assert(false);
            }
        }
    }
}

proof fn lemma_server_writes_facts(t: NodeView, plan: PortPlan)
    requires
        bounded_tree(t),
    ensures
        ({
            let ws = server_writes_spec(t, plan);
            &&& forall|k: int|
                0 <= k < ws.len() ==> ((#[trigger] ws[k]).key == "port"@ || ws[k].key
                    == "redirectPort"@)
            &&& writes_distinct(ws)
        }),
{
    reveal_strlit("port");
    reveal_strlit("redirectPort");
    let tag = "Connector"@;
    let ps = collect_spec(t, tag);
    let rootw = root_writes(t, plan);
    let cw = connectors_writes(t, ps, plan);
    let ws = server_writes_spec(t, plan);
    assert(ws == rootw + cw);
    lemma_collect_by_tag(t, tag);
    lemma_connectors_writes_facts(t, ps, plan);
    assert forall|k1: int, k2: int|
        0 <= k1 < k2 < ws.len() implies !((#[trigger] ws[k1]).path == (#[trigger] ws[k2]).path
        && ws[k1].key == ws[k2].key) by {
        if k1 >= rootw.len() {
            assert(ws[k1] == cw[k1 - rootw.len()]);
            assert(ws[k2] == cw[k2 - rootw.len()]);
        } else {
            assert(rootw.len() == 1 && k1 == 0);
            assert(root_gets_shutdown_write(t));
            assert(ws[k1] == rootw[0]);
            assert(ws[k2] == cw[k2 - 1]);
            if ws[k2].path == ws[k1].path && ws[k2].key == ws[k1].key {
                assert(ws[k1].path == Seq::<usize>::empty());
                assert(classify_view(node_at(t, ws[k2].path)) != ConnectorKind::Other);
                assert(ps.contains(ws[k2].path));
                let m = choose|m: int| 0 <= m < ps.len() && ps[m] == ws[k2].path;
                assert(node_at(t, ps[m]).name == tag);
                assert(node_at(t, Seq::<usize>::empty()) == t);
                assert(t.name == tag && classify_view(t) != ConnectorKind::Other);
                assert(false);
            }
        }
    }
}

proof fn lemma_server_writes_stable(t: NodeView, plan: PortPlan)
    requires
        bounded_tree(t),
    ensures
        server_writes_spec(apply_writes_spec(t, server_writes_spec(t, plan)), plan)
            == server_writes_spec(t, plan),
{
    reveal_strlit("protocol");
    reveal_strlit("port");
    reveal_strlit("redirectPort");
    let tag = "Connector"@;
    let ws = server_writes_spec(t, plan);
    let t1 = apply_writes_spec(t, ws);
    let ps = collect_spec(t, tag);
    lemma_collect_by_tag(t, tag);
    lemma_server_writes_facts(t, plan);
    assert("protocol"@.len() == 8);
    assert("port"@.len() == 4);
    assert("redirectPort"@.len() == 12);
    assert("protocol"@ != "port"@ && "protocol"@ != "redirectPort"@);
    assert forall|q: Seq<usize>|
        valid_path(t1, q) == valid_path(t, q) && (valid_path(t, q) ==> node_at(t1, q).name
            == node_at(t, q).name && node_at(t1, q).children.len() == node_at(
            t,
            q,
        ).children.len() && get_attr(node_at(t1, q).attrs, "protocol"@) == get_attr(
            node_at(t, q).attrs,
            "protocol"@,
        )) by {
        lemma_apply_writes_preserves(t, ws, q, "protocol"@);
        assert(forall|i: int|
            0 <= i < ws.len() ==> !((#[trigger] ws[i]).path == q && ws[i].key == "protocol"@));
    }
    lemma_collect_same(t1, t, tag);
    assert(collect_spec(t1, tag) == ps);
    assert forall|i: int|
        0 <= i < ps.len() implies classify_view(node_at(t1, #[trigger] ps[i])) == classify_view(
        node_at(t, ps[i]),
    ) by {
        assert(valid_path(t, ps[i]));
        assert(get_attr(node_at(t1, ps[i]).attrs, "protocol"@) == get_attr(
            node_at(t, ps[i]).attrs,
            "protocol"@,
        ));
    }
    lemma_connectors_writes_same(t1, t, ps, plan);
    assert(valid_path(t, Seq::<usize>::empty()));
    assert(node_at(t1, Seq::<usize>::empty()) == t1);
    assert(node_at(t, Seq::<usize>::empty()) == t);
    assert(t1.name == t.name);
    assert(get_attr(t1.attrs, "protocol"@) == get_attr(t.attrs, "protocol"@));
    assert(classify_view(t1) == classify_view(t));
    assert(root_writes(t1, plan) == root_writes(t, plan));
}

/// Applying the configure mutation twice with the same plan to the same
/// starting document yields a document identical, attribute for attribute,
/// to applying it once.
pub proof fn lemma_configure_idempotent(t: NodeView, plan: PortPlan)
    requires
        bounded_tree(t),
    ensures
        configure_server_spec(configure_server_spec(t, plan), plan) == configure_server_spec(
            t,
            plan,
        ),
{
    let ws = server_writes_spec(t, plan);
    lemma_server_writes_facts(t, plan);
    lemma_server_writes_stable(t, plan);
    lemma_apply_twice(t, ws);
}

/// The context-document mutation is idempotent as well: its single
/// root-level cookie write, applied twice, yields the once-written tree.
pub proof fn lemma_context_idempotent(t: NodeView, plan: PortPlan)
    ensures
        apply_writes_spec(
            apply_writes_spec(t, context_writes_spec(plan)),
            context_writes_spec(plan),
        ) == apply_writes_spec(t, context_writes_spec(plan)),
{
    let ws = context_writes_spec(plan);
    assert(writes_distinct(ws));
    lemma_apply_twice(t, ws);
}

} // verus!
