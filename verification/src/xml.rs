use vstd::prelude::*;

verus! {

/// The namespaces that the tree's XML attributes can carry.
#[derive(Copy, Clone, PartialEq, Eq, Structural, Debug)]
pub enum Namespace {
    /// No namespace
    Plain,
    /// The `key` namespace, for udev keys
    Key,
    /// The `_` namespace, for bookkeeping
    Meta,
}

/// The name of an XML attribute.
pub struct AttrName {
    pub namespace: Namespace,
    pub local: String,
}

/// The kinds of node that the device tree is made of.
#[derive(Copy, Clone, PartialEq, Eq, Structural, Debug)]
pub enum NodeValue {
    /// The document node
    Document,
    /// The `<udev>` document element
    Udev,
    /// A `<device>` element
    Device,
}

/// The two elements that represent device attributes.
#[derive(Copy, Clone, PartialEq, Eq, Structural, Debug)]
pub enum AttrKind {
    /// `<attr name=".." value=".."/>`, nested by path
    Attr,
    /// `<attr-path name=".." value=".."/>`, with the full path as name
    AttrPath,
}

/// One attribute element of a device. `parent` is the index of the enclosing
/// `attr` element in the same block, or nothing when the element is a child
/// of the device itself; `path` is the attribute path that the element
/// stands for.
pub struct AttrEntry {
    pub kind: AttrKind,
    pub name: String,
    pub value: Option<String>,
    pub parent: Option<usize>,
    pub path: Vec<String>,
}

pub struct AttrEntryV {
    pub kind: AttrKind,
    pub name: Seq<char>,
    pub value: Option<Seq<char>>,
    pub parent: Option<usize>,
    pub path: Seq<Seq<char>>,
}

pub open spec fn opt_str(o: Option<String>) -> Option<Seq<char>> {
    match o {
        Some(s) => Some(s@),
        None => None,
    }
}

pub open spec fn strings_view(v: Seq<String>) -> Seq<Seq<char>> {
    v.map_values(|s: String| s@)
}

pub open spec fn entry_view(e: AttrEntry) -> AttrEntryV {
    AttrEntryV {
        kind: e.kind,
        name: e.name@,
        value: opt_str(e.value),
        parent: e.parent,
        path: strings_view(e.path@),
    }
}

pub open spec fn block_view(b: Seq<AttrEntry>) -> Seq<AttrEntryV> {
    b.map_values(|e: AttrEntry| entry_view(e))
}

pub open spec fn attrs_view(a: Seq<(AttrName, String)>) -> Seq<((Namespace, Seq<char>), Seq<char>)> {
    a.map_values(|p: (AttrName, String)| ((p.0.namespace, p.0.local@), p.1@))
}

/// A node of the device tree. The `attr` block of a device is kept apart
/// from its element children: in document order it stands between
/// `children[..attr_pos]` and `children[attr_pos..]`. `removed` marks the
/// root of a subtree that was taken out of the document.
pub struct XmlNode {
    pub value: NodeValue,
    pub attributes: Vec<(AttrName, String)>,
    pub children: Vec<usize>,
    pub attr_pos: usize,
    pub attr_block: Vec<AttrEntry>,
    pub parent: Option<usize>,
    pub removed: bool,
}

pub struct NodeV {
    pub value: NodeValue,
    pub attributes: Seq<((Namespace, Seq<char>), Seq<char>)>,
    pub children: Seq<usize>,
    pub attr_pos: usize,
    pub attr_block: Seq<AttrEntryV>,
    pub parent: Option<usize>,
    pub removed: bool,
}

pub open spec fn node_view(n: XmlNode) -> NodeV {
    NodeV {
        value: n.value,
        attributes: attrs_view(n.attributes@),
        children: n.children@,
        attr_pos: n.attr_pos,
        attr_block: block_view(n.attr_block@),
        parent: n.parent,
        removed: n.removed,
    }
}

/// The parent links and removal marks of a document: all that ancestry and
/// removal depend on.
pub open spec fn skeleton(s: Seq<NodeV>) -> Seq<(Option<usize>, bool)> {
    s.map_values(|n: NodeV| (n.parent, n.removed))
}

/// `a` is `x` or one of its ancestors. `rank` bounds the walk: a parent has
/// a smaller rank than its child.
pub open spec fn is_anc(k: Seq<(Option<usize>, bool)>, rank: Seq<nat>, a: int, x: int) -> bool
    decreases rank[x],
{
    if x == a {
        true
    } else {
        match k[x].0 {
            Some(p) => if 0 <= p < k.len() && rank[p as int] < rank[x] {
                is_anc(k, rank, a, p as int)
            } else {
                false
            },
            None => false,
        }
    }
}

/// `x` has been taken out of the document: it or one of its ancestors was
/// removed.
pub open spec fn removed_at(k: Seq<(Option<usize>, bool)>, rank: Seq<nat>, x: int) -> bool
    decreases rank[x],
{
    if k[x].1 {
        true
    } else {
        match k[x].0 {
            Some(p) => if 0 <= p < k.len() && rank[p as int] < rank[x] {
                removed_at(k, rank, p as int)
            } else {
                false
            },
            None => false,
        }
    }
}

/// The document: an arena of nodes, a ghost rank that witnesses that the
/// parent links have no cycle.
pub struct XmlDoc {
    pub(crate) nodes: Vec<XmlNode>,
    pub(crate) rank: Ghost<Seq<nat>>,
}

impl View for XmlDoc {
    type V = Seq<NodeV>;

    closed spec fn view(&self) -> Seq<NodeV> {
        self.nodes@.map_values(|n: XmlNode| node_view(n))
    }
}

/// The parent/child links of a node sequence agree, and `rank` decreases
/// towards the roots.
pub open spec fn links_wf(s: Seq<NodeV>, rank: Seq<nat>) -> bool {
    &&& rank.len() == s.len()
    &&& s.len() <= usize::MAX
    &&& forall|i: int| #![trigger s[i].parent]
        0 <= i < s.len() && s[i].parent is Some ==> {
            let p = s[i].parent.unwrap() as int;
            &&& 0 <= p < s.len()
            &&& s[p].children.contains(i as usize)
            &&& rank[p] < rank[i]
        }
    &&& forall|i: int, j: int| #![trigger s[i].children[j]]
        0 <= i < s.len() && 0 <= j < s[i].children.len() ==> {
            let c = s[i].children[j] as int;
            &&& 0 <= c < s.len()
            &&& s[c].parent == Some(i as usize)
        }
    &&& forall|i: int| #![trigger s[i].children]
        0 <= i < s.len() ==> s[i].children.no_duplicates() && s[i].attr_pos <= s[i].children.len()
}


/// A node with the given value, no attributes, no children and no parent.
pub open spec fn fresh_node(value: NodeValue) -> NodeV {
    NodeV {
        value,
        attributes: Seq::empty(),
        children: Seq::empty(),
        attr_pos: 0,
        attr_block: Seq::empty(),
        parent: None,
        removed: false,
    }
}

/// The empty device tree: the document node and its `<udev>` element.
pub open spec fn initial_doc() -> Seq<NodeV> {
    seq![
        NodeV { children: seq![1usize], ..fresh_node(NodeValue::Document) },
        NodeV { parent: Some(0usize), ..fresh_node(NodeValue::Udev) },
    ]
}

/// `c` appended as the last element child of `p`.
pub open spec fn append_spec(s: Seq<NodeV>, p: int, c: int) -> Seq<NodeV> {
    s.update(c, NodeV { parent: Some(p as usize), ..s[c] }).update(
        p,
        NodeV { children: s[p].children.push(c as usize), ..s[p] },
    )
}

/// `t` and its descendants taken out of the document: `t` is marked and cut
/// from its parent, whose `attr` block keeps its place among the remaining
/// children.
pub open spec fn remove_spec(s: Seq<NodeV>, t: int) -> Seq<NodeV> {
    let s1 = s.update(t, NodeV { parent: None, removed: true, ..s[t] });
    match s[t].parent {
        Some(p) => {
            let k = s[p as int].children.index_of(t as usize);
            s1.update(
                p as int,
                NodeV {
                    children: s[p as int].children.remove(k),
                    attr_pos: if k < s[p as int].attr_pos {
                        (s[p as int].attr_pos - 1) as usize
                    } else {
                        s[p as int].attr_pos
                    },
                    ..s[p as int]
                },
            )
        },
        None => s1,
    }
}

/// The rank after appending `c` under `p`: the subtree of `c` moves below `p`.
pub open spec fn append_rank(k: Seq<(Option<usize>, bool)>, rank: Seq<nat>, p: int, c: int) -> Seq<nat> {
    Seq::new(
        rank.len(),
        |x: int|
            if is_anc(k, rank, c, x) {
                rank[x] + rank[p] + 1
            } else {
                rank[x]
            },
    )
}

proof fn lemma_push_frame(s: Seq<NodeV>, rank: Seq<nat>, n: NodeV, a: int, x: int)
    requires
        links_wf(s, rank),
        n.parent is None,
        0 <= x < s.len(),
    ensures
        is_anc(skeleton(s.push(n)), rank.push(0), a, x) == is_anc(skeleton(s), rank, a, x),
        removed_at(skeleton(s.push(n)), rank.push(0), x) == removed_at(skeleton(s), rank, x),
    decreases rank[x],
{
    let k = skeleton(s);
    let k2 = skeleton(s.push(n));
    assert(k2[x] == k[x]);
    if let Some(p) = s[x].parent {
        lemma_push_frame(s, rank, n, a, p as int);
    }
}

proof fn lemma_append_outside(s: Seq<NodeV>, rank: Seq<nat>, p: int, c: int, a: int, x: int)
    requires
        links_wf(s, rank),
        0 <= p < s.len(),
        0 <= c < s.len(),
        p != c,
        s[c].parent is None,
        0 <= x < s.len(),
        !is_anc(skeleton(s), rank, c, x),
    ensures
        is_anc(skeleton(append_spec(s, p, c)), append_rank(skeleton(s), rank, p, c), a, x)
            == is_anc(skeleton(s), rank, a, x),
        removed_at(skeleton(append_spec(s, p, c)), append_rank(skeleton(s), rank, p, c), x)
            == removed_at(skeleton(s), rank, x),
    decreases rank[x],
{
    let k = skeleton(s);
    let s2 = append_spec(s, p, c);
    let k2 = skeleton(s2);
    let r2 = append_rank(k, rank, p, c);
    assert(k2[x] == k[x]);
    assert(r2[x] == rank[x]);
    if let Some(q) = s[x].parent {
        let q = q as int;
        assert(rank[q] < rank[x]);
        if is_anc(k, rank, c, q) {
            assert(is_anc(k, rank, c, x));
        }
        assert(r2[q] == rank[q]);
        lemma_append_outside(s, rank, p, c, a, q);
    }
}

proof fn lemma_append_wf(s: Seq<NodeV>, rank: Seq<nat>, p: int, c: int)
    requires
        links_wf(s, rank),
        0 <= p < s.len(),
        0 <= c < s.len(),
        p != c,
        s[c].parent is None,
        !is_anc(skeleton(s), rank, c, p),
    ensures
        links_wf(append_spec(s, p, c), append_rank(skeleton(s), rank, p, c)),
{
    let k = skeleton(s);
    let s2 = append_spec(s, p, c);
    let r2 = append_rank(k, rank, p, c);
    assert forall|i: int| #![trigger s2[i].parent]
        0 <= i < s2.len() && s2[i].parent is Some implies {
            let q = s2[i].parent.unwrap() as int;
            &&& 0 <= q < s2.len()
            &&& s2[q].children.contains(i as usize)
            &&& r2[q] < r2[i]
        } by {
        let q = s2[i].parent.unwrap() as int;
        if i == c {
            assert(s2[p].children.last() == c as usize);
            assert(r2[p] == rank[p]);
        } else {
            assert(s[i].parent == s2[i].parent);
            assert(rank[q] < rank[i]);
            if q == p {
                let j = choose|j: int| 0 <= j < s[p].children.len() && s[p].children[j] == i as usize;
                assert(s2[p].children[j] == i as usize);
            } else {
                assert(s2[q].children == s[q].children);
            }
            if is_anc(k, rank, c, q) {
                assert(is_anc(k, rank, c, i));
            }
            if is_anc(k, rank, c, i) {
                assert(is_anc(k, rank, c, q));
            }
        }
    }
    assert forall|i: int, j: int| #![trigger s2[i].children[j]]
        0 <= i < s2.len() && 0 <= j < s2[i].children.len() implies {
            let d = s2[i].children[j] as int;
            &&& 0 <= d < s2.len()
            &&& s2[d].parent == Some(i as usize)
        } by {
        if i == p && j == s[p].children.len() {
        } else {
            assert(s2[i].children[j] == s[i].children[j]);
            let d = s[i].children[j] as int;
            assert(s[d].parent == Some(i as usize));
            assert(d != c);
        }
    }
    assert forall|i: int| #![trigger s2[i].children]
        0 <= i < s2.len() implies s2[i].children.no_duplicates() && s2[i].attr_pos
        <= s2[i].children.len() by {
        if i == p {
            assert(s[i].children.no_duplicates());
            assert forall|j: int| 0 <= j < s[p].children.len() implies s[p].children[j] != c as usize by {
                let d = s[p].children[j] as int;
                assert(s[d].parent == Some(p as usize));
            }
        }
    }
}

proof fn lemma_append_anc(s: Seq<NodeV>, rank: Seq<nat>, p: int, c: int, a: int, x: int)
    requires
        links_wf(s, rank),
        0 <= p < s.len(),
        0 <= c < s.len(),
        p != c,
        s[c].parent is None,
        !is_anc(skeleton(s), rank, c, p),
        0 <= x < s.len(),
    ensures
        is_anc(skeleton(append_spec(s, p, c)), append_rank(skeleton(s), rank, p, c), a, x)
            == (is_anc(skeleton(s), rank, a, x) || (is_anc(skeleton(s), rank, c, x) && is_anc(
            skeleton(s),
            rank,
            a,
            p,
        ))),
        removed_at(skeleton(append_spec(s, p, c)), append_rank(skeleton(s), rank, p, c), x)
            == (removed_at(skeleton(s), rank, x) || (is_anc(skeleton(s), rank, c, x)
            && removed_at(skeleton(s), rank, p))),
    decreases rank[x],
{
    let k = skeleton(s);
    let s2 = append_spec(s, p, c);
    let k2 = skeleton(s2);
    let r2 = append_rank(k, rank, p, c);
    lemma_append_wf(s, rank, p, c);
    if x == c {
        assert(k2[c] == (Some(p as usize), s[c].removed));
        assert(r2[p] < r2[c]);
        lemma_append_outside(s, rank, p, c, a, p);
    } else {
        assert(k2[x] == k[x]);
        if let Some(q) = s[x].parent {
            let q = q as int;
            assert(rank[q] < rank[x]);
            assert(r2[q] < r2[x]);
            lemma_append_anc(s, rank, p, c, a, q);
        }
    }
}

proof fn lemma_remove(s: Seq<NodeV>, rank: Seq<nat>, t: int, x: int)
    requires
        links_wf(s, rank),
        0 <= t < s.len(),
        0 <= x < s.len(),
    ensures
        links_wf(remove_spec(s, t), rank),
        removed_at(skeleton(remove_spec(s, t)), rank, x) == (removed_at(skeleton(s), rank, x)
            || is_anc(skeleton(s), rank, t, x)),
    decreases rank[x],
{
    let k = skeleton(s);
    let s2 = remove_spec(s, t);
    let k2 = skeleton(s2);
    lemma_remove_wf(s, rank, t);
    if x != t {
        assert(k2[x] == k[x]);
        if let Some(q) = s[x].parent {
            lemma_remove(s, rank, t, q as int);
        }
    }
}

proof fn lemma_remove_wf(s: Seq<NodeV>, rank: Seq<nat>, t: int)
    requires
        links_wf(s, rank),
        0 <= t < s.len(),
    ensures
        links_wf(remove_spec(s, t), rank),
{
    let s2 = remove_spec(s, t);
    match s[t].parent {
        None => {
            assert forall|i: int, j: int| #![trigger s2[i].children[j]]
                0 <= i < s2.len() && 0 <= j < s2[i].children.len() implies {
                    let d = s2[i].children[j] as int;
                    &&& 0 <= d < s2.len()
                    &&& s2[d].parent == Some(i as usize)
                } by {
                let d = s[i].children[j] as int;
                assert(s[d].parent == Some(i as usize));
                assert(d != t);
            }
        },
        Some(p) => {
            let p = p as int;
            let ch = s[p].children;
            let kk = ch.index_of(t as usize);
            assert(ch.contains(t as usize));
            assert(0 <= kk < ch.len() && ch[kk] == t as usize);
            let ch2 = ch.remove(kk);
            assert forall|i: int| #![trigger s2[i].parent]
                0 <= i < s2.len() && s2[i].parent is Some implies {
                    let q = s2[i].parent.unwrap() as int;
                    &&& 0 <= q < s2.len()
                    &&& s2[q].children.contains(i as usize)
                    &&& rank[q] < rank[i]
                } by {
                let q = s2[i].parent.unwrap() as int;
                assert(i != t);
                assert(s[i].parent == s2[i].parent);
                if q == p {
                    let j = choose|j: int| 0 <= j < ch.len() && ch[j] == i as usize;
                    assert(j != kk);
                    if j < kk {
                        assert(ch2[j] == i as usize);
                    } else {
                        assert(ch2[j - 1] == i as usize);
                    }
                }
            }
            assert forall|i: int, j: int| #![trigger s2[i].children[j]]
                0 <= i < s2.len() && 0 <= j < s2[i].children.len() implies {
                    let d = s2[i].children[j] as int;
                    &&& 0 <= d < s2.len()
                    &&& s2[d].parent == Some(i as usize)
                } by {
                if i == p {
                    let jj = if j < kk { j } else { j + 1 };
                    assert(ch2[j] == ch[jj]);
                    assert(jj != kk);
                    assert(ch[jj] != t as usize);
                } else {
                    let d = s[i].children[j] as int;
                    assert(s[d].parent == Some(i as usize));
                    assert(d != t);
                }
            }
            assert forall|i: int| #![trigger s2[i].children]
                0 <= i < s2.len() implies s2[i].children.no_duplicates() && s2[i].attr_pos
                <= s2[i].children.len() by {
                if i == p {
                    assert forall|a: int, b: int|
                        0 <= a < ch2.len() && 0 <= b < ch2.len() && a != b implies ch2[a] != ch2[b] by {
                        let aa = if a < kk { a } else { a + 1 };
                        let bb = if b < kk { b } else { b + 1 };
                        assert(ch2[a] == ch[aa]);
                        assert(ch2[b] == ch[bb]);
                    }
                }
            }
        },
    }
}


proof fn lemma_same_links(s: Seq<NodeV>, s2: Seq<NodeV>, rank: Seq<nat>)
    requires
        links_wf(s, rank),
        s2.len() == s.len(),
        forall|i: int| 0 <= i < s.len() ==> s2[i].parent == s[i].parent && s2[i].children == s[i].children
            && s2[i].removed == s[i].removed && s2[i].attr_pos <= s2[i].children.len(),
    ensures
        links_wf(s2, rank),
        skeleton(s2) == skeleton(s),
{
    assert(skeleton(s2) =~= skeleton(s));
    assert forall|i: int| #![trigger s2[i].parent]
        0 <= i < s2.len() && s2[i].parent is Some implies {
            let p = s2[i].parent.unwrap() as int;
            &&& 0 <= p < s2.len()
            &&& s2[p].children.contains(i as usize)
            &&& rank[p] < rank[i]
        } by {
        assert(s[i].parent == s2[i].parent);
        let p = s2[i].parent.unwrap() as int;
        assert(s2[p].children == s[p].children);
    }
    assert forall|i: int, j: int| #![trigger s2[i].children[j]]
        0 <= i < s2.len() && 0 <= j < s2[i].children.len() implies {
            let c = s2[i].children[j] as int;
            &&& 0 <= c < s2.len()
            &&& s2[c].parent == Some(i as usize)
        } by {
        assert(s2[i].children == s[i].children);
        let c = s[i].children[j] as int;
        assert(s[c].parent == Some(i as usize));
        assert(s2[c].parent == s[c].parent);
    }
    assert forall|i: int| #![trigger s2[i].children]
        0 <= i < s2.len() implies s2[i].children.no_duplicates() && s2[i].attr_pos
            <= s2[i].children.len() by {
        assert(s2[i].children == s[i].children);
    }
}


/// If `p` is the parent of `c` and `c` an ancestor of `x`, `p` is one too.
proof fn lemma_anc_step(k: Seq<(Option<usize>, bool)>, rank: Seq<nat>, p: int, c: int, x: int)
    requires
        rank.len() == k.len(),
        k.len() <= usize::MAX,
        0 <= c < k.len(),
        0 <= x < k.len(),
        0 <= p < k.len(),
        k[c].0 == Some(p as usize),
        rank[p] < rank[c],
        forall|i: int| 0 <= i < k.len() && k[i].0 is Some ==> {
            let q = k[i].0.unwrap() as int;
            0 <= q < k.len() && rank[q] < rank[i]
        },
        is_anc(k, rank, c, x),
    ensures
        is_anc(k, rank, p, x),
    decreases rank[x],
{
    assert(is_anc(k, rank, p, p));
    if x == c {
        assert(is_anc(k, rank, p, c));
    } else {
        let q = k[x].0.unwrap() as int;
        lemma_anc_step(k, rank, p, c, q);
        assert(is_anc(k, rank, p, x));
    }
}


/// A node outside the document is no ancestor of a node inside.
proof fn lemma_anc_outside(s: Seq<NodeV>, rank: Seq<nat>, a: int, x: int)
    requires
        links_wf(s, rank),
        a >= s.len(),
        0 <= x < s.len(),
    ensures
        !is_anc(skeleton(s), rank, a, x),
    decreases rank[x],
{
    if let Some(p) = s[x].parent {
        lemma_anc_outside(s, rank, a, p as int);
    }
}

/// Number of `attr` elements of a block that are children of the device
/// itself.
pub open spec fn top_count(b: Seq<AttrEntryV>) -> nat
    decreases b.len(),
{
    if b.len() == 0 {
        0
    } else {
        top_count(b.drop_last()) + if b.last().parent is None {
            1nat
        } else {
            0nat
        }
    }
}

/// Number of element children of a node, in the XML sense: its element
/// children and the top of its attribute block.
pub open spec fn xml_child_count(n: NodeV) -> nat {
    n.children.len() + top_count(n.attr_block)
}

/// The attribute list holds the given name.
pub open spec fn has_key(a: Seq<((Namespace, Seq<char>), Seq<char>)>, k: (Namespace, Seq<char>)) -> bool {
    exists|i: int| 0 <= i < a.len() && #[trigger] a[i].0 == k
}

impl XmlDoc {
    pub closed spec fn wf(&self) -> bool {
        links_wf(self@, self.rank@)
    }

    pub closed spec fn spec_removed(&self, x: int) -> bool {
        removed_at(skeleton(self@), self.rank@, x)
    }

    pub closed spec fn spec_is_anc(&self, a: int, x: int) -> bool {
        is_anc(skeleton(self@), self.rank@, a, x)
    }

    /// A bound on the number of ancestors of a node.
    pub closed spec fn spec_rank(&self, x: int) -> nat {
        self.rank@[x]
    }

    /// In a well-formed document, parent and child links agree.
    pub proof fn lemma_links(&self)
        requires
            self.wf(),
        ensures
            self@.len() <= usize::MAX,
            forall|i: int| #![trigger self@[i].parent]
                0 <= i < self@.len() && self@[i].parent is Some ==> {
                    let p = self@[i].parent.unwrap() as int;
                    &&& 0 <= p < self@.len()
                    &&& self@[p].children.contains(i as usize)
                    &&& self.spec_rank(p) < self.spec_rank(i)
                },
            forall|i: int, j: int| #![trigger self@[i].children[j]]
                0 <= i < self@.len() && 0 <= j < self@[i].children.len() ==> {
                    let c = self@[i].children[j] as int;
                    &&& 0 <= c < self@.len()
                    &&& self@[c].parent == Some(i as usize)
                },
            forall|i: int| #![trigger self@[i].children]
                0 <= i < self@.len() ==> self@[i].children.no_duplicates() && self@[i].attr_pos
                    <= self@[i].children.len(),
    {
    }

    /// A node is removed when it is marked, or when its parent is removed.
    pub proof fn lemma_removed_unfold(&self, x: int)
        requires
            self.wf(),
            0 <= x < self@.len(),
        ensures
            self.spec_removed(x) == (self@[x].removed || (self@[x].parent is Some
                && self.spec_removed(self@[x].parent.unwrap() as int))),
    {
    }

    /// A node is its own ancestor; otherwise an ancestor of a node is one of
    /// its parent.
    pub proof fn lemma_anc_unfold(&self, a: int, x: int)
        requires
            self.wf(),
            0 <= x < self@.len(),
        ensures
            self.spec_is_anc(a, x) == (x == a || (self@[x].parent is Some && self.spec_is_anc(
                a,
                self@[x].parent.unwrap() as int,
            ))),
    {
    }

    /// A proper ancestor of a node has an element child.
    pub proof fn lemma_anc_needs_child(&self, a: int, x: int)
        requires
            self.wf(),
            0 <= x < self@.len(),
            self.spec_is_anc(a, x),
            a != x,
        ensures
            0 <= a < self@.len(),
            self@[a].children.len() > 0,
        decreases self.spec_rank(x),
    {
        self.lemma_anc_unfold(a, x);
        self.lemma_links();
        let p = self@[x].parent.unwrap() as int;
        if p == a {
            assert(self@[a].children.contains(x as usize));
        } else {
            self.lemma_anc_needs_child(a, p);
        }
    }

    /// Two ancestors of a node are ancestors one of the other.
    pub proof fn lemma_anc_linear(&self, a: int, b: int, x: int)
        requires
            self.wf(),
            0 <= x < self@.len(),
            self.spec_is_anc(a, x),
            self.spec_is_anc(b, x),
        ensures
            self.spec_is_anc(a, b) || self.spec_is_anc(b, a),
        decreases self.spec_rank(x),
    {
        self.lemma_anc_unfold(a, x);
        self.lemma_anc_unfold(b, x);
        self.lemma_links();
        if x == a {
        } else if x == b {
        } else {
            self.lemma_anc_linear(a, b, self@[x].parent.unwrap() as int);
        }
    }

    /// Two documents whose nodes below the length of `self` have the same
    /// parents, but perhaps node `e`, agree on the ancestors of a node of
    /// which `e` is no ancestor (a negative `e` excepts no node).
    pub proof fn lemma_anc_same_parents(&self, other: &XmlDoc, e: int, a: int, x: int)
        requires
            self.wf(),
            other.wf(),
            self@.len() <= other@.len(),
            0 <= x < self@.len(),
            forall|i: int| 0 <= i < self@.len() && i != e ==> #[trigger] self@[i].parent == other@[i].parent,
            e < 0 || !self.spec_is_anc(e, x),
        ensures
            self.spec_is_anc(a, x) == other.spec_is_anc(a, x),
        decreases self.spec_rank(x),
    {
        self.lemma_anc_unfold(a, x);
        other.lemma_anc_unfold(a, x);
        self.lemma_anc_unfold(e, x);
        self.lemma_links();
        assert(self@[x].parent == other@[x].parent);
        match self@[x].parent {
            Some(p) => {
                self.lemma_anc_same_parents(other, e, a, p as int);
            },
            None => {},
        }
    }

    /// The empty device tree.
    pub fn new() -> (d: XmlDoc)
        ensures
            d.wf(),
            d@ == initial_doc(),
            !d.spec_removed(0),
            !d.spec_removed(1),
    {
        let mut doc_children: Vec<usize> = Vec::new();
        doc_children.push(1);
        let document = XmlNode {
            value: NodeValue::Document,
            attributes: Vec::new(),
            children: doc_children,
            attr_pos: 0,
            attr_block: Vec::new(),
            parent: None,
            removed: false,
        };
        let udev = XmlNode {
            value: NodeValue::Udev,
            attributes: Vec::new(),
            children: Vec::new(),
            attr_pos: 0,
            attr_block: Vec::new(),
            parent: Some(0),
            removed: false,
        };
        let mut nodes: Vec<XmlNode> = Vec::new();
        nodes.push(document);
        nodes.push(udev);
        let ghost r0: Seq<nat> = seq![0nat, 1nat];
        let d = XmlDoc { nodes, rank: Ghost(r0) };
        assert(d@[0].attributes =~= Seq::empty());
        assert(d@[1].attributes =~= Seq::empty());
        assert(d@[0].attr_block =~= Seq::empty());
        assert(d@[1].attr_block =~= Seq::empty());
        assert(d@ =~= initial_doc());
        assert(d@[0].children =~= seq![1usize]);
        assert(d@[1].children =~= Seq::<usize>::empty());
        assert(d@[0].children.no_duplicates());
        assert(d@[0].children[0] == 1usize);
        assert(d@[0].children.contains(1usize));
        assert(links_wf(d@, r0));
        assert(d.spec_removed(0) == false);
        assert(d.spec_removed(1) == false);
        d
    }

    pub fn len(&self) -> (r: usize)
        ensures
            r == self@.len(),
    {
        self.nodes.len()
    }

    pub fn node(&self, n: usize) -> (r: &XmlNode)
        requires
            n < self@.len(),
        ensures
            node_view(*r) == self@[n as int],
    {
        &self.nodes[n]
    }

    /// Adds a node with the given value and nothing else to the arena.
    pub fn add_node(&mut self, value: NodeValue) -> (r: usize)
        requires
            old(self).wf(),
            old(self)@.len() < usize::MAX,
        ensures
            final(self).wf(),
            r == old(self)@.len(),
            final(self)@ == old(self)@.push(fresh_node(value)),
            forall|x: int| 0 <= x < old(self)@.len() ==> final(self).spec_removed(x) == old(self).spec_removed(x),
            forall|a: int, x: int| 0 <= x < old(self)@.len() ==> final(self).spec_is_anc(a, x) == old(self).spec_is_anc(a, x),
            !final(self).spec_removed(r as int),
            forall|a: int| final(self).spec_is_anc(a, r as int) <==> a == r,
            forall|x: int| 0 <= x < old(self)@.len() ==> !final(self).spec_is_anc(r as int, x),
    {
        let ghost s = self@;
        let ghost rank = self.rank@;
        let r = self.nodes.len();
        let n = XmlNode {
            value,
            attributes: Vec::new(),
            children: Vec::new(),
            attr_pos: 0,
            attr_block: Vec::new(),
            parent: None,
            removed: false,
        };
        self.nodes.push(n);
        let ghost r2 = rank.push(0);
        self.rank = Ghost(r2);
        proof {
            assert(self@[r as int].attributes =~= Seq::empty());
            assert(self@[r as int].attr_block =~= Seq::empty());
            assert(self@[r as int].children =~= Seq::empty());
            assert(self@ =~= s.push(fresh_node(value)));
            let s2 = self@;
            assert forall|i: int| #![trigger s2[i].parent]
                0 <= i < s2.len() && s2[i].parent is Some implies {
                    let p = s2[i].parent.unwrap() as int;
                    &&& 0 <= p < s2.len()
                    &&& s2[p].children.contains(i as usize)
                    &&& self.rank@[p] < self.rank@[i]
                } by {
                assert(i < s.len());
                assert(s2[i] == s[i]);
            }
            assert forall|i: int, j: int| #![trigger s2[i].children[j]]
                0 <= i < s2.len() && 0 <= j < s2[i].children.len() implies {
                    let c = s2[i].children[j] as int;
                    &&& 0 <= c < s2.len()
                    &&& s2[c].parent == Some(i as usize)
                } by {
                assert(i < s.len());
                assert(s2[i] == s[i]);
            }
            assert forall|i: int| #![trigger s2[i].children]
                0 <= i < s2.len() implies s2[i].children.no_duplicates() && s2[i].attr_pos
                    <= s2[i].children.len() by {
                if i < s.len() {
                    assert(s2[i] == s[i]);
                }
            }
            assert forall|x: int| 0 <= x < s.len() implies self.spec_removed(x) == removed_at(skeleton(s), rank, x) by {
                lemma_push_frame(s, rank, fresh_node(value), 0, x);
            }
            assert forall|a: int, x: int| 0 <= x < s.len() implies self.spec_is_anc(a, x) == is_anc(skeleton(s), rank, a, x) by {
                lemma_push_frame(s, rank, fresh_node(value), a, x);
            }
            assert forall|x: int| 0 <= x < s.len() implies !is_anc(skeleton(s), rank, r as int, x) by {
                lemma_anc_outside(s, rank, r as int, x);
            }
            assert(skeleton(self@)[r as int] == (None::<usize>, false));
        }
        r
    }

    /// Appends the root `c` as the last element child of `p`.
    pub fn append(&mut self, p: usize, c: usize)
        requires
            old(self).wf(),
            p < old(self)@.len(),
            c < old(self)@.len(),
            p != c,
            old(self)@[c as int].parent is None,
            !old(self).spec_is_anc(c as int, p as int),
        ensures
            final(self).wf(),
            final(self)@ == append_spec(old(self)@, p as int, c as int),
            forall|x: int| 0 <= x < old(self)@.len() ==> final(self).spec_removed(x) == (old(self).spec_removed(x)
                || (old(self).spec_is_anc(c as int, x) && old(self).spec_removed(p as int))),
            forall|a: int, x: int| 0 <= x < old(self)@.len() ==> final(self).spec_is_anc(a, x) == (old(self).spec_is_anc(a, x)
                || (old(self).spec_is_anc(c as int, x) && old(self).spec_is_anc(a, p as int))),
    {
        let ghost s = self@;
        let ghost rank = self.rank@;
        self.nodes[c].parent = Some(p);
        self.nodes[p].children.push(c);
        let ghost r2 = append_rank(skeleton(s), rank, p as int, c as int);
        self.rank = Ghost(r2);
        proof {
            assert(self@ =~= append_spec(s, p as int, c as int));
            lemma_append_wf(s, rank, p as int, c as int);
            assert forall|x: int| 0 <= x < s.len() implies self.spec_removed(x) == (removed_at(skeleton(s), rank, x)
                || (is_anc(skeleton(s), rank, c as int, x) && removed_at(skeleton(s), rank, p as int))) by {
                lemma_append_anc(s, rank, p as int, c as int, 0, x);
            }
            assert forall|a: int, x: int| 0 <= x < s.len() implies self.spec_is_anc(a, x) == (is_anc(skeleton(s), rank, a, x)
                || (is_anc(skeleton(s), rank, c as int, x) && is_anc(skeleton(s), rank, a, p as int))) by {
                lemma_append_anc(s, rank, p as int, c as int, a, x);
            }
        }
    }

    /// Takes `t` and its descendants out of the document.
    pub fn remove(&mut self, t: usize)
        requires
            old(self).wf(),
            t < old(self)@.len(),
        ensures
            final(self).wf(),
            final(self)@ == remove_spec(old(self)@, t as int),
            forall|x: int| 0 <= x < old(self)@.len() ==> final(self).spec_removed(x) == (old(self).spec_removed(x)
                || old(self).spec_is_anc(t as int, x)),
    {
        let ghost s = self@;
        let ghost rank = self.rank@;
        let parent = self.nodes[t].parent;
        self.nodes[t].parent = None;
        self.nodes[t].removed = true;
        match parent {
            Some(p) => {
                proof {
                    assert(s[t as int].parent == Some(p));
                    assert(s[p as int].children.contains(t));
                }
                let ghost ch = s[p as int].children;
                let mut k: usize = 0;
                {
                    let children = &self.nodes[p].children;
                    let ghost clen = children.len();
                    proof {
                        assert(children@ == ch);
                        assert(ch.len() == clen);
                    }
                    while children[k] != t
                        invariant
                            children@ == ch,
                            ch.len() == clen,
                            clen <= usize::MAX,
                            ch.contains(t),
                            0 <= k < ch.len(),
                            forall|j: int| 0 <= j < k ==> ch[j] != t,
                        decreases ch.len() - k,
                    {
                        proof {
                            if k + 1 == ch.len() {
                                let i = choose|i: int| 0 <= i < ch.len() && ch[i] == t;
                                assert(false);
                            }
                        }
                        k = k + 1;
                    }
                }
                proof {
                    let i = ch.index_of(t);
                    assert(ch[i] == t);
                    assert(ch.no_duplicates());
                    assert(i == k as int);
                }
                self.nodes[p].children.remove(k);
                if k < self.nodes[p].attr_pos {
                    self.nodes[p].attr_pos = self.nodes[p].attr_pos - 1;
                }
            },
            None => {},
        }
        proof {
            assert(self@ =~= remove_spec(s, t as int));
            assert forall|x: int| 0 <= x < s.len() implies self.spec_removed(x) == (removed_at(skeleton(s), rank, x)
                || is_anc(skeleton(s), rank, t as int, x)) by {
                lemma_remove(s, rank, t as int, x);
            }
            lemma_remove_wf(s, rank, t as int);
        }
    }

    /// Replaces the XML attributes of node `n`.
    pub fn set_attributes(&mut self, n: usize, attrs: Vec<(AttrName, String)>)
        requires
            old(self).wf(),
            n < old(self)@.len(),
        ensures
            final(self).wf(),
            final(self)@ == old(self)@.update(n as int, NodeV { attributes: attrs_view(attrs@), ..old(self)@[n as int] }),
            forall|x: int| final(self).spec_removed(x) == old(self).spec_removed(x),
            forall|a: int, x: int| final(self).spec_is_anc(a, x) == old(self).spec_is_anc(a, x),
            forall|x: int| final(self).spec_rank(x) == old(self).spec_rank(x),
    {
        let ghost s = self@;
        self.nodes[n].attributes = attrs;
        proof {
            assert(self@ =~= s.update(n as int, NodeV { attributes: attrs_view(attrs@), ..s[n as int] }));
            lemma_same_links(s, self@, self.rank@);
        }
    }

    /// Replaces the attribute block of node `n`; the new block follows all
    /// current element children.
    pub fn set_attr_block(&mut self, n: usize, block: Vec<AttrEntry>)
        requires
            old(self).wf(),
            n < old(self)@.len(),
        ensures
            final(self).wf(),
            final(self)@ == old(self)@.update(n as int, NodeV {
                attr_block: block_view(block@),
                attr_pos: old(self)@[n as int].children.len() as usize,
                ..old(self)@[n as int]
            }),
            forall|x: int| final(self).spec_removed(x) == old(self).spec_removed(x),
            forall|a: int, x: int| final(self).spec_is_anc(a, x) == old(self).spec_is_anc(a, x),
            forall|x: int| final(self).spec_rank(x) == old(self).spec_rank(x),
    {
        let ghost s = self@;
        let pos = self.nodes[n].children.len();
        self.nodes[n].attr_block = block;
        self.nodes[n].attr_pos = pos;
        proof {
            assert(self@ =~= s.update(n as int, NodeV { attr_block: block_view(block@), attr_pos: pos, ..s[n as int] }));
            lemma_same_links(s, self@, self.rank@);
        }
    }

    /// The parent of node `n`, which has a smaller rank.
    pub fn parent(&self, n: usize) -> (r: Option<usize>)
        requires
            self.wf(),
            n < self@.len(),
        ensures
            r == self@[n as int].parent,
            r matches Some(p) ==> p < self@.len() && self.spec_rank(p as int) < self.spec_rank(n as int),
    {
        self.nodes[n].parent
    }

    /// Whether node `n` has at most one element child, counting the
    /// attribute elements directly below it.
    pub fn at_most_one_child(&self, n: usize) -> (r: bool)
        requires
            n < self@.len(),
        ensures
            r == (xml_child_count(self@[n as int]) <= 1),
    {
        let ghost b = self@[n as int].attr_block;
        let block = &self.nodes[n].attr_block;
        let mut cnt: usize = 0;
        let mut i: usize = 0;
        while i < block.len()
            invariant
                block_view(block@) == b,
                i <= block.len(),
                cnt == top_count(b.take(i as int)),
                cnt <= i,
            decreases block.len() - i,
        {
            proof {
                assert(b.take(i + 1).drop_last() =~= b.take(i as int));
            }
            if block[i].parent.is_none() {
                cnt = cnt + 1;
            }
            i = i + 1;
        }
        proof {
            assert(b.take(b.len() as int) =~= b);
        }
        let nc = self.nodes[n].children.len();
        if nc > 1 {
            false
        } else {
            cnt <= 1 - nc
        }
    }

    /// Whether node `n` has an XML attribute with the given name.
    pub fn has_attribute(&self, n: usize, key: &AttrName) -> (r: bool)
        requires
            n < self@.len(),
        ensures
            r == has_key(self@[n as int].attributes, (key.namespace, key.local@)),
    {
        let attrs = &self.nodes[n].attributes;
        let ghost a = self@[n as int].attributes;
        let mut i: usize = 0;
        while i < attrs.len()
            invariant
                attrs_view(attrs@) == a,
                n < self@.len(),
                a == self@[n as int].attributes,
                i <= attrs.len(),
                forall|j: int| 0 <= j < i ==> a[j].0 != (key.namespace, key.local@),
            decreases attrs.len() - i,
        {
            if attrs[i].0.namespace == key.namespace && attrs[i].0.local == key.local {
                assert(a[i as int].0 == (key.namespace, key.local@));
                assert(has_key(a, (key.namespace, key.local@)));
                assert(a == self@[n as int].attributes);
                return true;
            }
            i = i + 1;
        }
        false
    }

    /// Whether node `n` has been taken out of the document.
    pub fn is_removed(&self, n: usize) -> (r: bool)
        requires
            self.wf(),
            n < self@.len(),
        ensures
            r == self.spec_removed(n as int),
    {
        let mut cur = n;
        loop
            invariant
                self.wf(),
                cur < self@.len(),
                self.spec_removed(n as int) == self.spec_removed(cur as int),
            decreases self.spec_rank(cur as int),
        {
            proof {
                self.lemma_removed_unfold(cur as int);
            }
            if self.nodes[cur].removed {
                return true;
            }
            match self.parent(cur) {
                Some(p) => {
                    cur = p;
                },
                None => {
                    return false;
                },
            }
        }
    }

    /// Whether `a` is `x` or one of its ancestors.
    pub fn is_ancestor(&self, a: usize, x: usize) -> (r: bool)
        requires
            self.wf(),
            x < self@.len(),
        ensures
            r == self.spec_is_anc(a as int, x as int),
    {
        let mut cur = x;
        loop
            invariant
                self.wf(),
                cur < self@.len(),
                self.spec_is_anc(a as int, x as int) == self.spec_is_anc(a as int, cur as int),
            decreases self.spec_rank(cur as int),
        {
            proof {
                self.lemma_anc_unfold(a as int, cur as int);
            }
            if cur == a {
                return true;
            }
            match self.parent(cur) {
                Some(p) => {
                    cur = p;
                },
                None => {
                    return false;
                },
            }
        }
    }

    /// Whether climbing from a child goes on into `p`: `p` is neither
    /// `top` nor one of its children, does not carry `stop`, and has no
    /// other element child.
    pub open spec fn climbs_into(&self, p: int, stop: (Namespace, Seq<char>), top: usize) -> bool {
        &&& p != top
        &&& self@[p].parent != Some(top)
        &&& !has_key(self@[p].attributes, stop)
        &&& xml_child_count(self@[p]) <= 1
    }

    /// The node that detaching `n` takes out: climbing from `n` through
    /// every parent that `climbs_into` admits.
    pub closed spec fn spec_climb(&self, n: int, stop: (Namespace, Seq<char>), top: usize) -> int
        decreases self.spec_rank(n),
    {
        let s = self@;
        match s[n].parent {
            Some(p) => if 0 <= p < s.len() && self.rank@[p as int] < self.rank@[n] && self.climbs_into(
                p as int,
                stop,
                top,
            ) {
                self.spec_climb(p as int, stop, top)
            } else {
                n
            },
            None => n,
        }
    }

    pub proof fn lemma_climb_unfold(&self, n: int, stop: (Namespace, Seq<char>), top: usize)
        requires
            self.wf(),
            0 <= n < self@.len(),
        ensures
            self.spec_climb(n, stop, top) == (match self@[n].parent {
                Some(p) => if self.climbs_into(p as int, stop, top) {
                    self.spec_climb(p as int, stop, top)
                } else {
                    n
                },
                None => n,
            }),
    {
    }

    /// An ancestor of a node other than itself has a smaller rank.
    proof fn lemma_anc_rank(&self, a: int, x: int)
        requires
            self.wf(),
            0 <= x < self@.len(),
            self.spec_is_anc(a, x),
        ensures
            a == x || (0 <= a < self@.len() && self.spec_rank(a) < self.spec_rank(x)),
        decreases self.spec_rank(x),
    {
        self.lemma_anc_unfold(a, x);
        self.lemma_links();
        if a != x {
            self.lemma_anc_rank(a, self@[x].parent.unwrap() as int);
        }
    }

    /// Every node that climbing from `n` goes into is one that
    /// `climbs_into` admits.
    proof fn lemma_climb_path(&self, n: int, stop: (Namespace, Seq<char>), top: usize, a: int)
        requires
            self.wf(),
            0 <= n < self@.len(),
            self.spec_is_anc(a, n),
            self.spec_is_anc(self.spec_climb(n, stop, top), a),
            a != n,
        ensures
            0 <= a < self@.len(),
            self.climbs_into(a, stop, top),
            self@[a].children.len() > 0,
        decreases self.spec_rank(n),
    {
        self.lemma_climb_unfold(n, stop, top);
        self.lemma_anc_unfold(a, n);
        self.lemma_links();
        let p = self@[n].parent.unwrap() as int;
        if self.climbs_into(p, stop, top) {
            if a != p {
                self.lemma_climb_path(p, stop, top, a);
            } else {
                assert(self@[p].children.contains(n as usize));
            }
        } else {
            self.lemma_anc_rank(a, n);
            self.lemma_anc_rank(n, a);
        }
    }

    /// A block has no top-level element exactly when each of its elements
    /// has a parent in the block.
    proof fn lemma_top_count_zero(b: Seq<AttrEntryV>)
        ensures
            (top_count(b) == 0) == (forall|i: int| 0 <= i < b.len() ==> (#[trigger] b[i]).parent is Some),
        decreases b.len(),
    {
        if b.len() > 0 {
            Self::lemma_top_count_zero(b.drop_last());
            if top_count(b) == 0 {
                assert forall|i: int| 0 <= i < b.len() implies (#[trigger] b[i]).parent is Some by {
                    if i < b.len() - 1 {
                        assert(b[i] == b.drop_last()[i]);
                    }
                }
            } else if top_count(b.drop_last()) != 0 {
                let i = choose|i: int| 0 <= i < b.drop_last().len() && !(b.drop_last()[i].parent is Some);
                assert(b[i] == b.drop_last()[i]);
            } else {
                assert(!(b[b.len() - 1].parent is Some));
            }
        }
    }

    /// Detaching takes out the element of `n` together with the ancestors
    /// that hold nothing else: climbing from `n` stops at an ancestor of
    /// `n`, and every ancestor it goes into is neither `top` nor a child of
    /// `top`, does not carry `stop`, has exactly one element child and no
    /// `attr` or `attr-path` element of its own. The ancestor it stops
    /// below, if any, fails one of these.
    pub proof fn law_climb_takes_lone_ancestors(&self, n: int, stop: (Namespace, Seq<char>), top: usize)
        requires
            self.wf(),
            0 <= n < self@.len(),
        ensures
            ({
                let r = self.spec_climb(n, stop, top);
                &&& 0 <= r < self@.len()
                &&& self.spec_is_anc(r, n)
                &&& forall|a: int| #![trigger self.spec_is_anc(a, n), self.spec_is_anc(r, a)]
                    self.spec_is_anc(a, n) && self.spec_is_anc(r, a) && a != n ==> {
                        &&& 0 <= a < self@.len()
                        &&& a != top
                        &&& self@[a].parent != Some(top)
                        &&& !has_key(self@[a].attributes, stop)
                        &&& self@[a].children.len() == 1
                        &&& forall|i: int| 0 <= i < self@[a].attr_block.len() ==> (#[trigger] self@[a].attr_block[i]).parent is Some
                    }
                &&& self@[r].parent matches Some(p) ==> {
                    ||| p == top
                    ||| self@[p as int].parent == Some(top)
                    ||| has_key(self@[p as int].attributes, stop)
                    ||| self@[p as int].children.len() > 1
                    ||| exists|i: int| 0 <= i < self@[p as int].attr_block.len() && (#[trigger] self@[p as int].attr_block[i]).parent is None
                }
            }),
        decreases self.spec_rank(n),
    {
        let r = self.spec_climb(n, stop, top);
        self.lemma_climb_unfold(n, stop, top);
        self.lemma_links();
        match self@[n].parent {
            Some(p) => {
                if self.climbs_into(p as int, stop, top) {
                    self.law_climb_takes_lone_ancestors(p as int, stop, top);
                    lemma_anc_step(skeleton(self@), self.rank@, p as int, n, n);
                    assert(self.spec_is_anc(r, n)) by {
                        self.lemma_anc_unfold(r, n);
                    }
                } else {
                    self.lemma_anc_unfold(n, n);
                    assert(self@[p as int].children.contains(n as usize));
                    Self::lemma_top_count_zero(self@[p as int].attr_block);
                }
            },
            None => {
                self.lemma_anc_unfold(n, n);
            },
        }
        assert forall|a: int| #![trigger self.spec_is_anc(a, n), self.spec_is_anc(r, a)]
            self.spec_is_anc(a, n) && self.spec_is_anc(r, a) && a != n implies {
                &&& 0 <= a < self@.len()
                &&& a != top
                &&& self@[a].parent != Some(top)
                &&& !has_key(self@[a].attributes, stop)
                &&& self@[a].children.len() == 1
                &&& forall|i: int| 0 <= i < self@[a].attr_block.len() ==> (#[trigger] self@[a].attr_block[i]).parent is Some
            } by {
            self.lemma_climb_path(n, stop, top, a);
            Self::lemma_top_count_zero(self@[a].attr_block);
        }
    }

    /// Climbs from `n` as detaching does, and returns where it stops.
    pub fn climb(&self, n: usize, stop: &AttrName, top: usize) -> (r: usize)
        requires
            self.wf(),
            n < self@.len(),
        ensures
            r == self.spec_climb(n as int, (stop.namespace, stop.local@), top),
            r < self@.len(),
            self.spec_is_anc(r as int, n as int),
    {
        let ghost key = (stop.namespace, stop.local@);
        let mut cur = n;
        loop
            invariant
                self.wf(),
                cur < self@.len(),
                n < self@.len(),
                key == (stop.namespace, stop.local@),
                self.spec_climb(n as int, key, top) == self.spec_climb(cur as int, key, top),
                self.spec_is_anc(cur as int, n as int),
            decreases self.spec_rank(cur as int),
        {
            proof {
                self.lemma_climb_unfold(cur as int, key, top);
            }
            match self.parent(cur) {
                Some(p) => {
                    if p != top && self.parent(p) != Some(top) && !self.has_attribute(p, stop)
                        && self.at_most_one_child(p) {
                        proof {
                            lemma_anc_step(skeleton(self@), self.rank@, p as int, cur as int, n as int);
                        }
                        cur = p;
                    } else {
                        return cur;
                    }
                },
                None => {
                    return cur;
                },
            }
        }
    }
}

} // verus!
