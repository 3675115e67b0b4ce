use vstd::prelude::*;
use vstd::hash_map::StringHashMap;
use std::hash::RandomState;
use std::marker::PhantomData;
use std::time::Duration;
use frozen_collections::FzStringSet;
use crate::config::{UdevTreeBuilder, WhichAttributes, WhichProperties};
use crate::device::{Device, DeviceView, UdevDevice, depth, pairs_view};
use crate::attrs::{attr_block, attrs_ok, build_attr_block, attrs_laid_out};
use crate::keys::{
    holds_syspath, lemma_device_syspath, lemma_device_holds_syspath, attr_pairs, attr_sequence, device_attributes, device_node, insert_all_exec, key_name, managed_key,
};
use crate::subsystems::{
    filter_view, listen_filters, managed, subsystem_names, subsystem_set, subsystem_set_contains,
    subsystem_set_is_empty,
};
use crate::xml::{
    Namespace, NodeV, NodeValue, XmlDoc, attrs_view, fresh_node, strings_view, initial_doc,
    xml_child_count, has_key, remove_spec, top_count,
};

verus! {

/// What the chain of new device nodes hangs from.
pub enum Hook {
    /// The document element
    Root,
    /// The node of a device already in the tree
    Node(usize),
    /// The detached fragment that stands for the missing device with the
    /// given syspath until it comes
    Fragment(Seq<char>),
    /// A syspath that comes back along the chain
    Cycle,
}

/// The devices that attaching `d` adds, from `d` up, and what they hang
/// from. A parent that is already in the tree ends the chain; so does a
/// missing parent of a managed subsystem, which the chain waits for in a
/// fragment kept under that parent's syspath; other missing parents join
/// the chain. `seen` holds the
/// syspaths already on the chain.
pub open spec fn walk(
    nm: Map<Seq<char>, usize>,
    subs: Set<Seq<char>>,
    d: DeviceView,
    seen: Set<Seq<char>>,
) -> (Seq<DeviceView>, Hook)
    decreases d,
{
    let seen2 = seen.insert(d.syspath);
    match d.parent {
        None => (seq![d], Hook::Root),
        Some(p) => if seen2.contains(p.syspath) {
            (seq![d], Hook::Cycle)
        } else if nm.contains_key(p.syspath) {
            (seq![d], Hook::Node(nm[p.syspath]))
        } else if managed(subs, p.subsystem) {
            (seq![d], Hook::Fragment(p.syspath))
        } else {
            let r = walk(nm, subs, *p, seen2);
            (seq![d] + r.0, r.1)
        },
    }
}

/// The position of the first device of the chain with the given syspath,
/// from `i` on; -1 when there is none.
pub open spec fn chain_pos(chain: Seq<DeviceView>, key: Seq<char>, i: int) -> int
    decreases chain.len() - i,
{
    if i < 0 || i >= chain.len() {
        -1
    } else if chain[i].syspath == key {
        i
    } else {
        chain_pos(chain, key, i + 1)
    }
}


/// The chain starts with the device itself; when no syspath comes back,
/// its syspaths are distinct, none of them is among `seen`, and only the
/// first may already have a node; a fragment is kept for the last one.
pub proof fn lemma_walk(nm: Map<Seq<char>, usize>, subs: Set<Seq<char>>, d: DeviceView, seen: Set<Seq<char>>)
    ensures
        walk(nm, subs, d, seen).0.len() >= 1,
        walk(nm, subs, d, seen).0[0] == d,
        walk(nm, subs, d, seen).1 matches Hook::Fragment(key) ==> walk(nm, subs, d, seen).0.last().parent is Some && key
            == walk(nm, subs, d, seen).0.last().parent.unwrap().syspath,
        walk(nm, subs, d, seen).1 matches Hook::Node(n) ==> exists|key: Seq<char>| nm.contains_key(key) && nm[key] == n,
        !(walk(nm, subs, d, seen).1 is Cycle) && !seen.contains(d.syspath) ==> {
            let c = walk(nm, subs, d, seen).0;
            &&& forall|i: int, j: int| 0 <= i < j < c.len() ==> c[i].syspath != c[j].syspath
            &&& forall|i: int| 0 <= i < c.len() ==> !seen.contains(#[trigger] c[i].syspath)
            &&& forall|i: int| 1 <= i < c.len() ==> !nm.contains_key(#[trigger] c[i].syspath)
        },
    decreases d,
{
    let seen2 = seen.insert(d.syspath);
    match d.parent {
        None => {},
        Some(p) => {
            if seen2.contains(p.syspath) {
            } else if nm.contains_key(p.syspath) {
            } else if managed(subs, p.subsystem) {
            } else {
                lemma_walk(nm, subs, *p, seen2);
                let r = walk(nm, subs, *p, seen2);
                let c = seq![d] + r.0;
                assert(c[0] == d);
                assert(c.last() == r.0.last());
                if !(r.1 is Cycle) && !seen.contains(d.syspath) {
                    assert forall|i: int| 1 <= i < c.len() implies c[i] == r.0[i - 1] by {}
                    assert forall|i: int, j: int| 0 <= i < j < c.len() implies c[i].syspath != c[j].syspath by {
                        assert(c[j] == r.0[j - 1]);
                        if i > 0 {
                            assert(c[i] == r.0[i - 1]);
                        } else {
                            assert(!seen2.contains(r.0[j - 1].syspath));
                        }
                    }
                    assert forall|i: int| 0 <= i < c.len() implies !seen.contains(#[trigger] c[i].syspath) by {
                        if i > 0 {
                            assert(c[i] == r.0[i - 1]);
                            assert(!seen2.contains(r.0[i - 1].syspath));
                        }
                    }
                    assert forall|i: int| 1 <= i < c.len() implies !nm.contains_key(#[trigger] c[i].syspath) by {
                        assert(c[i] == r.0[i - 1]);
                        if i == 1 {
                            assert(r.0[0] == *p);
                        }
                    }
                }
            }
        },
    }
}

/// Each device of the chain is followed by its parent; the last one has
/// no parent when the chain hangs from the root, and the device of the node
/// it hangs from as parent otherwise.
pub proof fn lemma_walk_parents(nm: Map<Seq<char>, usize>, subs: Set<Seq<char>>, d: DeviceView, seen: Set<Seq<char>>)
    ensures
        ({
            let (c, h) = walk(nm, subs, d, seen);
            &&& forall|i: int| 0 <= i < c.len() - 1 ==> (#[trigger] c[i]).parent == Some(Box::new(c[i + 1]))
            &&& h is Root ==> c.last().parent is None
            &&& h matches Hook::Node(n) ==> c.last().parent is Some && nm.contains_key(c.last().parent.unwrap().syspath)
                && nm[c.last().parent.unwrap().syspath] == n
            &&& h matches Hook::Fragment(key) ==> !seen.contains(key) && forall|i: int| 0 <= i < c.len() ==> (#[trigger] c[i]).syspath != key
        }),
    decreases d,
{
    lemma_walk(nm, subs, d, seen);
    let seen2 = seen.insert(d.syspath);
    match d.parent {
        None => {},
        Some(p) => {
            if seen2.contains(p.syspath) {
            } else if nm.contains_key(p.syspath) {
            } else if managed(subs, p.subsystem) {
            } else {
                lemma_walk_parents(nm, subs, *p, seen2);
                lemma_walk(nm, subs, *p, seen2);
                let r = walk(nm, subs, *p, seen2);
                let c = seq![d] + r.0;
                assert forall|i: int| 0 <= i < c.len() - 1 implies (#[trigger] c[i]).parent == Some(Box::new(c[i + 1])) by {
                    if i == 0 {
                        assert(c[1] == r.0[0]);
                    } else {
                        assert(c[i] == r.0[i - 1]);
                        assert(c[i + 1] == r.0[i]);
                    }
                }
                assert(c.last() == r.0.last());
                if r.1 is Fragment {
                    assert forall|i: int| 0 <= i < c.len() implies (#[trigger] c[i]).syspath != r.1->Fragment_0 by {
                        if i > 0 {
                            assert(c[i] == r.0[i - 1]);
                        }
                    }
                }
            }
        },
    }
}

/// In a chain of distinct syspaths, each device is found at its position.
pub proof fn lemma_chain_pos(chain: Seq<DeviceView>, i: int, p: int)
    requires
        forall|a: int, b: int| 0 <= a < b < chain.len() ==> chain[a].syspath != chain[b].syspath,
        0 <= i <= p < chain.len(),
    ensures
        chain_pos(chain, chain[p].syspath, i) == p,
    decreases p - i,
{
    if i < p {
        lemma_chain_pos(chain, i + 1, p);
    }
}

/// A syspath that no device of the chain has is not found.
pub proof fn lemma_chain_pos_none(chain: Seq<DeviceView>, key: Seq<char>, i: int)
    requires
        forall|a: int| 0 <= a < chain.len() ==> chain[a].syspath != key,
        0 <= i,
    ensures
        chain_pos(chain, key, i) == -1,
    decreases chain.len() - i,
{
    if i < chain.len() {
        lemma_chain_pos_none(chain, key, i + 1);
    }
}

/// The position found is -1 or that of a device with the syspath.
pub proof fn lemma_chain_pos_range(chain: Seq<DeviceView>, key: Seq<char>, i: int)
    requires
        0 <= i,
    ensures
        chain_pos(chain, key, i) == -1 || (i <= chain_pos(chain, key, i) < chain.len() && chain[chain_pos(chain, key, i)].syspath == key),
    decreases chain.len() - i,
{
    if i < chain.len() && chain[i].syspath != key {
        lemma_chain_pos_range(chain, key, i + 1);
    }
}

/// What a planned chain hangs from.
pub enum PlanHook {
    Root,
    Node(usize),
    Fragment(String),
    Cycle,
}

pub open spec fn hook_view(h: PlanHook) -> Hook {
    match h {
        PlanHook::Root => Hook::Root,
        PlanHook::Node(n) => Hook::Node(n),
        PlanHook::Fragment(s) => Hook::Fragment(s@),
        PlanHook::Cycle => Hook::Cycle,
    }
}

pub open spec fn chain_view<D: UdevDevice>(c: Seq<D>) -> Seq<DeviceView> {
    c.map_values(|x: D| x.device())
}

fn contains_string(v: &Vec<String>, s: &str) -> (r: bool)
    ensures
        r == strings_view(v@).contains(s@),
{
    let target = s.to_owned();
    let mut i: usize = 0;
    while i < v.len()
        invariant
            i <= v.len(),
            target@ == s@,
            forall|j: int| 0 <= j < i ==> v@[j]@ != s@,
        decreases v.len() - i,
    {
        if v[i] == target {
            assert(strings_view(v@)[i as int] == s@);
            return true;
        }
        i = i + 1;
    }
    proof {
        if strings_view(v@).contains(s@) {
            let j = choose|j: int| 0 <= j < v@.len() && strings_view(v@)[j] == s@;
            assert(v@[j]@ == s@);
        }
    }
    false
}


/// A tree of device elements below the `<udev>` document element.
pub struct Tree<D: UdevDevice> {
    doc: XmlDoc,
    document_element: usize,
    subsystems: FzStringSet<Box<str>, RandomState>,
    node_map: StringHashMap<usize>,
    fragment_map: StringHashMap<usize>,
    node_keys: Vec<String>,
    fragment_keys: Vec<String>,
    which_attributes: WhichAttributes,
    which_properties: WhichProperties,
    _phantom: PhantomData<D>,
}

impl<D: UdevDevice> Tree<D> {
    /// The nodes of the document.
    pub closed spec fn nodes(&self) -> Seq<NodeV> {
        self.doc@
    }

    /// The node of each device in the tree, by syspath.
    pub closed spec fn node_map(&self) -> Map<Seq<char>, usize> {
        self.node_map@
    }

    /// The detached fragments that wait for a missing managed parent, by
    /// the syspath of that parent.
    pub closed spec fn fragments(&self) -> Map<Seq<char>, usize> {
        self.fragment_map@
    }

    pub closed spec fn subsystems(&self) -> Set<Seq<char>> {
        subsystem_names(self.subsystems)
    }

    pub closed spec fn which_attributes(&self) -> WhichAttributes {
        self.which_attributes
    }

    pub closed spec fn which_properties(&self) -> WhichProperties {
        self.which_properties
    }

    /// Node `x` has been taken out of the document.
    pub closed spec fn is_removed(&self, x: int) -> bool {
        self.doc.spec_removed(x)
    }

    /// Node `a` is node `x` or one of its ancestors.
    pub closed spec fn is_anc(&self, a: int, x: int) -> bool {
        self.doc.spec_is_anc(a, x)
    }

    /// The node that detaching the device of node `x` takes out.
    pub closed spec fn climb_from(&self, x: int) -> int {
        self.doc.spec_climb(x, managed_key(), 1)
    }

    /// The tree is well formed, and every syspath in the document is on
    /// the element that the device map gives for it.
    pub open spec fn inv(&self) -> bool {
        self.doc_wf() && self.links_inv() && self.syspaths_mapped()
    }

    /// The parent and child links of the document agree.
    pub closed spec fn doc_wf(&self) -> bool {
        self.doc.wf()
    }

    pub closed spec fn links_inv(&self) -> bool {
        let s = self.doc@;
        &&& self.doc.wf()
        &&& self.document_element == 1
        &&& s.len() >= 2
        &&& s[0].value == NodeValue::Document
        &&& s[0].parent is None
        &&& s[0].children == seq![1usize]
        &&& s[0].attr_block.len() == 0
        &&& s[0].attributes.len() == 0
        &&& s[1].value == NodeValue::Udev
        &&& s[1].parent == Some(0usize)
        &&& forall|i: int| 2 <= i < s.len() ==> #[trigger] s[i].value == NodeValue::Device
        &&& !self.doc.spec_removed(0)
        &&& !self.doc.spec_removed(1)
        &&& forall|key: Seq<char>| #[trigger] self.node_map@.contains_key(key) ==> {
            &&& 2 <= self.node_map@[key] < s.len()
            &&& !self.doc.spec_removed(self.node_map@[key] as int)
            &&& strings_view(self.node_keys@).contains(key)
        }
        &&& forall|key: Seq<char>| #[trigger] self.fragment_map@.contains_key(key) ==> {
            let f = self.fragment_map@[key] as int;
            &&& 2 <= f < s.len()
            &&& s[f].parent is None
            &&& s[f].value == NodeValue::Device
            &&& !self.doc.spec_removed(f)
            &&& strings_view(self.fragment_keys@).contains(key)
        }
        &&& forall|k1: Seq<char>, k2: Seq<char>| #[trigger] self.fragment_map@.contains_key(k1) && #[trigger] self.fragment_map@.contains_key(k2)
            && k1 != k2 ==> self.fragment_map@[k1] != self.fragment_map@[k2]
    }

    /// An empty tree: `<udev>` below the document node, no device.
    pub fn new(
        which_attributes: WhichAttributes,
        which_properties: WhichProperties,
        subsystems: FzStringSet<Box<str>, RandomState>,
    ) -> (t: Self)
        ensures
            t.inv(),
            t.nodes() == initial_doc(),
            t.node_map() == Map::<Seq<char>, usize>::empty(),
            t.fragments() == Map::<Seq<char>, usize>::empty(),
            t.subsystems() == subsystem_names(subsystems),
            t.which_attributes() == which_attributes,
            t.which_properties() == which_properties,
            !t.is_removed(0),
            !t.is_removed(1),
    {
        let doc = XmlDoc::new();
        let t = Tree {
            doc,
            document_element: 1,
            subsystems,
            node_map: StringHashMap::new(),
            fragment_map: StringHashMap::new(),
            node_keys: Vec::new(),
            fragment_keys: Vec::new(),
            which_attributes,
            which_properties,
            _phantom: PhantomData,
        };
        proof {
            Self::law_initial_syspaths_mapped(t);
        }
        t
    }

    /// The `<udev>` element, the root of all device elements.
    pub fn document_element(&self) -> (r: usize)
        requires
            self.inv(),
        ensures
            r == 1,
    {
        self.document_element
    }

    /// The document of the tree, to read its elements.
    pub fn doc(&self) -> (r: &XmlDoc)
        requires
            self.inv(),
        ensures
            r.wf(),
            r@ == self.nodes(),
            forall|x: int| r.spec_removed(x) == self.is_removed(x),
            forall|a: int, x: int| r.spec_is_anc(a, x) == self.is_anc(a, x),
    {
        &self.doc
    }

    /// Which attributes and properties the tree lays out.
    pub fn layout(&self) -> (r: (WhichAttributes, WhichProperties))
        ensures
            r == (self.which_attributes(), self.which_properties()),
    {
        (self.which_attributes, self.which_properties)
    }

    /// The element of the device with the given syspath.
    pub fn node_of(&self, syspath: &str) -> (r: Option<usize>)
        ensures
            r == (if self.node_map().contains_key(syspath@) {
                Some(self.node_map()[syspath@])
            } else {
                None::<usize>
            }),
    {
        match self.node_map.get(syspath) {
            Some(n) => Some(*n),
            None => None,
        }
    }

    /// Whether devices of the given subsystem are managed by the tree.
    pub fn is_managed(&self, subsystem: Option<&str>) -> (r: bool)
        ensures
            r == managed(
                self.subsystems(),
                match subsystem {
                    Some(s) => Some(s@),
                    None => None,
                },
            ),
    {
        if subsystem_set_is_empty(&self.subsystems) {
            true
        } else {
            match subsystem {
                Some(s) => subsystem_set_contains(&self.subsystems, s),
                None => false,
            }
        }
    }

    /// The devices that attaching `device` adds, and what they hang from.
    pub fn plan(&self, device: D) -> (r: (Vec<D>, PlanHook))
        ensures
            chain_view(r.0@) == walk(self.node_map(), self.subsystems(), device.device(), Set::empty()).0,
            hook_view(r.1) == walk(self.node_map(), self.subsystems(), device.device(), Set::empty()).1,
    {
        let ghost d0 = device.device();
        let ghost nm = self.node_map();
        let ghost subs = self.subsystems();
        let mut chain: Vec<D> = Vec::new();
        let mut seen: Vec<String> = Vec::new();
        let mut cur = device;
        proof {
            assert(chain_view(chain@) =~= Seq::<DeviceView>::empty());
            assert(strings_view(seen@).to_set() =~= Set::<Seq<char>>::empty());
            assert(walk(nm, subs, d0, Set::empty()).0 =~= chain_view(chain@) + walk(nm, subs, cur.device(), Set::empty()).0);
        }
        loop
            invariant
                nm == self.node_map(),
                subs == self.subsystems(),
                d0 == device.device(),
                walk(nm, subs, d0, Set::empty()).0 == chain_view(chain@) + walk(
                    nm,
                    subs,
                    cur.device(),
                    strings_view(seen@).to_set(),
                ).0,
                walk(nm, subs, d0, Set::empty()).1 == walk(nm, subs, cur.device(), strings_view(seen@).to_set()).1,
            decreases depth(cur.device()),
        {
            let ghost cv = cur.device();
            let ghost chv = chain_view(chain@);
            let ghost seen_before = strings_view(seen@).to_set();
            let ghost sv = strings_view(seen@);
            let own = cur.syspath().to_owned();
            seen.push(own);
            proof {
                assert(strings_view(seen@) =~= sv.push(cv.syspath));
                sv.lemma_push_to_set_commute(cv.syspath);
            }
            let parent = cur.parent();
            match parent {
                None => {
                    chain.push(cur);
                    proof {
                        assert(chain_view(chain@) =~= chv.push(cv));
                        assert(chv.push(cv) =~= chv + seq![cv]);
                    }
                    return (chain, PlanHook::Root);
                },
                Some(p) => {
                    if contains_string(&seen, p.syspath()) {
                        chain.push(cur);
                        proof {
                            assert(chain_view(chain@) =~= chv.push(cv));
                            assert(chv.push(cv) =~= chv + seq![cv]);
                        }
                        return (chain, PlanHook::Cycle);
                    }
                    match self.node_map.get(p.syspath()) {
                        Some(n) => {
                            let n = *n;
                            chain.push(cur);
                            proof {
                                assert(chain_view(chain@) =~= chv.push(cv));
                                assert(chv.push(cv) =~= chv + seq![cv]);
                            }
                            return (chain, PlanHook::Node(n));
                        },
                        None => {},
                    }
                    if self.is_managed(p.subsystem()) {
                        let key = p.syspath().to_owned();
                        chain.push(cur);
                        proof {
                            assert(chain_view(chain@) =~= chv.push(cv));
                            assert(chv.push(cv) =~= chv + seq![cv]);
                        }
                        return (chain, PlanHook::Fragment(key));
                    }
                    chain.push(cur);
                    proof {
                        assert(chain_view(chain@) =~= chv.push(cv));
                        let r = walk(nm, subs, p.device(), seen_before.insert(cv.syspath));
                        assert(chv + (seq![cv] + r.0) =~= chv.push(cv) + r.0);
                    }
                    cur = p;
                },
            }
        }
    }

    /// Gives node `n` the XML attributes and the attribute block of `dev`.
    fn set_device(&mut self, n: usize, dev: &D, is_managed: bool)
        requires
            old(self).links_inv(),
            2 <= n < old(self).nodes().len(),
            attrs_ok(dev.device().attributes, old(self).which_attributes()),
        ensures
            final(self).links_inv(),
            final(self).nodes() == old(self).nodes().update(
                n as int,
                NodeV {
                    attributes: device_attributes(
                        dev.device(),
                        is_managed,
                        old(self).which_properties(),
                        old(self).which_attributes(),
                    ),
                    attr_block: attr_block(dev.device().attributes, old(self).which_attributes()),
                    attr_pos: old(self).nodes()[n as int].children.len() as usize,
                    ..old(self).nodes()[n as int]
                },
            ),
            final(self).node_map() == old(self).node_map(),
            final(self).fragments() == old(self).fragments(),
            final(self).subsystems() == old(self).subsystems(),
            final(self).which_attributes() == old(self).which_attributes(),
            final(self).which_properties() == old(self).which_properties(),
            forall|x: int| final(self).is_removed(x) == old(self).is_removed(x),
            forall|a: int, x: int| final(self).is_anc(a, x) == old(self).is_anc(a, x),
    {
        let ghost dv = dev.device();
        let attrs = dev.attributes();
        let (block, values) = build_attr_block(&attrs, self.which_attributes);
        let pairs = attr_pairs(dev, is_managed, self.which_properties, &values);
        let attributes = insert_all_exec(&pairs);
        proof {
            assert(attrs_view(pairs@) == attr_sequence(dv, is_managed, self.which_properties, self.which_attributes));
        }
        self.doc.set_attributes(n, attributes);
        self.doc.set_attr_block(n, block);
        proof {
            assert(self.nodes() =~= old(self).nodes().update(
                n as int,
                NodeV {
                    attributes: device_attributes(dv, is_managed, self.which_properties, self.which_attributes),
                    attr_block: attr_block(dv.attributes, self.which_attributes),
                    attr_pos: old(self).nodes()[n as int].children.len() as usize,
                    ..old(self).nodes()[n as int]
                },
            ));
        }
    }

    /// The chain of devices that attaching `d` adds and what it hangs from.
    pub open spec fn planned(&self, d: DeviceView) -> (Seq<DeviceView>, Hook) {
        walk(self.node_map(), self.subsystems(), d, Set::empty())
    }

    /// Attaching `d` reuses the fragment kept for its syspath.
    pub open spec fn taken(&self, d: DeviceView) -> bool {
        self.fragments().contains_key(d.syspath)
    }

    /// Where the nodes that attaching `d` creates for its ancestors start.
    pub open spec fn fresh_base(&self, d: DeviceView) -> int {
        self.nodes().len() + if self.taken(d) {
            0int
        } else {
            1int
        }
    }

    /// The node of the `i`-th device of the chain (`i` the chain's length
    /// stands for a new fragment).
    pub open spec fn chain_node(&self, d: DeviceView, i: int) -> int {
        if i == 0 {
            if self.taken(d) {
                self.fragments()[d.syspath] as int
            } else {
                self.nodes().len() as int
            }
        } else {
            self.fresh_base(d) + i - 1
        }
    }

    /// Attaching `d` creates the fragment that its chain hangs from.
    pub open spec fn new_fragment(&self, d: DeviceView) -> bool {
        match self.planned(d).1 {
            Hook::Fragment(key) => !(key != d.syspath && self.fragments().contains_key(key)),
            _ => false,
        }
    }

    /// The node that the chain of `d` is appended to.
    pub open spec fn target(&self, d: DeviceView) -> int {
        match self.planned(d).1 {
            Hook::Root => 1,
            Hook::Node(n) => n as int,
            Hook::Fragment(key) => if self.new_fragment(d) {
                self.chain_node(d, self.planned(d).0.len() as int)
            } else {
                self.fragments()[key] as int
            },
            Hook::Cycle => 0,
        }
    }

    /// Attaching `d` is defined: no syspath comes back along the chain, the
    /// chain does not end inside
    /// the fragment it reuses, every attribute name can be laid out, and the
    /// arena has room for the new nodes.
    pub open spec fn attach_ok(&self, d: DeviceView) -> bool {
        if self.node_map().contains_key(d.syspath) {
            attrs_ok(d.attributes, self.which_attributes())
        } else {
            let chain = self.planned(d).0;
            &&& !(self.planned(d).1 is Cycle)
            &&& forall|i: int| 0 <= i < chain.len() ==> attrs_ok(#[trigger] chain[i].attributes, self.which_attributes())
            &&& (self.taken(d) && !self.new_fragment(d)) ==> !self.is_anc(self.chain_node(d, 0), self.target(d))
            &&& self.nodes().len() + chain.len() + 2 <= usize::MAX
        }
    }

    /// The position on the chain of `d` of the device whose node is `j`;
    /// -1 for other nodes.
    pub open spec fn chain_index(&self, d: DeviceView, j: int) -> int {
        let k = self.planned(d).0.len() as int;
        if j == self.chain_node(d, 0) {
            0
        } else if self.fresh_base(d) <= j < self.fresh_base(d) + k - 1 {
            j - self.fresh_base(d) + 1
        } else {
            -1
        }
    }

    /// The element of the `i`-th device of the chain of `d` once attached.
    pub open spec fn chain_element(&self, d: DeviceView, i: int) -> NodeV {
        let chain = self.planned(d).0;
        let k = chain.len() as int;
        let children = if i == 0 {
            if self.taken(d) {
                self.nodes()[self.chain_node(d, 0)].children
            } else {
                seq![]
            }
        } else {
            seq![self.chain_node(d, i - 1) as usize]
        };
        let parent = if i + 1 < k {
            self.chain_node(d, i + 1)
        } else {
            self.target(d)
        };
        device_node(
            chain[i],
            i == 0,
            self.which_properties(),
            self.which_attributes(),
            children,
            Some(parent as usize),
        )
    }

    /// Node `j` once `d` is attached.
    pub open spec fn attached_node(&self, d: DeviceView, j: int) -> NodeV {
        let k = self.planned(d).0.len() as int;
        let ci = self.chain_index(d, j);
        if ci >= 0 {
            self.chain_element(d, ci)
        } else if self.new_fragment(d) && j == self.chain_node(d, k) {
            NodeV { children: seq![self.chain_node(d, k - 1) as usize], ..fresh_node(NodeValue::Device) }
        } else if j == self.target(d) {
            NodeV { children: self.nodes()[j].children.push(self.chain_node(d, k - 1) as usize), ..self.nodes()[j] }
        } else {
            self.nodes()[j]
        }
    }

    /// The document once `d`, absent from the tree, is attached: a node for
    /// every device of its chain, each the child of the next, the last one
    /// appended to the target.
    pub open spec fn attached_nodes(&self, d: DeviceView) -> Seq<NodeV> {
        let k = self.planned(d).0.len() as int;
        let len = self.chain_node(d, k) + if self.new_fragment(d) {
            1int
        } else {
            0int
        };
        Seq::new(len as nat, |j: int| self.attached_node(d, j))
    }

    /// The device map once `d` is attached: every device of the chain maps
    /// to its node.
    pub open spec fn attached_map(&self, d: DeviceView) -> Map<Seq<char>, usize> {
        let chain = self.planned(d).0;
        Map::new(
            |key: Seq<char>| self.node_map().contains_key(key) || chain_pos(chain, key, 0) >= 0,
            |key: Seq<char>|
                if chain_pos(chain, key, 0) >= 0 {
                    self.chain_node(d, chain_pos(chain, key, 0)) as usize
                } else {
                    self.node_map()[key]
                },
        )
    }

    /// The fragments once `d` is attached: the one for `d` is used up, and
    /// a chain that waits for a managed parent gets one.
    pub open spec fn attached_fragments(&self, d: DeviceView) -> Map<Seq<char>, usize> {
        let f1 = if self.taken(d) {
            self.fragments().remove(d.syspath)
        } else {
            self.fragments()
        };
        match self.planned(d).1 {
            Hook::Fragment(key) => if self.new_fragment(d) {
                f1.insert(key, self.chain_node(d, self.planned(d).0.len() as int) as usize)
            } else {
                f1
            },
            _ => f1,
        }
    }

    /// The document once `d`, already in the tree, is attached again: its
    /// element gets the new keys, properties and attributes.
    pub open spec fn updated_nodes(&self, d: DeviceView) -> Seq<NodeV> {
        let n = self.node_map()[d.syspath] as int;
        self.nodes().update(
            n,
            NodeV {
                attributes: device_attributes(d, true, self.which_properties(), self.which_attributes()),
                attr_block: attr_block(d.attributes, self.which_attributes()),
                attr_pos: self.nodes()[n].children.len() as usize,
                ..self.nodes()[n]
            },
        )
    }

    /// The length of the document once `d`, absent from the tree, is
    /// attached.
    pub open spec fn attached_len(&self, d: DeviceView) -> int {
        let k = self.planned(d).0.len() as int;
        self.chain_node(d, k) + if self.new_fragment(d) {
            1int
        } else {
            0int
        }
    }

    /// The element of the `i`-th device of the chain before it is linked:
    /// the reused fragment, or a new device element.
    pub open spec fn initial_element(&self, d: DeviceView, i: int) -> NodeV {
        if i == 0 && self.taken(d) {
            self.nodes()[self.chain_node(d, 0)]
        } else {
            fresh_node(NodeValue::Device)
        }
    }

    /// Node `j` while linking the chain of `d` from the top: the devices
    /// above position `m` are done, the one at `m` hangs from its parent.
    pub open spec fn stage_node(&self, d: DeviceView, m: int, j: int) -> NodeV {
        let k = self.planned(d).0.len() as int;
        let ci = self.chain_index(d, j);
        if ci > m {
            self.attached_node(d, j)
        } else if ci == m {
            NodeV {
                parent: Some(
                    (if m + 1 < k {
                        self.chain_node(d, m + 1)
                    } else {
                        self.target(d)
                    }) as usize,
                ),
                ..self.initial_element(d, m)
            }
        } else if ci >= 0 {
            self.initial_element(d, ci)
        } else {
            self.attached_node(d, j)
        }
    }

    pub open spec fn staged(&self, d: DeviceView, m: int) -> Seq<NodeV> {
        Seq::new(self.attached_len(d) as nat, |j: int| self.stage_node(d, m, j))
    }

    /// The document once the nodes for attaching `d` exist, none linked.
    pub open spec fn created_nodes(&self, d: DeviceView) -> Seq<NodeV> {
        Seq::new(
            self.attached_len(d) as nat,
            |j: int|
                if j < self.nodes().len() {
                    self.nodes()[j]
                } else {
                    fresh_node(NodeValue::Device)
                },
        )
    }

    proof fn lemma_attach_indices(&self, d: DeviceView)
        requires
            self.links_inv(),
            !self.node_map().contains_key(d.syspath),
            self.attach_ok(d),
        ensures
            ({
                let chain = self.planned(d).0;
                let k = chain.len() as int;
                let len = self.nodes().len() as int;
                &&& k >= 1
                &&& chain[0] == d
                &&& forall|a: int, b: int| 0 <= a < b < k ==> chain[a].syspath != chain[b].syspath
                &&& forall|i: int| 1 <= i < k ==> !self.node_map().contains_key(#[trigger] chain[i].syspath)
                &&& self.fresh_base(d) == len + (if self.taken(d) { 0int } else { 1int })
                &&& self.taken(d) ==> 2 <= self.chain_node(d, 0) < len
                &&& !self.taken(d) ==> self.chain_node(d, 0) == len
                &&& forall|i: int| 0 <= i < k ==> self.chain_index(d, #[trigger] self.chain_node(d, i)) == i
                &&& forall|i: int| 0 <= i < k ==> 2 <= #[trigger] self.chain_node(d, i) < self.attached_len(d)
                &&& forall|i: int| 1 <= i < k ==> len <= #[trigger] self.chain_node(d, i)
                &&& forall|j: int| self.chain_index(d, j) >= 0 ==> self.chain_index(d, j) < k && j == self.chain_node(
                    d,
                    self.chain_index(d, j),
                )
                &&& self.attached_len(d) <= usize::MAX
                &&& self.attached_len(d) >= len
                &&& 1 <= self.target(d) < self.attached_len(d)
                &&& self.chain_index(d, self.target(d)) == -1
                &&& self.target(d) != 0
                &&& self.new_fragment(d) ==> self.target(d) == self.chain_node(d, k) && self.target(d) == self.attached_len(d) - 1
                &&& self.new_fragment(d) ==> self.chain_index(d, self.chain_node(d, k)) == -1
                &&& !self.new_fragment(d) ==> self.target(d) < len && self.attached_len(d) == self.chain_node(d, k)
                &&& !self.new_fragment(d) ==> (self.target(d) == 1 || 2 <= self.target(d))
                &&& self.taken(d) ==> !self.is_removed(self.chain_node(d, 0))
                &&& !self.new_fragment(d) ==> !self.is_removed(self.target(d))
            }),
    {
        let chain = self.planned(d).0;
        let k = chain.len() as int;
        let len = self.nodes().len() as int;
        lemma_walk(self.node_map(), self.subsystems(), d, Set::empty());
        if self.taken(d) {
            assert(self.fragments().contains_key(d.syspath));
        }
        match self.planned(d).1 {
            Hook::Node(n) => {
                let key = choose|key: Seq<char>| self.node_map().contains_key(key) && self.node_map()[key] == n;
                assert(self.node_map().contains_key(key));
            },
            Hook::Fragment(key) => {
                if !self.new_fragment(d) {
                    assert(self.fragments().contains_key(key));
                }
            },
            _ => {},
        }
        if self.taken(d) && !self.new_fragment(d) {
            assert(self.chain_node(d, 0) != self.target(d)) by {
                self.doc.lemma_anc_unfold(self.chain_node(d, 0), self.chain_node(d, 0));
            }
        }
    }

    /// `t` is `o` once the fragment kept for `key` is taken, or, when there
    /// is none, a new device element is made; `n` is the element.
    pub closed spec fn took_or_created(o: Tree<D>, t: Tree<D>, key: Seq<char>, n: usize) -> bool {
        &&& t.doc.wf()
        &&& t.node_map == o.node_map
        &&& t.node_keys == o.node_keys
        &&& t.fragment_keys == o.fragment_keys
        &&& t.subsystems == o.subsystems
        &&& t.which_attributes == o.which_attributes
        &&& t.which_properties == o.which_properties
        &&& t.document_element == o.document_element
        &&& o.fragments().contains_key(key) ==> {
            &&& n == o.fragments()[key]
            &&& t.doc == o.doc
            &&& t.fragments() == o.fragments().remove(key)
        }
        &&& !o.fragments().contains_key(key) ==> {
            &&& n == o.nodes().len()
            &&& t.nodes() == o.nodes().push(fresh_node(NodeValue::Device))
            &&& t.fragments() == o.fragments()
            &&& forall|x: int| 0 <= x < o.nodes().len() ==> t.doc.spec_removed(x) == o.doc.spec_removed(x)
            &&& forall|a: int, x: int| 0 <= x < o.nodes().len() ==> t.doc.spec_is_anc(a, x) == o.doc.spec_is_anc(a, x)
            &&& !t.doc.spec_removed(n as int)
            &&& forall|a: int| t.doc.spec_is_anc(a, n as int) <==> a == n
            &&& forall|x: int| 0 <= x < o.nodes().len() ==> !t.doc.spec_is_anc(n as int, x)
        }
    }

    /// `t` is `o` once the fragment for `key` is looked up, and made when
    /// there is none; `n` is the fragment.
    pub closed spec fn got_fragment_parent(o: Tree<D>, t: Tree<D>, key: Seq<char>, n: usize) -> bool {
        &&& t.doc.wf()
        &&& t.node_map == o.node_map
        &&& t.node_keys == o.node_keys
        &&& t.subsystems == o.subsystems
        &&& t.which_attributes == o.which_attributes
        &&& t.which_properties == o.which_properties
        &&& t.document_element == o.document_element
        &&& o.fragments().contains_key(key) ==> {
            &&& n == o.fragments()[key]
            &&& t.doc == o.doc
            &&& t.fragments() == o.fragments()
            &&& t.fragment_keys == o.fragment_keys
        }
        &&& !o.fragments().contains_key(key) ==> {
            &&& n == o.nodes().len()
            &&& t.nodes() == o.nodes().push(fresh_node(NodeValue::Device))
            &&& t.fragments() == o.fragments().insert(key, n)
            &&& strings_view(t.fragment_keys@) == strings_view(o.fragment_keys@).push(key)
            &&& forall|x: int| 0 <= x < o.nodes().len() ==> t.doc.spec_removed(x) == o.doc.spec_removed(x)
            &&& forall|a: int, x: int| 0 <= x < o.nodes().len() ==> t.doc.spec_is_anc(a, x) == o.doc.spec_is_anc(a, x)
            &&& !t.doc.spec_removed(n as int)
            &&& forall|a: int| t.doc.spec_is_anc(a, n as int) <==> a == n
            &&& forall|x: int| 0 <= x < o.nodes().len() ==> !t.doc.spec_is_anc(n as int, x)
        }
    }

    /// Asking twice for the fragment of a key that has none makes one new
    /// device element, with no parent and no children, and gives it both
    /// times; the second call changes nothing.
    pub proof fn law_fragment_parent_kept(
        o: Tree<D>,
        t1: Tree<D>,
        t2: Tree<D>,
        key: Seq<char>,
        n1: usize,
        n2: usize,
    )
        requires
            !o.fragments().contains_key(key),
            Self::got_fragment_parent(o, t1, key, n1),
            Self::got_fragment_parent(t1, t2, key, n2),
        ensures
            n1 == o.nodes().len(),
            n2 == n1,
            t1.nodes() == o.nodes().push(fresh_node(NodeValue::Device)),
            t2.nodes() == t1.nodes(),
            t2.fragments() == t1.fragments(),
            t1.fragments() == o.fragments().insert(key, n1),
            t1.nodes()[n1 as int].parent is None,
            t1.nodes()[n1 as int].children.len() == 0,
    {
    }

    /// Taking a fragment right after asking for it gives that fragment and
    /// forgets it: taking again makes a new device element.
    pub proof fn law_take_after_fragment_parent(
        o: Tree<D>,
        t1: Tree<D>,
        t2: Tree<D>,
        t3: Tree<D>,
        key: Seq<char>,
        p: usize,
        q: usize,
        r: usize,
    )
        requires
            Self::got_fragment_parent(o, t1, key, p),
            Self::took_or_created(t1, t2, key, q),
            Self::took_or_created(t2, t3, key, r),
            o.inv(),
        ensures
            q == p,
            !t2.fragments().contains_key(key),
            r == t2.nodes().len(),
            r != p,
    {
    }

    /// Takes the fragment kept for `key`, or creates a device element.
    pub fn take_or_create(&mut self, key: &str) -> (n: usize)
        requires
            old(self).doc_wf(),
            old(self).nodes().len() < usize::MAX,
        ensures
            Self::took_or_created(*old(self), *final(self), key@, n),
            old(self).inv() ==> final(self).inv(),
    {
        let ghost o = *self;
        let n = match self.fragment_map.get(key) {
            Some(f) => {
                let f = *f;
                self.fragment_map.remove(key);
                f
            },
            None => self.doc.add_node(NodeValue::Device),
        };
        proof {
            Self::lemma_new_element_keeps_inv(o, *self, key@, n);
        }
        n
    }

    /// The fragment kept for `key`, created when there is none.
    pub fn get_fragment_parent(&mut self, key: &str) -> (n: usize)
        requires
            old(self).doc_wf(),
            old(self).nodes().len() < usize::MAX,
        ensures
            Self::got_fragment_parent(*old(self), *final(self), key@, n),
            old(self).inv() ==> final(self).inv(),
    {
        let ghost o = *self;
        match self.fragment_map.get(key) {
            Some(f) => *f,
            None => {
                let f = self.doc.add_node(NodeValue::Device);
                self.fragment_map.insert(key.to_owned(), f);
                let ghost before = strings_view(self.fragment_keys@);
                self.fragment_keys.push(key.to_owned());
                proof {
                    assert(strings_view(self.fragment_keys@) =~= before.push(key@));
                    if o.inv() {
                        Self::lemma_new_fragment_keeps_inv(o, *self, key@, f);
                    }
                }
                f
            },
        }
    }

    /// Taking a fragment, or making a new device element, keeps the
    /// invariant.
    proof fn lemma_new_element_keeps_inv(o: Tree<D>, t: Tree<D>, key: Seq<char>, n: usize)
        requires
            Self::took_or_created(o, t, key, n),
        ensures
            o.inv() ==> t.inv(),
    {
        if o.inv() && !o.fragments().contains_key(key) {
            assert(t.nodes()[n as int].attributes.len() == 0);
            assert forall|x: int, sp: Seq<char>|
                0 <= x < t.nodes().len() && !t.is_removed(x) && #[trigger] holds_syspath(t.nodes()[x].attributes, sp)
                implies t.node_map().contains_key(sp) && t.node_map()[sp] == x by {
                if x < o.nodes().len() {
                    assert(t.nodes()[x] == o.nodes()[x]);
                }
            }
        }
    }

    /// Making a new fragment keeps the invariant.
    proof fn lemma_new_fragment_keeps_inv(o: Tree<D>, t: Tree<D>, key: Seq<char>, n: usize)
        requires
            o.inv(),
            !o.fragments().contains_key(key),
            Self::got_fragment_parent(o, t, key, n),
        ensures
            t.inv(),
    {
        assert(t.nodes()[n as int].attributes.len() == 0);
        assert forall|x: int, sp: Seq<char>|
            0 <= x < t.nodes().len() && !t.is_removed(x) && #[trigger] holds_syspath(t.nodes()[x].attributes, sp)
            implies t.node_map().contains_key(sp) && t.node_map()[sp] == x by {
            if x < o.nodes().len() {
                assert(t.nodes()[x] == o.nodes()[x]);
            }
        }
        assert forall|k1: Seq<char>, k2: Seq<char>| #[trigger] t.fragment_map@.contains_key(k1) && #[trigger] t.fragment_map@.contains_key(k2)
            && k1 != k2 implies t.fragment_map@[k1] != t.fragment_map@[k2] by {
            if k1 != key && k2 != key {
                assert(o.fragment_map@.contains_key(k1));
                assert(o.fragment_map@.contains_key(k2));
            } else if k1 == key {
                assert(o.fragment_map@.contains_key(k2));
            } else {
                assert(o.fragment_map@.contains_key(k1));
            }
        }
        let fk0 = strings_view(o.fragment_keys@);
        let fk = strings_view(t.fragment_keys@);
        assert forall|kk: Seq<char>| #[trigger] t.fragment_map@.contains_key(kk) implies fk.contains(kk) by {
            if kk == key {
                assert(fk[fk.len() - 1] == key);
            } else {
                assert(o.fragment_map@.contains_key(kk));
                let j = choose|j: int| 0 <= j < fk0.len() && fk0[j] == kk;
                assert(fk[j] == kk);
            }
        }
    }

    /// The state once the nodes for attaching `d` to `o` exist.
    spec fn created(&self, o: Tree<D>, d: DeviceView) -> bool {
        let o_len = o.nodes().len() as int;
        let len2 = o.attached_len(d);
        &&& self.links_inv()
        &&& self.nodes() == o.created_nodes(d)
        &&& self.fragments() == o.attached_fragments(d)
        &&& self.subsystems() == o.subsystems()
        &&& self.which_attributes() == o.which_attributes()
        &&& self.which_properties() == o.which_properties()
        &&& forall|x: int| 0 <= x < o_len ==> self.doc.spec_removed(x) == o.doc.spec_removed(x)
        &&& forall|x: int| o_len <= x < len2 ==> !self.doc.spec_removed(x)
        &&& forall|a: int, x: int| 0 <= x < o_len ==> self.doc.spec_is_anc(a, x) == o.doc.spec_is_anc(a, x)
        &&& forall|f: int, x: int| o_len <= f < len2 && 0 <= x < len2 && x != f ==> !self.doc.spec_is_anc(f, x)
        &&& forall|f: int, a: int| o_len <= f < len2 ==> (self.doc.spec_is_anc(a, f) <==> a == f)
    }

    /// The state while linking the chain of `d` from the top, the device at
    /// position `m` hanging from its parent.
    spec fn linking(&self, o: Tree<D>, d: DeviceView, m: int) -> bool {
        let o_len = o.nodes().len() as int;
        let len2 = o.attached_len(d);
        let target = o.target(d);
        &&& self.links_inv()
        &&& self.nodes() == o.staged(d, m)
        &&& self.node_map() == o.attached_map(d)
        &&& self.fragments() == o.attached_fragments(d)
        &&& self.subsystems() == o.subsystems()
        &&& self.which_attributes() == o.which_attributes()
        &&& self.which_properties() == o.which_properties()
        &&& !self.doc.spec_removed(o.chain_node(d, m))
        &&& forall|x: int| 0 <= x < o_len ==> self.doc.spec_removed(x) == o.doc.spec_removed(x)
        &&& forall|x: int| o_len <= x < len2 ==> !self.doc.spec_removed(x)
        &&& m >= 1 ==> forall|a: int| #[trigger] self.doc.spec_is_anc(a, o.chain_node(d, m)) ==> (a >= o_len || (
            target < o_len && o.doc.spec_is_anc(a, target)))
        &&& forall|i: int, x: int| 0 <= i < m && (i >= 1 || !o.taken(d)) && 0 <= x < len2 && x != o.chain_node(d, i)
            ==> !#[trigger] self.doc.spec_is_anc(o.chain_node(d, i), x)
    }

    /// Creates the nodes for attaching `d`: takes its fragment or a new
    /// element, new elements for its ancestors on the chain, and the
    /// fragment the chain waits in.
    fn create_chain(&mut self, chain: &Vec<D>, hook: &PlanHook, Ghost(d): Ghost<DeviceView>) -> (r: (usize, usize, usize))
        requires
            old(self).links_inv(),
            !old(self).node_map().contains_key(d.syspath),
            old(self).attach_ok(d),
            chain_view(chain@) == old(self).planned(d).0,
            hook_view(*hook) == old(self).planned(d).1,
        ensures
            final(self).created(*old(self), d),
            final(self).node_map() == old(self).node_map(),
            r.0 == old(self).chain_node(d, 0),
            r.1 == old(self).fresh_base(d),
            r.2 == old(self).target(d),
    {
        let ghost o_len = old(self).nodes().len() as int;
        let ghost cv = chain_view(chain@);
        proof {
            old(self).lemma_attach_indices(d);
        }
        let k = chain.len();
        proof {
            assert(cv[0] == d);
            assert(chain@[0].device() == d);
        }
        let n0 = self.take_or_create(chain[0].syspath());
        let base1 = self.doc.len();
        let ghost frag1 = self.fragments();
        let mut i: usize = 1;
        while i < k
            invariant
                self.doc.wf(),
                self.fragments() == frag1,
                self.node_map == old(self).node_map,
                self.node_keys == old(self).node_keys,
                self.fragment_keys == old(self).fragment_keys,
                self.subsystems == old(self).subsystems,
                self.which_attributes == old(self).which_attributes,
                self.which_properties == old(self).which_properties,
                self.document_element == old(self).document_element,
                old(self).taken(d) ==> frag1 == old(self).fragments().remove(d.syspath),
                !old(self).taken(d) ==> frag1 == old(self).fragments(),
                1 <= i <= k,
                k == old(self).planned(d).0.len(),
                base1 == old(self).fresh_base(d),
                o_len == old(self).nodes().len(),
                o_len <= base1,
                self.nodes().len() == base1 + i - 1,
                self.nodes().len() + (k - i) + 1 <= usize::MAX,
                forall|j: int| 0 <= j < o_len ==> self.nodes()[j] == old(self).nodes()[j],
                forall|j: int| o_len <= j < self.nodes().len() ==> self.nodes()[j] == fresh_node(NodeValue::Device),
                forall|x: int| 0 <= x < o_len ==> self.doc.spec_removed(x) == old(self).doc.spec_removed(x),
                forall|a: int, x: int| 0 <= x < o_len ==> self.doc.spec_is_anc(a, x) == old(self).doc.spec_is_anc(a, x),
                forall|x: int| o_len <= x < self.nodes().len() ==> !self.doc.spec_removed(x),
                forall|f: int, x: int| o_len <= f < self.nodes().len() && 0 <= x < self.nodes().len() && x != f
                    ==> !self.doc.spec_is_anc(f, x),
                forall|f: int, a: int| o_len <= f < self.nodes().len() ==> (self.doc.spec_is_anc(a, f) <==> a == f),
            decreases k - i,
        {
            self.doc.add_node(NodeValue::Device);
            i = i + 1;
        }
        let target: usize = match hook {
            PlanHook::Root => 1,
            PlanHook::Node(n) => *n,
            PlanHook::Fragment(key) => self.get_fragment_parent(key.as_str()),
            PlanHook::Cycle => {
                proof {
                    assert(false);
                }
                0
            },
        };
        proof {
            assert(target == old(self).target(d));
            assert(self.nodes() =~= old(self).created_nodes(d));
            assert(self.fragments() =~= old(self).attached_fragments(d));
            let fk0 = strings_view(old(self).fragment_keys@);
            let fk = strings_view(self.fragment_keys@);
            assert forall|kk: Seq<char>| fk0.contains(kk) implies fk.contains(kk) by {
                let j = choose|j: int| 0 <= j < fk0.len() && fk0[j] == kk;
                if fk != fk0 {
                    assert(fk[j] == kk);
                }
            }
            assert forall|key: Seq<char>| #[trigger] self.fragment_map@.contains_key(key) implies strings_view(
                self.fragment_keys@,
            ).contains(key) by {
                if !old(self).fragment_map@.contains_key(key) {
                    assert(fk.last() == key);
                }
            }
            assert(self.links_inv());
        }
        (n0, base1, target)
    }

    /// Gives every device of the chain its node in the device map.
    fn register_chain(&mut self, chain: &Vec<D>, n0: usize, base1: usize, Ghost(o): Ghost<Tree<D>>, Ghost(d): Ghost<DeviceView>)
        requires
            old(self).created(o, d),
            old(self).node_map() == o.node_map(),
            o.links_inv(),
            !o.node_map().contains_key(d.syspath),
            o.attach_ok(d),
            chain_view(chain@) == o.planned(d).0,
            n0 == o.chain_node(d, 0),
            base1 == o.fresh_base(d),
        ensures
            final(self).created(o, d),
            final(self).doc == old(self).doc,
            final(self).node_map() == o.attached_map(d),
    {
        let ghost cv = chain_view(chain@);
        let ghost o_nm = o.node_map();
        proof {
            o.lemma_attach_indices(d);
        }
        let k = chain.len();
        let mut i: usize = 0;
        while i < k
            invariant
                self.doc == old(self).doc,
                self.fragments() == old(self).fragments(),
                self.fragment_keys == old(self).fragment_keys,
                forall|key: Seq<char>| #[trigger] self.node_map().contains_key(key) ==> strings_view(self.node_keys@).contains(key),
                self.subsystems == old(self).subsystems,
                self.which_attributes == old(self).which_attributes,
                self.which_properties == old(self).which_properties,
                self.document_element == old(self).document_element,
                i <= k,
                k == cv.len(),
                cv == chain_view(chain@),
                cv == o.planned(d).0,
                n0 == o.chain_node(d, 0),
                base1 == o.fresh_base(d),
                base1 + k <= usize::MAX,
                o_nm == o.node_map(),
                forall|key: Seq<char>| #[trigger] self.node_map().contains_key(key) <==> (o_nm.contains_key(key) || exists|p: int| 0 <= p < i && cv[p].syspath == key),
                forall|p: int| 0 <= p < i ==> self.node_map()[#[trigger] cv[p].syspath] == o.chain_node(d, p),
                forall|key: Seq<char>| #[trigger] o_nm.contains_key(key) && (forall|p: int| 0 <= p < i ==> cv[p].syspath != key) ==> self.node_map()[key] == o_nm[key],
                forall|a: int, b: int| 0 <= a < b < k ==> cv[a].syspath != cv[b].syspath,
            decreases k - i,
        {
            let node = if i == 0 {
                n0
            } else {
                base1 + i - 1
            };
            let key = chain[i].syspath().to_owned();
            proof {
                assert(key@ == cv[i as int].syspath);
            }
            let ghost nm_before = self.node_map();
            let ghost keys_before = strings_view(self.node_keys@);
            self.node_keys.push(key.clone());
            proof {
                assert(strings_view(self.node_keys@) =~= keys_before.push(key@));
                assert forall|kk: Seq<char>| keys_before.contains(kk) implies strings_view(self.node_keys@).contains(kk) by {
                    let j = choose|j: int| 0 <= j < keys_before.len() && keys_before[j] == kk;
                    assert(strings_view(self.node_keys@)[j] == kk);
                }
                assert(strings_view(self.node_keys@).last() == key@);
            }
            self.node_map.insert(key, node);
            proof {
                let ii = i as int;
                assert forall|kk: Seq<char>| #[trigger] self.node_map().contains_key(kk) <==> (o_nm.contains_key(kk) || exists|p: int| 0 <= p < ii + 1 && cv[p].syspath == kk) by {
                    if kk == cv[ii].syspath {
                        assert(0 <= ii < ii + 1 && cv[ii].syspath == kk);
                    } else {
                        if exists|p: int| 0 <= p < ii + 1 && cv[p].syspath == kk {
                            let p = choose|p: int| 0 <= p < ii + 1 && cv[p].syspath == kk;
                            assert(p < ii);
                        }
                        assert(nm_before.contains_key(kk) == self.node_map().contains_key(kk));
                    }
                }
            }
            i = i + 1;
        }
        proof {
            assert(self.node_map() =~= o.attached_map(d)) by {
                let am = o.attached_map(d);
                assert forall|key: Seq<char>| #[trigger] self.node_map().contains_key(key) == am.contains_key(key) by {
                    lemma_chain_pos_range(cv, key, 0);
                    if exists|p: int| 0 <= p < k && cv[p].syspath == key {
                        let p = choose|p: int| 0 <= p < k && cv[p].syspath == key;
                        lemma_chain_pos(cv, 0, p);
                    }
                }
                assert forall|key: Seq<char>| #[trigger] self.node_map().contains_key(key) implies self.node_map()[key] == am[key] by {
                    lemma_chain_pos_range(cv, key, 0);
                    if exists|p: int| 0 <= p < k && cv[p].syspath == key {
                        let p = choose|p: int| 0 <= p < k && cv[p].syspath == key;
                        lemma_chain_pos(cv, 0, p);
                    } else {
                        lemma_chain_pos_none(cv, key, 0);
                    }
                }
            }
            assert(self.links_inv());
        }
    }

    /// Hangs the top of the chain from its target.
    fn start_linking(&mut self, top: usize, target: usize, Ghost(o): Ghost<Tree<D>>, Ghost(d): Ghost<DeviceView>)
        requires
            old(self).created(o, d),
            old(self).node_map() == o.attached_map(d),
            o.links_inv(),
            !o.node_map().contains_key(d.syspath),
            o.attach_ok(d),
            top == o.chain_node(d, o.planned(d).0.len() - 1),
            target == o.target(d),
        ensures
            final(self).linking(o, d, o.planned(d).0.len() - 1),
    {
        let ghost k = o.planned(d).0.len() as int;
        let ghost o_len = o.nodes().len() as int;
        let ghost len2 = o.attached_len(d);
        proof {
            o.lemma_attach_indices(d);
            assert(self.nodes()[top as int] == o.initial_element(d, k - 1));
            if k > 1 || !o.taken(d) {
                assert(o_len <= top);
            } else {
                assert(self.nodes()[top as int] == o.nodes()[top as int]);
            }
            if o.new_fragment(d) {
                assert(o_len <= target);
            }
        }
        let ghost before = self.doc;
        self.doc.append(target, top);
        proof {
            assert(self.nodes() =~= o.staged(d, k - 1));
            assert forall|x: int| 0 <= x < o_len implies self.doc.spec_removed(x) == o.doc.spec_removed(x) by {
                assert(x < before@.len());
            }
            assert forall|x: int| o_len <= x < len2 implies !self.doc.spec_removed(x) by {
                assert(x < before@.len());
            }
            if k - 1 >= 1 {
                assert forall|a: int| #[trigger] self.doc.spec_is_anc(a, o.chain_node(d, k - 1)) implies (a >= o_len || (
                    target < o_len && o.doc.spec_is_anc(a, target as int))) by {
                    before.lemma_anc_unfold(a, top as int);
                }
            }
            assert forall|i: int, x: int| 0 <= i < k - 1 && (i >= 1 || !o.taken(d)) && 0 <= x < len2 && x != o.chain_node(d, i)
                implies !#[trigger] self.doc.spec_is_anc(o.chain_node(d, i), x) by {
                assert(o.chain_node(d, i) != target);
            }
            assert(self.links_inv());
        }
    }

    /// Hangs the device below position `m` from the device at `m`, and
    /// fills in the device at `m`.
    #[verifier::rlimit(50)]
    fn link_step(&mut self, chain: &Vec<D>, m: usize, n0: usize, base1: usize, Ghost(o): Ghost<Tree<D>>, Ghost(d): Ghost<DeviceView>)
        requires
            old(self).linking(o, d, m as int),
            o.links_inv(),
            !o.node_map().contains_key(d.syspath),
            o.attach_ok(d),
            chain_view(chain@) == o.planned(d).0,
            1 <= m < chain.len(),
            n0 == o.chain_node(d, 0),
            base1 == o.fresh_base(d),
        ensures
            final(self).linking(o, d, m - 1),
    {
        let ghost k = o.planned(d).0.len() as int;
        let ghost o_len = o.nodes().len() as int;
        let ghost len2 = o.attached_len(d);
        proof {
            o.lemma_attach_indices(d);
        }
        let node_m = base1 + m - 1;
        let below = if m == 1 {
            n0
        } else {
            base1 + m - 2
        };
        proof {
            assert(node_m == o.chain_node(d, m as int));
            assert(below == o.chain_node(d, m - 1));
            assert(self.nodes()[below as int] == o.initial_element(d, m - 1));
            assert(self.nodes()[node_m as int].children == Seq::<usize>::empty());
            if m - 1 >= 1 || !o.taken(d) {
                assert(o_len <= below);
            } else {
                assert(self.nodes()[below as int] == o.nodes()[below as int]);
                if self.doc.spec_is_anc(below as int, node_m as int) {
                    assert(!o.doc.spec_is_anc(below as int, o.target(d)));
                }
            }
        }
        let ghost before = self.doc;
        self.doc.append(node_m, below);
        let ghost mid = self.doc;
        proof {
            assert(chain_view(chain@)[m as int] == chain@[m as int].device());
            assert forall|x: int| 0 <= x < len2 implies mid.spec_removed(x) == before.spec_removed(x) by {
                assert(x < before@.len());
            }
        }
        self.set_device(node_m, &chain[m], false);
        proof {
            assert(self.nodes() =~= o.staged(d, m - 1));
            assert forall|x: int| 0 <= x < len2 implies self.doc.spec_removed(x) == before.spec_removed(x) by {
                assert(self.is_removed(x) == mid.spec_removed(x));
            }
            assert forall|x: int| o_len <= x < len2 implies !self.doc.spec_removed(x) by {
                assert(!before.spec_removed(x));
            }
            if m - 1 >= 1 || !o.taken(d) {
                assert(!before.spec_removed(below as int));
            } else {
                assert(!o.is_removed(o.chain_node(d, 0)));
                assert(!before.spec_removed(below as int));
            }
            assert(!self.doc.spec_removed(below as int));
            if m - 1 >= 1 {
                assert forall|a: int| #[trigger] self.doc.spec_is_anc(a, o.chain_node(d, m - 1)) implies (a >= o_len || (
                    o.target(d) < o_len && o.doc.spec_is_anc(a, o.target(d)))) by {
                    assert(self.is_anc(a, below as int) == mid.spec_is_anc(a, below as int));
                    before.lemma_anc_unfold(a, below as int);
                    assert(below < before@.len());
                    if before.spec_is_anc(a, node_m as int) {
                        assert(a >= o_len || (o.target(d) < o_len && o.doc.spec_is_anc(a, o.target(d))));
                    }
                }
            }
            assert forall|i: int, x: int| 0 <= i < m - 1 && (i >= 1 || !o.taken(d)) && 0 <= x < len2 && x != o.chain_node(d, i)
                implies !#[trigger] self.doc.spec_is_anc(o.chain_node(d, i), x) by {
                assert(o.chain_node(d, i) != node_m);
                assert(self.is_anc(o.chain_node(d, i), x) == mid.spec_is_anc(o.chain_node(d, i), x));
                assert(x < before@.len());
            }
            assert(self.links_inv());
        }
    }

    /// Fills in the device at the bottom of the chain, which is managed.
    fn finish_chain(&mut self, first: &D, n0: usize, Ghost(o): Ghost<Tree<D>>, Ghost(d): Ghost<DeviceView>)
        requires
            old(self).linking(o, d, 0),
            o.links_inv(),
            !o.node_map().contains_key(d.syspath),
            o.attach_ok(d),
            first.device() == d,
            n0 == o.chain_node(d, 0),
        ensures
            final(self).links_inv(),
            final(self).nodes() == o.attached_nodes(d),
            final(self).node_map() == o.attached_map(d),
            final(self).fragments() == o.attached_fragments(d),
            final(self).subsystems() == o.subsystems(),
            final(self).which_attributes() == o.which_attributes(),
            final(self).which_properties() == o.which_properties(),
            forall|x: int| 0 <= x < o.nodes().len() ==> final(self).is_removed(x) == o.is_removed(x),
            forall|x: int| o.nodes().len() <= x < o.attached_len(d) ==> !final(self).is_removed(x),
    {
        proof {
            o.lemma_attach_indices(d);
            if o.taken(d) {
                o.doc.lemma_removed_unfold(n0 as int);
            }
        }
        self.set_device(n0, first, true);
        proof {
            assert(self.nodes() =~= o.attached_nodes(d));
        }
    }

    /// Adds a device that is not in the tree yet, with the ancestors that
    /// its chain brings.
    fn attach_new(&mut self, device: D)
        requires
            old(self).links_inv(),
            !old(self).node_map().contains_key(device.device().syspath),
            old(self).attach_ok(device.device()),
        ensures
            final(self).links_inv(),
            final(self).nodes() == old(self).attached_nodes(device.device()),
            final(self).node_map() == old(self).attached_map(device.device()),
            final(self).fragments() == old(self).attached_fragments(device.device()),
            final(self).subsystems() == old(self).subsystems(),
            final(self).which_attributes() == old(self).which_attributes(),
            final(self).which_properties() == old(self).which_properties(),
            forall|x: int| 0 <= x < old(self).nodes().len() ==> final(self).is_removed(x) == old(self).is_removed(x),
            forall|x: int| old(self).nodes().len() <= x < final(self).nodes().len() ==> !final(self).is_removed(x),
    {
        let ghost d = device.device();
        let ghost o = *self;
        let (chain, hook) = self.plan(device);
        proof {
            o.lemma_attach_indices(d);
        }
        let (n0, base1, target) = self.create_chain(&chain, &hook, Ghost(d));
        self.register_chain(&chain, n0, base1, Ghost(o), Ghost(d));
        let k = chain.len();
        let top = if k == 1 {
            n0
        } else {
            base1 + k - 2
        };
        self.start_linking(top, target, Ghost(o), Ghost(d));
        let mut m = k - 1;
        while m > 0
            invariant
                self.linking(o, d, m as int),
                o.links_inv(),
                !o.node_map().contains_key(d.syspath),
                o.attach_ok(d),
                chain_view(chain@) == o.planned(d).0,
                m < chain.len(),
                n0 == o.chain_node(d, 0),
                base1 == o.fresh_base(d),
            decreases m,
        {
            self.link_step(&chain, m, n0, base1, Ghost(o), Ghost(d));
            m = m - 1;
        }
        proof {
            assert(chain_view(chain@)[0] == chain@[0].device());
        }
        self.finish_chain(&chain[0], n0, Ghost(o), Ghost(d));
        proof {
            assert(self.nodes().len() == o.attached_len(d));
        }
    }

    /// `t` is `o` once `d` is attached: a device already in the tree keeps
    /// its element and gets new keys, properties and attributes; a new one
    /// brings the elements of its chain. Nothing leaves the document, and
    /// the new elements are in it.
    pub open spec fn attach_result(o: Tree<D>, t: Tree<D>, d: DeviceView) -> bool {
        &&& t.inv()
        &&& Self::attach_effect(o, t, d)
    }

    /// What attaching `d` does to the elements, maps and removal marks.
    pub open spec fn attach_effect(o: Tree<D>, t: Tree<D>, d: DeviceView) -> bool {
        &&& t.links_inv()
        &&& t.subsystems() == o.subsystems()
        &&& t.which_attributes() == o.which_attributes()
        &&& t.which_properties() == o.which_properties()
        &&& o.node_map().contains_key(d.syspath) ==> {
            &&& t.nodes() == o.updated_nodes(d)
            &&& t.node_map() == o.node_map()
            &&& t.fragments() == o.fragments()
        }
        &&& !o.node_map().contains_key(d.syspath) ==> {
            &&& t.nodes() == o.attached_nodes(d)
            &&& t.node_map() == o.attached_map(d)
            &&& t.fragments() == o.attached_fragments(d)
        }
        &&& forall|x: int| 0 <= x < o.nodes().len() ==> t.is_removed(x) == o.is_removed(x)
        &&& forall|x: int| o.nodes().len() <= x < t.nodes().len() ==> !t.is_removed(x)
    }

    /// The entries of `m` whose element is still in the document.
    pub open spec fn live(&self, m: Map<Seq<char>, usize>) -> Map<Seq<char>, usize> {
        Map::new(|k: Seq<char>| m.contains_key(k) && !self.is_removed(m[k] as int), |k: Seq<char>| m[k])
    }

    /// `t` is `o` once the device with syspath `key` is detached: its
    /// element is taken out with every ancestor that is neither `<udev>`
    /// nor one of its children, is not managed and holds nothing else, and
    /// everything below them; the device maps and the fragments keep only
    /// what is still in the document.
    pub open spec fn detach_result(o: Tree<D>, t: Tree<D>, key: Seq<char>) -> bool {
        &&& t.inv()
        &&& Self::detach_effect(o, t, key)
    }

    /// What detaching the device with syspath `key` does to the elements,
    /// maps and removal marks.
    pub open spec fn detach_effect(o: Tree<D>, t: Tree<D>, key: Seq<char>) -> bool {
        &&& t.links_inv()
        &&& t.subsystems() == o.subsystems()
        &&& t.which_attributes() == o.which_attributes()
        &&& t.which_properties() == o.which_properties()
        &&& if o.node_map().contains_key(key) {
            let n = o.node_map()[key] as int;
            let top = o.climb_from(n);
            &&& 2 <= top
            &&& t.nodes() == remove_spec(o.nodes(), top)
            &&& forall|x: int| 0 <= x < o.nodes().len() ==> t.is_removed(x) == (o.is_removed(x) || o.is_anc(top, x))
            &&& t.is_removed(n)
            &&& t.node_map() == t.live(o.node_map().remove(key))
            &&& t.fragments() == t.live(o.fragments())
        } else {
            &&& t.nodes() == o.nodes()
            &&& forall|x: int| t.is_removed(x) == o.is_removed(x)
            &&& t.node_map() == o.node_map()
            &&& t.fragments() == o.fragments()
        }
    }

    /// Adds `device` to the tree. A device already in the tree gets its
    /// keys, properties and attributes replaced. A new device is added with
    /// every missing ancestor up to one already in the tree; a missing
    /// ancestor of a managed subsystem is not created, the chain waits for
    /// it in a detached fragment.
    pub fn attach(&mut self, device: D)
        requires
            old(self).inv(),
            old(self).attach_ok(device.device()),
        ensures
            Self::attach_result(*old(self), *final(self), device.device()),
    {
        let ghost o = *self;
        let ghost d = device.device();
        match self.node_map.get(device.syspath()) {
            Some(n) => {
                let n = *n;
                self.set_device(n, &device, true);
            },
            None => {
                self.attach_new(device);
            },
        }
        proof {
            Self::law_attach_keeps_syspaths_mapped(o, *self, d);
        }
    }

    /// Whether attaching `device` is defined: whether it meets `attach_ok`.
    pub fn can_attach(&self, device: D) -> (r: bool)
        requires
            self.inv(),
        ensures
            r == self.attach_ok(device.device()),
    {
        let ghost d = device.device();
        match self.node_map.get(device.syspath()) {
            Some(n) => {
                let attrs = device.attributes();
                let laid_out = attrs_laid_out(&attrs, self.which_attributes);
                proof {
                    assert(pairs_view(attrs@) == d.attributes);
                    assert(self.node_map().contains_key(d.syspath));
                    assert(laid_out == self.attach_ok(d));
                }
                return laid_out;
            },
            None => {},
        }
        let (chain, hook) = self.plan(device);
        let ghost cv = chain_view(chain@);
        proof {
            lemma_walk(self.node_map(), self.subsystems(), d, Set::empty());
            assert(cv[0] == chain@[0].device());
        }
        let k = chain.len();
        match &hook {
            PlanHook::Cycle => {
                return false;
            },
            _ => {},
        }
        let mut i: usize = 0;
        while i < k
            invariant
                cv == chain_view(chain@),
                cv == self.planned(d).0,
                d == device.device(),
                !self.node_map().contains_key(d.syspath),
                k == chain.len(),
                i <= k,
                forall|j: int| 0 <= j < i ==> attrs_ok(#[trigger] cv[j].attributes, self.which_attributes()),
            decreases k - i,
        {
            let attrs = chain[i].attributes();
            proof {
                assert(cv[i as int] == chain@[i as int].device());
            }
            if !attrs_laid_out(&attrs, self.which_attributes) {
                return false;
            }
            i = i + 1;
        }
        let len = self.doc.len();
        if len > usize::MAX - 2 || k > usize::MAX - 2 - len {
            return false;
        }
        let n0: Option<usize> = match self.fragment_map.get(chain[0].syspath()) {
            Some(f) => Some(*f),
            None => None,
        };
        let existing: Option<usize> = match &hook {
            PlanHook::Root => Some(1),
            PlanHook::Node(n) => Some(*n),
            PlanHook::Fragment(key) => {
                if key.clone() != chain[0].syspath().to_owned() {
                    match self.fragment_map.get(key.as_str()) {
                        Some(f) => Some(*f),
                        None => None,
                    }
                } else {
                    None
                }
            },
            PlanHook::Cycle => None,
        };
        proof {
            match self.planned(d).1 {
                Hook::Node(n) => {
                    let key = choose|key: Seq<char>| self.node_map().contains_key(key) && self.node_map()[key] == n;
                    assert(self.node_map().contains_key(key));
                },
                _ => {},
            }
        }
        match existing {
            Some(t) => {
                proof {
                    assert(!self.new_fragment(d));
                    assert(t == self.target(d));
                }
                match n0 {
                    Some(f) => {
                        if self.doc.is_ancestor(f, t) {
                            return false;
                        }
                    },
                    None => {},
                }
            },
            None => {
                proof {
                    assert(self.new_fragment(d));
                }
            },
        }
        true
    }

    /// Climbing from a device element ends at a device element: never at
    /// `<udev>` or the document node.
    proof fn lemma_climb_stays_below(&self, x: int)
        requires
            self.links_inv(),
            2 <= x < self.nodes().len(),
        ensures
            2 <= self.climb_from(x) < self.nodes().len(),
            self.is_anc(self.climb_from(x), x),
        decreases self.doc.spec_rank(x),
    {
        let s = self.nodes();
        self.doc.lemma_links();
        self.doc.lemma_climb_unfold(x, managed_key(), 1);
        self.doc.lemma_anc_unfold(x, x);
        match s[x].parent {
            Some(p) => {
                let p = p as int;
                if self.doc.climbs_into(p, managed_key(), 1) {
                    if p == 0 {
                        assert(s[0].children.contains(x as usize));
                        assert(s[0].children[0] == 1usize);
                        assert(false);
                    }
                    self.lemma_climb_stays_below(p);
                    self.doc.lemma_anc_unfold(self.climb_from(x), x);
                }
            },
            None => {},
        }
    }

    /// Keeps the entries of `map` whose element is still in the document;
    /// `keys` lists every key of the map, and the keys kept are returned.
    fn prune(map: &mut StringHashMap<usize>, keys: &Vec<String>, doc: &XmlDoc) -> (kept: Vec<String>)
        requires
            doc.wf(),
            forall|k: Seq<char>| #[trigger] old(map)@.contains_key(k) ==> old(map)@[k] < doc@.len()
                && strings_view(keys@).contains(k),
        ensures
            final(map)@ == Map::new(
                |k: Seq<char>| old(map)@.contains_key(k) && !doc.spec_removed(old(map)@[k] as int),
                |k: Seq<char>| old(map)@[k],
            ),
            forall|k: Seq<char>| #[trigger] final(map)@.contains_key(k) ==> strings_view(kept@).contains(k),
    {
        let ghost m0 = map@;
        let ghost kv = strings_view(keys@);
        let mut kept: Vec<String> = Vec::new();
        let mut i: usize = 0;
        proof {
            assert(map@ =~= Map::new(
                |k: Seq<char>| m0.contains_key(k) && !(kv.take(0).contains(k) && doc.spec_removed(m0[k] as int)),
                |k: Seq<char>| m0[k],
            ));
        }
        while i < keys.len()
            invariant
                kv == strings_view(keys@),
                doc.wf(),
                forall|k: Seq<char>| #[trigger] m0.contains_key(k) ==> m0[k] < doc@.len() && kv.contains(k),
                i <= keys.len(),
                map@ == Map::new(
                    |k: Seq<char>| m0.contains_key(k) && !(kv.take(i as int).contains(k) && doc.spec_removed(m0[k] as int)),
                    |k: Seq<char>| m0[k],
                ),
                forall|k: Seq<char>| #[trigger] map@.contains_key(k) && kv.take(i as int).contains(k) ==> strings_view(
                    kept@,
                ).contains(k),
            decreases keys.len() - i,
        {
            let ghost before = map@;
            let ghost kept_before = strings_view(kept@);
            let ghost ki = kv[i as int];
            proof {
                assert(kv.take(i + 1) =~= kv.take(i as int).push(ki));
                assert(keys@[i as int]@ == ki);
                assert forall|k: Seq<char>| #[trigger] kv.take(i + 1).contains(k) == (kv.take(i as int).contains(k) || k == ki) by {
                    if kv.take(i as int).contains(k) {
                        let j = choose|j: int| 0 <= j < kv.take(i as int).len() && #[trigger] kv.take(i as int)[j] == k;
                        assert(kv.take(i + 1)[j] == k);
                    }
                    if k == ki {
                        assert(kv.take(i + 1)[i as int] == k);
                    }
                    if kv.take(i + 1).contains(k) && k != ki {
                        let j = choose|j: int| 0 <= j < kv.take(i + 1).len() && #[trigger] kv.take(i + 1)[j] == k;
                        assert(j < i);
                        assert(kv.take(i as int)[j] == k);
                    }
                }
            }
            match map.get(keys[i].as_str()) {
                Some(n) => {
                    let n = *n;
                    if doc.is_removed(n) {
                        map.remove(keys[i].as_str());
                        proof {
                            assert(map@ =~= Map::new(
                                |k: Seq<char>| m0.contains_key(k) && !(kv.take(i + 1).contains(k) && doc.spec_removed(m0[k] as int)),
                                |k: Seq<char>| m0[k],
                            ));
                        }
                    } else {
                        kept.push(keys[i].clone());
                        proof {
                            assert(strings_view(kept@) =~= kept_before.push(ki));
                            assert(map@ =~= Map::new(
                                |k: Seq<char>| m0.contains_key(k) && !(kv.take(i + 1).contains(k) && doc.spec_removed(m0[k] as int)),
                                |k: Seq<char>| m0[k],
                            ));
                        }
                    }
                },
                None => {
                    proof {
                        assert(map@ =~= Map::new(
                            |k: Seq<char>| m0.contains_key(k) && !(kv.take(i + 1).contains(k) && doc.spec_removed(m0[k] as int)),
                            |k: Seq<char>| m0[k],
                        ));
                    }
                },
            }
            proof {
                assert forall|k: Seq<char>| #[trigger] map@.contains_key(k) && kv.take(i + 1).contains(k) implies strings_view(
                    kept@,
                ).contains(k) by {
                    if k != ki {
                        assert(kv.take(i as int).contains(k));
                        assert(before.contains_key(k));
                        assert(kept_before.contains(k));
                        let j = choose|j: int| 0 <= j < kept_before.len() && kept_before[j] == k;
                        assert(strings_view(kept@)[j] == k);
                    } else {
                        assert(strings_view(kept@).last() == k);
                    }
                }
            }
            i = i + 1;
        }
        proof {
            assert(kv.take(keys.len() as int) =~= kv);
            assert(map@ =~= Map::new(
                |k: Seq<char>| m0.contains_key(k) && !doc.spec_removed(m0[k] as int),
                |k: Seq<char>| m0[k],
            ));
        }
        kept
    }

    /// Removes the device with the syspath of `device` from the tree. Its
    /// element is taken out together with every ancestor that is neither
    /// `<udev>` nor one of its children, is not managed and holds nothing
    /// else, and everything below them. Devices and fragments whose
    /// elements went with it leave the maps.
    pub fn detach(&mut self, device: D)
        requires
            old(self).inv(),
        ensures
            Self::detach_result(*old(self), *final(self), device.device().syspath),
    {
        let ghost d = device.device();
        let ghost o = *self;
        let found: Option<usize> = match self.node_map.get(device.syspath()) {
            Some(n) => Some(*n),
            None => None,
        };
        match found {
            Some(n) => {
                self.node_map.remove(device.syspath());
                let stop = key_name(Namespace::Meta, "managed");
                proof {
                    reveal_strlit("managed");
                    assert((stop.namespace, stop.local@) == managed_key());
                    o.lemma_climb_stays_below(n as int);
                    self.doc.lemma_links();
                }
                let t = self.doc.climb(n, &stop, 1);
                let ghost before = self.doc;
                self.doc.remove(t);
                proof {
                    let s = before@;
                    self.doc.lemma_links();
                    assert(self.nodes()[0].children == seq![1usize]) by {
                        if s[t as int].parent == Some(0usize) {
                            assert(s[0].children[0] == 1usize);
                            assert(s[0].children.contains(t));
                            assert(false);
                        }
                    }
                    before.lemma_anc_unfold(t as int, 0);
                    before.lemma_anc_unfold(t as int, 1);
                    before.lemma_anc_unfold(t as int, 0);
                    assert(!self.doc.spec_removed(0));
                    assert(!self.doc.spec_removed(1));
                    before.lemma_anc_unfold(n as int, n as int);
                    assert(self.doc.spec_removed(n as int));
                }
                let kept = Self::prune(&mut self.node_map, &self.node_keys, &self.doc);
                self.node_keys = kept;
                let kept = Self::prune(&mut self.fragment_map, &self.fragment_keys, &self.doc);
                self.fragment_keys = kept;
                proof {
                    assert(self.node_map() =~= self.live(o.node_map().remove(d.syspath)));
                    assert(self.fragments() =~= self.live(o.fragments()));
                    assert(self.links_inv());
                }
            },
            None => {},
        }
        proof {
            Self::law_detach_keeps_syspaths_mapped(o, *self, d.syspath);
        }
    }

    /// An attached device is in the device map, its element is in the
    /// document, and the element carries the device's keys, with the
    /// managed mark, its properties and its attributes, whose block follows
    /// all its element children.
    pub proof fn law_attach_places_device(o: Tree<D>, t: Tree<D>, d: DeviceView)
        requires
            o.inv(),
            o.attach_ok(d),
            Self::attach_result(o, t, d),
        ensures
            t.node_map().contains_key(d.syspath),
            0 <= t.node_map()[d.syspath] < t.nodes().len(),
            !t.is_removed(t.node_map()[d.syspath] as int),
            t.nodes()[t.node_map()[d.syspath] as int].value == NodeValue::Device,
            t.nodes()[t.node_map()[d.syspath] as int].attributes == device_attributes(
                d,
                true,
                o.which_properties(),
                o.which_attributes(),
            ),
            t.nodes()[t.node_map()[d.syspath] as int].attr_block == attr_block(d.attributes, o.which_attributes()),
            t.nodes()[t.node_map()[d.syspath] as int].attr_pos == t.nodes()[t.node_map()[d.syspath] as int].children.len() as usize,
    {
        if o.node_map().contains_key(d.syspath) {
            let n = o.node_map()[d.syspath] as int;
            assert(t.nodes()[n] == o.updated_nodes(d)[n]);
        } else {
            o.lemma_attach_indices(d);
            let chain = o.planned(d).0;
            lemma_chain_pos(chain, 0, 0);
            let n0 = o.chain_node(d, 0);
            assert(t.node_map()[d.syspath] == n0 as usize);
            assert(t.nodes()[n0] == o.attached_node(d, n0));
            assert(o.chain_index(d, n0) == 0);
        }
    }

    /// Attaching a device that is not in the tree gives every device on
    /// its chain an element in the document: the element of each device
    /// hangs from the element of its parent, and the top of the chain from
    /// the element it was attached to.
    pub proof fn law_attach_links_ancestors(o: Tree<D>, t: Tree<D>, d: DeviceView)
        requires
            o.inv(),
            o.attach_ok(d),
            !o.node_map().contains_key(d.syspath),
            Self::attach_result(o, t, d),
        ensures
            ({
                let chain = o.planned(d).0;
                let nm = t.node_map();
                &&& chain.len() >= 1
                &&& chain[0] == d
                &&& forall|i: int| 0 <= i < chain.len() ==> #[trigger] nm.contains_key(chain[i].syspath)
                    && !t.is_removed(nm[chain[i].syspath] as int)
                &&& forall|i: int| 0 <= i < chain.len() - 1 ==> (#[trigger] chain[i]).parent == Some(Box::new(chain[i + 1]))
                    && t.nodes()[nm[chain[i].syspath] as int].parent == Some(nm[chain[i + 1].syspath])
                &&& t.nodes()[nm[chain.last().syspath] as int].parent == Some(o.target(d) as usize)
                &&& forall|i: int| 1 <= i < chain.len() ==> t.nodes()[nm[#[trigger] chain[i].syspath] as int].attributes
                    == device_attributes(chain[i], false, o.which_properties(), o.which_attributes())
            }),
    {
        o.lemma_attach_indices(d);
        lemma_walk_parents(o.node_map(), o.subsystems(), d, Set::empty());
        let chain = o.planned(d).0;
        let k = chain.len() as int;
        let nm = t.node_map();
        assert forall|i: int| 0 <= i < k implies nm[chain[i].syspath] == o.chain_node(d, i) as usize by {
            lemma_chain_pos(chain, 0, i);
        }
        assert forall|i: int| 0 <= i < k implies #[trigger] nm.contains_key(chain[i].syspath)
            && !t.is_removed(nm[chain[i].syspath] as int) by {
            lemma_chain_pos(chain, 0, i);
            if i == 0 && o.taken(d) {
                assert(t.is_removed(o.chain_node(d, 0)) == o.is_removed(o.chain_node(d, 0)));
            }
        }
        assert forall|i: int| 0 <= i < k - 1 implies (#[trigger] chain[i]).parent == Some(Box::new(chain[i + 1]))
            && t.nodes()[nm[chain[i].syspath] as int].parent == Some(nm[chain[i + 1].syspath]) by {
            lemma_chain_pos(chain, 0, i);
            lemma_chain_pos(chain, 0, i + 1);
            assert(t.nodes()[o.chain_node(d, i)] == o.attached_node(d, o.chain_node(d, i)));
        }
        lemma_chain_pos(chain, 0, k - 1);
        assert(t.nodes()[o.chain_node(d, k - 1)] == o.attached_node(d, o.chain_node(d, k - 1)));
        assert forall|i: int| 1 <= i < k implies t.nodes()[nm[#[trigger] chain[i].syspath] as int].attributes
            == device_attributes(chain[i], false, o.which_properties(), o.which_attributes()) by {
            lemma_chain_pos(chain, 0, i);
            assert(t.nodes()[o.chain_node(d, i)] == o.attached_node(d, o.chain_node(d, i)));
        }
    }

    /// When every subsystem is managed, attaching a device never creates
    /// an element for another device: the chain holds the device alone.
    pub proof fn law_all_managed_no_implicit(o: Tree<D>, d: DeviceView)
        requires
            o.subsystems() == Set::<Seq<char>>::empty(),
        ensures
            o.planned(d).0 == seq![d],
    {
    }

    /// A device whose fragment waits in the tree takes it over when it is
    /// attached: the fragment becomes its element, with the devices that
    /// waited in it, and is no longer kept as a fragment.
    pub proof fn law_fragment_adopted(o: Tree<D>, t: Tree<D>, d: DeviceView)
        requires
            o.inv(),
            o.attach_ok(d),
            !o.node_map().contains_key(d.syspath),
            o.fragments().contains_key(d.syspath),
            Self::attach_result(o, t, d),
        ensures
            t.node_map()[d.syspath] == o.fragments()[d.syspath],
            t.nodes()[o.fragments()[d.syspath] as int].children == o.nodes()[o.fragments()[d.syspath] as int].children,
            !t.is_removed(o.fragments()[d.syspath] as int),
            !t.fragments().contains_key(d.syspath),
    {
        Self::law_attach_places_device(o, t, d);
        o.lemma_attach_indices(d);
        let chain = o.planned(d).0;
        lemma_chain_pos(chain, 0, 0);
        let n0 = o.chain_node(d, 0);
        assert(t.nodes()[n0] == o.attached_node(d, n0));
        lemma_walk(o.node_map(), o.subsystems(), d, Set::empty());
        match o.planned(d).1 {
            Hook::Fragment(key) => {
                lemma_walk_parents(o.node_map(), o.subsystems(), d, Set::empty());
                assert(chain[0].syspath != key);
            },
            _ => {},
        }
    }

    /// A child `x` of the fragment that `p` takes over stays below it,
    /// and is reachable from `<udev>` exactly when the element `p` is
    /// appended to is.
    proof fn lemma_fragment_child_reachable(o: Tree<D>, t: Tree<D>, p: DeviceView, x: usize)
        requires
            o.inv(),
            !o.is_removed(x as int),
            o.attach_ok(p),
            !o.node_map().contains_key(p.syspath),
            o.fragments().contains_key(p.syspath),
            o.nodes()[o.fragments()[p.syspath] as int].children.contains(x),
            p.parent is None || o.node_map().contains_key(p.parent.unwrap().syspath),
            Self::attach_result(o, t, p),
        ensures
            ({
                let f = o.fragments()[p.syspath] as int;
                let target = o.target(p);
                &&& t.node_map()[p.syspath] == f
                &&& t.nodes()[x as int].parent == Some(f as usize)
                &&& t.nodes()[f].parent == Some(target as usize)
                &&& !t.is_removed(x as int)
                &&& t.is_anc(1, x as int) == t.is_anc(1, target)
                &&& p.parent is None ==> target == 1 && t.is_anc(1, x as int)
                &&& p.parent is Some ==> target == o.node_map()[p.parent.unwrap().syspath]
                &&& holds_syspath(t.nodes()[f].attributes, p.syspath)
                &&& forall|y: int|
                    0 <= y < t.nodes().len() && !t.is_removed(y) && #[trigger] holds_syspath(
                        t.nodes()[y].attributes,
                        p.syspath,
                    ) ==> y == f
            }),
    {
        Self::law_fragment_adopted(o, t, p);
        o.lemma_attach_indices(p);
        let chain = o.planned(p).0;
        let f = o.chain_node(p, 0);
        let target = o.target(p);
        let xi = x as int;
        lemma_walk(o.node_map(), o.subsystems(), p, Set::empty());
        assert(chain.len() == 1);
        assert(t.nodes()[f] == o.attached_node(p, f));
        o.doc.lemma_links();
        let j = choose|j: int| 0 <= j < o.nodes()[f].children.len() && o.nodes()[f].children[j] == x;
        assert(o.nodes()[f].children[j] == x);
        assert(0 <= xi < o.nodes().len());
        assert(o.nodes()[xi].parent == Some(f as usize));
        assert(xi != target) by {
            if xi == target {
                o.doc.lemma_anc_unfold(f, xi);
                o.doc.lemma_anc_unfold(f, f);
            }
        }
        assert(xi != f);
        assert(o.chain_index(p, xi) == -1);
        assert(t.nodes()[xi] == o.attached_node(p, xi));
        assert(t.nodes()[xi] == o.nodes()[xi]);
        t.doc.lemma_removed_unfold(xi);
        t.doc.lemma_anc_unfold(1, xi);
        t.doc.lemma_anc_unfold(1, f);
        t.doc.lemma_anc_unfold(1, 1);
        lemma_device_holds_syspath(p, true, o.which_properties(), o.which_attributes());
    }

    /// A device attached while its parent, of a managed subsystem, has no
    /// element waits in a fragment kept for that parent; once the parent is
    /// attached (with no parent, or a parent that has an element), the
    /// waiting device's element is a child of the parent's element, which
    /// hangs from `<udev>` or from its own parent's element, and the waiting
    /// device is reachable from `<udev>` exactly when that element is, always
    /// when the parent has no parent. Exactly one element in the document
    /// carries the parent's syspath.
    pub proof fn law_waiting_child_adopted(
        o: Tree<D>,
        t1: Tree<D>,
        t2: Tree<D>,
        c: DeviceView,
        p: DeviceView,
    )
        requires
            o.inv(),
            o.attach_ok(c),
            c.parent == Some(Box::new(p)),
            !o.node_map().contains_key(c.syspath),
            !o.node_map().contains_key(p.syspath),
            managed(o.subsystems(), p.subsystem),
            Self::attach_result(o, t1, c),
            t1.attach_ok(p),
            p.parent is None || t1.node_map().contains_key(p.parent.unwrap().syspath),
            Self::attach_result(t1, t2, p),
        ensures
            ({
                let nc = t2.node_map()[c.syspath] as int;
                let np = t2.node_map()[p.syspath] as int;
                let target = t1.target(p);
                &&& t2.node_map().contains_key(c.syspath)
                &&& t2.node_map().contains_key(p.syspath)
                &&& nc == t1.node_map()[c.syspath]
                &&& np == t1.fragments()[p.syspath]
                &&& t2.nodes()[nc].parent == Some(np as usize)
                &&& t2.nodes()[np].parent == Some(target as usize)
                &&& !t2.is_removed(nc)
                &&& !t2.is_removed(np)
                &&& t2.is_anc(1, nc) == t2.is_anc(1, target)
                &&& p.parent is None ==> target == 1 && t2.is_anc(1, nc)
                &&& p.parent is Some ==> target == t1.node_map()[p.parent.unwrap().syspath]
                &&& forall|y: int|
                    0 <= y < t2.nodes().len() && !t2.is_removed(y) && #[trigger] holds_syspath(
                        t2.nodes()[y].attributes,
                        p.syspath,
                    ) ==> y == np
            }),
    {
        lemma_walk(o.node_map(), o.subsystems(), c, Set::empty());
        assert(c.syspath != p.syspath);
        assert(o.planned(c).1 == Hook::Fragment(p.syspath));
        Self::law_attach_places_device(o, t1, c);
        o.lemma_attach_indices(c);
        let chain = o.planned(c).0;
        assert(chain.len() == 1);
        lemma_chain_pos(chain, 0, 0);
        let x = o.chain_node(c, 0);
        let f = o.target(c);
        assert(t1.node_map()[c.syspath] == x as usize);
        assert(t1.fragments() == o.attached_fragments(c));
        assert(t1.fragments().contains_key(p.syspath));
        assert(t1.fragments()[p.syspath] == f as usize);
        assert(t1.nodes()[f] == o.attached_node(c, f));
        assert(t1.nodes()[f].children.contains(x as usize)) by {
            let ch = t1.nodes()[f].children;
            assert(ch[ch.len() - 1] == x as usize);
        }
        assert(!t1.node_map().contains_key(p.syspath)) by {
            if chain_pos(chain, p.syspath, 0) >= 0 {
                lemma_chain_pos_range(chain, p.syspath, 0);
            }
        }
        Self::lemma_fragment_child_reachable(t1, t2, p, x as usize);
        Self::law_fragment_adopted(t1, t2, p);
        Self::law_attach_places_device(t1, t2, p);
        t1.lemma_attach_indices(p);
        assert(t2.node_map()[c.syspath] == t1.node_map()[c.syspath]) by {
            let chain2 = t1.planned(p).0;
            lemma_walk(t1.node_map(), t1.subsystems(), p, Set::empty());
            assert(chain2.len() == 1);
            lemma_chain_pos_none(chain2, c.syspath, 0);
        }
    }

    /// Detaching a device right after attaching it below the element of a
    /// managed parent gives back the tree as it was: the same elements,
    /// device map and fragments; the element it had stays out of the
    /// document.
    pub proof fn law_detach_undoes_attach(o: Tree<D>, t1: Tree<D>, t2: Tree<D>, d: DeviceView)
        requires
            o.inv(),
            o.attach_ok(d),
            !o.node_map().contains_key(d.syspath),
            !o.fragments().contains_key(d.syspath),
            d.parent is Some,
            o.node_map().contains_key(d.parent.unwrap().syspath),
            has_key(o.nodes()[o.node_map()[d.parent.unwrap().syspath] as int].attributes, managed_key()),
            Self::attach_result(o, t1, d),
            Self::detach_result(t1, t2, d.syspath),
        ensures
            t2.nodes().len() == o.nodes().len() + 1,
            t2.nodes().take(o.nodes().len() as int) == o.nodes(),
            forall|x: int| 0 <= x < o.nodes().len() ==> t2.is_removed(x) == o.is_removed(x),
            t2.is_removed(o.nodes().len() as int),
            t2.node_map() == o.node_map(),
            t2.fragments() == o.fragments(),
    {
        let len = o.nodes().len() as int;
        let p = *d.parent.unwrap();
        let np = o.node_map()[p.syspath] as int;
        o.lemma_attach_indices(d);
        let chain = o.planned(d).0;
        assert(o.planned(d).1 == Hook::Node(np as usize));
        assert(chain.len() == 1);
        assert(o.target(d) == np);
        assert(o.chain_node(d, 0) == len);
        lemma_chain_pos(chain, 0, 0);
        assert(t1.node_map()[d.syspath] == len as usize);
        assert(t1.nodes()[len] == o.attached_node(d, len));
        assert(t1.nodes()[np] == o.attached_node(d, np));
        assert(t1.nodes()[np].attributes == o.nodes()[np].attributes);
        t1.doc.lemma_climb_unfold(len, managed_key(), 1);
        assert(t1.climb_from(len) == len);
        let s1 = t1.nodes();
        let ch = o.nodes()[np].children;
        o.doc.lemma_links();
        assert forall|j: int| 0 <= j < ch.len() implies ch[j] != len as usize by {
            assert(0 <= ch[j] < len);
        }
        let c1 = ch.push(len as usize);
        assert(s1[np].children == c1);
        let k = c1.index_of(len as usize);
        assert(c1[ch.len() as int] == len as usize);
        assert(c1.contains(len as usize));
        assert(k == ch.len());
        assert(c1.remove(k) =~= ch);
        assert(t2.nodes().take(len) =~= o.nodes());
        assert(s1[len].children.len() == 0);
        assert forall|x: int| 0 <= x < len implies !t1.is_anc(len, x) by {
            if t1.is_anc(len, x) {
                t1.doc.lemma_anc_needs_child(len, x);
            }
        }
        assert forall|kk: Seq<char>| #[trigger] o.node_map().contains_key(kk) implies chain_pos(chain, kk, 0) == -1
            && !t2.is_removed(o.node_map()[kk] as int) by {
            lemma_chain_pos_none(chain, kk, 0);
        }
        let m1 = t1.node_map();
        assert(m1.contains_key(d.syspath));
        assert(t2.node_map() == t2.live(m1.remove(d.syspath)));
        assert forall|kk: Seq<char>| #[trigger] t2.node_map().contains_key(kk) == o.node_map().contains_key(kk) by {
            if kk != d.syspath && !o.node_map().contains_key(kk) {
                if chain_pos(chain, kk, 0) >= 0 {
                    lemma_chain_pos_range(chain, kk, 0);
                }
            }
        }
        assert forall|kk: Seq<char>| #[trigger] t2.node_map().contains_key(kk) implies t2.node_map()[kk]
            == o.node_map()[kk] by {
            assert(o.node_map().contains_key(kk));
        }
        assert(t2.node_map() =~= o.node_map());
        assert(t2.fragments() =~= o.fragments());
    }

    /// Detaching a device right after attaching it below the element of a
    /// managed parent gives back what is reachable from `<udev>`: the same
    /// reachable elements, each as it was and in the document as it was,
    /// and the same devices mapped to them. Devices that waited in a fragment for the device are taken out
    /// with it.
    pub proof fn law_detach_undoes_attach_reachable(o: Tree<D>, t1: Tree<D>, t2: Tree<D>, d: DeviceView)
        requires
            o.inv(),
            o.attach_ok(d),
            !o.node_map().contains_key(d.syspath),
            d.parent is Some,
            o.node_map().contains_key(d.parent.unwrap().syspath),
            has_key(o.nodes()[o.node_map()[d.parent.unwrap().syspath] as int].attributes, managed_key()),
            Self::attach_result(o, t1, d),
            Self::detach_result(t1, t2, d.syspath),
        ensures
            t2.nodes().len() >= o.nodes().len(),
            forall|x: int| 0 <= x < t2.nodes().len() ==> (#[trigger] t2.is_anc(1, x) <==> (x < o.nodes().len()
                && o.is_anc(1, x))),
            forall|x: int| 0 <= x < o.nodes().len() && #[trigger] o.is_anc(1, x) ==> t2.nodes()[x] == o.nodes()[x]
                && t2.is_removed(x) == o.is_removed(x),
            forall|key: Seq<char>| #[trigger] t2.node_map().contains_key(key) && t2.is_anc(1, t2.node_map()[key] as int)
                <==> o.node_map().contains_key(key) && o.is_anc(1, o.node_map()[key] as int),
            forall|key: Seq<char>| #[trigger] o.node_map().contains_key(key) && o.is_anc(1, o.node_map()[key] as int)
                ==> t2.node_map()[key] == o.node_map()[key],
    {
        let len = o.nodes().len() as int;
        let p = *d.parent.unwrap();
        let np = o.node_map()[p.syspath] as int;
        o.lemma_attach_indices(d);
        let chain = o.planned(d).0;
        assert(o.planned(d).1 == Hook::Node(np as usize));
        assert(chain.len() == 1);
        assert(o.target(d) == np);
        let n = o.chain_node(d, 0);
        lemma_chain_pos(chain, 0, 0);
        assert(t1.node_map()[d.syspath] == n as usize);
        assert(t1.nodes()[n] == o.attached_node(d, n));
        assert(t1.nodes()[np] == o.attached_node(d, np));
        assert(t1.nodes()[np].attributes == o.nodes()[np].attributes);
        t1.doc.lemma_climb_unfold(n, managed_key(), 1);
        assert(t1.climb_from(n) == n);
        let s1 = t1.nodes();
        let s2 = t2.nodes();
        let so = o.nodes();
        o.doc.lemma_links();
        t1.doc.lemma_links();
        let ch = so[np].children;
        assert forall|j: int| 0 <= j < ch.len() implies ch[j] != n as usize by {
            if o.taken(d) {
                assert(so[ch[j] as int].parent == Some(np as usize));
            }
        }
        let c1 = ch.push(n as usize);
        assert(s1[np].children == c1);
        let k = c1.index_of(n as usize);
        assert(c1[ch.len() as int] == n as usize);
        assert(c1.contains(n as usize));
        assert(k == ch.len());
        assert(c1.remove(k) =~= ch);
        assert(s2.len() == s1.len());
        assert(s1.len() >= len);
        // Below the old length, the parents are those of `o`.
        assert forall|i: int| 0 <= i < len implies #[trigger] so[i].parent == s2[i].parent by {
            if i == n {
            } else {
                assert(s1[i] == o.attached_node(d, i));
            }
        }
        assert forall|x: int| 0 <= x < len implies (t2.is_anc(1, x) == o.is_anc(1, x)) by {
            o.doc.lemma_anc_same_parents(&t2.doc, -1, 1, x);
        }
        assert forall|x: int| len <= x < s2.len() implies !t2.is_anc(1, x) by {
            assert(x == n);
            t2.doc.lemma_anc_unfold(1, x);
        }
        // The element of `d` is no ancestor of a reachable node of `o`.
        assert forall|x: int| 0 <= x < len && o.is_anc(1, x) implies !t1.is_anc(n, x) by {
            if o.taken(d) {
                if o.doc.spec_is_anc(n, x) {
                    o.doc.lemma_anc_linear(1, n, x);
                    o.doc.lemma_anc_unfold(1, n);
                    o.doc.lemma_anc_unfold(n, 1);
                    o.doc.lemma_anc_unfold(n, 0);
                }
                assert forall|i: int| 0 <= i < len && i != n implies #[trigger] so[i].parent == s1[i].parent by {
                    assert(s1[i] == o.attached_node(d, i));
                }
                o.doc.lemma_anc_same_parents(&t1.doc, n, n, x);
            } else {
                if t1.is_anc(n, x) {
                    t1.doc.lemma_anc_needs_child(n, x);
                }
            }
        }
        assert forall|x: int| 0 <= x < len && #[trigger] o.is_anc(1, x) implies s2[x] == so[x]
            && t2.is_removed(x) == o.is_removed(x) by {
            assert(!t1.is_anc(n, x));
            if x == n {
                o.doc.lemma_anc_unfold(1, x);
            } else {
                assert(s1[x] == o.attached_node(d, x));
            }
        }
        assert forall|key: Seq<char>| #[trigger] o.node_map().contains_key(key) implies chain_pos(chain, key, 0) == -1 by {
            lemma_chain_pos_none(chain, key, 0);
        }
        let m1 = t1.node_map();
        assert(t2.node_map() == t2.live(m1.remove(d.syspath)));
        assert forall|key: Seq<char>| #[trigger] o.node_map().contains_key(key) && o.is_anc(1, o.node_map()[key] as int)
            implies t2.node_map().contains_key(key) && t2.node_map()[key] == o.node_map()[key] by {
            let x = o.node_map()[key] as int;
            assert(m1[key] == x as usize);
            assert(!t1.is_anc(n, x));
            assert(!t2.is_removed(x));
        }
        assert forall|key: Seq<char>| #[trigger] t2.node_map().contains_key(key) && t2.is_anc(1, t2.node_map()[key] as int)
            implies o.node_map().contains_key(key) && o.is_anc(1, o.node_map()[key] as int) by {
            assert(key != d.syspath);
            if !o.node_map().contains_key(key) {
                if chain_pos(chain, key, 0) >= 0 {
                    lemma_chain_pos_range(chain, key, 0);
                }
            }
            assert(m1[key] == o.node_map()[key]);
        }
    }

    /// Every element still in the document that carries a syspath is the
    /// element that the device map gives for that syspath.
    pub open spec fn syspaths_mapped(&self) -> bool {
        forall|x: int, s: Seq<char>|
            0 <= x < self.nodes().len() && !self.is_removed(x) && #[trigger] holds_syspath(self.nodes()[x].attributes, s)
                ==> self.node_map().contains_key(s) && self.node_map()[s] == x
    }

    /// A new tree holds no device element.
    pub proof fn law_initial_syspaths_mapped(t: Tree<D>)
        requires
            t.nodes() == initial_doc(),
        ensures
            t.syspaths_mapped(),
    {
    }

    /// Attaching keeps every syspath in the document on the element that
    /// the device map gives for it.
    pub proof fn law_attach_keeps_syspaths_mapped(o: Tree<D>, t: Tree<D>, d: DeviceView)
        requires
            o.links_inv(),
            o.attach_ok(d),
            o.syspaths_mapped(),
            Self::attach_effect(o, t, d),
        ensures
            t.syspaths_mapped(),
    {
        let len = o.nodes().len() as int;
        if o.node_map().contains_key(d.syspath) {
            let n = o.node_map()[d.syspath] as int;
            assert forall|x: int, sp: Seq<char>|
                0 <= x < t.nodes().len() && !t.is_removed(x) && #[trigger] holds_syspath(t.nodes()[x].attributes, sp)
                implies t.node_map().contains_key(sp) && t.node_map()[sp] == x by {
                if x == n {
                    lemma_device_syspath(d, true, o.which_properties(), o.which_attributes(), sp);
                } else {
                    assert(t.nodes()[x] == o.nodes()[x]);
                }
            }
        } else {
            o.lemma_attach_indices(d);
            let chain = o.planned(d).0;
            let k = chain.len() as int;
            assert forall|x: int, sp: Seq<char>|
                0 <= x < t.nodes().len() && !t.is_removed(x) && #[trigger] holds_syspath(t.nodes()[x].attributes, sp)
                implies t.node_map().contains_key(sp) && t.node_map()[sp] == x by {
                assert(t.nodes()[x] == o.attached_node(d, x));
                let ci = o.chain_index(d, x);
                if ci >= 0 {
                    lemma_device_syspath(chain[ci], ci == 0, o.which_properties(), o.which_attributes(), sp);
                    lemma_chain_pos(chain, 0, ci);
                } else if o.new_fragment(d) && x == o.chain_node(d, k) {
                    assert(t.nodes()[x].attributes == Seq::<((Namespace, Seq<char>), Seq<char>)>::empty());
                } else {
                    assert(x < len);
                    assert(t.nodes()[x].attributes == o.nodes()[x].attributes);
                    assert(!o.is_removed(x));
                    assert(o.node_map().contains_key(sp) && o.node_map()[sp] == x);
                    assert forall|i: int| 0 <= i < k implies chain[i].syspath != sp by {
                        if i == 0 {
                            assert(chain[0] == d);
                        }
                    }
                    lemma_chain_pos_none(chain, sp, 0);
                }
            }
        }
    }

    /// Detaching keeps every syspath in the document on the element that
    /// the device map gives for it.
    pub proof fn law_detach_keeps_syspaths_mapped(o: Tree<D>, t: Tree<D>, key: Seq<char>)
        requires
            o.links_inv(),
            o.syspaths_mapped(),
            Self::detach_effect(o, t, key),
        ensures
            t.syspaths_mapped(),
    {
        if o.node_map().contains_key(key) {
            let n = o.node_map()[key] as int;
            let top = o.climb_from(n);
            assert forall|x: int, sp: Seq<char>|
                0 <= x < t.nodes().len() && !t.is_removed(x) && #[trigger] holds_syspath(t.nodes()[x].attributes, sp)
                implies t.node_map().contains_key(sp) && t.node_map()[sp] == x by {
                let so = o.nodes();
                o.lemma_climb_stays_below(n);
                o.doc.lemma_links();
                assert(t.nodes().len() == so.len());
                match so[top].parent {
                    Some(pp) => {
                        assert(t.nodes()[x].attributes == so[x].attributes);
                    },
                    None => {
                        assert(t.nodes()[x].attributes == so[x].attributes);
                    },
                }
                assert(!o.is_removed(x));
                assert(o.node_map().contains_key(sp) && o.node_map()[sp] == x);
                assert(sp != key);
            }
        }
    }

    /// In any tree (made by `new` and changed by `attach` and `detach`, which
    /// all keep the invariant), no two elements in the document carry the
    /// same syspath.
    pub proof fn law_one_element_per_syspath(t: Tree<D>, x: int, y: int, sp: Seq<char>)
        requires
            t.inv(),
            0 <= x < t.nodes().len(),
            0 <= y < t.nodes().len(),
            !t.is_removed(x),
            !t.is_removed(y),
            holds_syspath(t.nodes()[x].attributes, sp),
            holds_syspath(t.nodes()[y].attributes, sp),
        ensures
            x == y,
    {
    }

    /// Attaching a device that is already in the tree keeps its element,
    /// with its place and its children, and the device map; only the keys,
    /// properties and attributes of the element change: the attribute block
    /// is built from the device's attributes alone and follows all the
    /// element children, which keep their order.
    pub proof fn law_reattach_updates(o: Tree<D>, t: Tree<D>, d: DeviceView)
        requires
            o.inv(),
            o.attach_ok(d),
            o.node_map().contains_key(d.syspath),
            Self::attach_result(o, t, d),
        ensures
            t.node_map() == o.node_map(),
            t.fragments() == o.fragments(),
            t.nodes().len() == o.nodes().len(),
            ({
                let n = o.node_map()[d.syspath] as int;
                &&& t.nodes()[n].parent == o.nodes()[n].parent
                &&& t.nodes()[n].children == o.nodes()[n].children
                &&& t.nodes()[n].attributes == device_attributes(d, true, o.which_properties(), o.which_attributes())
                &&& t.nodes()[n].attr_block == attr_block(d.attributes, o.which_attributes())
                &&& t.nodes()[n].attr_pos == o.nodes()[n].children.len() as usize
                &&& t.nodes()[n].value == o.nodes()[n].value
                &&& t.nodes()[n].removed == o.nodes()[n].removed
                &&& forall|j: int| 0 <= j < o.nodes().len() && j != n ==> t.nodes()[j] == o.nodes()[j]
            }),
    {
    }

    /// Attaching the same device twice gives the document, device map and
    /// fragments that attaching it once gives.
    pub proof fn law_attach_idempotent(o: Tree<D>, t1: Tree<D>, t2: Tree<D>, d: DeviceView)
        requires
            o.inv(),
            o.attach_ok(d),
            Self::attach_result(o, t1, d),
            Self::attach_result(t1, t2, d),
        ensures
            t2.nodes() == t1.nodes(),
            t2.node_map() == t1.node_map(),
            t2.fragments() == t1.fragments(),
            forall|x: int| 0 <= x < t1.nodes().len() ==> t2.is_removed(x) == t1.is_removed(x),
    {
        Self::law_attach_places_device(o, t1, d);
        assert(t1.updated_nodes(d) =~= t1.nodes());
    }

    /// Detaching a device that was just attached takes it out of the device
    /// map and its element out of the document; the rest of the device map
    /// stays.
    pub proof fn law_detach_after_attach(o: Tree<D>, t1: Tree<D>, t2: Tree<D>, d: DeviceView)
        requires
            o.inv(),
            o.attach_ok(d),
            Self::attach_result(o, t1, d),
            Self::detach_result(t1, t2, d.syspath),
        ensures
            !t2.node_map().contains_key(d.syspath),
            t2.node_map() == t2.live(t1.node_map().remove(d.syspath)),
            t2.is_removed(t1.node_map()[d.syspath] as int),
    {
        Self::law_attach_places_device(o, t1, d);
    }
}


/// The empty tree that a builder describes, with the subsystem filter of
/// each monitor and device scan the tree needs (one without filter when it
/// listens to every subsystem, one per subsystem otherwise) and the
/// coalescing window.
pub fn start_tree(builder: UdevTreeBuilder) -> (r: (Tree<Device>, Vec<Option<String>>, Duration))
    ensures
        r.0.inv(),
        r.0.nodes() == initial_doc(),
        r.0.node_map() == Map::<Seq<char>, usize>::empty(),
        r.0.fragments() == Map::<Seq<char>, usize>::empty(),
        r.0.subsystems() == builder.spec_subsystems().to_set(),
        r.0.which_attributes() == builder.spec_attributes(),
        r.0.which_properties() == builder.spec_properties(),
        r.2 == builder.spec_timeout(),
        builder.spec_subsystems().len() == 0 ==> filter_view(r.1@) == seq![None::<Seq<char>>],
        builder.spec_subsystems().len() > 0 ==> {
            &&& filter_view(r.1@).no_duplicates()
            &&& forall|o: Option<Seq<char>>| #[trigger] filter_view(r.1@).contains(o) <==> (o is Some
                && builder.spec_subsystems().contains(o.unwrap()))
        },
{
    let (timeout, attributes, properties, names) = builder.into_parts();
    let set = subsystem_set(names);
    let filters = listen_filters(&set);
    let tree = Tree::new(attributes, properties, set);
    proof {
        let sv = builder.spec_subsystems();
        if sv.len() > 0 {
            assert(sv.to_set().contains(sv[0]));
        } else {
            assert(sv.to_set() =~= Set::<Seq<char>>::empty());
        }
    }
    (tree, filters, timeout)
}

} // verus!
