use vstd::prelude::*;
use std::hash::RandomState;
use indexmap::IndexMap;
use crate::device::{Device, DeviceView, UdevDevice};
use crate::udev_tree::Tree;

verus! {

/// The udev event types, as the monitor reports them.
#[derive(Copy, Clone, PartialEq, Eq, Structural, Debug)]
pub enum EventType {
    Add,
    Change,
    Remove,
    Bind,
    Unbind,
    Unknown,
}

/// What an event does to the tree.
#[derive(Copy, Clone, PartialEq, Eq, Structural, Debug)]
pub enum Kind {
    /// The device appeared
    Add,
    /// The device changed
    Update,
    /// The device went away
    Remove,
}

/// The kind of a monitor event; nothing for events of an unknown type,
/// which the tree skips.
pub open spec fn kind_of(t: EventType) -> Option<Kind> {
    match t {
        EventType::Add => Some(Kind::Add),
        EventType::Change => Some(Kind::Update),
        EventType::Bind => Some(Kind::Update),
        EventType::Unbind => Some(Kind::Update),
        EventType::Remove => Some(Kind::Remove),
        EventType::Unknown => None,
    }
}

/// Classifies a monitor event.
pub fn event_kind(t: EventType) -> (r: Option<Kind>)
    ensures
        r == kind_of(t),
{
    match t {
        EventType::Add => Some(Kind::Add),
        EventType::Change | EventType::Bind | EventType::Unbind => Some(Kind::Update),
        EventType::Remove => Some(Kind::Remove),
        EventType::Unknown => None,
    }
}

/// A device event.
pub struct Event {
    pub kind: Kind,
    pub device: Device,
}

pub open spec fn event_view(e: Event) -> (Kind, DeviceView) {
    (e.kind, e.device@)
}

/// A window entry: the syspath and the pending event.
pub type Entry = (Seq<char>, (Kind, DeviceView));

/// The entries of a window, in order.
pub uninterp spec fn window_entries(m: IndexMap<String, Event, RandomState>) -> Seq<Entry>;

#[verifier::external_type_specification]
#[verifier::external_body]
#[verifier::reject_recursive_types(K)]
#[verifier::reject_recursive_types(V)]
#[verifier::reject_recursive_types(S)]
pub struct ExIndexMap<K, V, S>(IndexMap<K, V, S>);

/// The position of the first entry with the given key, from `i` on; -1
/// when there is none.
pub open spec fn key_pos(es: Seq<Entry>, k: Seq<char>, i: int) -> int
    decreases es.len() - i,
{
    if i < 0 || i >= es.len() {
        -1
    } else if es[i].0 == k {
        i
    } else {
        key_pos(es, k, i + 1)
    }
}

/// No key occurs twice.
pub open spec fn keys_distinct(es: Seq<Entry>) -> bool {
    forall|a: int, b: int| 0 <= a < b < es.len() ==> es[a].0 != es[b].0
}

/// The position found is -1 or that of an entry with the key.
pub proof fn lemma_key_pos_range(es: Seq<Entry>, k: Seq<char>, i: int)
    requires
        0 <= i,
    ensures
        key_pos(es, k, i) == -1 || (i <= key_pos(es, k, i) < es.len() && es[key_pos(es, k, i)].0 == k),
        key_pos(es, k, i) == -1 ==> forall|j: int| i <= j < es.len() ==> es[j].0 != k,
    decreases es.len() - i,
{
    if i < es.len() && es[i].0 != k {
        lemma_key_pos_range(es, k, i + 1);
    }
}

/// With distinct keys, each entry is found at its position.
pub proof fn lemma_key_pos_at(es: Seq<Entry>, i: int, p: int)
    requires
        keys_distinct(es),
        0 <= i <= p < es.len(),
    ensures
        key_pos(es, es[p].0, i) == p,
    decreases p - i,
{
    if i < p {
        lemma_key_pos_at(es, i + 1, p);
    }
}

/// Calls `IndexMap::with_capacity`: an empty map.
#[verifier::external_body]
fn window_with_capacity(n: usize) -> (m: IndexMap<String, Event, RandomState>)
    ensures
        window_entries(m) == Seq::<Entry>::empty(),
{
    IndexMap::with_capacity(n)
}

/// Calls `IndexMap::is_empty`: whether the map has no entry.
#[verifier::external_body]
fn window_is_empty(m: &IndexMap<String, Event, RandomState>) -> (r: bool)
    ensures
        r == (window_entries(*m).len() == 0),
{
    m.is_empty()
}

/// Calls `IndexMap::get_index_of`: the position of the entry with the key.
#[verifier::external_body]
fn window_index_of(m: &IndexMap<String, Event, RandomState>, key: &str) -> (r: Option<usize>)
    ensures
        r is Some <==> key_pos(window_entries(*m), key@, 0) >= 0,
        r matches Some(i) ==> i == key_pos(window_entries(*m), key@, 0),
{
    m.get_index_of(key)
}

/// Calls `Index::index` on the map: the kind of the event at position `i`.
#[verifier::external_body]
fn window_kind_at(m: &IndexMap<String, Event, RandomState>, i: usize) -> (r: Kind)
    requires
        i < window_entries(*m).len(),
    ensures
        r == window_entries(*m)[i as int].1.0,
{
    m[i].kind
}

/// Calls `IndexMut::index_mut` on the map: replaces the event at position
/// `i`; the key stays.
#[verifier::external_body]
fn window_set_at(m: &mut IndexMap<String, Event, RandomState>, i: usize, e: Event)
    requires
        i < window_entries(*old(m)).len(),
    ensures
        window_entries(*final(m)) == window_entries(*old(m)).update(
            i as int,
            (window_entries(*old(m))[i as int].0, event_view(e)),
        ),
{
    m[i] = e;
}

/// Calls `IndexMap::insert`: an existing key keeps its place and gets the
/// new event; a new key comes last.
#[verifier::external_body]
fn window_insert(m: &mut IndexMap<String, Event, RandomState>, key: String, e: Event)
    ensures
        ({
            let es = window_entries(*old(m));
            let i = key_pos(es, key@, 0);
            window_entries(*final(m)) == if i >= 0 {
                es.update(i, (key@, event_view(e)))
            } else {
                es.push((key@, event_view(e)))
            }
        }),
{
    m.insert(key, e);
}

/// Calls `IndexMap::shift_remove`: the entry with the key leaves, those
/// after it keep their order.
#[verifier::external_body]
fn window_shift_remove(m: &mut IndexMap<String, Event, RandomState>, key: &str)
    ensures
        ({
            let es = window_entries(*old(m));
            let i = key_pos(es, key@, 0);
            window_entries(*final(m)) == if i >= 0 {
                es.remove(i)
            } else {
                es
            }
        }),
{
    m.shift_remove(key);
}

/// Calls `IndexMap::drain` on the whole map: every entry in order, and the
/// map left empty.
#[verifier::external_body]
fn window_drain(m: &mut IndexMap<String, Event, RandomState>) -> (r: Vec<(String, Event)>)
    ensures
        window_entries(*final(m)) == Seq::<Entry>::empty(),
        r@.map_values(|p: (String, Event)| (p.0@, event_view(p.1))) == window_entries(*old(m)),
{
    m.drain(..).collect()
}

/// Why waiting for a tree update fails.
#[derive(Copy, Clone, PartialEq, Eq, Structural, Debug)]
pub enum ReadyError {
    /// The window failed before and will not be used again
    BrokenPipe,
    /// Two events for one device came in an order that cannot be merged
    Unsupported,
}

/// Merging an event into the window: nothing when the pair of events
/// cannot be merged.
pub open spec fn merge_spec(es: Seq<Entry>, new: Entry) -> Option<Seq<Entry>> {
    let k = new.0;
    let i = key_pos(es, k, 0);
    if i < 0 {
        Some(es.push(new))
    } else {
        match (es[i].1.0, new.1.0) {
            (Kind::Add, Kind::Update) => Some(es.update(i, (k, (Kind::Add, new.1.1)))),
            (Kind::Add, Kind::Remove) => Some(es.remove(i)),
            (Kind::Update, Kind::Update) => Some(es.update(i, (k, (Kind::Update, new.1.1)))),
            (Kind::Update, Kind::Remove) => Some(es.remove(i).push(new)),
            (Kind::Remove, Kind::Add) => Some(es.update(i, (k, (Kind::Update, new.1.1)))),
            _ => None,
        }
    }
}

/// `t` is `o` once the event `e` is applied: a removal detaches the
/// device, any other event attaches it.
pub open spec fn step(o: Tree<Device>, t: Tree<Device>, e: (Kind, DeviceView)) -> bool {
    if e.0 == Kind::Remove {
        Tree::<Device>::detach_result(o, t, e.1.syspath)
    } else {
        Tree::<Device>::attach_result(o, t, e.1)
    }
}

/// Each state of `ts` follows from the one before by the entry of `es` at
/// the same position.
pub open spec fn states_follow(ts: Seq<Tree<Device>>, es: Seq<Entry>) -> bool {
    &&& ts.len() == es.len() + 1
    &&& forall|i: int| 0 <= i < es.len() ==> #[trigger] step(ts[i], ts[i + 1], es[i].1)
}

/// `t` is `o` once the entries `es` are applied in order.
pub open spec fn applied(o: Tree<Device>, t: Tree<Device>, es: Seq<Entry>) -> bool {
    exists|ts: Seq<Tree<Device>>| #[trigger] states_follow(ts, es) && ts[0] == o && ts.last() == t
}

/// The number of events a new window has room for before it grows.
const WINDOW_WARMUP: usize = 5;

/// The events of one time window, one per device, in the order they are
/// applied, and whether the window has failed.
pub struct EventWindow {
    entries: IndexMap<String, Event, RandomState>,
    broken: bool,
}

impl EventWindow {
    pub closed spec fn entries(&self) -> Seq<Entry> {
        window_entries(self.entries)
    }

    pub closed spec fn is_broken(&self) -> bool {
        self.broken
    }

    /// Each device has at most one entry.
    pub open spec fn wf(&self) -> bool {
        keys_distinct(self.entries())
    }

    /// An empty window that has not failed.
    pub fn new() -> (w: Self)
        ensures
            w.wf(),
            w.entries() == Seq::<Entry>::empty(),
            !w.is_broken(),
    {
        EventWindow { entries: window_with_capacity(WINDOW_WARMUP), broken: false }
    }

    /// Fails once the window has failed.
    pub fn check(&self) -> (r: Result<(), ReadyError>)
        ensures
            r is Err <==> self.is_broken(),
            r matches Err(e) ==> e == ReadyError::BrokenPipe,
    {
        if self.broken {
            Err(ReadyError::BrokenPipe)
        } else {
            Ok(())
        }
    }

    /// Marks the window as failed, after the event source failed.
    pub fn fail(&mut self)
        ensures
            final(self).is_broken(),
            final(self).entries() == old(self).entries(),
            final(self).wf() == old(self).wf(),
    {
        self.broken = true;
    }

    /// Whether the window holds no event.
    pub fn is_empty(&self) -> (r: bool)
        ensures
            r == (self.entries().len() == 0),
    {
        window_is_empty(&self.entries)
    }

    /// Opens a window with its first event: the event of its device takes
    /// its place, or it comes last.
    pub fn open(&mut self, event: Event)
        requires
            old(self).wf(),
        ensures
            final(self).wf(),
            ({
                let es = old(self).entries();
                let k = event.device@.syspath;
                let i = key_pos(es, k, 0);
                final(self).entries() == if i >= 0 {
                    es.update(i, (k, event_view(event)))
                } else {
                    es.push((k, event_view(event)))
                }
            }),
            final(self).is_broken() == old(self).is_broken(),
    {
        let ghost es = self.entries();
        let ghost k = event.device@.syspath;
        let key = event.device.syspath.clone();
        window_insert(&mut self.entries, key, event);
        proof {
            lemma_key_pos_range(es, k, 0);
        }
    }

    /// Merges a later event of the same window. An added device that
    /// changes stays added with its latest state; one that goes away again
    /// leaves the window; a changed device keeps its latest state, and when
    /// it goes away its removal moves last; a removed device that comes back
    /// is changed. Any other pair cannot be merged: the window fails.
    pub fn merge(&mut self, new: Event) -> (r: Result<(), ReadyError>)
        requires
            old(self).wf(),
        ensures
            final(self).wf(),
            ({
                let m = merge_spec(old(self).entries(), (new.device@.syspath, event_view(new)));
                match m {
                    Some(es) => r is Ok && final(self).entries() == es && final(self).is_broken() == old(
                        self,
                    ).is_broken(),
                    None => r == Err::<(), ReadyError>(ReadyError::Unsupported) && final(self).entries()
                        == old(self).entries() && final(self).is_broken(),
                }
            }),
    {
        let ghost es = self.entries();
        let ghost k = new.device@.syspath;
        let ghost ne = (k, event_view(new));
        let key = new.device.syspath.clone();
        proof {
            lemma_key_pos_range(es, k, 0);
        }
        match window_index_of(&self.entries, key.as_str()) {
            None => {
                window_insert(&mut self.entries, key, new);
                Ok(())
            },
            Some(i) => {
                let old_kind = window_kind_at(&self.entries, i);
                match (old_kind, new.kind) {
                    (Kind::Add, Kind::Update) => {
                        window_set_at(&mut self.entries, i, Event { kind: Kind::Add, device: new.device });
                        Ok(())
                    },
                    (Kind::Add, Kind::Remove) => {
                        window_shift_remove(&mut self.entries, key.as_str());
                        Ok(())
                    },
                    (Kind::Update, Kind::Update) => {
                        window_set_at(&mut self.entries, i, Event { kind: Kind::Update, device: new.device });
                        Ok(())
                    },
                    (Kind::Update, Kind::Remove) => {
                        window_shift_remove(&mut self.entries, key.as_str());
                        proof {
                            let es1 = es.remove(i as int);
                            assert(self.entries() == es1);
                            assert forall|j: int| 0 <= j < es1.len() implies es1[j].0 != k by {
                                if j < i {
                                    assert(es1[j] == es[j]);
                                } else {
                                    assert(es1[j] == es[j + 1]);
                                }
                            }
                            lemma_key_pos_range(es1, k, 0);
                        }
                        window_insert(&mut self.entries, key, new);
                        Ok(())
                    },
                    (Kind::Remove, Kind::Add) => {
                        window_set_at(&mut self.entries, i, Event { kind: Kind::Update, device: new.device });
                        Ok(())
                    },
                    _ => {
                        self.broken = true;
                        Err(ReadyError::Unsupported)
                    },
                }
            },
        }
    }

    /// Applies the window to the tree in order and empties it: removals
    /// detach, other events attach. `Ok(false)` when the window was empty;
    /// the syspath of the first device whose attachment is not defined, with
    /// the events before it applied, otherwise, and the window fails.
    pub fn flush(&mut self, tree: &mut Tree<Device>) -> (r: Result<bool, String>)
        requires
            old(self).wf(),
            old(tree).inv(),
        ensures
            final(self).wf(),
            final(self).entries() == Seq::<Entry>::empty(),
            final(self).is_broken() == (old(self).is_broken() || r is Err),
            final(tree).inv(),
            (r == Ok::<bool, String>(false)) <==> old(self).entries().len() == 0,
            old(self).entries().len() == 0 ==> *final(tree) == *old(tree),
            r is Ok ==> applied(*old(tree), *final(tree), old(self).entries()),
            r matches Err(k) ==> exists|i: int| {
                &&& 0 <= i < old(self).entries().len()
                &&& applied(*old(tree), *final(tree), #[trigger] old(self).entries().take(i))
                &&& old(self).entries()[i].1.0 != Kind::Remove
                &&& !final(tree).attach_ok(old(self).entries()[i].1.1)
                &&& k@ == old(self).entries()[i].0
            },
    {
        if window_is_empty(&self.entries) {
            proof {
                let ts = seq![*tree];
                assert(states_follow(ts, self.entries()));
            }
            return Ok(false);
        }
        let ghost es = self.entries();
        let ghost o = *tree;
        let mut items = window_drain(&mut self.entries);
        let ghost iv = items@.map_values(|p: (String, Event)| (p.0@, event_view(p.1)));
        let n = items.len();
        let ghost mut ts: Seq<Tree<Device>> = seq![*tree];
        proof {
            assert(iv == es);
            assert(es.take(0) =~= Seq::<Entry>::empty());
        }
        let mut i: usize = 0;
        while i < n
            invariant
                n == es.len(),
                es == old(self).entries(),
                n > 0,
                o == *old(tree),
                i <= n,
                items@.len() == n - i,
                forall|j: int| 0 <= j < n - i ==> (#[trigger] items@[j].0@, event_view(items@[j].1)) == es[i + j],
                tree.inv(),
                states_follow(ts, es.take(i as int)),
                ts[0] == o,
                ts.last() == *tree,
                self.wf(),
                self.entries() == Seq::<Entry>::empty(),
                self.is_broken() == old(self).is_broken(),
            decreases n - i,
        {
            let ghost before = *tree;
            let ghost items_before = items@;
            let (key, ev) = items.remove(0);
            proof {
                assert((key@, event_view(ev)) == es[i as int]);
            }
            match ev.kind {
                Kind::Remove => {
                    tree.detach(ev.device);
                },
                _ => {
                    if tree.can_attach(ev.device.duplicate()) {
                        tree.attach(ev.device);
                    } else {
                        proof {
                            assert(applied(o, *tree, es.take(i as int)));
                        }
                        self.broken = true;
                        return Err(key);
                    }
                },
            }
            proof {
                let ts2 = ts.push(*tree);
                assert(step(before, *tree, es[i as int].1));
                assert(es.take(i + 1).drop_last() =~= es.take(i as int));
                assert forall|j: int| 0 <= j < es.take(i + 1).len() implies #[trigger] step(ts2[j], ts2[j + 1], es.take(i + 1)[j].1) by {
                    if j < i {
                        assert(step(ts[j], ts[j + 1], es.take(i as int)[j].1));
                    }
                }
                ts = ts2;
                assert(forall|j: int| 0 <= j < n - (i + 1) ==> (#[trigger] items@[j].0@, event_view(items@[j].1)) == es[(i + 1) + j]) by {
                    assert forall|j: int| 0 <= j < n - (i + 1) implies (#[trigger] items@[j].0@, event_view(items@[j].1)) == es[(i + 1) + j] by {
                        assert(items@[j] == items_before[j + 1]);
                        assert((items_before[j + 1].0@, event_view(items_before[j + 1].1)) == es[i + (j + 1)]);
                    }
                }
            }
            i = i + 1;
        }
        proof {
            assert(es.take(n as int) =~= es);
        }
        Ok(true)
    }
}

/// A device that comes and goes within one window leaves no trace in it:
/// the window is as it was before the device came.
pub proof fn law_add_then_remove_cancels(es: Seq<Entry>, added: DeviceView, removed: DeviceView)
    requires
        keys_distinct(es),
        key_pos(es, added.syspath, 0) < 0,
        removed.syspath == added.syspath,
    ensures
        ({
            let k = added.syspath;
            let w1 = merge_spec(es, (k, (Kind::Add, added)));
            &&& w1 == Some(es.push((k, (Kind::Add, added))))
            &&& merge_spec(w1.unwrap(), (k, (Kind::Remove, removed))) == Some(es)
        }),
{
    let k = added.syspath;
    let es1 = es.push((k, (Kind::Add, added)));
    lemma_key_pos_range(es, k, 0);
    assert(keys_distinct(es1));
    lemma_key_pos_at(es1, 0, es.len() as int);
    assert(es1.remove(es.len() as int) =~= es);
}

/// After a merge that succeeds, the window holds the latest state of the
/// device: a device that goes away again after being added is gone, a
/// removal comes last, and any other event leaves one entry with the new
/// device.
pub proof fn law_merge_keeps_latest(es: Seq<Entry>, new: Entry)
    requires
        keys_distinct(es),
        merge_spec(es, new) is Some,
    ensures
        ({
            let es2 = merge_spec(es, new).unwrap();
            let k = new.0;
            let i = key_pos(es, k, 0);
            &&& keys_distinct(es2)
            &&& (new.1.0 == Kind::Remove && i >= 0 && es[i].1.0 == Kind::Add) ==> key_pos(es2, k, 0) < 0
            &&& (new.1.0 == Kind::Remove && !(i >= 0 && es[i].1.0 == Kind::Add)) ==> es2.last() == new
            &&& new.1.0 != Kind::Remove ==> key_pos(es2, k, 0) >= 0 && es2[key_pos(es2, k, 0)].1.1 == new.1.1
        }),
{
    let es2 = merge_spec(es, new).unwrap();
    let k = new.0;
    let i = key_pos(es, k, 0);
    lemma_key_pos_range(es, k, 0);
    if i >= 0 {
        let es1 = es.remove(i);
        assert forall|j: int| 0 <= j < es1.len() implies es1[j].0 != k by {
            if j < i {
                assert(es1[j] == es[j]);
            } else {
                assert(es1[j] == es[j + 1]);
            }
        }
        assert(keys_distinct(es1));
        lemma_key_pos_range(es1, k, 0);
        if new.1.0 != Kind::Remove {
            assert(keys_distinct(es2));
            lemma_key_pos_at(es2, 0, i);
        }
    } else {
        assert(keys_distinct(es2));
        lemma_key_pos_at(es2, 0, es.len() as int);
    }
    lemma_key_pos_range(es2, k, 0);
}

/// An entry records whether its device was in the tree before the window
/// and whether it is after: `Add` for a device that was not and is,
/// `Update` for one that was and is, `Remove` for one that was and is not.
/// Merging a further event for a device keeps what the entry says of
/// before the window and takes from the new event what holds after it;
/// only a device that came and went within the window leaves no entry.
pub proof fn law_merge_tracks_presence(es: Seq<Entry>, new: Entry)
    requires
        keys_distinct(es),
        key_pos(es, new.0, 0) >= 0,
        merge_spec(es, new) is Some,
    ensures
        ({
            let k = new.0;
            let before = es[key_pos(es, k, 0)].1.0;
            let es2 = merge_spec(es, new).unwrap();
            let j = key_pos(es2, k, 0);
            &&& (j >= 0) == !(before == Kind::Add && new.1.0 == Kind::Remove)
            &&& j >= 0 ==> ((es2[j].1.0 == Kind::Add) == (before == Kind::Add))
            &&& j >= 0 ==> ((es2[j].1.0 == Kind::Remove) == (new.1.0 == Kind::Remove))
        }),
{
    let k = new.0;
    law_merge_keeps_latest(es, new);
    let es2 = merge_spec(es, new).unwrap();
    let i = key_pos(es, k, 0);
    lemma_key_pos_range(es, k, 0);
    lemma_key_pos_range(es2, k, 0);
    if new.1.0 == Kind::Remove && es[i].1.0 != Kind::Add {
        assert(es2.last() == new);
        assert(es2[es2.len() - 1].0 == k);
        lemma_key_pos_at(es2, 0, es2.len() - 1);
    }
}

/// A window refuses exactly the events that contradict what its entry
/// says of the device after the window: an `Add` for a device that is
/// there, an `Update` or `Remove` for one that is gone. A device without an
/// entry takes any event.
pub proof fn law_merge_refuses_contradictions(es: Seq<Entry>, new: Entry)
    requires
        keys_distinct(es),
    ensures
        ({
            let i = key_pos(es, new.0, 0);
            &&& i < 0 ==> merge_spec(es, new) is Some
            &&& i >= 0 ==> ((merge_spec(es, new) is None) == (if new.1.0 == Kind::Add {
                es[i].1.0 != Kind::Remove
            } else {
                es[i].1.0 == Kind::Remove
            }))
        }),
{
}

/// Merging an event leaves the entries of other devices as they were and
/// in their order: an event for a device without an entry comes last; one
/// that keeps the device's entry keeps it in its place; a removal of a
/// device that was in the tree moves its entry last, and one of a device
/// added within the window takes its entry out.
pub proof fn law_merge_keeps_others(es: Seq<Entry>, new: Entry)
    requires
        keys_distinct(es),
        merge_spec(es, new) is Some,
    ensures
        ({
            let k = new.0;
            let i = key_pos(es, k, 0);
            let es2 = merge_spec(es, new).unwrap();
            &&& i < 0 ==> es2.len() == es.len() + 1 && es2.take(es.len() as int) == es && es2.last() == new
            &&& i >= 0 && new.1.0 != Kind::Remove ==> {
                &&& es2.len() == es.len()
                &&& es2[i].0 == k
                &&& forall|t: int| 0 <= t < es.len() && t != i ==> es2[t] == es[t]
            }
            &&& i >= 0 && new.1.0 == Kind::Remove ==> {
                &&& es2.take(i) == es.take(i)
                &&& forall|t: int| i < t < es.len() ==> es2[t - 1] == es[t]
                &&& es[i].1.0 == Kind::Add ==> es2.len() == es.len() - 1
                &&& es[i].1.0 != Kind::Add ==> es2.len() == es.len() && es2.last() == new
            }
        }),
{
    let k = new.0;
    let i = key_pos(es, k, 0);
    let es2 = merge_spec(es, new).unwrap();
    lemma_key_pos_range(es, k, 0);
    if i < 0 {
        assert(es2.take(es.len() as int) =~= es);
    } else if new.1.0 == Kind::Remove {
        assert(es2.take(i) =~= es.take(i));
    }
}

} // verus!
