//! The XML attributes of device elements: udev keys, properties and the
//! values of attributes without path.

use vstd::prelude::*;
use crate::config::{WhichAttributes, WhichProperties};
use crate::device::{DeviceView, UdevDevice, pairs_view};
use crate::attrs::{attr_block, device_values};
use crate::xml::{AttrName, Namespace, NodeV, NodeValue, attrs_view, strings_view};

verus! {

/// The name `key:SYSPATH`, the syspath of a device.
pub open spec fn syspath_key() -> (Namespace, Seq<char>) {
    (Namespace::Key, "SYSPATH"@)
}

/// The name `key:SYSNAME`, the sysname of a device.
pub open spec fn sysname_key() -> (Namespace, Seq<char>) {
    (Namespace::Key, "SYSNAME"@)
}

/// The name `key:SUBSYSTEM`, the subsystem of a device.
pub open spec fn subsystem_key() -> (Namespace, Seq<char>) {
    (Namespace::Key, "SUBSYSTEM"@)
}

/// The name `key:DRIVER`, the driver of a device.
pub open spec fn driver_key() -> (Namespace, Seq<char>) {
    (Namespace::Key, "DRIVER"@)
}

/// The name `_:managed`, the mark of a device that came from the monitor.
pub open spec fn managed_key() -> (Namespace, Seq<char>) {
    (Namespace::Meta, "managed"@)
}

/// The name `value`, the value of a device attribute.
pub open spec fn value_key() -> (Namespace, Seq<char>) {
    (Namespace::Plain, "value"@)
}

/// The udev keys of a device as XML attributes, with the `_:managed` mark.
pub open spec fn key_attrs(d: DeviceView, is_managed: bool) -> Seq<((Namespace, Seq<char>), Seq<char>)> {
    seq![(syspath_key(), d.syspath), (sysname_key(), d.sysname)] + (match d.subsystem {
        Some(s) => seq![(subsystem_key(), s)],
        None => seq![],
    }) + (match d.driver {
        Some(s) => seq![(driver_key(), s)],
        None => seq![],
    }) + (if is_managed {
        seq![(managed_key(), Seq::<char>::empty())]
    } else {
        seq![]
    })
}

/// The properties of a device as XML attributes without namespace.
pub open spec fn prop_attrs(d: DeviceView, wp: WhichProperties) -> Seq<((Namespace, Seq<char>), Seq<char>)> {
    if wp == WhichProperties::All {
        d.properties.map_values(|p: (Seq<char>, Seq<char>)| ((Namespace::Plain, p.0), p.1))
    } else {
        seq![]
    }
}

/// The index of the first attribute with the given name, from `i` on; -1
/// when there is none.
pub open spec fn key_from(a: Seq<((Namespace, Seq<char>), Seq<char>)>, k: (Namespace, Seq<char>), i: int) -> int
    decreases a.len() - i,
{
    if i < 0 || i >= a.len() {
        -1
    } else if a[i].0 == k {
        i
    } else {
        key_from(a, k, i + 1)
    }
}

/// Setting an XML attribute: the value of an existing one is replaced in
/// place, a new one comes last.
pub open spec fn attr_insert(a: Seq<((Namespace, Seq<char>), Seq<char>)>, k: (Namespace, Seq<char>), v: Seq<char>) -> Seq<((Namespace, Seq<char>), Seq<char>)> {
    let i = key_from(a, k, 0);
    if i >= 0 {
        a.update(i, (k, v))
    } else {
        a.push((k, v))
    }
}

/// Setting the given attributes one after the other.
pub open spec fn insert_all(a: Seq<((Namespace, Seq<char>), Seq<char>)>, kvs: Seq<((Namespace, Seq<char>), Seq<char>)>) -> Seq<((Namespace, Seq<char>), Seq<char>)>
    decreases kvs.len(),
{
    if kvs.len() == 0 {
        a
    } else {
        attr_insert(insert_all(a, kvs.drop_last()), kvs.last().0, kvs.last().1)
    }
}

/// Every XML attribute that a device element gets, in the order it is set:
/// keys, properties, then the values of attributes without path.
pub open spec fn attr_sequence(d: DeviceView, is_managed: bool, wp: WhichProperties, wa: WhichAttributes) -> Seq<((Namespace, Seq<char>), Seq<char>)> {
    key_attrs(d, is_managed) + prop_attrs(d, wp) + device_values(d.attributes, wa).map_values(
        |v: Seq<char>| (value_key(), v),
    )
}

/// The XML attributes of a device element.
pub open spec fn device_attributes(d: DeviceView, is_managed: bool, wp: WhichProperties, wa: WhichAttributes) -> Seq<((Namespace, Seq<char>), Seq<char>)> {
    insert_all(seq![], attr_sequence(d, is_managed, wp, wa))
}

/// The attribute list gives `key:SYSPATH` the value `s`.
pub open spec fn holds_syspath(a: Seq<((Namespace, Seq<char>), Seq<char>)>, s: Seq<char>) -> bool {
    exists|i: int| 0 <= i < a.len() && #[trigger] a[i] == (syspath_key(), s)
}

/// The index found is -1 or that of an attribute in the list.
proof fn lemma_key_from_range(a: Seq<((Namespace, Seq<char>), Seq<char>)>, k: (Namespace, Seq<char>), i: int)
    requires
        0 <= i,
    ensures
        key_from(a, k, i) == -1 || (i <= key_from(a, k, i) < a.len()),
    decreases a.len() - i,
{
    if i < a.len() && a[i].0 != k {
        lemma_key_from_range(a, k, i + 1);
    }
}

/// Setting attributes one after the other only ever leaves attributes that
/// were there or that were set.
pub proof fn lemma_insert_all_from(
    a: Seq<((Namespace, Seq<char>), Seq<char>)>,
    kvs: Seq<((Namespace, Seq<char>), Seq<char>)>,
    e: ((Namespace, Seq<char>), Seq<char>),
)
    requires
        insert_all(a, kvs).contains(e),
    ensures
        a.contains(e) || kvs.contains(e),
    decreases kvs.len(),
{
    if kvs.len() > 0 {
        let b = insert_all(a, kvs.drop_last());
        let r = insert_all(a, kvs);
        let j = choose|j: int| 0 <= j < r.len() && r[j] == e;
        let i = key_from(b, kvs.last().0, 0);
        if e == kvs.last() {
            assert(kvs[kvs.len() - 1] == e);
        } else {
            lemma_key_from_range(b, kvs.last().0, 0);
            if i >= 0 {
                if j == i {
                    assert(r[j] == kvs.last());
                }
                assert(r[j] == b[j]);
            } else {
                assert(r[j] == b[j]);
            }
            assert(b.contains(e));
            lemma_insert_all_from(a, kvs.drop_last(), e);
            if kvs.drop_last().contains(e) {
                let m = choose|m: int| 0 <= m < kvs.drop_last().len() && kvs.drop_last()[m] == e;
                assert(kvs[m] == e);
            }
        }
    }
}

/// The only syspath a device element holds is the device's own.
pub proof fn lemma_device_syspath(d: DeviceView, m: bool, wp: WhichProperties, wa: WhichAttributes, s: Seq<char>)
    requires
        holds_syspath(device_attributes(d, m, wp, wa), s),
    ensures
        s == d.syspath,
{
    let a = device_attributes(d, m, wp, wa);
    let kvs = attr_sequence(d, m, wp, wa);
    let i = choose|i: int| 0 <= i < a.len() && #[trigger] a[i] == (syspath_key(), s);
    assert(a.contains((syspath_key(), s)));
    lemma_insert_all_from(seq![], kvs, (syspath_key(), s));
    let j = choose|j: int| 0 <= j < kvs.len() && kvs[j] == (syspath_key(), s);
    reveal_strlit("SYSPATH");
    reveal_strlit("SYSNAME");
    reveal_strlit("SUBSYSTEM");
    reveal_strlit("DRIVER");
    assert("SYSNAME"@[3] != "SYSPATH"@[3]);
    assert("SUBSYSTEM"@.len() != "SYSPATH"@.len());
    assert("DRIVER"@.len() != "SYSPATH"@.len());
    let ka = key_attrs(d, m);
    let pa = prop_attrs(d, wp);
    let va = device_values(d.attributes, wa).map_values(|v: Seq<char>| (value_key(), v));
    assert(kvs == ka + pa + va);
    if j < ka.len() {
        assert(kvs[j] == ka[j]);
    } else if j < ka.len() + pa.len() {
        assert(kvs[j] == pa[j - ka.len()]);
    } else {
        assert(kvs[j] == va[j - ka.len() - pa.len()]);
    }
}

/// Setting attributes from none keeps the first one in front when no later
/// one has its name.
proof fn lemma_insert_all_first(kvs: Seq<((Namespace, Seq<char>), Seq<char>)>)
    requires
        kvs.len() > 0,
        forall|j: int| 0 < j < kvs.len() ==> (#[trigger] kvs[j]).0 != kvs[0].0,
    ensures
        insert_all(seq![], kvs).len() > 0,
        insert_all(seq![], kvs)[0] == kvs[0],
    decreases kvs.len(),
{
    let e: Seq<((Namespace, Seq<char>), Seq<char>)> = seq![];
    if kvs.len() == 1 {
        assert(kvs.drop_last() =~= e);
        assert(insert_all(e, kvs.drop_last()) == e);
        assert(key_from(e, kvs[0].0, 0) == -1);
    } else {
        let rest = kvs.drop_last();
        assert forall|j: int| 0 < j < rest.len() implies (#[trigger] rest[j]).0 != rest[0].0 by {
            assert(rest[j] == kvs[j]);
        }
        lemma_insert_all_first(rest);
        let b = insert_all(e, rest);
        let k = kvs.last().0;
        assert(k != b[0].0);
        lemma_key_from_range(b, k, 0);
        lemma_key_from_range(b, k, 1);
        assert(key_from(b, k, 0) != 0);
    }
}

/// A device element holds the device's own syspath.
pub proof fn lemma_device_holds_syspath(d: DeviceView, m: bool, wp: WhichProperties, wa: WhichAttributes)
    ensures
        holds_syspath(device_attributes(d, m, wp, wa), d.syspath),
{
    let kvs = attr_sequence(d, m, wp, wa);
    reveal_strlit("SYSPATH");
    reveal_strlit("SYSNAME");
    reveal_strlit("SUBSYSTEM");
    reveal_strlit("DRIVER");
    assert("SYSNAME"@[3] != "SYSPATH"@[3]);
    assert("SUBSYSTEM"@.len() != "SYSPATH"@.len());
    assert("DRIVER"@.len() != "SYSPATH"@.len());
    let ka = key_attrs(d, m);
    let pa = prop_attrs(d, wp);
    let va = device_values(d.attributes, wa).map_values(|v: Seq<char>| (value_key(), v));
    assert(kvs == ka + pa + va);
    assert(kvs[0] == (syspath_key(), d.syspath));
    assert forall|j: int| 0 < j < kvs.len() implies (#[trigger] kvs[j]).0 != kvs[0].0 by {
        if j < ka.len() {
            assert(kvs[j] == ka[j]);
        } else if j < ka.len() + pa.len() {
            assert(kvs[j] == pa[j - ka.len()]);
        } else {
            assert(kvs[j] == va[j - ka.len() - pa.len()]);
        }
    }
    lemma_insert_all_first(kvs);
    let a = device_attributes(d, m, wp, wa);
    assert(a[0] == (syspath_key(), d.syspath));
}

/// The position found is -1 or that of an attribute with the name.
proof fn lemma_key_from_found(a: Seq<((Namespace, Seq<char>), Seq<char>)>, k: (Namespace, Seq<char>), i: int)
    requires
        0 <= i,
    ensures
        key_from(a, k, i) == -1 || (i <= key_from(a, k, i) < a.len() && a[key_from(a, k, i)].0 == k),
    decreases a.len() - i,
{
    if i < a.len() && a[i].0 != k {
        lemma_key_from_found(a, k, i + 1);
    }
}

/// An attribute set last under its name is among the attributes.
proof fn lemma_insert_all_last(
    a: Seq<((Namespace, Seq<char>), Seq<char>)>,
    kvs: Seq<((Namespace, Seq<char>), Seq<char>)>,
    j: int,
)
    requires
        0 <= j < kvs.len(),
        forall|l: int| j < l < kvs.len() ==> (#[trigger] kvs[l]).0 != kvs[j].0,
    ensures
        insert_all(a, kvs).contains(kvs[j]),
    decreases kvs.len(),
{
    let b = insert_all(a, kvs.drop_last());
    let k = kvs.last().0;
    let i = key_from(b, k, 0);
    lemma_key_from_found(b, k, 0);
    let r = insert_all(a, kvs);
    if j == kvs.len() - 1 {
        if i >= 0 {
            assert(r[i] == kvs[j]);
        } else {
            assert(r[b.len() as int] == kvs[j]);
        }
    } else {
        let rest = kvs.drop_last();
        assert forall|l: int| j < l < rest.len() implies (#[trigger] rest[l]).0 != rest[j].0 by {
            assert(rest[l] == kvs[l]);
        }
        lemma_insert_all_last(a, rest, j);
        assert(rest[j] == kvs[j]);
        let p = choose|p: int| 0 <= p < b.len() && b[p] == kvs[j];
        assert(kvs[kvs.len() - 1].0 != kvs[j].0);
        assert(r[p] == kvs[j]);
    }
}

/// Every device element carries the device's syspath and sysname as
/// `key:SYSPATH` and `key:SYSNAME`, its subsystem as `key:SUBSYSTEM` and
/// its driver as `key:DRIVER` when it has them, and no other value under
/// these names, whether it is managed or not; it carries the `_:managed`
/// mark, empty, exactly when it is managed.
pub proof fn law_keys_whatever_the_mark(d: DeviceView, m: bool, wp: WhichProperties, wa: WhichAttributes)
    ensures
        forall|v: Seq<char>| #[trigger] device_attributes(d, m, wp, wa).contains((syspath_key(), v)) <==> v
            == d.syspath,
        forall|v: Seq<char>| #[trigger] device_attributes(d, m, wp, wa).contains((sysname_key(), v)) <==> v
            == d.sysname,
        forall|v: Seq<char>| #[trigger] device_attributes(d, m, wp, wa).contains((managed_key(), v)) <==> (m
            && v == Seq::<char>::empty()),
        forall|v: Seq<char>| #[trigger] device_attributes(d, m, wp, wa).contains((driver_key(), v)) <==> d.driver
            == Some(v),
        forall|v: Seq<char>| #[trigger] device_attributes(d, m, wp, wa).contains((subsystem_key(), v)) <==> d.subsystem
            == Some(v),
{
    let kvs = attr_sequence(d, m, wp, wa);
    let a = device_attributes(d, m, wp, wa);
    reveal_strlit("SUBSYSTEM");
    reveal_strlit("DRIVER");
    reveal_strlit("SYSPATH");
    reveal_strlit("SYSNAME");
    reveal_strlit("managed");
    assert("SYSNAME"@.len() != "DRIVER"@.len());
    assert("SYSPATH"@.len() != "DRIVER"@.len());
    assert("SUBSYSTEM"@.len() != "DRIVER"@.len());
    assert("SUBSYSTEM"@.len() != "SYSNAME"@.len());
    assert("SUBSYSTEM"@.len() != "SYSPATH"@.len());
    let ka = key_attrs(d, m);
    let pa = prop_attrs(d, wp);
    let va = device_values(d.attributes, wa).map_values(|v: Seq<char>| (value_key(), v));
    assert(kvs == ka + pa + va);
    assert forall|l: int| ka.len() <= l < kvs.len() implies (#[trigger] kvs[l]).0.0 == Namespace::Plain by {
        if l < ka.len() + pa.len() {
            assert(kvs[l] == pa[l - ka.len()]);
        } else {
            assert(kvs[l] == va[l - ka.len() - pa.len()]);
        }
    }
    let ns: int = if d.subsystem is Some { 1 } else { 0 };
    let nd: int = if d.driver is Some { 1 } else { 0 };
    assert forall|l: int| 0 <= l < ka.len() implies #[trigger] kvs[l] == ka[l] by {}
    assert forall|v: Seq<char>| #[trigger] a.contains((driver_key(), v)) <==> d.driver == Some(v) by {
        if a.contains((driver_key(), v)) {
            lemma_insert_all_from(seq![], kvs, (driver_key(), v));
            let l = choose|l: int| 0 <= l < kvs.len() && kvs[l] == (driver_key(), v);
            if l >= ka.len() {
                assert(kvs[l].0.0 == Namespace::Plain);
            }
        }
        if d.driver == Some(v) {
            let j = 2 + ns;
            assert(kvs[j] == (driver_key(), v));
            assert forall|l: int| j < l < kvs.len() implies (#[trigger] kvs[l]).0 != kvs[j].0 by {
                if l < ka.len() {
                    assert(kvs[l] == (managed_key(), Seq::<char>::empty()));
                } else {
                    assert(kvs[l].0.0 == Namespace::Plain);
                }
            }
            lemma_insert_all_last(seq![], kvs, j);
        }
    }
    assert("SYSNAME"@[3] != "SYSPATH"@[3]);
    assert forall|v: Seq<char>| #[trigger] a.contains((syspath_key(), v)) <==> v == d.syspath by {
        if a.contains((syspath_key(), v)) {
            let i = choose|i: int| 0 <= i < a.len() && a[i] == (syspath_key(), v);
            assert(holds_syspath(a, v));
            lemma_device_syspath(d, m, wp, wa, v);
        }
        if v == d.syspath {
            lemma_device_holds_syspath(d, m, wp, wa);
            let i = choose|i: int| 0 <= i < a.len() && #[trigger] a[i] == (syspath_key(), v);
            assert(a[i] == (syspath_key(), v));
        }
    }
    assert forall|v: Seq<char>| #[trigger] a.contains((sysname_key(), v)) <==> v == d.sysname by {
        if a.contains((sysname_key(), v)) {
            lemma_insert_all_from(seq![], kvs, (sysname_key(), v));
            let l = choose|l: int| 0 <= l < kvs.len() && kvs[l] == (sysname_key(), v);
            if l >= ka.len() {
                assert(kvs[l].0.0 == Namespace::Plain);
            }
        }
        if v == d.sysname {
            let j = 1;
            assert(kvs[j] == (sysname_key(), v));
            assert forall|l: int| j < l < kvs.len() implies (#[trigger] kvs[l]).0 != kvs[j].0 by {
                if l < ka.len() {
                    if l == 2 + nd + ns && m {
                        assert(kvs[l] == (managed_key(), Seq::<char>::empty()));
                    } else if l == 2 && ns == 1 {
                        assert(kvs[l].0 == subsystem_key());
                    } else {
                        assert(kvs[l].0 == driver_key());
                    }
                } else {
                    assert(kvs[l].0.0 == Namespace::Plain);
                }
            }
            lemma_insert_all_last(seq![], kvs, j);
        }
    }
    assert forall|v: Seq<char>| #[trigger] a.contains((managed_key(), v)) <==> (m && v == Seq::<char>::empty()) by {
        if a.contains((managed_key(), v)) {
            lemma_insert_all_from(seq![], kvs, (managed_key(), v));
            let l = choose|l: int| 0 <= l < kvs.len() && kvs[l] == (managed_key(), v);
            if l >= ka.len() {
                assert(kvs[l].0.0 == Namespace::Plain);
            }
        }
        if m && v == Seq::<char>::empty() {
            let j = 2 + ns + nd;
            assert(kvs[j] == (managed_key(), v));
            assert forall|l: int| j < l < kvs.len() implies (#[trigger] kvs[l]).0 != kvs[j].0 by {
                assert(kvs[l].0.0 == Namespace::Plain);
            }
            lemma_insert_all_last(seq![], kvs, j);
        }
    }
    assert forall|v: Seq<char>| #[trigger] a.contains((subsystem_key(), v)) <==> d.subsystem == Some(v) by {
        if a.contains((subsystem_key(), v)) {
            lemma_insert_all_from(seq![], kvs, (subsystem_key(), v));
            let l = choose|l: int| 0 <= l < kvs.len() && kvs[l] == (subsystem_key(), v);
            if l >= ka.len() {
                assert(kvs[l].0.0 == Namespace::Plain);
            }
        }
        if d.subsystem == Some(v) {
            let j = 2;
            assert(kvs[j] == (subsystem_key(), v));
            assert forall|l: int| j < l < kvs.len() implies (#[trigger] kvs[l]).0 != kvs[j].0 by {
                if l < ka.len() {
                    if l == 2 + nd + ns && m {
                        assert(kvs[l] == (managed_key(), Seq::<char>::empty()));
                    } else {
                        assert(kvs[l].0 == driver_key());
                    }
                } else {
                    assert(kvs[l].0.0 == Namespace::Plain);
                }
            }
            lemma_insert_all_last(seq![], kvs, j);
        }
    }
}

/// A name that is set at some point stays among the attributes.
proof fn lemma_insert_all_has_key(
    a: Seq<((Namespace, Seq<char>), Seq<char>)>,
    kvs: Seq<((Namespace, Seq<char>), Seq<char>)>,
    i: int,
)
    requires
        0 <= i < kvs.len(),
    ensures
        exists|v: Seq<char>| #[trigger] insert_all(a, kvs).contains((kvs[i].0, v)),
    decreases kvs.len(),
{
    let b = insert_all(a, kvs.drop_last());
    let k = kvs.last().0;
    let ix = key_from(b, k, 0);
    lemma_key_from_found(b, k, 0);
    let r = insert_all(a, kvs);
    if kvs[i].0 == k {
        lemma_insert_all_last(a, kvs, kvs.len() - 1);
        assert(r.contains((kvs[i].0, kvs.last().1)));
    } else {
        let rest = kvs.drop_last();
        lemma_insert_all_has_key(a, rest, i);
        assert(rest[i] == kvs[i]);
        let v = choose|v: Seq<char>| #[trigger] b.contains((rest[i].0, v));
        let p = choose|p: int| 0 <= p < b.len() && b[p] == (kvs[i].0, v);
        assert(r[p] == (kvs[i].0, v));
        assert(r.contains((kvs[i].0, v)));
    }
}

/// A device element shows each property of the device under its name
/// when properties are shown; when they are not, the only attributes
/// without namespace it carries are the values of attributes without path.
pub proof fn law_properties_shown(d: DeviceView, m: bool, wp: WhichProperties, wa: WhichAttributes)
    ensures
        wp == WhichProperties::All ==> forall|i: int| 0 <= i < d.properties.len() ==> exists|v: Seq<char>|
            #[trigger] device_attributes(d, m, wp, wa).contains(((Namespace::Plain, (#[trigger] d.properties[i]).0), v)),
        wp != WhichProperties::All ==> forall|e: ((Namespace, Seq<char>), Seq<char>)|
            #[trigger] device_attributes(d, m, wp, wa).contains(e) && e.0.0 == Namespace::Plain ==> e.0 == value_key(),
{
    let kvs = attr_sequence(d, m, wp, wa);
    let a = device_attributes(d, m, wp, wa);
    let ka = key_attrs(d, m);
    let pa = prop_attrs(d, wp);
    let va = device_values(d.attributes, wa).map_values(|v: Seq<char>| (value_key(), v));
    assert(kvs == ka + pa + va);
    if wp == WhichProperties::All {
        assert forall|i: int| 0 <= i < d.properties.len() implies exists|v: Seq<char>|
            #[trigger] a.contains(((Namespace::Plain, (#[trigger] d.properties[i]).0), v)) by {
            let j = ka.len() + i;
            assert(kvs[j] == pa[i]);
            lemma_insert_all_has_key(seq![], kvs, j);
        }
    } else {
        assert forall|e: ((Namespace, Seq<char>), Seq<char>)|
            #[trigger] a.contains(e) && e.0.0 == Namespace::Plain implies e.0 == value_key() by {
            lemma_insert_all_from(seq![], kvs, e);
            let l = choose|l: int| 0 <= l < kvs.len() && kvs[l] == e;
            if l < ka.len() {
                assert(kvs[l] == ka[l]);
            } else {
                assert(pa.len() == 0);
                assert(kvs[l] == va[l - ka.len()]);
            }
        }
    }
}

/// The element of a device with the given children and parent.
pub open spec fn device_node(
    d: DeviceView,
    is_managed: bool,
    wp: WhichProperties,
    wa: WhichAttributes,
    children: Seq<usize>,
    parent: Option<usize>,
) -> NodeV {
    NodeV {
        value: NodeValue::Device,
        attributes: device_attributes(d, is_managed, wp, wa),
        children,
        attr_pos: children.len() as usize,
        attr_block: attr_block(d.attributes, wa),
        parent,
        removed: false,
    }
}

fn copy_name(n: &AttrName) -> (r: AttrName)
    ensures
        r.namespace == n.namespace,
        r.local@ == n.local@,
{
    AttrName { namespace: n.namespace, local: n.local.clone() }
}

pub(crate) fn key_name(namespace: Namespace, local: &str) -> (r: AttrName)
    ensures
        r.namespace == namespace,
        r.local@ == local@,
{
    AttrName { namespace, local: local.to_owned() }
}

/// Sets one XML attribute in an attribute list.
fn attr_insert_exec(a: &mut Vec<(AttrName, String)>, name: AttrName, value: String)
    ensures
        attrs_view(final(a)@) == attr_insert(attrs_view(old(a)@), (name.namespace, name.local@), value@),
{
    let ghost av = attrs_view(a@);
    let ghost k = (name.namespace, name.local@);
    let mut i: usize = 0;
    while i < a.len()
        invariant
            av == attrs_view(a@),
            a@ == old(a)@,
            k == (name.namespace, name.local@),
            i <= a.len(),
            key_from(av, k, 0) == key_from(av, k, i as int),
        decreases a.len() - i,
    {
        if a[i].0.namespace == name.namespace && a[i].0.local == name.local {
            assert(av[i as int].0 == k);
            a[i] = (name, value);
            proof {
                assert(attrs_view(a@) =~= av.update(i as int, (k, value@)));
            }
            return;
        }
        i = i + 1;
    }
    a.push((name, value));
    proof {
        assert(attrs_view(a@) =~= av.push((k, value@)));
    }
}

/// Sets the given XML attributes one after the other, from none.
pub(crate) fn insert_all_exec(pairs: &Vec<(AttrName, String)>) -> (r: Vec<(AttrName, String)>)
    ensures
        attrs_view(r@) == insert_all(seq![], attrs_view(pairs@)),
{
    let ghost pv = attrs_view(pairs@);
    let mut r: Vec<(AttrName, String)> = Vec::new();
    let mut i: usize = 0;
    proof {
        assert(pv.take(0) =~= Seq::<((Namespace, Seq<char>), Seq<char>)>::empty());
        assert(attrs_view(r@) =~= Seq::<((Namespace, Seq<char>), Seq<char>)>::empty());
    }
    while i < pairs.len()
        invariant
            pv == attrs_view(pairs@),
            i <= pairs.len(),
            attrs_view(r@) == insert_all(seq![], pv.take(i as int)),
        decreases pairs.len() - i,
    {
        proof {
            assert(pv.take(i + 1).drop_last() =~= pv.take(i as int));
        }
        let name = copy_name(&pairs[i].0);
        let value = pairs[i].1.clone();
        attr_insert_exec(&mut r, name, value);
        i = i + 1;
    }
    proof {
        assert(pv.take(pairs.len() as int) =~= pv);
    }
    r
}

proof fn lemma_attrs_push(a: Seq<(AttrName, String)>, x: (AttrName, String))
    ensures
        attrs_view(a.push(x)) == attrs_view(a).push(((x.0.namespace, x.0.local@), x.1@)),
{
    assert(attrs_view(a.push(x)) =~= attrs_view(a).push(((x.0.namespace, x.0.local@), x.1@)));
}

fn push_attr(r: &mut Vec<(AttrName, String)>, name: AttrName, value: String)
    ensures
        attrs_view(final(r)@) == attrs_view(old(r)@).push(((name.namespace, name.local@), value@)),
{
    let ghost n = name;
    let ghost v = value;
    r.push((name, value));
    proof {
        lemma_attrs_push(old(r)@, (n, v));
    }
}

/// The XML attributes of a device in the order they are set.
pub(crate) fn attr_pairs<D: UdevDevice>(dev: &D, is_managed: bool, wp: WhichProperties, values: &Vec<String>) -> (r: Vec<(AttrName, String)>)
    ensures
        attrs_view(r@) == key_attrs(dev.device(), is_managed) + prop_attrs(dev.device(), wp)
            + strings_view(values@).map_values(|v: Seq<char>| (value_key(), v)),
{
    let ghost d = dev.device();
    let mut r: Vec<(AttrName, String)> = Vec::new();
    push_attr(&mut r, key_name(Namespace::Key, "SYSPATH"), dev.syspath().to_owned());
    push_attr(&mut r, key_name(Namespace::Key, "SYSNAME"), dev.sysname().to_owned());
    let ghost k0 = attrs_view(r@);
    proof {
        assert(k0 =~= seq![(syspath_key(), d.syspath), (sysname_key(), d.sysname)]);
    }
    match dev.subsystem() {
        Some(sub) => {
            push_attr(&mut r, key_name(Namespace::Key, "SUBSYSTEM"), sub.to_owned());
        },
        None => {},
    }
    let ghost k1 = attrs_view(r@);
    proof {
        assert(k1 =~= k0 + (match d.subsystem {
            Some(s) => seq![(subsystem_key(), s)],
            None => seq![],
        }));
    }
    match dev.driver() {
        Some(drv) => {
            push_attr(&mut r, key_name(Namespace::Key, "DRIVER"), drv.to_owned());
        },
        None => {},
    }
    let ghost k2 = attrs_view(r@);
    proof {
        assert(k2 =~= k1 + (match d.driver {
            Some(s) => seq![(driver_key(), s)],
            None => seq![],
        }));
    }
    if is_managed {
        push_attr(&mut r, key_name(Namespace::Meta, "managed"), String::new());
    }
    let ghost ka = attrs_view(r@);
    proof {
        assert(ka =~= k2 + (if is_managed {
            seq![(managed_key(), Seq::<char>::empty())]
        } else {
            seq![]
        }));
        assert(ka =~= key_attrs(d, is_managed));
    }
    if wp == WhichProperties::All {
        let props = dev.properties();
        let ghost pv = pairs_view(props@);
        let mut i: usize = 0;
        while i < props.len()
            invariant
                pv == pairs_view(props@),
                pv == d.properties,
                i <= props.len(),
                attrs_view(r@) == ka + pv.take(i as int).map_values(
                    |p: (Seq<char>, Seq<char>)| ((Namespace::Plain, p.0), p.1),
                ),
            decreases props.len() - i,
        {
            let ghost before = attrs_view(r@);
            push_attr(&mut r, key_name(Namespace::Plain, props[i].0.as_str()), props[i].1.clone());
            proof {
                assert(pv[i as int] == (props@[i as int].0@, props@[i as int].1@));
                assert(attrs_view(r@) =~= ka + pv.take(i + 1).map_values(
                    |p: (Seq<char>, Seq<char>)| ((Namespace::Plain, p.0), p.1),
                ));
            }
            i = i + 1;
        }
        proof {
            assert(pv.take(props.len() as int) =~= pv);
        }
    }
    let ghost kp = attrs_view(r@);
    proof {
        assert(kp =~= key_attrs(d, is_managed) + prop_attrs(d, wp));
    }
    let ghost vv = strings_view(values@);
    let mut i: usize = 0;
    while i < values.len()
        invariant
            vv == strings_view(values@),
            i <= values.len(),
            attrs_view(r@) == kp + vv.take(i as int).map_values(|v: Seq<char>| (value_key(), v)),
        decreases values.len() - i,
    {
        push_attr(&mut r, key_name(Namespace::Plain, "value"), values[i].clone());
        proof {
            assert(attrs_view(r@) =~= kp + vv.take(i + 1).map_values(|v: Seq<char>| (value_key(), v)));
        }
        i = i + 1;
    }
    proof {
        assert(vv.take(values.len() as int) =~= vv);
    }
    r
}

} // verus!
