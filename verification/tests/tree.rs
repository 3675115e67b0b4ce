use udev_xpath::device::Device;
use udev_xpath::udev_tree::{start_tree, PlanHook, Tree};
use udev_xpath::xml::{Namespace, NodeValue};
use udev_xpath::{UdevTreeBuilder, WhichAttributes, WhichProperties};

/// A device whose properties and attributes are given as pairs.
fn make_device(
    syspath: &str,
    name: &str,
    subsystem: Option<&str>,
    props: Vec<(&str, &str)>,
    attrs: Vec<(&str, &str)>,
    parent: Option<Device>,
) -> Device {
    Device {
        syspath: syspath.to_string(),
        sysname: name.to_string(),
        subsystem: subsystem.map(|s| s.to_string()),
        driver: None,
        attributes: attrs.into_iter().map(|(k, v)| (k.to_string(), v.to_string())).collect(),
        properties: props.into_iter().map(|(k, v)| (k.to_string(), v.to_string())).collect(),
        parent: parent.map(Box::new),
    }
}

/// A tree that listens to the given subsystems only.
fn tree_for(subsystems: &[&str]) -> Tree<Device> {
    let builder = UdevTreeBuilder::default().subsystems(subsystems.iter().map(|s| s.to_string()).collect());
    start_tree(builder).0
}

/// The value of an XML attribute of a node.
fn attribute(tree: &Tree<Device>, node: usize, ns: Namespace, name: &str) -> Option<String> {
    tree.doc()
        .node(node)
        .attributes
        .iter()
        .find(|(n, _)| n.namespace == ns && n.local == name)
        .map(|(_, v)| v.clone())
}

/// Whether a device element carries the property `name="value"`.
fn node_has(tree: &Tree<Device>, node: usize, name: &str, value: &str) -> bool {
    tree.doc().node(node).value == NodeValue::Device
        && attribute(tree, node, Namespace::Plain, name).as_deref() == Some(value)
}

/// `boolean(self::device[@name='value'])` evaluated at the element of the
/// device with the syspath; false when it has none in the document.
fn self_has(tree: &Tree<Device>, syspath: &str, name: &str, value: &str) -> bool {
    match tree.node_of(syspath) {
        Some(n) => !tree.doc().is_removed(n) && node_has(tree, n, name, value),
        None => false,
    }
}

/// `boolean(self::device)` at the element of the device.
fn self_is_device(tree: &Tree<Device>, syspath: &str) -> bool {
    match tree.node_of(syspath) {
        Some(n) => !tree.doc().is_removed(n) && tree.doc().node(n).value == NodeValue::Device,
        None => false,
    }
}

/// `boolean(ancestor::device[@name='value'])` at the element of the device.
fn ancestor_has(tree: &Tree<Device>, syspath: &str, name: &str, value: &str) -> bool {
    let n = match tree.node_of(syspath) {
        Some(n) if !tree.doc().is_removed(n) => n,
        _ => return false,
    };
    let mut cur = tree.doc().parent(n);
    while let Some(p) = cur {
        if node_has(tree, p, name, value) {
            return true;
        }
        cur = tree.doc().parent(p);
    }
    false
}

/// `boolean(ancestor-or-self::device[@name='value'])`.
fn ancestor_or_self_has(tree: &Tree<Device>, syspath: &str, name: &str, value: &str) -> bool {
    self_has(tree, syspath, name, value) || ancestor_has(tree, syspath, name, value)
}

/// Attaches a device, as the event loop does: only when it can be.
fn attach(tree: &mut Tree<Device>, dev: Device) {
    assert!(tree.can_attach(dev.duplicate()));
    tree.attach(dev);
}

#[test]
fn test_udev_tree_basic() {
    let mut tree = tree_for(&["input"]);

    let root_device = make_device("/sys/devices/pci0000:00", "pci0000:00", None, vec![("SUBSYSTEM", "pci")], vec![], None);
    let child_device = make_device(
        "/sys/devices/pci0000:00/usb1",
        "usb1",
        None,
        vec![("SUBSYSTEM", "usb"), ("ID_VENDOR", "1234")],
        vec![],
        Some(root_device.duplicate()),
    );

    attach(&mut tree, child_device.duplicate());

    assert!(
        self_has(&tree, &child_device.syspath, "SUBSYSTEM", "usb"),
        "Device should match its own subsystem attribute"
    );
    assert!(ancestor_has(&tree, &child_device.syspath, "SUBSYSTEM", "pci"), "Device should have a PCI ancestor");
    assert!(!self_has(&tree, &child_device.syspath, "SUBSYSTEM", "pci"), "Device itself is not PCI");

    tree.detach(child_device.duplicate());
    assert!(self_is_device(&tree, &child_device.syspath) == false, "Device should be detached");
}

#[test]
fn test_udev_tree_basic2() {
    let mut tree = tree_for(&["input"]);

    let root_device = make_device("/sys/devices/pci0000:00", "pci0000:00", None, vec![("SUBSYSTEM", "pci")], vec![], None);
    let child_device = make_device(
        "/sys/devices/pci0000:00/usb1",
        "usb1",
        None,
        vec![("SUBSYSTEM", "usb"), ("ID_VENDOR", "1234")],
        vec![],
        Some(root_device.duplicate()),
    );

    attach(&mut tree, child_device.duplicate());

    assert!(
        self_has(&tree, &child_device.syspath, "SUBSYSTEM", "usb"),
        "Device should match its own subsystem attribute"
    );
    assert!(ancestor_has(&tree, &child_device.syspath, "SUBSYSTEM", "pci"), "Device should have a PCI ancestor");
    assert!(!self_has(&tree, &child_device.syspath, "SUBSYSTEM", "pci"), "Device itself is not PCI");

    tree.detach(child_device.duplicate());
    assert!(self_is_device(&tree, &child_device.syspath) == false, "Device should be detached");
}

#[test]
fn test_ancestry_auto_population() {
    let mut tree = tree_for(&["input"]);

    let pci = make_device("/sys/devices/pci0000:00", "pci0000:00", None, vec![("SUBSYSTEM", "pci")], vec![], None);
    let usb_bus = make_device(
        "/sys/devices/pci0000:00/0000:00:14.0",
        "0000:00:14.0",
        None,
        vec![("SUBSYSTEM", "pci"), ("DRIVER", "xhci_hcd")],
        vec![],
        Some(pci.duplicate()),
    );
    let usb_root = make_device(
        "/sys/devices/pci0000:00/0000:00:14.0/usb1",
        "usb1",
        None,
        vec![("SUBSYSTEM", "usb"), ("DEVTYPE", "usb_device")],
        vec![],
        Some(usb_bus.duplicate()),
    );
    let leaf = make_device(
        "/sys/devices/pci0000:00/0000:00:14.0/usb1/1-1",
        "1-1",
        None,
        vec![("SUBSYSTEM", "usb"), ("ID_VENDOR", "045e")],
        vec![],
        Some(usb_root.duplicate()),
    );

    attach(&mut tree, leaf.duplicate());

    assert!(self_has(&tree, &leaf.syspath, "ID_VENDOR", "045e"));
    assert!(self_has(&tree, &usb_root.syspath, "DEVTYPE", "usb_device"));
    assert!(self_has(&tree, &usb_bus.syspath, "DRIVER", "xhci_hcd"));
    assert!(self_has(&tree, &pci.syspath, "SUBSYSTEM", "pci"));
    assert!(ancestor_has(&tree, &leaf.syspath, "DRIVER", "xhci_hcd"));
    assert!(ancestor_or_self_has(&tree, &leaf.syspath, "SUBSYSTEM", "usb"));
}

#[test]
fn test_reattach_updates_attributes() {
    let mut tree = tree_for(&["input"]);

    let dev = make_device(
        "/sys/devices/virtual/net/eth0",
        "eth0",
        None,
        vec![("SUBSYSTEM", "net"), ("INTERFACE", "eth0")],
        vec![],
        None,
    );
    attach(&mut tree, dev);

    let dev_updated = make_device(
        "/sys/devices/virtual/net/eth0",
        "eth0",
        None,
        vec![("SUBSYSTEM", "net"), ("INTERFACE", "eth0"), ("OPERSTATE", "up")],
        vec![],
        None,
    );
    attach(&mut tree, dev_updated);

    assert!(self_has(&tree, "/sys/devices/virtual/net/eth0", "OPERSTATE", "up"));
    assert!(self_has(&tree, "/sys/devices/virtual/net/eth0", "INTERFACE", "eth0"));
}

#[test]
fn test_attach_with_existing_ancestor() {
    let mut tree = tree_for(&["input"]);

    let root = make_device("/sys/devices/pci0000:00", "pci0000:00", None, vec![("SUBSYSTEM", "pci")], vec![], None);
    attach(&mut tree, root.duplicate());

    let mid = make_device(
        "/sys/devices/pci0000:00/0000:00:1f.0",
        "0000:00:1f.0",
        None,
        vec![("SUBSYSTEM", "pci"), ("CLASS", "bridge")],
        vec![],
        Some(root.duplicate()),
    );
    let leaf = make_device(
        "/sys/devices/pci0000:00/0000:00:1f.0/snd0",
        "snd0",
        None,
        vec![("SUBSYSTEM", "sound")],
        vec![],
        Some(mid.duplicate()),
    );

    attach(&mut tree, leaf.duplicate());

    assert!(self_has(&tree, &mid.syspath, "CLASS", "bridge"));
    assert!(ancestor_has(&tree, &leaf.syspath, "SUBSYSTEM", "pci"));
}

#[test]
fn new_tree_holds_document_and_udev_element() {
    let tree = tree_for(&[]);
    assert_eq!(tree.doc().len(), 2);
    assert_eq!(tree.document_element(), 1);
    assert_eq!(tree.doc().node(0).value, NodeValue::Document);
    assert_eq!(tree.doc().node(1).value, NodeValue::Udev);
    assert_eq!(tree.doc().node(0).children, vec![1]);
    assert_eq!(tree.doc().parent(1), Some(0));
}

#[test]
fn attach_sets_keys_in_order_with_managed_mark() {
    let mut tree = tree_for(&[]);
    let mut dev = make_device("/sys/devices/a", "a", Some("input"), vec![("P", "1")], vec![], None);
    dev.driver = Some("drv".to_string());
    attach(&mut tree, dev);
    let n = tree.node_of("/sys/devices/a").unwrap();
    let attrs: Vec<(Namespace, String, String)> = tree
        .doc()
        .node(n)
        .attributes
        .iter()
        .map(|(k, v)| (k.namespace, k.local.clone(), v.clone()))
        .collect();
    assert_eq!(
        attrs,
        vec![
            (Namespace::Key, "SYSPATH".to_string(), "/sys/devices/a".to_string()),
            (Namespace::Key, "SYSNAME".to_string(), "a".to_string()),
            (Namespace::Key, "SUBSYSTEM".to_string(), "input".to_string()),
            (Namespace::Key, "DRIVER".to_string(), "drv".to_string()),
            (Namespace::Meta, "managed".to_string(), "".to_string()),
            (Namespace::Plain, "P".to_string(), "1".to_string()),
        ]
    );
    assert_eq!(tree.doc().parent(n), Some(1));
}

#[test]
fn implicit_ancestors_are_not_managed() {
    let mut tree = tree_for(&["input"]);
    let parent = make_device("/sys/devices/p", "p", Some("pci"), vec![], vec![], None);
    let child = make_device("/sys/devices/p/c", "c", Some("input"), vec![], vec![], Some(parent));
    attach(&mut tree, child);
    let c = tree.node_of("/sys/devices/p/c").unwrap();
    let p = tree.node_of("/sys/devices/p").unwrap();
    assert_eq!(attribute(&tree, c, Namespace::Meta, "managed"), Some("".to_string()));
    assert_eq!(attribute(&tree, p, Namespace::Meta, "managed"), None);
    assert_eq!(tree.doc().parent(c), Some(p));
    assert_eq!(tree.doc().parent(p), Some(1));
}

#[test]
fn properties_left_out_when_not_wanted() {
    let builder = UdevTreeBuilder::default().properties(WhichProperties::Nothing);
    let (mut tree, _, _) = start_tree(builder);
    attach(&mut tree, make_device("/sys/devices/a", "a", None, vec![("P", "1")], vec![], None));
    let n = tree.node_of("/sys/devices/a").unwrap();
    assert_eq!(attribute(&tree, n, Namespace::Plain, "P"), None);
    assert_eq!(attribute(&tree, n, Namespace::Key, "SYSNAME"), Some("a".to_string()));
}

#[test]
fn missing_managed_parent_leaves_device_in_fragment() {
    // every subsystem is managed: a missing parent is not created
    let mut tree = tree_for(&[]);
    let parent = make_device("/sys/devices/p", "p", None, vec![("K", "parent")], vec![], None);
    let child = make_device("/sys/devices/p/c", "c", None, vec![("K", "child")], vec![], Some(parent.duplicate()));
    attach(&mut tree, child.duplicate());

    assert_eq!(tree.node_of("/sys/devices/p"), None);
    let c = tree.node_of("/sys/devices/p/c").unwrap();
    let frag = tree.doc().parent(c).unwrap();
    assert_ne!(frag, 1);
    assert_eq!(tree.doc().parent(frag), None);
    assert!(!tree.doc().is_removed(c));
    assert!(!ancestor_has(&tree, "/sys/devices/p/c", "K", "parent"));

    // the parent arrives: it takes over the fragment and its child
    attach(&mut tree, parent);
    let p = tree.node_of("/sys/devices/p").unwrap();
    assert_eq!(p, frag);
    assert_eq!(tree.doc().parent(p), Some(1));
    assert!(ancestor_has(&tree, "/sys/devices/p/c", "K", "parent"));
}

#[test]
fn detach_keeps_managed_parent() {
    let mut tree = tree_for(&[]);
    let parent = make_device("/sys/devices/p", "p", None, vec![], vec![], None);
    attach(&mut tree, parent.duplicate());
    let child = make_device("/sys/devices/p/c", "c", None, vec![], vec![], Some(parent.duplicate()));
    attach(&mut tree, child.duplicate());
    let p = tree.node_of("/sys/devices/p").unwrap();
    let c = tree.node_of("/sys/devices/p/c").unwrap();
    assert_eq!(tree.doc().parent(c), Some(p));

    tree.detach(child);
    assert_eq!(tree.node_of("/sys/devices/p/c"), None);
    assert!(tree.doc().is_removed(c));
    assert!(!tree.doc().is_removed(p));
    assert!(tree.doc().node(p).children.is_empty());
}

#[test]
fn detach_of_unknown_device_changes_nothing() {
    let mut tree = tree_for(&[]);
    attach(&mut tree, make_device("/sys/devices/a", "a", None, vec![], vec![], None));
    tree.detach(make_device("/sys/devices/b", "b", None, vec![], vec![], None));
    assert_eq!(tree.doc().len(), 3);
    assert!(!tree.doc().is_removed(2));
}

#[test]
fn attach_refused_for_absolute_attribute_path() {
    let tree = tree_for(&[]);
    let dev = make_device("/sys/devices/a", "a", None, vec![], vec![("/abs", "1")], None);
    assert!(!tree.can_attach(dev));
    let tree = start_tree(UdevTreeBuilder::default().attributes(WhichAttributes::ByPath)).0;
    let dev = make_device("/sys/devices/a", "a", None, vec![], vec![("/abs", "1")], None);
    assert!(tree.can_attach(dev));
}

#[test]
fn attribute_without_path_lands_on_device() {
    let mut tree = tree_for(&[]);
    attach(&mut tree, make_device("/sys/devices/a", "a", None, vec![], vec![("", "v")], None));
    let n = tree.node_of("/sys/devices/a").unwrap();
    assert_eq!(attribute(&tree, n, Namespace::Plain, "value"), Some("v".to_string()));
}

#[test]
fn attribute_block_follows_device_children() {
    let mut tree = tree_for(&[]);
    let parent = make_device("/sys/devices/p", "p", None, vec![], vec![("x", "1")], None);
    attach(&mut tree, parent.duplicate());
    let p = tree.node_of("/sys/devices/p").unwrap();
    assert_eq!(tree.doc().node(p).attr_pos, 0);
    assert_eq!(tree.doc().node(p).attr_block.len(), 2);

    let child = make_device("/sys/devices/p/c", "c", None, vec![], vec![], Some(parent.duplicate()));
    attach(&mut tree, child);
    assert_eq!(tree.doc().node(p).children.len(), 1);
    assert_eq!(tree.doc().node(p).attr_pos, 0);

    // re-attaching the parent puts its attributes after the child
    attach(&mut tree, parent);
    assert_eq!(tree.doc().node(p).attr_pos, 1);
}

#[test]
fn plan_lists_chain_and_hook() {
    let mut tree = tree_for(&["input"]);
    let root = make_device("/sys/r", "r", Some("pci"), vec![], vec![], None);
    attach(&mut tree, root.duplicate());
    let r = tree.node_of("/sys/r").unwrap();
    let mid = make_device("/sys/r/m", "m", Some("pci"), vec![], vec![], Some(root));
    let leaf = make_device("/sys/r/m/l", "l", Some("input"), vec![], vec![], Some(mid));
    let (chain, hook) = tree.plan(leaf);
    let paths: Vec<String> = chain.iter().map(|d| d.syspath.clone()).collect();
    assert_eq!(paths, vec!["/sys/r/m/l".to_string(), "/sys/r/m".to_string()]);
    assert!(matches!(hook, PlanHook::Node(n) if n == r));

    let managed_parent = make_device("/sys/q", "q", Some("input"), vec![], vec![], None);
    let below = make_device("/sys/q/b", "b", Some("input"), vec![], vec![], Some(managed_parent));
    let (chain, hook) = tree.plan(below);
    assert_eq!(chain.len(), 1);
    assert!(matches!(hook, PlanHook::Fragment(ref k) if k == "/sys/q"));
}

#[test]
fn plan_detects_syspath_cycle() {
    let tree = tree_for(&["input"]);
    let top = make_device("/sys/x", "x", Some("pci"), vec![], vec![], None);
    let mid = make_device("/sys/y", "y", Some("pci"), vec![], vec![], Some(top));
    let dev = make_device("/sys/x", "x", Some("pci"), vec![], vec![], Some(mid));
    let (_, hook) = tree.plan(dev.duplicate());
    assert!(matches!(hook, PlanHook::Cycle));
    assert!(!tree.can_attach(dev));
}

#[test]
fn is_managed_follows_subsystems() {
    let tree = tree_for(&["input", "hid"]);
    assert!(tree.is_managed(Some("input")));
    assert!(tree.is_managed(Some("hid")));
    assert!(!tree.is_managed(Some("pci")));
    assert!(!tree.is_managed(None));
    let all = tree_for(&[]);
    assert!(all.is_managed(None));
    assert!(all.is_managed(Some("pci")));
}

#[test]
fn start_tree_plans_one_listener_per_subsystem() {
    let (_, filters, timeout) = start_tree(UdevTreeBuilder::default());
    assert_eq!(filters, vec![None]);
    assert_eq!(timeout, std::time::Duration::from_secs(2));

    let builder = UdevTreeBuilder::default()
        .subsystems(vec!["input".to_string(), "hid".to_string(), "input".to_string()])
        .timeout(std::time::Duration::from_millis(300));
    let (tree, filters, timeout) = start_tree(builder);
    let mut names: Vec<String> = filters.into_iter().map(|f| f.unwrap()).collect();
    names.sort();
    assert_eq!(names, vec!["hid".to_string(), "input".to_string()]);
    assert_eq!(timeout, std::time::Duration::from_millis(300));
    assert!(tree.is_managed(Some("hid")));
}

#[test]
fn siblings_wait_in_one_fragment() {
    let mut tree = tree_for(&[]);
    let parent = make_device("/sys/devices/p", "p", None, vec![], vec![], None);
    let a = make_device("/sys/devices/p/a", "a", None, vec![], vec![], Some(parent.duplicate()));
    let b = make_device("/sys/devices/p/b", "b", None, vec![], vec![], Some(parent.duplicate()));
    attach(&mut tree, a);
    attach(&mut tree, b);
    let na = tree.node_of("/sys/devices/p/a").unwrap();
    let nb = tree.node_of("/sys/devices/p/b").unwrap();
    let frag = tree.doc().parent(na).unwrap();
    assert_eq!(tree.doc().parent(nb), Some(frag));
    assert_eq!(tree.doc().node(frag).children, vec![na, nb]);

    attach(&mut tree, parent);
    assert_eq!(tree.node_of("/sys/devices/p"), Some(frag));
    assert_eq!(tree.doc().node(frag).children, vec![na, nb]);
    assert_eq!(tree.doc().parent(frag), Some(1));
}

#[test]
fn test_detach_mid_tree() {
    let mut tree = tree_for(&["input"]);

    let root = make_device("/sys/devices/platform", "platform", None, vec![("SUBSYSTEM", "platform")], vec![], None);
    let mid = make_device(
        "/sys/devices/platform/i2c-0",
        "i2c-0",
        None,
        vec![("SUBSYSTEM", "i2c")],
        vec![],
        Some(root.duplicate()),
    );
    let leaf = make_device(
        "/sys/devices/platform/i2c-0/0-0050",
        "0-0050",
        None,
        vec![("SUBSYSTEM", "i2c"), ("DRIVER", "at24")],
        vec![],
        Some(mid.duplicate()),
    );

    attach(&mut tree, leaf.duplicate());

    tree.detach(mid.duplicate());

    assert!(!self_is_device(&tree, &mid.syspath));
    assert!(self_has(&tree, &root.syspath, "SUBSYSTEM", "platform"));
    // the leaf went with its parent, and both left the device map
    assert_eq!(tree.node_of(&mid.syspath), None);
    assert_eq!(tree.node_of(&leaf.syspath), None);
}

#[test]
fn detach_takes_unmanaged_ancestors_along() {
    let mut tree = tree_for(&["input"]);
    let top = make_device("/sys/devices/t", "t", Some("pci"), vec![], vec![], None);
    let parent = make_device("/sys/devices/t/p", "p", Some("pci"), vec![], vec![], Some(top));
    let child = make_device("/sys/devices/t/p/c", "c", Some("input"), vec![], vec![], Some(parent));
    attach(&mut tree, child.duplicate());
    let t = tree.node_of("/sys/devices/t").unwrap();
    let p = tree.node_of("/sys/devices/t/p").unwrap();
    let c = tree.node_of("/sys/devices/t/p/c").unwrap();

    tree.detach(child);
    // the implicit parent held nothing else and went too; the top-level
    // device below `<udev>` stays
    assert!(tree.doc().is_removed(p));
    assert!(tree.doc().is_removed(c));
    assert_eq!(tree.doc().parent(p), None);
    assert!(!tree.doc().is_removed(t));
    assert!(tree.doc().node(t).children.is_empty());
    assert_eq!(tree.node_of("/sys/devices/t/p"), None);
    assert_eq!(tree.node_of("/sys/devices/t"), Some(t));
}

#[test]
fn detach_never_takes_udev() {
    let mut tree = tree_for(&["input"]);
    let parent = make_device("/sys/devices/p", "p", Some("pci"), vec![], vec![], None);
    let child = make_device("/sys/devices/p/c", "c", Some("input"), vec![], vec![], Some(parent));
    attach(&mut tree, child.duplicate());
    let p = tree.node_of("/sys/devices/p").unwrap();
    tree.detach(child);
    assert!(!tree.doc().is_removed(0));
    assert!(!tree.doc().is_removed(1));
    assert!(!tree.doc().is_removed(p));
    assert_eq!(tree.doc().node(1).children, vec![p]);

    let alone = make_device("/sys/devices/a", "a", None, vec![], vec![], None);
    attach(&mut tree, alone.duplicate());
    tree.detach(alone);
    assert!(!tree.doc().is_removed(1));
    assert_eq!(tree.doc().node(1).children, vec![p]);
}

#[test]
fn reattach_after_ancestor_detached() {
    let mut tree = tree_for(&["input"]);
    let root = make_device("/sys/r", "r", Some("pci"), vec![], vec![], None);
    attach(&mut tree, root.duplicate());
    let mid = make_device("/sys/r/m", "m", Some("pci"), vec![], vec![], Some(root.duplicate()));
    let leaf = make_device("/sys/r/m/l", "l", Some("input"), vec![], vec![], Some(mid.duplicate()));
    attach(&mut tree, leaf.duplicate());
    tree.detach(mid);
    assert_eq!(tree.node_of("/sys/r/m/l"), None);

    attach(&mut tree, leaf);
    let r = tree.node_of("/sys/r").unwrap();
    let m = tree.node_of("/sys/r/m").unwrap();
    let l = tree.node_of("/sys/r/m/l").unwrap();
    assert_eq!(tree.doc().parent(l), Some(m));
    assert_eq!(tree.doc().parent(m), Some(r));
    assert!(!tree.doc().is_removed(l));
}

#[test]
fn detached_waiting_device_drops_its_fragment() {
    let mut tree = tree_for(&[]);
    let parent = make_device("/sys/devices/p", "p", None, vec![], vec![], None);
    let child = make_device("/sys/devices/p/c", "c", None, vec![], vec![], Some(parent.duplicate()));
    attach(&mut tree, child.duplicate());
    let c = tree.node_of("/sys/devices/p/c").unwrap();
    let frag = tree.doc().parent(c).unwrap();

    tree.detach(child);
    assert!(tree.doc().is_removed(frag));

    // the parent gets an element of its own below `<udev>`
    attach(&mut tree, parent);
    let p = tree.node_of("/sys/devices/p").unwrap();
    assert_ne!(p, frag);
    assert_eq!(tree.doc().parent(p), Some(1));
    assert!(!tree.doc().is_removed(p));
}

#[test]
fn one_element_per_syspath() {
    let mut tree = tree_for(&["input"]);
    let root = make_device("/sys/r", "r", Some("pci"), vec![], vec![], None);
    let leaf = make_device("/sys/r/l", "l", Some("input"), vec![], vec![], Some(root.duplicate()));
    attach(&mut tree, leaf.duplicate());
    tree.detach(root.duplicate());
    attach(&mut tree, leaf.duplicate());
    attach(&mut tree, leaf.duplicate());
    attach(&mut tree, root);
    for path in ["/sys/r", "/sys/r/l"] {
        let live: Vec<usize> = (0..tree.doc().len())
            .filter(|&x| {
                !tree.doc().is_removed(x)
                    && tree.doc().node(x).attributes.iter().any(|(k, v)| {
                        k.namespace == Namespace::Key && k.local == "SYSPATH" && v == path
                    })
            })
            .collect();
        assert_eq!(live.len(), 1);
        assert_eq!(tree.node_of(path), Some(live[0]));
    }
}

#[test]
fn detach_right_after_attach_restores_tree() {
    let mut tree = tree_for(&[]);
    let parent = make_device("/sys/p", "p", None, vec![], vec![], None);
    attach(&mut tree, parent.duplicate());
    let p = tree.node_of("/sys/p").unwrap();
    let before: Vec<Vec<usize>> = (0..tree.doc().len()).map(|x| tree.doc().node(x).children.clone()).collect();
    let child = make_device("/sys/p/c", "c", None, vec![], vec![("a/b", "1")], Some(parent));
    attach(&mut tree, child.duplicate());
    assert_eq!(tree.doc().node(p).children.len(), 1);
    tree.detach(child);
    let after: Vec<Vec<usize>> = (0..before.len()).map(|x| tree.doc().node(x).children.clone()).collect();
    assert_eq!(after, before);
    assert_eq!(tree.node_of("/sys/p/c"), None);
    assert!(tree.doc().is_removed(before.len()));
}

/// Each element reachable from `<udev>`, with its children and the values
/// of its XML attributes, in document order.
fn reachable(tree: &Tree<Device>) -> Vec<(usize, Vec<usize>, Vec<String>)> {
    let mut out = Vec::new();
    let mut stack = vec![1usize];
    while let Some(n) = stack.pop() {
        let node = tree.doc().node(n);
        let values: Vec<String> = node.attributes.iter().map(|(k, v)| format!("{}={}", k.local, v)).collect();
        out.push((n, node.children.clone(), values));
        for &c in node.children.iter().rev() {
            stack.push(c);
        }
    }
    out
}

/// The devices mapped to an element reachable from `<udev>`.
fn reachable_devices(tree: &Tree<Device>, paths: &[&str]) -> Vec<(String, usize)> {
    let nodes: Vec<usize> = reachable(tree).into_iter().map(|(n, _, _)| n).collect();
    paths
        .iter()
        .filter_map(|p| tree.node_of(p).filter(|n| nodes.contains(n)).map(|n| (p.to_string(), n)))
        .collect()
}

#[test]
fn detach_right_after_attach_restores_reachable_tree() {
    let mut tree = tree_for(&[]);
    let top = make_device("/sys/p", "p", None, vec![], vec![], None);
    attach(&mut tree, top.duplicate());
    let mid = make_device("/sys/p/m", "m", None, vec![("K", "mid")], vec![], Some(top));
    let leaf = make_device("/sys/p/m/l", "l", None, vec![], vec![], Some(mid.duplicate()));
    // the leaf waits in a fragment for its parent
    attach(&mut tree, leaf);
    let paths = ["/sys/p", "/sys/p/m", "/sys/p/m/l"];
    let before = reachable(&tree);
    let mapped_before = reachable_devices(&tree, &paths);
    assert_eq!(mapped_before, vec![("/sys/p".to_string(), tree.node_of("/sys/p").unwrap())]);

    attach(&mut tree, mid.duplicate());
    assert_eq!(reachable(&tree).len(), before.len() + 2);
    tree.detach(mid);
    assert_eq!(reachable(&tree), before);
    assert_eq!(reachable_devices(&tree, &paths), mapped_before);
    // the leaf went out with the element it waited in
    assert_eq!(tree.node_of("/sys/p/m/l"), None);
}

#[test]
fn waiting_child_adopted_below_parent() {
    let mut tree = tree_for(&["block"]);
    let root = make_device("/sys/r", "r", Some("block"), vec![], vec![], None);
    let disk = make_device("/sys/r/d", "d", Some("block"), vec![], vec![], Some(root.duplicate()));
    let part = make_device("/sys/r/d/p1", "p1", Some("block"), vec![], vec![], Some(disk.duplicate()));
    attach(&mut tree, part);
    let p1 = tree.node_of("/sys/r/d/p1").unwrap();
    let frag = tree.doc().parent(p1).unwrap();
    assert!(!tree.doc().is_ancestor(1, p1));

    // the parent's own parent is missing and managed: it waits in turn
    attach(&mut tree, disk);
    let d = tree.node_of("/sys/r/d").unwrap();
    assert_eq!(d, frag);
    assert_eq!(tree.doc().parent(p1), Some(d));
    assert!(!tree.doc().is_ancestor(1, p1));

    // the top device comes: everything is reachable from `<udev>`
    attach(&mut tree, root);
    let r = tree.node_of("/sys/r").unwrap();
    assert_eq!(tree.doc().parent(d), Some(r));
    assert_eq!(tree.doc().parent(r), Some(1));
    assert!(tree.doc().is_ancestor(1, p1));
    let holding: Vec<usize> = (0..tree.doc().len())
        .filter(|&x| {
            !tree.doc().is_removed(x)
                && tree.doc().node(x).attributes.iter().any(|(k, v)| {
                    k.namespace == Namespace::Key && k.local == "SYSPATH" && v == "/sys/r/d"
                })
        })
        .collect();
    assert_eq!(holding, vec![d]);
}

#[test]
fn attaching_twice_is_attaching_once() {
    let mut tree = tree_for(&["input"]);
    let root = make_device("/sys/r", "r", Some("pci"), vec![], vec![("x", "1")], None);
    let leaf = make_device("/sys/r/l", "l", Some("input"), vec![("P", "v")], vec![("a/b", "2"), ("c", "3")], Some(root));
    attach(&mut tree, leaf.duplicate());
    let once = reachable(&tree);
    let l = tree.node_of("/sys/r/l").unwrap();
    let block_once = tree.doc().node(l).attr_block.len();
    let pos_once = tree.doc().node(l).attr_pos;
    attach(&mut tree, leaf);
    assert_eq!(reachable(&tree), once);
    assert_eq!(tree.doc().node(l).attr_block.len(), block_once);
    assert_eq!(tree.doc().node(l).attr_pos, pos_once);
    assert_eq!(tree.node_of("/sys/r/l"), Some(l));
}

#[test]
fn fragment_parent_is_made_once_and_taken_once() {
    let mut tree = tree_for(&[]);
    let len = tree.doc().len();
    let p = tree.get_fragment_parent("/sys/missing");
    assert_eq!(p, len);
    assert_eq!(tree.doc().parent(p), None);
    assert!(tree.doc().node(p).children.is_empty());
    assert_eq!(tree.get_fragment_parent("/sys/missing"), p);
    assert_eq!(tree.doc().len(), len + 1);

    assert_eq!(tree.take_or_create("/sys/missing"), p);
    let q = tree.take_or_create("/sys/missing");
    assert_ne!(q, p);
    assert_eq!(q, len + 1);
}
