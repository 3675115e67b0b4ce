use udev_xpath::device::Device;
use udev_xpath::udev_tree::{start_tree, Tree};
use udev_xpath::window::{event_kind, Event, EventType, EventWindow, Kind, ReadyError};
use udev_xpath::UdevTreeBuilder;

fn device(syspath: &str, prop: &str) -> Device {
    Device {
        syspath: syspath.to_string(),
        sysname: syspath.rsplit('/').next().unwrap().to_string(),
        subsystem: None,
        driver: None,
        attributes: vec![],
        properties: vec![("STATE".to_string(), prop.to_string())],
        parent: None,
    }
}

fn event(kind: Kind, syspath: &str, prop: &str) -> Event {
    Event { kind, device: device(syspath, prop) }
}

fn empty_tree() -> Tree<Device> {
    start_tree(UdevTreeBuilder::default()).0
}

fn state_of(tree: &Tree<Device>, syspath: &str) -> Option<String> {
    let n = tree.node_of(syspath)?;
    if tree.doc().is_removed(n) {
        return None;
    }
    tree.doc()
        .node(n)
        .attributes
        .iter()
        .find(|(k, _)| k.local == "STATE")
        .map(|(_, v)| v.clone())
}

#[test]
fn event_types_map_to_kinds() {
    assert_eq!(event_kind(EventType::Add), Some(Kind::Add));
    assert_eq!(event_kind(EventType::Change), Some(Kind::Update));
    assert_eq!(event_kind(EventType::Bind), Some(Kind::Update));
    assert_eq!(event_kind(EventType::Unbind), Some(Kind::Update));
    assert_eq!(event_kind(EventType::Remove), Some(Kind::Remove));
    assert_eq!(event_kind(EventType::Unknown), None);
}

#[test]
fn add_then_remove_leaves_window_empty() {
    let mut w = EventWindow::new();
    assert!(w.is_empty());
    w.open(event(Kind::Add, "/sys/a", "1"));
    assert!(!w.is_empty());
    assert_eq!(w.merge(event(Kind::Remove, "/sys/a", "1")), Ok(()));
    assert!(w.is_empty());

    let mut tree = empty_tree();
    assert_eq!(w.flush(&mut tree), Ok(false));
    assert_eq!(tree.doc().len(), 2);
}

#[test]
fn add_then_remove_keeps_other_devices() {
    let mut w = EventWindow::new();
    w.open(event(Kind::Add, "/sys/b", "b"));
    assert_eq!(w.merge(event(Kind::Add, "/sys/a", "1")), Ok(()));
    assert_eq!(w.merge(event(Kind::Remove, "/sys/a", "1")), Ok(()));
    let mut tree = empty_tree();
    assert_eq!(w.flush(&mut tree), Ok(true));
    assert_eq!(tree.node_of("/sys/a"), None);
    assert_eq!(state_of(&tree, "/sys/b"), Some("b".to_string()));
}

#[test]
fn updates_after_add_keep_latest_state() {
    let mut w = EventWindow::new();
    w.open(event(Kind::Add, "/sys/a", "1"));
    assert_eq!(w.merge(event(Kind::Update, "/sys/a", "2")), Ok(()));
    assert_eq!(w.merge(event(Kind::Update, "/sys/a", "3")), Ok(()));
    let mut tree = empty_tree();
    assert_eq!(w.flush(&mut tree), Ok(true));
    assert_eq!(state_of(&tree, "/sys/a"), Some("3".to_string()));
    assert!(w.is_empty());
}

#[test]
fn remove_then_add_updates() {
    let mut tree = empty_tree();
    let mut w = EventWindow::new();
    w.open(event(Kind::Add, "/sys/a", "1"));
    assert_eq!(w.flush(&mut tree), Ok(true));
    let n = tree.node_of("/sys/a").unwrap();

    w.open(event(Kind::Remove, "/sys/a", "1"));
    assert_eq!(w.merge(event(Kind::Add, "/sys/a", "2")), Ok(()));
    assert_eq!(w.flush(&mut tree), Ok(true));
    // the device came back as an update: same element, new state
    assert_eq!(tree.node_of("/sys/a"), Some(n));
    assert_eq!(state_of(&tree, "/sys/a"), Some("2".to_string()));
}

#[test]
fn update_then_remove_moves_last() {
    let mut tree = empty_tree();
    let mut w = EventWindow::new();
    w.open(event(Kind::Add, "/sys/a", "1"));
    assert_eq!(w.flush(&mut tree), Ok(true));

    w.open(event(Kind::Update, "/sys/a", "2"));
    assert_eq!(w.merge(event(Kind::Add, "/sys/b", "b")), Ok(()));
    assert_eq!(w.merge(event(Kind::Remove, "/sys/a", "2")), Ok(()));
    assert_eq!(w.flush(&mut tree), Ok(true));
    assert_eq!(tree.node_of("/sys/a"), None);
    assert_eq!(state_of(&tree, "/sys/b"), Some("b".to_string()));
}

#[test]
fn unsupported_pair_breaks_window() {
    let mut w = EventWindow::new();
    assert_eq!(w.check(), Ok(()));
    w.open(event(Kind::Add, "/sys/a", "1"));
    assert_eq!(w.merge(event(Kind::Add, "/sys/a", "2")), Err(ReadyError::Unsupported));
    assert_eq!(w.check(), Err(ReadyError::BrokenPipe));

    let mut w = EventWindow::new();
    w.open(event(Kind::Remove, "/sys/a", "1"));
    assert_eq!(w.merge(event(Kind::Update, "/sys/a", "2")), Err(ReadyError::Unsupported));
    assert_eq!(w.merge(event(Kind::Remove, "/sys/b", "2")), Ok(()));
    assert_eq!(w.check(), Err(ReadyError::BrokenPipe));
}

#[test]
fn failed_source_breaks_window() {
    let mut w = EventWindow::new();
    w.fail();
    assert_eq!(w.check(), Err(ReadyError::BrokenPipe));
    let mut tree = empty_tree();
    assert_eq!(w.flush(&mut tree), Ok(false));
    assert_eq!(w.check(), Err(ReadyError::BrokenPipe));
}

#[test]
fn open_replaces_pending_event_in_place() {
    let mut w = EventWindow::new();
    w.open(event(Kind::Add, "/sys/a", "1"));
    w.open(event(Kind::Add, "/sys/a", "2"));
    let mut tree = empty_tree();
    assert_eq!(w.flush(&mut tree), Ok(true));
    assert_eq!(state_of(&tree, "/sys/a"), Some("2".to_string()));
    assert_eq!(tree.doc().len(), 3);
}

#[test]
fn flush_reports_device_that_cannot_be_attached() {
    let mut w = EventWindow::new();
    w.open(event(Kind::Add, "/sys/a", "1"));
    let mut bad = device("/sys/b", "b");
    bad.attributes = vec![("../up".to_string(), "x".to_string())];
    assert_eq!(w.merge(Event { kind: Kind::Add, device: bad }), Ok(()));
    w.open(event(Kind::Add, "/sys/c", "c"));
    let mut tree = empty_tree();
    assert_eq!(w.flush(&mut tree), Err("/sys/b".to_string()));
    assert_eq!(w.check(), Err(ReadyError::BrokenPipe));
    assert_eq!(state_of(&tree, "/sys/a"), Some("1".to_string()));
    assert_eq!(tree.node_of("/sys/c"), None);
    assert!(w.is_empty());
}
