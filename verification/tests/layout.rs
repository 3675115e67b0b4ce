use std::time::Duration;
use udev_xpath::attrs::{attrs_laid_out, build_attr_block, split_path};
use udev_xpath::device::{device_from_raw, encode_value, pairs_from_raw, RawDevice, UdevDevice};
use udev_xpath::xml::AttrKind;
use udev_xpath::{UdevTreeBuilder, WhichAttributes, WhichProperties};

fn strings(v: &[&str]) -> Vec<String> {
    v.iter().map(|s| s.to_string()).collect()
}

fn pairs(v: &[(&str, &str)]) -> Vec<(String, String)> {
    v.iter().map(|(a, b)| (a.to_string(), b.to_string())).collect()
}

#[test]
fn builder_defaults() {
    let (timeout, attributes, properties, subsystems) = UdevTreeBuilder::default().into_parts();
    assert_eq!(timeout, Duration::from_secs(2));
    assert_eq!(attributes, WhichAttributes::Both);
    assert_eq!(properties, WhichProperties::All);
    assert!(subsystems.is_empty());
}

#[test]
fn builder_setters_replace_one_field() {
    let b = UdevTreeBuilder::default()
        .timeout(Duration::from_millis(500))
        .attributes(WhichAttributes::Tree)
        .properties(WhichProperties::Nothing)
        .subsystems(strings(&["input"]))
        .subsystems(strings(&["hid", "usb"]));
    let (timeout, attributes, properties, subsystems) = b.into_parts();
    assert_eq!(timeout, Duration::from_millis(500));
    assert_eq!(attributes, WhichAttributes::Tree);
    assert_eq!(properties, WhichProperties::Nothing);
    assert_eq!(subsystems, strings(&["hid", "usb"]));
}

#[test]
fn split_path_normalises_components() {
    assert_eq!(split_path("a/b/c"), Some(strings(&["a", "b", "c"])));
    assert_eq!(split_path("a//b/./c/"), Some(strings(&["a", "b", "c"])));
    assert_eq!(split_path("capabilities"), Some(strings(&["capabilities"])));
    assert_eq!(split_path(""), Some(vec![]));
    assert_eq!(split_path("a/."), Some(strings(&["a"])));
}

#[test]
fn split_path_refuses_what_has_no_name() {
    assert_eq!(split_path("/abs"), None);
    assert_eq!(split_path("a/../b"), None);
    assert_eq!(split_path(".."), None);
    assert_eq!(split_path("./a"), None);
    assert_eq!(split_path("."), None);
}

#[test]
fn attrs_laid_out_checks_tree_layout_only() {
    let bad = pairs(&[("ok", "1"), ("a/../b", "2")]);
    assert!(!attrs_laid_out(&bad, WhichAttributes::Tree));
    assert!(!attrs_laid_out(&bad, WhichAttributes::Both));
    assert!(attrs_laid_out(&bad, WhichAttributes::ByPath));
    assert!(attrs_laid_out(&bad, WhichAttributes::Nothing));
    assert!(attrs_laid_out(&pairs(&[("a/b", "1")]), WhichAttributes::Tree));
}

#[test]
fn tree_layout_nests_attributes_by_path() {
    let attrs = pairs(&[("capabilities/abs", "0"), ("capabilities/ev", "21")]);
    let (block, values) = build_attr_block(&attrs, WhichAttributes::Tree);
    assert!(values.is_empty());
    assert_eq!(block.len(), 3);
    assert_eq!(block[0].kind, AttrKind::Attr);
    assert_eq!(block[0].name, "capabilities");
    assert_eq!(block[0].value, None);
    assert_eq!(block[0].parent, None);
    assert_eq!(block[1].name, "abs");
    assert_eq!(block[1].value, Some("0".to_string()));
    assert_eq!(block[1].parent, Some(0));
    assert_eq!(block[1].path, strings(&["capabilities", "abs"]));
    assert_eq!(block[2].name, "ev");
    assert_eq!(block[2].value, Some("21".to_string()));
    assert_eq!(block[2].parent, Some(0));
}

#[test]
fn path_layout_keeps_full_names() {
    let attrs = pairs(&[("capabilities/abs", "0"), ("capabilities/ev", "21")]);
    let (block, values) = build_attr_block(&attrs, WhichAttributes::ByPath);
    assert!(values.is_empty());
    assert_eq!(block.len(), 2);
    assert_eq!(block[0].kind, AttrKind::AttrPath);
    assert_eq!(block[0].name, "capabilities/abs");
    assert_eq!(block[0].value, Some("0".to_string()));
    assert_eq!(block[1].name, "capabilities/ev");
    assert_eq!(block[1].parent, None);
}

#[test]
fn both_layouts_interleave_per_attribute() {
    let attrs = pairs(&[("a/b", "1"), ("c", "2")]);
    let (block, _) = build_attr_block(&attrs, WhichAttributes::Both);
    let kinds: Vec<(AttrKind, String)> = block.iter().map(|e| (e.kind, e.name.clone())).collect();
    assert_eq!(
        kinds,
        vec![
            (AttrKind::Attr, "a".to_string()),
            (AttrKind::Attr, "b".to_string()),
            (AttrKind::AttrPath, "a/b".to_string()),
            (AttrKind::Attr, "c".to_string()),
            (AttrKind::AttrPath, "c".to_string()),
        ]
    );
}

#[test]
fn existing_prefix_gets_value() {
    let attrs = pairs(&[("a/b", "1"), ("a", "2"), ("a/b", "3")]);
    let (block, values) = build_attr_block(&attrs, WhichAttributes::Tree);
    assert!(values.is_empty());
    assert_eq!(block.len(), 2);
    assert_eq!(block[0].value, Some("2".to_string()));
    assert_eq!(block[1].value, Some("3".to_string()));
}

#[test]
fn empty_path_value_lands_on_device() {
    let attrs = pairs(&[("", "x"), ("/", "y")]);
    assert!(!attrs_laid_out(&attrs, WhichAttributes::Tree));
    let attrs = pairs(&[("", "x"), ("./", "y")]);
    assert!(!attrs_laid_out(&attrs, WhichAttributes::Tree));
    let attrs = pairs(&[("", "x")]);
    let (block, values) = build_attr_block(&attrs, WhichAttributes::Tree);
    assert!(block.is_empty());
    assert_eq!(values, strings(&["x"]));
    let (block, values) = build_attr_block(&attrs, WhichAttributes::Nothing);
    assert!(block.is_empty());
    assert!(values.is_empty());
}

#[test]
fn values_are_text_or_base64() {
    assert_eq!(encode_value(b"hello"), "hello");
    assert_eq!(encode_value(&[0xff, 0xfe]), "//4=");
    assert_eq!(encode_value(&[0x80]), "gA==");
    assert_eq!(encode_value(&[0xc3, 0x28, 0x41]), "wyhB");
    assert_eq!(encode_value(b""), "");
}

fn device_from_raw_all(r: &RawDevice) -> Option<udev_xpath::device::Device> {
    device_from_raw(r, WhichAttributes::Both, WhichProperties::All)
}

fn raw(syspath: &[u8], parent: Option<RawDevice>) -> RawDevice {
    RawDevice {
        syspath: syspath.to_vec(),
        sysname: b"dev".to_vec(),
        subsystem: Some(b"input".to_vec()),
        driver: Some(vec![0xff]),
        attributes: vec![(b"name".to_vec(), vec![0xff, 0xfe]), (b"id".to_vec(), b"7".to_vec())],
        properties: vec![(b"ID_INPUT".to_vec(), b"1".to_vec())],
        parent: parent.map(Box::new),
    }
}

#[test]
fn raw_devices_read_as_text() {
    let d = device_from_raw_all(&raw(b"/sys/x/y", Some(raw(b"/sys/x", None)))).unwrap();
    assert_eq!(d.syspath, "/sys/x/y");
    assert_eq!(d.sysname, "dev");
    assert_eq!(d.subsystem, Some("input".to_string()));
    assert_eq!(d.driver, None);
    assert_eq!(d.attributes, pairs(&[("name", "//4="), ("id", "7")]));
    assert_eq!(d.properties, pairs(&[("ID_INPUT", "1")]));
    let p = UdevDevice::parent(&d).unwrap();
    assert_eq!(p.syspath, "/sys/x");
    assert!(UdevDevice::parent(&p).is_none());
}

#[test]
fn raw_device_with_bad_key_is_refused() {
    assert!(device_from_raw_all(&raw(&[b'/', 0xff], None)).is_none());
    assert!(device_from_raw_all(&raw(b"/sys/x/y", Some(raw(&[0xc0], None)))).is_none());
    let mut r = raw(b"/sys/x", None);
    r.properties.push((vec![0xff], b"v".to_vec()));
    assert!(device_from_raw_all(&r).is_none());
}

#[test]
fn raw_device_reads_only_what_tree_shows() {
    let mut r = raw(b"/sys/x", None);
    r.properties.push((vec![0xff], b"v".to_vec()));
    let d = device_from_raw(&r, WhichAttributes::Both, WhichProperties::Nothing).unwrap();
    assert!(d.properties.is_empty());
    assert_eq!(d.attributes, pairs(&[("name", "//4="), ("id", "7")]));

    let mut r = raw(b"/sys/x", None);
    r.attributes.push((vec![0xfe], b"v".to_vec()));
    assert!(device_from_raw(&r, WhichAttributes::ByPath, WhichProperties::All).is_none());
    let d = device_from_raw(&r, WhichAttributes::Nothing, WhichProperties::All).unwrap();
    assert!(d.attributes.is_empty());
    assert_eq!(d.properties, pairs(&[("ID_INPUT", "1")]));
}

#[test]
fn attributes_read_whatever_the_other_keys() {
    let r = raw(&[0xff], None);
    assert_eq!(pairs_from_raw(&r.attributes), Some(pairs(&[("name", "//4="), ("id", "7")])));
    assert_eq!(pairs_from_raw(&vec![(vec![0xc0], b"x".to_vec())]), None);
}
