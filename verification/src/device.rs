use vstd::prelude::*;
use vstd::utf8::{decode_utf8, valid_utf8};
use base64::Engine;
use crate::config::{WhichAttributes, WhichProperties};

verus! {

/// What the tree reads of a udev device: its keys, its attributes and
/// properties as text, and the chain of its ancestors.
pub struct DeviceView {
    pub syspath: Seq<char>,
    pub sysname: Seq<char>,
    pub subsystem: Option<Seq<char>>,
    pub driver: Option<Seq<char>>,
    pub attributes: Seq<(Seq<char>, Seq<char>)>,
    pub properties: Seq<(Seq<char>, Seq<char>)>,
    pub parent: Option<Box<DeviceView>>,
}

/// Number of ancestors above a device.
pub open spec fn depth(d: DeviceView) -> nat
    decreases d,
{
    match d.parent {
        Some(p) => 1 + depth(*p),
        None => 0,
    }
}

/// The text view of a list of name/value pairs.
pub open spec fn pairs_view(v: Seq<(String, String)>) -> Seq<(Seq<char>, Seq<char>)> {
    v.map_values(|p: (String, String)| (p.0@, p.1@))
}

pub open spec fn opt_view(o: Option<String>) -> Option<Seq<char>> {
    match o {
        Some(s) => Some(s@),
        None => None,
    }
}

/// A udev device as plain values: what `udev::Device` offers to the tree.
pub struct Device {
    pub syspath: String,
    pub sysname: String,
    pub subsystem: Option<String>,
    pub driver: Option<String>,
    pub attributes: Vec<(String, String)>,
    pub properties: Vec<(String, String)>,
    pub parent: Option<Box<Device>>,
}

pub open spec fn device_view(d: Device) -> DeviceView
    decreases d,
{
    DeviceView {
        syspath: d.syspath@,
        sysname: d.sysname@,
        subsystem: opt_view(d.subsystem),
        driver: opt_view(d.driver),
        attributes: pairs_view(d.attributes@),
        properties: pairs_view(d.properties@),
        parent: match d.parent {
            Some(p) => Some(Box::new(device_view(*p))),
            None => None,
        },
    }
}

impl View for Device {
    type V = DeviceView;

    open spec fn view(&self) -> DeviceView {
        device_view(*self)
    }
}

fn copy_opt(o: &Option<String>) -> (r: Option<String>)
    ensures
        opt_view(r) == opt_view(*o),
{
    match o {
        Some(s) => Some(s.clone()),
        None => None,
    }
}

fn copy_pairs(v: &Vec<(String, String)>) -> (r: Vec<(String, String)>)
    ensures
        pairs_view(r@) == pairs_view(v@),
{
    let mut r: Vec<(String, String)> = Vec::new();
    let mut i: usize = 0;
    while i < v.len()
        invariant
            i <= v.len(),
            r@.len() == i,
            forall|j: int| 0 <= j < i ==> r@[j].0@ == v@[j].0@ && r@[j].1@ == v@[j].1@,
        decreases v.len() - i,
    {
        let p = (v[i].0.clone(), v[i].1.clone());
        r.push(p);
        i = i + 1;
    }
    assert(pairs_view(r@) =~= pairs_view(v@));
    r
}

impl Device {
    /// A copy of the device and of its ancestors.
    pub fn duplicate(&self) -> (r: Device)
        ensures
            r@ == self@,
        decreases self,
    {
        let parent = match &self.parent {
            Some(p) => Some(Box::new(p.duplicate())),
            None => None,
        };
        Device {
            syspath: self.syspath.clone(),
            sysname: self.sysname.clone(),
            subsystem: copy_opt(&self.subsystem),
            driver: copy_opt(&self.driver),
            attributes: copy_pairs(&self.attributes),
            properties: copy_pairs(&self.properties),
            parent,
        }
    }
}

/// The device interface that the tree reads.
pub trait UdevDevice: Sized {
    spec fn device(&self) -> DeviceView;

    fn syspath(&self) -> (r: &str)
        ensures
            r@ == self.device().syspath,
    ;

    fn parent(&self) -> (r: Option<Self>)
        ensures
            r is Some <==> self.device().parent is Some,
            r matches Some(p) ==> p.device() == *self.device().parent.unwrap(),
    ;

    fn sysname(&self) -> (r: &str)
        ensures
            r@ == self.device().sysname,
    ;

    fn subsystem(&self) -> (r: Option<&str>)
        ensures
            r is Some <==> self.device().subsystem is Some,
            r matches Some(s) ==> s@ == self.device().subsystem.unwrap(),
    ;

    fn driver(&self) -> (r: Option<&str>)
        ensures
            r is Some <==> self.device().driver is Some,
            r matches Some(s) ==> s@ == self.device().driver.unwrap(),
    ;

    fn attributes(&self) -> (r: Vec<(String, String)>)
        ensures
            pairs_view(r@) == self.device().attributes,
    ;

    fn properties(&self) -> (r: Vec<(String, String)>)
        ensures
            pairs_view(r@) == self.device().properties,
    ;
}

impl UdevDevice for Device {
    open spec fn device(&self) -> DeviceView {
        self@
    }

    fn syspath(&self) -> (r: &str) {
        self.syspath.as_str()
    }

    fn parent(&self) -> (r: Option<Self>) {
        match &self.parent {
            Some(p) => Some(p.duplicate()),
            None => None,
        }
    }

    fn sysname(&self) -> (r: &str) {
        self.sysname.as_str()
    }

    fn subsystem(&self) -> (r: Option<&str>) {
        match &self.subsystem {
            Some(s) => Some(s.as_str()),
            None => None,
        }
    }

    fn driver(&self) -> (r: Option<&str>) {
        match &self.driver {
            Some(s) => Some(s.as_str()),
            None => None,
        }
    }

    fn attributes(&self) -> (r: Vec<(String, String)>) {
        copy_pairs(&self.attributes)
    }

    fn properties(&self) -> (r: Vec<(String, String)>) {
        copy_pairs(&self.properties)
    }
}

/// The character of a six-bit value in the standard base64 alphabet
/// (RFC 4648: `A`-`Z`, `a`-`z`, `0`-`9`, `+`, `/`).
pub open spec fn base64_char(v: int) -> char {
    if v < 26 {
        ('A' as int + v) as char
    } else if v < 52 {
        ('a' as int + (v - 26)) as char
    } else if v < 62 {
        ('0' as int + (v - 52)) as char
    } else if v == 62 {
        '+'
    } else {
        '/'
    }
}

/// The padded standard base64 text of a byte sequence: four characters
/// for every group of three bytes, six bits each, and a last group of one
/// or two bytes padded with `=`.
pub open spec fn base64_standard(bytes: Seq<u8>) -> Seq<char>
    decreases bytes.len(),
{
    if bytes.len() == 0 {
        seq![]
    } else if bytes.len() == 1 {
        let a = bytes[0] as int;
        seq![base64_char(a / 4), base64_char((a % 4) * 16), '=', '=']
    } else if bytes.len() == 2 {
        let a = bytes[0] as int;
        let b = bytes[1] as int;
        seq![base64_char(a / 4), base64_char((a % 4) * 16 + b / 16), base64_char((b % 16) * 4), '=']
    } else {
        let a = bytes[0] as int;
        let b = bytes[1] as int;
        let c = bytes[2] as int;
        seq![
            base64_char(a / 4),
            base64_char((a % 4) * 16 + b / 16),
            base64_char((b % 16) * 4 + c / 64),
            base64_char(c % 64),
        ] + base64_standard(bytes.subrange(3, bytes.len() as int))
    }
}

/// Calls `base64::Engine::encode` on the `STANDARD` engine: the padded
/// standard base64 text of the bytes, as RFC 4648 defines it.
#[verifier::external_body]
fn base64_encode(bytes: &[u8]) -> (r: String)
    ensures
        r@ == base64_standard(bytes@),
{
    base64::engine::general_purpose::STANDARD.encode(bytes)
}

/// Calls `std::str::from_utf8`: the text of the bytes when they are valid
/// UTF-8, and nothing otherwise.
#[verifier::external_body]
fn utf8_text(bytes: &[u8]) -> (r: Option<String>)
    ensures
        r is Some <==> valid_utf8(bytes@),
        r matches Some(s) ==> s@ == decode_utf8(bytes@),
{
    match std::str::from_utf8(bytes) {
        Ok(s) => Some(s.to_string()),
        Err(_) => None,
    }
}

/// The text under which a raw udev value appears in the tree: the value
/// itself when it is UTF-8, its standard base64 otherwise.
pub open spec fn value_text(bytes: Seq<u8>) -> Seq<char> {
    if valid_utf8(bytes) {
        decode_utf8(bytes)
    } else {
        base64_standard(bytes)
    }
}

/// Turns a raw attribute or property value into text.
pub fn encode_value(bytes: &[u8]) -> (r: String)
    ensures
        r@ == value_text(bytes@),
{
    match utf8_text(bytes) {
        Some(s) => s,
        None => base64_encode(bytes),
    }
}


/// A udev device as the monitor hands it over: keys, names and values as
/// raw bytes, and its ancestors.
pub struct RawDevice {
    pub syspath: Vec<u8>,
    pub sysname: Vec<u8>,
    pub subsystem: Option<Vec<u8>>,
    pub driver: Option<Vec<u8>>,
    pub attributes: Vec<(Vec<u8>, Vec<u8>)>,
    pub properties: Vec<(Vec<u8>, Vec<u8>)>,
    pub parent: Option<Box<RawDevice>>,
}

/// An optional key as text: nothing when it is missing or not UTF-8.
pub open spec fn text_opt(b: Option<Vec<u8>>) -> Option<Seq<char>> {
    match b {
        Some(v) => if valid_utf8(v@) {
            Some(decode_utf8(v@))
        } else {
            None
        },
        None => None,
    }
}

/// Every name of a list of raw name/value pairs is UTF-8.
pub open spec fn names_ok(ps: Seq<(Vec<u8>, Vec<u8>)>) -> bool {
    forall|i: int| 0 <= i < ps.len() ==> valid_utf8(#[trigger] ps[i].0@)
}

/// Raw name/value pairs as text: the names decoded, the values as
/// `value_text` gives them.
pub open spec fn pairs_text(ps: Seq<(Vec<u8>, Vec<u8>)>) -> Seq<(Seq<char>, Seq<char>)> {
    ps.map_values(|p: (Vec<u8>, Vec<u8>)| (decode_utf8(p.0@), value_text(p.1@)))
}

/// The tree reads the attributes of a device unless it lays out none.
pub open spec fn reads_attributes(wa: WhichAttributes) -> bool {
    wa != WhichAttributes::Nothing
}

/// The tree reads the properties of a device when it shows them.
pub open spec fn reads_properties(wp: WhichProperties) -> bool {
    wp == WhichProperties::All
}

/// What the tree reads of the device and its ancestors is text: the
/// syspath, the sysname, and the attribute and property names it reads.
pub open spec fn raw_ok(r: RawDevice, wa: WhichAttributes, wp: WhichProperties) -> bool
    decreases r,
{
    &&& valid_utf8(r.syspath@)
    &&& valid_utf8(r.sysname@)
    &&& reads_attributes(wa) ==> names_ok(r.attributes@)
    &&& reads_properties(wp) ==> names_ok(r.properties@)
    &&& match r.parent {
        Some(p) => raw_ok(*p, wa, wp),
        None => true,
    }
}

/// The device that a raw device reads as, with the attributes and
/// properties that the tree reads.
pub open spec fn raw_view(r: RawDevice, wa: WhichAttributes, wp: WhichProperties) -> DeviceView
    decreases r,
{
    DeviceView {
        syspath: decode_utf8(r.syspath@),
        sysname: decode_utf8(r.sysname@),
        subsystem: text_opt(r.subsystem),
        driver: text_opt(r.driver),
        attributes: if reads_attributes(wa) {
            pairs_text(r.attributes@)
        } else {
            seq![]
        },
        properties: if reads_properties(wp) {
            pairs_text(r.properties@)
        } else {
            seq![]
        },
        parent: match r.parent {
            Some(p) => Some(Box::new(raw_view(*p, wa, wp))),
            None => None,
        },
    }
}

/// A raw device is read with its ancestors in the same way: what is
/// read for the parent is what reading the raw parent alone gives, with the
/// same attribute and property layout, and the parent can be read whenever
/// the device can. Each ancestor thus carries the attributes and properties
/// that the layout reads, as text.
pub proof fn law_ancestors_read_alike(r: RawDevice, wa: WhichAttributes, wp: WhichProperties)
    requires
        r.parent is Some,
    ensures
        raw_view(r, wa, wp).parent == Some(Box::new(raw_view(*r.parent.unwrap(), wa, wp))),
        raw_ok(r, wa, wp) ==> raw_ok(*r.parent.unwrap(), wa, wp),
        reads_attributes(wa) ==> raw_view(r, wa, wp).parent.unwrap().attributes == pairs_text(
            r.parent.unwrap().attributes@,
        ),
        reads_properties(wp) ==> raw_view(r, wa, wp).parent.unwrap().properties == pairs_text(
            r.parent.unwrap().properties@,
        ),
{
}

fn key_text(b: &Option<Vec<u8>>) -> (r: Option<String>)
    ensures
        opt_view(r) == text_opt(*b),
{
    match b {
        Some(v) => utf8_text(v.as_slice()),
        None => None,
    }
}

/// Raw attributes or properties as text, in order: each name decoded,
/// each value as `value_text` gives it. Nothing when a name is not UTF-8;
/// the other keys of the device play no part.
pub fn pairs_from_raw(ps: &Vec<(Vec<u8>, Vec<u8>)>) -> (r: Option<Vec<(String, String)>>)
    ensures
        r is Some <==> names_ok(ps@),
        r matches Some(v) ==> pairs_view(v@) == pairs_text(ps@),
{
    let mut out: Vec<(String, String)> = Vec::new();
    let mut i: usize = 0;
    while i < ps.len()
        invariant
            i <= ps.len(),
            forall|j: int| 0 <= j < i ==> valid_utf8(#[trigger] ps@[j].0@),
            pairs_view(out@) == pairs_text(ps@.take(i as int)),
        decreases ps.len() - i,
    {
        let name = match utf8_text(ps[i].0.as_slice()) {
            Some(n) => n,
            None => {
                return None;
            },
        };
        let value = encode_value(ps[i].1.as_slice());
        let ghost before = out@;
        out.push((name, value));
        proof {
            assert(ps@.take(i + 1) =~= ps@.take(i as int).push(ps@[i as int]));
            assert(pairs_view(out@) =~= pairs_view(before).push((name@, value@)));
            assert(pairs_text(ps@.take(i + 1)) =~= pairs_text(ps@.take(i as int)).push(
                (decode_utf8(ps@[i as int].0@), value_text(ps@[i as int].1@)),
            ));
        }
        i = i + 1;
    }
    proof {
        assert(ps@.take(ps.len() as int) =~= ps@);
    }
    Some(out)
}

/// Reads a raw device and its ancestors as text: keys and names decoded
/// from UTF-8, values as `value_text` gives them, a subsystem or driver
/// that is not UTF-8 left out. Attributes are read unless the layout has
/// none, properties only when they are shown. Nothing when a syspath,
/// sysname or name that is read is not UTF-8.
pub fn device_from_raw(raw: &RawDevice, which_attributes: WhichAttributes, which_properties: WhichProperties) -> (r: Option<Device>)
    ensures
        r is Some <==> raw_ok(*raw, which_attributes, which_properties),
        r matches Some(d) ==> d@ == raw_view(*raw, which_attributes, which_properties),
    decreases raw,
{
    let parent = match &raw.parent {
        Some(p) => match device_from_raw(p, which_attributes, which_properties) {
            Some(d) => Some(Box::new(d)),
            None => {
                return None;
            },
        },
        None => None,
    };
    let syspath = match utf8_text(raw.syspath.as_slice()) {
        Some(s) => s,
        None => {
            return None;
        },
    };
    let sysname = match utf8_text(raw.sysname.as_slice()) {
        Some(s) => s,
        None => {
            return None;
        },
    };
    let attributes = if which_attributes != WhichAttributes::Nothing {
        match pairs_from_raw(&raw.attributes) {
            Some(v) => v,
            None => {
                return None;
            },
        }
    } else {
        Vec::new()
    };
    let properties = if which_properties == WhichProperties::All {
        match pairs_from_raw(&raw.properties) {
            Some(v) => v,
            None => {
                return None;
            },
        }
    } else {
        Vec::new()
    };
    let d = Device {
        syspath,
        sysname,
        subsystem: key_text(&raw.subsystem),
        driver: key_text(&raw.driver),
        attributes,
        properties,
        parent,
    };
    proof {
        assert(pairs_view(d.attributes@) =~= raw_view(*raw, which_attributes, which_properties).attributes);
        assert(pairs_view(d.properties@) =~= raw_view(*raw, which_attributes, which_properties).properties);
    }
    Some(d)
}

} // verus!
