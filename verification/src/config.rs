use vstd::prelude::*;
use std::time::Duration;

verus! {

/// Which attributes to generate in the tree
#[derive(Copy, Clone, PartialEq, Eq, Structural, Debug)]
pub enum WhichAttributes {
    /// Only generate the tree-like `attr` tags
    Tree,
    /// Only generate the full-path `attr-path` tags
    ByPath,
    /// Generate both type of udev attribute tags
    Both,
    /// Dont generate attribute tags
    Nothing,
}

impl WhichAttributes {
    /// Whether the tree-like `attr` tags are generated
    pub open spec fn has_tree(self) -> bool {
        self == WhichAttributes::Tree || self == WhichAttributes::Both
    }

    /// Whether the full-path `attr-path` tags are generated
    pub open spec fn has_paths(self) -> bool {
        self == WhichAttributes::ByPath || self == WhichAttributes::Both
    }
}

/// Which properties to generate in the tree
#[derive(Copy, Clone, PartialEq, Eq, Structural, Debug)]
pub enum WhichProperties {
    /// Generate all udev properties (as XML attributes)
    All,
    /// Don't generate udev properties. Udev keys will still be available.
    Nothing,
}

/// The duration of the given number of whole seconds.
pub uninterp spec fn seconds(secs: u64) -> Duration;

/// Calls `Duration::from_secs`; the result is the duration of `secs` seconds.
#[verifier::external_body]
fn duration_from_secs(secs: u64) -> (d: Duration)
    ensures
        d == seconds(secs),
{
    Duration::from_secs(secs)
}

/// Builder for the udev tree: the coalescing window, which attributes and
/// properties to include, and which subsystems to listen on.
pub struct UdevTreeBuilder {
    timeout: Duration,
    attributes: WhichAttributes,
    properties: WhichProperties,
    subsystems: Vec<String>,
}

impl UdevTreeBuilder {
    pub closed spec fn spec_timeout(&self) -> Duration {
        self.timeout
    }

    pub closed spec fn spec_attributes(&self) -> WhichAttributes {
        self.attributes
    }

    pub closed spec fn spec_properties(&self) -> WhichProperties {
        self.properties
    }

    pub closed spec fn spec_subsystems(&self) -> Seq<Seq<char>> {
        self.subsystems@.map_values(|s: String| s@)
    }

    /// The default configuration: a two second window, both kinds of
    /// attribute tags, all properties and every subsystem.
    pub fn default() -> (r: Self)
        ensures
            r.spec_timeout() == seconds(2),
            r.spec_attributes() == WhichAttributes::Both,
            r.spec_properties() == WhichProperties::All,
            r.spec_subsystems() == Seq::<Seq<char>>::empty(),
    {
        let r = UdevTreeBuilder {
            timeout: duration_from_secs(2),
            attributes: WhichAttributes::Both,
            properties: WhichProperties::All,
            subsystems: Vec::new(),
        };
        assert(r.spec_subsystems() =~= Seq::<Seq<char>>::empty());
        r
    }

    /// Time window for coalescing tree updates
    pub fn timeout(self, timeout: Duration) -> (r: Self)
        ensures
            r.spec_timeout() == timeout,
            r.spec_attributes() == self.spec_attributes(),
            r.spec_properties() == self.spec_properties(),
            r.spec_subsystems() == self.spec_subsystems(),
    {
        let mut s = self;
        s.timeout = timeout;
        s
    }

    /// Which attributes to include in the tree
    pub fn attributes(self, attributes: WhichAttributes) -> (r: Self)
        ensures
            r.spec_timeout() == self.spec_timeout(),
            r.spec_attributes() == attributes,
            r.spec_properties() == self.spec_properties(),
            r.spec_subsystems() == self.spec_subsystems(),
    {
        let mut s = self;
        s.attributes = attributes;
        s
    }

    /// Which properties to include in the tree
    pub fn properties(self, properties: WhichProperties) -> (r: Self)
        ensures
            r.spec_timeout() == self.spec_timeout(),
            r.spec_attributes() == self.spec_attributes(),
            r.spec_properties() == properties,
            r.spec_subsystems() == self.spec_subsystems(),
    {
        let mut s = self;
        s.properties = properties;
        s
    }

    /// Which subsystems to listen on. If subsystems are unspecified or empty,
    /// listens to all subsystems. The last call replaces the previous.
    pub fn subsystems(self, subsystems: Vec<String>) -> (r: Self)
        ensures
            r.spec_timeout() == self.spec_timeout(),
            r.spec_attributes() == self.spec_attributes(),
            r.spec_properties() == self.spec_properties(),
            r.spec_subsystems() == subsystems@.map_values(|s: String| s@),
    {
        UdevTreeBuilder {
            timeout: self.timeout,
            attributes: self.attributes,
            properties: self.properties,
            subsystems,
        }
    }

    /// The configured window, attribute and property choices and subsystems,
    /// handed over to whoever builds the tree.
    pub fn into_parts(self) -> (r: (Duration, WhichAttributes, WhichProperties, Vec<String>))
        ensures
            r.0 == self.spec_timeout(),
            r.1 == self.spec_attributes(),
            r.2 == self.spec_properties(),
            r.3@.map_values(|s: String| s@) == self.spec_subsystems(),
    {
        (self.timeout, self.attributes, self.properties, self.subsystems)
    }
}

} // verus!
