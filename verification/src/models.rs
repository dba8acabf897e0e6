//! The document model: schema nodes, the node arena, and the `Api` document.
//!
//! A node's child slots (`items`, `additional_properties`, property values)
//! hold handles: indices into the document's node arena. Several slots may
//! hold the same handle, which is how resolved references alias one shared
//! definition. Well-formedness (`graph_wf`) requires every slot to point
//! either at a strictly smaller index (the tree shape a loader produces when
//! it allocates children before parents) or at a definition root, so every
//! walk that descends only through anonymous children terminates.

use vstd::prelude::*;

verus! {

/// Primitive data type of a schema node, immutable under resolution.
#[derive(Clone, Copy, Debug, PartialEq, Eq, Structural)]
pub enum DataType {
    Boolean,
    Integer,
    Number,
    String,
    Array,
    Object,
    File,
}

/// Refinement of a primitive data type, immutable under resolution.
#[derive(Clone, Copy, Debug, PartialEq, Eq, Structural)]
pub enum DataTypeFormat {
    Int32,
    Int64,
    Byte,
    Binary,
    Date,
    DateTime,
    Password,
    Other,
}

/// One schema node in the document's arena.
///
/// An unresolved placeholder carries a reference marker in `reference`; the
/// resolver never consults that field again once the slot that pointed at the
/// placeholder holds a handle to the real definition.
#[derive(Debug, Clone, PartialEq, Eq)]
pub struct SchemaNode {
    /// Type name; assigned by the resolver when the node is discovered via a
    /// reference and had none.
    pub name: Option<String>,
    /// Free-form description, immutable under resolution.
    pub description: Option<String>,
    /// Primitive type, immutable under resolution.
    pub data_type: Option<DataType>,
    /// Type format, immutable under resolution.
    pub format: Option<DataTypeFormat>,
    /// Reference marker (`#/definitions/Name`); present only on unresolved
    /// placeholder nodes.
    pub reference: Option<String>,
    /// Array element type: a handle into the arena.
    pub items: Option<usize>,
    /// Map value type: a handle into the arena.
    pub additional_properties: Option<usize>,
    /// Named object properties; each value is a handle into the arena.
    pub properties: Vec<(String, usize)>,
    /// True exactly when this node's definition lies on a reference cycle;
    /// set by the resolver.
    pub cyclic: bool,
}

/// The top-level document: a format-version marker, the node arena, and the
/// ordered mapping from definition name to the definition's root handle.
#[derive(Debug, Clone, PartialEq, Eq)]
pub struct Api {
    /// Opaque format-version marker, copied through resolution unchanged.
    pub swagger: String,
    /// The node arena; handles index into it.
    pub nodes: Vec<SchemaNode>,
    /// Ordered definitions: unique name, root handle.
    pub definitions: Vec<(String, usize)>,
}

/// `n` has a child slot holding handle `j`.
pub open spec fn has_slot(n: SchemaNode, j: int) -> bool {
    ||| (n.items matches Some(x) && x as int == j)
    ||| (n.additional_properties matches Some(x) && x as int == j)
    ||| (exists|p: int|
        0 <= p < n.properties@.len() && n.properties@[p].1 as int == j)
}

/// Handle `j` is the root of some definition.
pub open spec fn is_root(defs: Seq<(String, usize)>, j: int) -> bool {
    exists|d: int| 0 <= d < defs.len() && defs[d].1 as int == j
}

/// Some definition is named `t`.
pub open spec fn has_def(defs: Seq<(String, usize)>, t: Seq<char>) -> bool {
    exists|d: int| 0 <= d < defs.len() && defs[d].0@ == t
}

/// Every slot of node `i` is in range and points either strictly down the
/// arena or at a definition root.
pub open spec fn node_wf(nodes: Seq<SchemaNode>, defs: Seq<(String, usize)>, i: int) -> bool {
    forall|j: int|
        #[trigger] has_slot(nodes[i], j) ==> {
            &&& 0 <= j < nodes.len()
            &&& (j < i || is_root(defs, j))
        }
}

/// Well-formedness of a document graph: definition roots are in range,
/// reference-free, and distinct; definition names are distinct; every node
/// satisfies `node_wf`.
pub open spec fn graph_wf(nodes: Seq<SchemaNode>, defs: Seq<(String, usize)>) -> bool {
    &&& forall|d: int| 0 <= d < defs.len() ==> ((#[trigger] defs[d].1) as int) < nodes.len()
    &&& forall|d: int| 0 <= d < defs.len()
        ==> (#[trigger] nodes[defs[d].1 as int].reference) is None
    &&& forall|d1: int, d2: int|
        0 <= d1 < defs.len() && 0 <= d2 < defs.len() && d1 != d2
            ==> #[trigger] defs[d1].0@ != #[trigger] defs[d2].0@
    &&& forall|d1: int, d2: int|
        0 <= d1 < defs.len() && 0 <= d2 < defs.len() && d1 != d2
            ==> #[trigger] defs[d1].1 != #[trigger] defs[d2].1
    &&& forall|i: int| 0 <= i < nodes.len() ==> node_wf(nodes, defs, i)
}

impl Api {
    /// The document's graph is well formed.
    pub open spec fn wf(self) -> bool {
        graph_wf(self.nodes@, self.definitions@)
    }
}

/// Which serialization format the first significant byte of a document
/// selects: a brace means the structured-text form, anything else the
/// block-structured form.
#[derive(Clone, Copy, Debug, PartialEq, Eq, Structural)]
pub enum DocumentFormat {
    Json,
    Yaml,
}

/// The format selected by first byte `b`.
pub open spec fn spec_format_for(b: u8) -> DocumentFormat {
    if b == 123 {
        DocumentFormat::Json
    } else {
        DocumentFormat::Yaml
    }
}

/// Select the serialization format from the first significant byte of the
/// input: `{` picks the structured-text parser, anything else the
/// block-structured one.
pub fn format_for_first_byte(b: u8) -> (r: DocumentFormat)
    ensures
        r == spec_format_for(b),
{
    if b == 123 {
        DocumentFormat::Json
    } else {
        DocumentFormat::Yaml
    }
}

/// The capability set every schema-node representation offers the
/// resolver: observers for the node's metadata and child handles, and the
/// mutators the resolver needs (name back-fill, cyclic flag, slot
/// replacement). Each mutator's contract frames everything else as
/// unchanged, so resolution logic written against this trait sees exactly
/// the same evolution it sees on `SchemaNode`.
pub trait Schema: Sized {
    /// The node's name.
    spec fn spec_name(&self) -> Option<Seq<char>>;

    /// The node's reference marker.
    spec fn spec_reference(&self) -> Option<Seq<char>>;

    /// The node's items handle.
    spec fn spec_items(&self) -> Option<usize>;

    /// The node's map-value handle.
    spec fn spec_additional_properties(&self) -> Option<usize>;

    /// The node's named property handles.
    spec fn spec_properties(&self) -> Seq<(String, usize)>;

    /// The node's cyclic flag.
    spec fn spec_cyclic(&self) -> bool;

    fn name(&self) -> (r: Option<&str>)
        ensures
            match r {
                Some(s) => self.spec_name() == Some(s@),
                None => self.spec_name() is None,
            },
    ;

    fn set_cyclic(&mut self, cyclic: bool)
        ensures
            final(self).spec_cyclic() == cyclic,
            final(self).spec_name() == old(self).spec_name(),
            final(self).spec_reference() == old(self).spec_reference(),
            final(self).spec_items() == old(self).spec_items(),
            final(self).spec_additional_properties() == old(self).spec_additional_properties(),
            final(self).spec_properties() == old(self).spec_properties(),
    ;

    fn is_cyclic(&self) -> (r: bool)
        ensures
            r == self.spec_cyclic(),
    ;

    fn set_name(&mut self, name: &str)
        ensures
            final(self).spec_name() == Some(name@),
            final(self).spec_cyclic() == old(self).spec_cyclic(),
            final(self).spec_reference() == old(self).spec_reference(),
            final(self).spec_items() == old(self).spec_items(),
            final(self).spec_additional_properties() == old(self).spec_additional_properties(),
            final(self).spec_properties() == old(self).spec_properties(),
    ;

    fn description(&self) -> Option<&str>;

    fn reference(&self) -> (r: Option<&str>)
        ensures
            match r {
                Some(s) => self.spec_reference() == Some(s@),
                None => self.spec_reference() is None,
            },
    ;

    fn data_type(&self) -> Option<DataType>;

    fn format(&self) -> Option<&DataTypeFormat>;

    fn items(&self) -> (r: Option<usize>)
        ensures
            r == self.spec_items(),
    ;

    fn set_items(&mut self, handle: usize)
        ensures
            final(self).spec_items() == Some(handle),
            final(self).spec_name() == old(self).spec_name(),
            final(self).spec_cyclic() == old(self).spec_cyclic(),
            final(self).spec_reference() == old(self).spec_reference(),
            final(self).spec_additional_properties() == old(self).spec_additional_properties(),
            final(self).spec_properties() == old(self).spec_properties(),
    ;

    fn additional_properties(&self) -> (r: Option<usize>)
        ensures
            r == self.spec_additional_properties(),
    ;

    fn set_additional_properties(&mut self, handle: usize)
        ensures
            final(self).spec_additional_properties() == Some(handle),
            final(self).spec_name() == old(self).spec_name(),
            final(self).spec_cyclic() == old(self).spec_cyclic(),
            final(self).spec_reference() == old(self).spec_reference(),
            final(self).spec_items() == old(self).spec_items(),
            final(self).spec_properties() == old(self).spec_properties(),
    ;

    fn properties(&self) -> (r: &Vec<(String, usize)>)
        ensures
            r@ == self.spec_properties(),
    ;

    fn set_property(&mut self, p: usize, handle: usize)
        requires
            p < old(self).spec_properties().len(),
        ensures
            final(self).spec_properties() == old(self).spec_properties().update(
                p as int,
                (old(self).spec_properties()[p as int].0, handle),
            ),
            final(self).spec_name() == old(self).spec_name(),
            final(self).spec_cyclic() == old(self).spec_cyclic(),
            final(self).spec_reference() == old(self).spec_reference(),
            final(self).spec_items() == old(self).spec_items(),
            final(self).spec_additional_properties() == old(self).spec_additional_properties(),
    ;
}

impl Schema for SchemaNode {
    open spec fn spec_name(&self) -> Option<Seq<char>> {
        match self.name {
            Some(s) => Some(s@),
            None => None,
        }
    }

    open spec fn spec_reference(&self) -> Option<Seq<char>> {
        match self.reference {
            Some(s) => Some(s@),
            None => None,
        }
    }

    open spec fn spec_items(&self) -> Option<usize> {
        self.items
    }

    open spec fn spec_additional_properties(&self) -> Option<usize> {
        self.additional_properties
    }

    open spec fn spec_properties(&self) -> Seq<(String, usize)> {
        self.properties@
    }

    open spec fn spec_cyclic(&self) -> bool {
        self.cyclic
    }

    fn name(&self) -> (r: Option<&str>) {
        match &self.name {
            Some(s) => Some(s.as_str()),
            None => None,
        }
    }

    fn set_cyclic(&mut self, cyclic: bool) {
        self.cyclic = cyclic;
    }

    fn is_cyclic(&self) -> (r: bool) {
        self.cyclic
    }

    fn set_name(&mut self, name: &str) {
        self.name = Some(name.to_owned());
    }

    fn description(&self) -> Option<&str> {
        match &self.description {
            Some(s) => Some(s.as_str()),
            None => None,
        }
    }

    fn reference(&self) -> (r: Option<&str>) {
        match &self.reference {
            Some(s) => Some(s.as_str()),
            None => None,
        }
    }

    fn data_type(&self) -> Option<DataType> {
        self.data_type
    }

    fn format(&self) -> Option<&DataTypeFormat> {
        match &self.format {
            Some(f) => Some(f),
            None => None,
        }
    }

    fn items(&self) -> (r: Option<usize>) {
        self.items
    }

    fn set_items(&mut self, handle: usize) {
        self.items = Some(handle);
    }

    fn additional_properties(&self) -> (r: Option<usize>) {
        self.additional_properties
    }

    fn set_additional_properties(&mut self, handle: usize) {
        self.additional_properties = Some(handle);
    }

    fn properties(&self) -> (r: &Vec<(String, usize)>) {
        &self.properties
    }

    fn set_property(&mut self, p: usize, handle: usize) {
        let ghost before = self.properties@;
        self.properties[p].1 = handle;
        proof {
            assert(self.properties@ =~= before.update(p as int, (before[p as int].0, handle)));
        }
    }
}

} // verus!
