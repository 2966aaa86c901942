//! The registry of node types: from the name of a type to what describes it
//! and to the node that stands for it.

use vstd::prelude::*;
use vstd::string::StringExecFns;
use crate::error::GraphError;
use crate::node::{Node, NodeKind, NodeView};
use crate::value::ValueKind;

verus! {

/// What describes a node type: its name, what it is for, where an editor
/// lists it, and the kinds of its sockets.
#[derive(Debug)]
pub struct NodeTypeDescriptor {
    pub name: String,
    pub description: String,
    pub category: Vec<String>,
    pub inputs: Vec<ValueKind>,
    pub outputs: Vec<ValueKind>,
}

/// A registered node type: its descriptor, and the node of which every new
/// node of the type is a copy.
#[derive(Debug)]
pub struct Entry {
    pub descriptor: NodeTypeDescriptor,
    pub prototype: Node,
}

/// The registry of node types. Of two entries with one name the later counts.
#[derive(Debug)]
pub struct NodeRegistry {
    pub entries: Vec<Entry>,
}

/// The place of the last entry of that name, if there is one.
pub open spec fn last_named(entries: Seq<Entry>, name: Seq<char>) -> Option<int>
    decreases entries.len(),
{
    if entries.len() == 0 {
        None
    } else if entries.last().descriptor.name@ == name {
        Some(entries.len() - 1)
    } else {
        last_named(entries.drop_last(), name)
    }
}

/// The place that `last_named` gives holds an entry of that name.
pub proof fn lemma_last_named(entries: Seq<Entry>, name: Seq<char>)
    ensures
        last_named(entries, name).is_some() ==> 0 <= last_named(entries, name).unwrap()
            < entries.len() && entries[last_named(entries, name).unwrap()].descriptor.name@ == name,
    decreases entries.len(),
{
    if entries.len() > 0 && entries.last().descriptor.name@ != name {
        lemma_last_named(entries.drop_last(), name);
    }
}

impl View for NodeRegistry {
    type V = Map<Seq<char>, NodeView>;

    open spec fn view(&self) -> Map<Seq<char>, NodeView> {
        Map::new(
            |name: Seq<char>| last_named(self.entries@, name).is_some(),
            |name: Seq<char>| self.entries@[last_named(self.entries@, name).unwrap()].prototype@,
        )
    }
}

impl NodeKind {
    /// The descriptor of the kind.
    pub fn descriptor(self) -> (r: NodeTypeDescriptor)
        ensures
            r.name@ == self.name(),
            r.description@ == self.summary(),
            r.category@.len() == self.groups().len(),
            forall|i: int|
                0 <= i < r.category@.len() ==> (#[trigger] r.category@[i])@ == self.groups()[i],
            r.inputs@ == self.inputs(),
            r.outputs@ == self.outputs(),
    {
        let groups = self.category();
        let mut category: Vec<String> = Vec::new();
        let mut i: usize = 0;
        while i < groups.len()
            invariant
                i <= groups@.len(),
                groups@.len() == self.groups().len(),
                forall|j: int| 0 <= j < groups@.len() ==> (#[trigger] groups@[j])@ == self.groups()[j],
                category@.len() == i,
                forall|j: int| 0 <= j < i ==> (#[trigger] category@[j])@ == self.groups()[j],
            decreases groups@.len() - i,
        {
            category.push(String::from_str(groups[i]));
            i += 1;
        }
        let mut inputs: Vec<ValueKind> = Vec::new();
        let mut k: usize = 0;
        while k < self.input_count()
            invariant
                k <= self.inputs().len(),
                inputs@ == self.inputs().take(k as int),
            decreases self.inputs().len() - k,
        {
            inputs.push(self.input_kind(k));
            assert(inputs@ =~= self.inputs().take(k + 1));
            k += 1;
        }
        assert(inputs@ =~= self.inputs());
        let mut outputs: Vec<ValueKind> = Vec::new();
        let mut m: usize = 0;
        while m < self.output_count()
            invariant
                m <= self.outputs().len(),
                outputs@ == self.outputs().take(m as int),
            decreases self.outputs().len() - m,
        {
            outputs.push(self.output_kind(m));
            assert(outputs@ =~= self.outputs().take(m + 1));
            m += 1;
        }
        assert(outputs@ =~= self.outputs());
        NodeTypeDescriptor {
            name: String::from_str(self.display_name()),
            description: String::from_str(self.description()),
            category,
            inputs,
            outputs,
        }
    }

    /// No two kinds have one name.
    pub proof fn lemma_names_differ(self, other: NodeKind)
        ensures
            self != other ==> self.name() != other.name(),
    {
        reveal_strlit("Scalar Math");
        reveal_strlit("Vec2 Math");
        reveal_strlit("Vec3 Math");
        reveal_strlit("Vec4 Math");
        reveal_strlit("Mat2 Math");
        reveal_strlit("Mat3 Math");
        reveal_strlit("Mat4 Math");
        reveal_strlit("Fraction Vec4");
        reveal_strlit("Texture Sample");
        reveal_strlit("UV Node");
        reveal_strlit("Fragment output");
        let a = self.name();
        let b = other.name();
        if self != other && a.len() == b.len() && a.len() == 9 {
            assert(a[0] != b[0] || a[3] != b[3]);
        }
    }
}

impl NodeRegistry {
    /// The invariant of a registry: every node in it is well formed.
    pub open spec fn wf(&self) -> bool {
        forall|k: int| 0 <= k < self.entries@.len() ==> (#[trigger] self.entries@[k]).prototype.wf()
    }

    /// A registry without entries.
    pub fn new() -> (registry: NodeRegistry)
        ensures
            registry.wf(),
            registry@ == Map::<Seq<char>, NodeView>::empty(),
    {
        let registry = NodeRegistry { entries: Vec::new() };
        assert(registry@ =~= Map::<Seq<char>, NodeView>::empty());
        registry
    }

    /// Registers a node type under the name of its descriptor, in place of
    /// what was registered under that name. Says whether there was such a
    /// type.
    pub fn register(&mut self, descriptor: NodeTypeDescriptor, prototype: Node) -> (replaced: bool)
        requires
            old(self).wf(),
            prototype.wf(),
        ensures
            final(self).wf(),
            final(self)@ == old(self)@.insert(descriptor.name@, prototype@),
            final(self).entries@ == old(self).entries@.push(Entry { descriptor, prototype }),
            replaced == old(self)@.contains_key(descriptor.name@),
    {
        let replaced = self.position(descriptor.name.as_str()).is_some();
        self.entries.push(Entry { descriptor, prototype });
        proof {
            assert(self.entries@.drop_last() =~= old(self).entries@);
            assert forall|name: Seq<char>| #[trigger]
                self@.contains_key(name) == old(self)@.insert(
                    descriptor.name@,
                    prototype@,
                ).contains_key(name) by {}
            assert forall|name: Seq<char>| self@.contains_key(name) implies #[trigger] self@[name]
                == old(self)@.insert(descriptor.name@, prototype@)[name] by {
                if name != descriptor.name@ {
                    lemma_last_named(old(self).entries@, name);
                }
            }
            assert(self@ =~= old(self)@.insert(descriptor.name@, prototype@));
            assert forall|k: int| 0 <= k < self.entries@.len() implies (
            #[trigger] self.entries@[k]).prototype.wf() by {
                if k < old(self).entries@.len() {
                    assert(self.entries@[k] == old(self).entries@[k]);
                }
            }
        }
        replaced
    }

    /// The place of the entry that counts for `name`.
    fn position(&self, name: &str) -> (r: Option<usize>)
        ensures
            r.is_some() == last_named(self.entries@, name@).is_some(),
            r.is_some() ==> r.unwrap() == last_named(self.entries@, name@).unwrap() && r.unwrap()
                < self.entries@.len(),
    {
        let wanted = String::from_str(name);
        let mut k: usize = self.entries.len();
        proof {
            assert(self.entries@.take(k as int) =~= self.entries@);
        }
        while k > 0
            invariant
                wanted@ == name@,
                k <= self.entries@.len(),
                last_named(self.entries@, name@) == last_named(self.entries@.take(k as int), name@),
            decreases k,
        {
            if self.entries[k - 1].descriptor.name == wanted {
                return Some(k - 1);
            }
            proof {
                assert(self.entries@.take(k as int).drop_last() =~= self.entries@.take(k - 1));
            }
            k -= 1;
        }
        None
    }

    /// Whether a node type is registered under `name`.
    pub fn contains(&self, name: &str) -> (r: bool)
        ensures
            r == self@.contains_key(name@),
    {
        self.position(name).is_some()
    }

    /// The descriptor of the node type registered under `name`.
    pub fn descriptor_of(&self, name: &str) -> (r: Option<&NodeTypeDescriptor>)
        ensures
            r.is_some() == self@.contains_key(name@),
            r.is_some() ==> r.unwrap().name@ == name@ && *r.unwrap() == self.entries@[last_named(
                self.entries@,
                name@,
            ).unwrap()].descriptor,
    {
        proof {
            lemma_last_named(self.entries@, name@);
        }
        match self.position(name) {
            Some(k) => Some(&self.entries[k].descriptor),
            None => None,
        }
    }

    /// A new node of the type registered under `name`. Refused with
    /// `UnknownNodeType` where no type has that name.
    pub fn new_by_name(&self, name: &str) -> (r: Result<Node, GraphError>)
        requires
            self.wf(),
        ensures
            r.is_ok() == self@.contains_key(name@),
            r.is_ok() ==> r.unwrap()@ == self@[name@] && r.unwrap().wf(),
            r.is_err() ==> r.unwrap_err() == GraphError::UnknownNodeType,
    {
        match self.position(name) {
            Some(k) => Ok(self.entries[k].prototype.duplicate()),
            None => Err(GraphError::UnknownNodeType),
        }
    }

    /// Whether the registry holds every kind of the catalogue under its
    /// name, as its factory makes it.
    pub open spec fn holds_catalogue(&self) -> bool {
        forall|kind: NodeKind|
            self@.contains_key(#[trigger] kind.name()) && self@[kind.name()] == NodeView::fresh(kind)
    }

    /// Registers `kind` under its name, as its factory makes it.
    pub fn register_kind(&mut self, kind: NodeKind) -> (replaced: bool)
        requires
            old(self).wf(),
        ensures
            final(self).wf(),
            final(self)@ == old(self)@.insert(kind.name(), NodeView::fresh(kind)),
            replaced == old(self)@.contains_key(kind.name()),
    {
        self.register(kind.descriptor(), Node::new(kind))
    }

    /// The registry of the catalogue: every kind under its name.
    pub fn build() -> (registry: NodeRegistry)
        ensures
            registry.wf(),
            registry.holds_catalogue(),
    {
        let mut registry = NodeRegistry::new();
        registry.register_kind(NodeKind::ScalarMath);
        registry.register_kind(NodeKind::Vec2Math);
        registry.register_kind(NodeKind::Vec3Math);
        registry.register_kind(NodeKind::Vec4Math);
        registry.register_kind(NodeKind::Fraction);
        registry.register_kind(NodeKind::Mat2Math);
        registry.register_kind(NodeKind::Mat3Math);
        registry.register_kind(NodeKind::Mat4Math);
        registry.register_kind(NodeKind::TextureSample);
        registry.register_kind(NodeKind::Uv);
        registry.register_kind(NodeKind::FragmentOutput);
        proof {
            assert forall|kind: NodeKind|
                registry@.contains_key(#[trigger] kind.name()) && registry@[kind.name()]
                    == NodeView::fresh(kind) by {
                kind.lemma_names_differ(NodeKind::ScalarMath);
                kind.lemma_names_differ(NodeKind::Vec2Math);
                kind.lemma_names_differ(NodeKind::Vec3Math);
                kind.lemma_names_differ(NodeKind::Vec4Math);
                kind.lemma_names_differ(NodeKind::Fraction);
                kind.lemma_names_differ(NodeKind::Mat2Math);
                kind.lemma_names_differ(NodeKind::Mat3Math);
                kind.lemma_names_differ(NodeKind::Mat4Math);
                kind.lemma_names_differ(NodeKind::TextureSample);
                kind.lemma_names_differ(NodeKind::Uv);
                kind.lemma_names_differ(NodeKind::FragmentOutput);
            }
        }
        registry
    }
}

} // verus!
