//! A graph as a record of plain values, for storage: its nodes by type name,
//! its connections and its output node.

use vstd::prelude::*;
use vstd::string::StringExecFns;
use crate::error::GraphError;
use crate::graph::{Graph, NodeId, Slot, Source};
use crate::node::{Node, NodeKind, NodeView};
use crate::registry::NodeRegistry;
use crate::value::{duplicate_literals, literal_views, Literal, MathOp, UvChannel};

verus! {

/// A node of a stored graph.
#[derive(Debug)]
pub struct NodeRecord {
    pub id: NodeId,
    pub node_type: String,
    pub op: MathOp,
    pub channel: UvChannel,
    pub defaults: Vec<Literal>,
}

/// A connection of a stored graph: the input, and the output that feeds it.
#[derive(Clone, Copy, Debug, PartialEq, Eq, Structural)]
pub struct LinkRecord {
    pub node: NodeId,
    pub input: usize,
    pub source: Source,
}

/// A stored graph.
#[derive(Debug)]
pub struct GraphRecord {
    /// The number of ids that the graph has given out.
    pub next_id: usize,
    pub nodes: Vec<NodeRecord>,
    pub links: Vec<LinkRecord>,
    pub output: Option<NodeId>,
}

/// The node types of the catalogue by name, each as its factory makes it.
pub open spec fn catalogue() -> Map<Seq<char>, NodeView> {
    Map::new(
        |name: Seq<char>| exists|kind: NodeKind| #[trigger] kind.name() == name,
        |name: Seq<char>| NodeView::fresh(choose|kind: NodeKind| #[trigger] kind.name() == name),
    )
}

/// The catalogue holds each kind under its name.
pub proof fn lemma_catalogue(kind: NodeKind)
    ensures
        catalogue().contains_key(kind.name()),
        catalogue()[kind.name()] == NodeView::fresh(kind),
{
    let chosen = choose|other: NodeKind| #[trigger] other.name() == kind.name();
    chosen.lemma_names_differ(kind);
}

impl GraphRecord {
    /// The node that record `k` stands for, where its type is of `kind`.
    pub open spec fn node_view(&self, k: int, kind: NodeKind) -> NodeView {
        NodeView {
            kind,
            op: self.nodes@[k].op,
            channel: self.nodes@[k].channel,
            defaults: literal_views(self.nodes@[k].defaults@),
        }
    }

    /// Whether `graph` holds the node of record `k`, of the kind that
    /// `types` has under the record's type name.
    pub open spec fn places(&self, graph: &Graph, types: Map<Seq<char>, NodeView>, k: int) -> bool {
        let record = self.nodes@[k];
        &&& types.contains_key(record.node_type@)
        &&& graph.has(record.id)
        &&& graph.node(record.id) == self.node_view(k, types[record.node_type@].kind)
    }

    /// Whether `graph` holds the connection of record `j`.
    pub open spec fn joins(&self, graph: &Graph, j: int) -> bool {
        let link = self.links@[j];
        &&& graph.has(link.node)
        &&& graph.linked(link.node, link.input as int)
        &&& graph.sources(link.node)[link.input as int] == Some(link.source)
    }

    /// Whether one of the first `count` node records has the id `id`.
    pub open spec fn names_node(&self, id: NodeId, count: int) -> bool {
        exists|k: int| #![trigger self.nodes@[k]] 0 <= k < count && self.nodes@[k].id == id
    }

    /// Whether one of the first `count` connection records is for input
    /// `input` of node `id`.
    pub open spec fn names_link(&self, id: NodeId, input: int, count: int) -> bool {
        exists|j: int|
            #![trigger self.links@[j]]
            0 <= j < count && self.links@[j].node == id && self.links@[j].input == input
    }

    /// Whether every type name of the record is a key of `types`.
    pub open spec fn known(&self, types: Map<Seq<char>, NodeView>) -> bool {
        forall|k: int|
            0 <= k < self.nodes@.len() ==> types.contains_key((#[trigger] self.nodes@[k]).node_type@)
    }

    /// Whether the record describes `graph`, with the node types `types`:
    /// they agree on the ids given out and on the output node, the record
    /// has one node record for each node and one connection record for each
    /// connected input, and each record says what the graph holds.
    pub open spec fn describes(&self, graph: &Graph, types: Map<Seq<char>, NodeView>) -> bool {
        &&& self.next_id == graph.slots@.len()
        &&& self.output == graph.output
        &&& forall|k: int| 0 <= k < self.nodes@.len() ==> #[trigger] self.places(graph, types, k)
        &&& forall|id: NodeId|
            graph.has(id) ==> #[trigger] self.names_node(id, self.nodes@.len() as int)
        &&& forall|j: int, k: int|
            #![trigger self.nodes@[j], self.nodes@[k]]
            0 <= j < k < self.nodes@.len() ==> self.nodes@[j].id != self.nodes@[k].id
        &&& forall|j: int| 0 <= j < self.links@.len() ==> #[trigger] self.joins(graph, j)
        &&& forall|id: NodeId, input: int|
            graph.has(id) && graph.linked(id, input) ==> #[trigger] self.names_link(
                id,
                input,
                self.links@.len() as int,
            )
        &&& forall|i: int, j: int|
            #![trigger self.links@[i], self.links@[j]]
            0 <= i < j < self.links@.len() ==> !(self.links@[i].node == self.links@[j].node
                && self.links@[i].input == self.links@[j].input)
    }

    /// Two graphs that one record describes have the same nodes, the same
    /// connections and the same output node.
    pub proof fn lemma_describes_one(
        &self,
        first: &Graph,
        second: &Graph,
        types: Map<Seq<char>, NodeView>,
    )
        requires
            self.describes(first, types),
            self.describes(second, types),
        ensures
            first@.nodes == second@.nodes,
            first@.links == second@.links,
            first@.output == second@.output,
    {
        self.lemma_within(first, second, types);
        self.lemma_within(second, first, types);
        assert forall|id: NodeId| first@.nodes.contains_key(id) == second@.nodes.contains_key(
            id,
        ) by {
            assert(first.has(id) ==> second.has(id));
            assert(second.has(id) ==> first.has(id));
        }
        assert(first@.nodes =~= second@.nodes);
        assert forall|at: (NodeId, int)| first@.links.contains_key(at) == second@.links.contains_key(
            at,
        ) by {
            if first@.links.contains_key(at) {
                assert(first.sources(at.0)[at.1].is_some());
            }
            if second@.links.contains_key(at) {
                assert(second.sources(at.0)[at.1].is_some());
            }
        }
        assert forall|at: (NodeId, int)| first@.links.contains_key(at) implies first@.links[at]
            == second@.links[at] by {
            assert(first.sources(at.0)[at.1].is_some());
        }
        assert(first@.links =~= second@.links);
    }

    /// What one of two graphs that one record describes holds, the other
    /// holds too.
    proof fn lemma_within(&self, first: &Graph, second: &Graph, types: Map<Seq<char>, NodeView>)
        requires
            self.describes(first, types),
            self.describes(second, types),
        ensures
            forall|id: NodeId|
                #[trigger] first.has(id) ==> second.has(id) && first.node(id) == second.node(id),
            forall|id: NodeId, input: int|
                #![trigger first.sources(id)[input]]
                first.has(id) && first.linked(id, input) ==> second.has(id) && second.linked(
                    id,
                    input,
                ) && first.sources(id)[input] == second.sources(id)[input],
    {
        assert forall|id: NodeId| #[trigger] first.has(id) implies second.has(id) && first.node(id)
            == second.node(id) by {
            assert(self.names_node(id, self.nodes@.len() as int));
            let k = choose|k: int|
                #![trigger self.nodes@[k]]
                0 <= k < self.nodes@.len() && self.nodes@[k].id == id;
            assert(self.places(first, types, k));
            assert(self.places(second, types, k));
        }
        assert forall|id: NodeId, input: int|
            #![trigger first.sources(id)[input]]
            first.has(id) && first.linked(id, input) implies second.has(id) && second.linked(
            id,
            input,
        ) && first.sources(id)[input] == second.sources(id)[input] by {
            assert(self.names_link(id, input, self.links@.len() as int));
            let j = choose|j: int|
                #![trigger self.links@[j]]
                0 <= j < self.links@.len() && self.links@[j].node == id && self.links@[j].input
                    == input;
            assert(self.joins(first, j));
            assert(self.joins(second, j));
        }
    }

    /// A record that describes a graph with the node types of the catalogue
    /// describes it with every registry that holds the catalogue, and such
    /// a registry knows every type name of the record.
    pub proof fn lemma_describes_registered(&self, graph: &Graph, registry: &NodeRegistry)
        requires
            self.describes(graph, catalogue()),
            self.recorded_by_name(graph),
            registry.holds_catalogue(),
        ensures
            self.describes(graph, registry@),
            self.known(registry@),
    {
        assert forall|k: int| 0 <= k < self.nodes@.len() implies #[trigger] self.places(
            graph,
            registry@,
            k,
        ) by {
            assert(self.places(graph, catalogue(), k));
            assert(self.named_by_kind(graph, k));
            let kind = graph.node(self.nodes@[k].id).kind;
            lemma_catalogue(kind);
            assert(registry@.contains_key(kind.name()));
        }
        assert forall|k: int| 0 <= k < self.nodes@.len() implies registry@.contains_key(
            (#[trigger] self.nodes@[k]).node_type@,
        ) by {
            assert(self.places(graph, registry@, k));
        }
    }

    /// Whether node record `k` has for its type name the name of the kind
    /// of the node that `graph` holds under the record's id.
    pub open spec fn named_by_kind(&self, graph: &Graph, k: int) -> bool {
        self.nodes@[k].node_type@ == graph.node(self.nodes@[k].id).kind.name()
    }

    /// Whether every node record has the name of its node's kind.
    pub open spec fn recorded_by_name(&self, graph: &Graph) -> bool {
        forall|k: int| 0 <= k < self.nodes@.len() ==> #[trigger] self.named_by_kind(graph, k)
    }
}

impl GraphRecord {
    /// Whether the first `count` node records are in the order of their
    /// ids, all below `bound`.
    pub open spec fn nodes_ascend(&self, count: int, bound: int) -> bool {
        &&& forall|k: int| 0 <= k < count ==> (#[trigger] self.nodes@[k]).id < bound
        &&& forall|j: int, k: int|
            #![trigger self.nodes@[j], self.nodes@[k]]
            0 <= j < k < count ==> self.nodes@[j].id < self.nodes@[k].id
    }

    /// Whether the connection records are in the order of their nodes and,
    /// for one node, of their inputs, all below node `bound` or, for that
    /// node, below input `input`.
    pub open spec fn links_ascend(&self, bound: int, input: int) -> bool {
        &&& forall|j: int|
            0 <= j < self.links@.len() ==> (#[trigger] self.links@[j]).node < bound || (
            self.links@[j].node == bound && self.links@[j].input < input)
        &&& forall|i: int, j: int|
            #![trigger self.links@[i], self.links@[j]]
            0 <= i < j < self.links@.len() ==> self.links@[i].node < self.links@[j].node || (
            self.links@[i].node == self.links@[j].node && self.links@[i].input
                < self.links@[j].input)
    }
}

impl Graph {
    /// Whether `record` holds what the graph holds under the ids below
    /// `bound` and, of the connections of node `bound`, those of the inputs
    /// below `input`.
    pub open spec fn recorded_upto(&self, record: &GraphRecord, bound: int, input: int) -> bool {
        &&& record.next_id == self.slots@.len()
        &&& record.output == self.output
        &&& forall|k: int|
            0 <= k < record.nodes@.len() ==> #[trigger] record.places(self, catalogue(), k)
        &&& record.recorded_by_name(self)
        &&& forall|j: int| 0 <= j < record.links@.len() ==> #[trigger] record.joins(self, j)
        &&& forall|id: NodeId, at: int|
            self.has(id) && self.linked(id, at) && (id < bound || (id == bound && at < input))
                ==> #[trigger] record.names_link(id, at, record.links@.len() as int)
        &&& record.links_ascend(bound, input)
    }

    /// The graph as a record: one node record for each node, in the order
    /// of the ids and under the name of the node's kind, one connection
    /// record for each connected input, in the order of the nodes and of
    /// their inputs, the output node, and the number of ids given out.
    pub fn to_record(&self) -> (record: GraphRecord)
        requires
            self.wf(),
        ensures
            record.describes(self, catalogue()),
            record.recorded_by_name(self),
            record.nodes_ascend(record.nodes@.len() as int, self.slots@.len() as int),
            record.links_ascend(self.slots@.len() as int, 0),
    {
        let count = self.slots.len();
        let mut record = GraphRecord {
            next_id: count,
            nodes: Vec::new(),
            links: Vec::new(),
            output: self.output,
        };
        let mut id: usize = 0;
        while id < count
            invariant
                self.wf(),
                count == self.slots@.len(),
                id <= count,
                self.recorded_upto(&record, id as int, 0),
                record.nodes_ascend(record.nodes@.len() as int, id as int),
                forall|other: NodeId|
                    self.has(other) && other < id ==> #[trigger] record.names_node(
                        other,
                        record.nodes@.len() as int,
                    ),
            decreases count - id,
        {
            match &self.slots[id] {
                Some(slot) => {
                    let ghost before = record;
                    record.nodes.push(
                        NodeRecord {
                            id,
                            node_type: String::from_str(slot.node.kind.display_name()),
                            op: slot.node.op,
                            channel: slot.node.channel,
                            defaults: duplicate_literals(&slot.node.defaults),
                        },
                    );
                    proof {
                        let last = record.nodes@.len() - 1;
                        lemma_catalogue(slot.node.kind);
                        assert(record.nodes@[last].id == id);
                        assert(record.places(self, catalogue(), last));
                        assert(record.named_by_kind(self, last));
                        assert forall|k: int| 0 <= k < record.nodes@.len() implies #[trigger] record.places(
                            self,
                            catalogue(),
                            k,
                        ) by {
                            if k < last {
                                assert(record.nodes@[k] == before.nodes@[k]);
                                assert(before.places(self, catalogue(), k));
                            }
                        }
                        assert forall|k: int| 0 <= k < record.nodes@.len() implies #[trigger] record.named_by_kind(
                            self,
                            k,
                        ) by {
                            if k < last {
                                assert(record.nodes@[k] == before.nodes@[k]);
                                assert(before.named_by_kind(self, k));
                            }
                        }
                        assert(record.links@ == before.links@);
                        assert(record.links_ascend(id as int, 0));
                        assert forall|j: int| 0 <= j < record.links@.len() implies #[trigger] record.joins(
                            self,
                            j,
                        ) by {
                            assert(before.joins(self, j));
                        }
                        assert forall|other: NodeId, at: int|
                            self.has(other) && self.linked(other, at) && (other < id || (other == id
                                && at < 0)) implies #[trigger] record.names_link(
                            other,
                            at,
                            record.links@.len() as int,
                        ) by {
                            assert(before.names_link(other, at, before.links@.len() as int));
                        }
                        assert forall|k: int| 0 <= k < record.nodes@.len() implies (
                        #[trigger] record.nodes@[k]).id < id + 1 by {
                            if k < last {
                                assert(record.nodes@[k] == before.nodes@[k]);
                            }
                        }
                        assert forall|j: int, k: int|
                            #![trigger record.nodes@[j], record.nodes@[k]]
                            0 <= j < k < record.nodes@.len() implies record.nodes@[j].id
                            < record.nodes@[k].id by {
                            assert(record.nodes@[j] == before.nodes@[j]);
                            if k < last {
                                assert(record.nodes@[k] == before.nodes@[k]);
                            }
                        }
                        assert forall|other: NodeId|
                            self.has(other) && other < id + 1 implies #[trigger] record.names_node(
                            other,
                            record.nodes@.len() as int,
                        ) by {
                            if other < id {
                                assert(before.names_node(other, before.nodes@.len() as int));
                                let k = choose|k: int|
                                    #![trigger before.nodes@[k]]
                                    0 <= k < before.nodes@.len() && before.nodes@[k].id == other;
                                assert(record.nodes@[k] == before.nodes@[k]);
                            } else {
                                assert(record.nodes@[last].id == other);
                            }
                        }
                    }
                    let inputs = slot.sources.len();
                    let mut input: usize = 0;
                    while input < inputs
                        invariant
                            self.wf(),
                            count == self.slots@.len(),
                            id < count,
                            self.has(id),
                            slot == self.slots@[id as int].unwrap(),
                            inputs == slot.sources@.len(),
                            input <= inputs,
                            self.recorded_upto(&record, id as int, input as int),
                            record.nodes_ascend(record.nodes@.len() as int, id + 1),
                            forall|other: NodeId|
                                self.has(other) && other < id + 1 ==> #[trigger] record.names_node(
                                    other,
                                    record.nodes@.len() as int,
                                ),
                        decreases inputs - input,
                    {
                        match slot.sources[input] {
                            Some(source) => {
                                let ghost earlier = record;
                                record.links.push(LinkRecord { node: id, input, source });
                                proof {
                                    let last = record.links@.len() - 1;
                                    assert(record.links@[last] == (LinkRecord {
                                        node: id,
                                        input,
                                        source,
                                    }));
                                    assert(self.linked(id, input as int));
                                    assert(record.joins(self, last));
                                    assert forall|k: int|
                                        0 <= k < record.nodes@.len() implies #[trigger] record.places(
                                        self,
                                        catalogue(),
                                        k,
                                    ) by {
                                        assert(earlier.places(self, catalogue(), k));
                                    }
                                    assert forall|k: int|
                                        0 <= k < record.nodes@.len() implies #[trigger] record.named_by_kind(
                                        self,
                                        k,
                                    ) by {
                                        assert(earlier.named_by_kind(self, k));
                                    }
                                    assert forall|j: int|
                                        0 <= j < record.links@.len() implies #[trigger] record.joins(
                                        self,
                                        j,
                                    ) by {
                                        if j < last {
                                            assert(record.links@[j] == earlier.links@[j]);
                                            assert(earlier.joins(self, j));
                                        }
                                    }
                                    assert forall|other: NodeId, at: int|
                                        self.has(other) && self.linked(other, at) && (other < id || (
                                        other == id && at < input + 1)) implies #[trigger] record.names_link(
                                        other,
                                        at,
                                        record.links@.len() as int,
                                    ) by {
                                        if other < id || at < input {
                                            assert(earlier.names_link(
                                                other,
                                                at,
                                                earlier.links@.len() as int,
                                            ));
                                            let j = choose|j: int|
                                                #![trigger earlier.links@[j]]
                                                0 <= j < earlier.links@.len() && earlier.links@[j].node
                                                    == other && earlier.links@[j].input == at;
                                            assert(record.links@[j] == earlier.links@[j]);
                                        } else {
                                            assert(record.links@[last].node == other);
                                        }
                                    }
                                    assert forall|j: int| 0 <= j < record.links@.len() implies (
                                    #[trigger] record.links@[j]).node < id || (record.links@[j].node
                                        == id && record.links@[j].input < input + 1) by {
                                        if j < last {
                                            assert(record.links@[j] == earlier.links@[j]);
                                        }
                                    }
                                    assert forall|i: int, j: int|
                                        #![trigger record.links@[i], record.links@[j]]
                                        0 <= i < j < record.links@.len() implies record.links@[i].node
                                        < record.links@[j].node || (record.links@[i].node
                                        == record.links@[j].node && record.links@[i].input
                                        < record.links@[j].input) by {
                                        assert(record.links@[i] == earlier.links@[i]);
                                        if j < last {
                                            assert(record.links@[j] == earlier.links@[j]);
                                        }
                                    }
                                    assert forall|other: NodeId|
                                        self.has(other) && other < id + 1 implies #[trigger] record.names_node(
                                        other,
                                        record.nodes@.len() as int,
                                    ) by {
                                        assert(earlier.names_node(
                                            other,
                                            earlier.nodes@.len() as int,
                                        ));
                                    }
                                }
                            },
                            None => {
                                proof {
                                    assert(!self.linked(id, input as int));
                                    assert forall|other: NodeId, at: int|
                                        self.has(other) && self.linked(other, at) && (other < id || (
                                        other == id && at < input + 1)) implies #[trigger] record.names_link(
                                        other,
                                        at,
                                        record.links@.len() as int,
                                    ) by {}
                                    assert(record.links_ascend(id as int, input + 1));
                                }
                            },
                        }
                        input += 1;
                    }
                    proof {
                        assert forall|other: NodeId, at: int|
                            self.has(other) && self.linked(other, at) && (other < id + 1 || (other
                                == id + 1 && at < 0)) implies #[trigger] record.names_link(
                            other,
                            at,
                            record.links@.len() as int,
                        ) by {}
                    }
                },
                None => {
                    proof {
                        assert forall|other: NodeId, at: int|
                            self.has(other) && self.linked(other, at) && (other < id + 1 || (other
                                == id + 1 && at < 0)) implies #[trigger] record.names_link(
                            other,
                            at,
                            record.links@.len() as int,
                        ) by {}
                    }
                },
            }
            id += 1;
        }
        record
    }
}

impl GraphRecord {
    /// Whether the record describes a well-formed graph, with the node
    /// types `types`.
    pub open spec fn describable(&self, types: Map<Seq<char>, NodeView>) -> bool {
        exists|graph: Graph| graph.wf() && #[trigger] self.describes(&graph, types)
    }

    /// Whether `graph` holds the nodes of the first `count` node records,
    /// unconnected, and no other node.
    pub open spec fn nodes_placed(
        &self,
        graph: &Graph,
        types: Map<Seq<char>, NodeView>,
        count: int,
    ) -> bool {
        &&& graph.slots@.len() == self.next_id
        &&& forall|k: int| 0 <= k < count ==> #[trigger] self.places(graph, types, k)
        &&& forall|id: NodeId| graph.has(id) ==> #[trigger] self.names_node(id, count)
        &&& forall|j: int, k: int|
            #![trigger self.nodes@[j], self.nodes@[k]]
            0 <= j < k < count ==> self.nodes@[j].id != self.nodes@[k].id
    }

    /// Whether `graph` holds the connections of the first `count`
    /// connection records, and no other connection.
    pub open spec fn links_placed(&self, graph: &Graph, count: int) -> bool {
        &&& forall|j: int| 0 <= j < count ==> #[trigger] self.joins(graph, j)
        &&& forall|id: NodeId, input: int|
            graph.has(id) && graph.linked(id, input) ==> #[trigger] self.names_link(id, input, count)
        &&& forall|i: int, j: int|
            #![trigger self.links@[i], self.links@[j]]
            0 <= i < j < count ==> !(self.links@[i].node == self.links@[j].node
                && self.links@[i].input == self.links@[j].input)
    }

    /// A graph that the record describes holds the nodes that a graph
    /// holds in which the node records were placed.
    proof fn lemma_same_nodes(
        &self,
        described: &Graph,
        placed: &Graph,
        types: Map<Seq<char>, NodeView>,
    )
        requires
            self.describes(described, types),
            self.nodes_placed(placed, types, self.nodes@.len() as int),
        ensures
            forall|id: NodeId| #[trigger] described.has(id) == placed.has(id),
            forall|id: NodeId| #[trigger] placed.has(id) ==> described.node(id) == placed.node(id),
    {
        assert forall|id: NodeId| #[trigger] described.has(id) == placed.has(id) by {
            if described.has(id) {
                assert(self.names_node(id, self.nodes@.len() as int));
                let k = choose|k: int|
                    #![trigger self.nodes@[k]]
                    0 <= k < self.nodes@.len() && self.nodes@[k].id == id;
                assert(self.places(placed, types, k));
            }
            if placed.has(id) {
                assert(self.names_node(id, self.nodes@.len() as int));
                let k = choose|k: int|
                    #![trigger self.nodes@[k]]
                    0 <= k < self.nodes@.len() && self.nodes@[k].id == id;
                assert(self.places(described, types, k));
            }
        }
        assert forall|id: NodeId| #[trigger] placed.has(id) implies described.node(id)
            == placed.node(id) by {
            assert(self.names_node(id, self.nodes@.len() as int));
            let k = choose|k: int|
                #![trigger self.nodes@[k]]
                0 <= k < self.nodes@.len() && self.nodes@[k].id == id;
            assert(self.places(described, types, k));
            assert(self.places(placed, types, k));
        }
    }
}

/// `count` inputs, none of them connected.
fn unconnected(count: usize) -> (sources: Vec<Option<Source>>)
    ensures
        sources@.len() == count,
        forall|i: int| 0 <= i < count ==> (#[trigger] sources@[i]).is_none(),
{
    let mut sources: Vec<Option<Source>> = Vec::new();
    while sources.len() < count
        invariant
            sources@.len() <= count,
            forall|i: int| 0 <= i < sources@.len() ==> (#[trigger] sources@[i]).is_none(),
        decreases count - sources@.len(),
    {
        sources.push(None);
    }
    sources
}

/// `count` slots, none of them taken.
fn vacant(count: usize) -> (slots: Vec<Option<Slot>>)
    ensures
        slots@.len() == count,
        forall|i: int| 0 <= i < count ==> (#[trigger] slots@[i]).is_none(),
{
    let mut slots: Vec<Option<Slot>> = Vec::new();
    while slots.len() < count
        invariant
            slots@.len() <= count,
            forall|i: int| 0 <= i < slots@.len() ==> (#[trigger] slots@[i]).is_none(),
        decreases count - slots@.len(),
    {
        slots.push(None);
    }
    slots
}

impl Graph {
    /// Whether no input of the graph is connected.
    pub open spec fn unlinked(&self) -> bool {
        forall|id: NodeId, input: int|
            #![trigger self.sources(id)[input]]
            self.has(id) ==> !self.linked(id, input)
    }

    /// Places the nodes of `record` in a graph without connections.
    fn place_nodes(record: &GraphRecord, registry: &NodeRegistry) -> (r: Option<Graph>)
        requires
            registry.wf(),
            record.known(registry@),
        ensures
            r.is_none() ==> !record.describable(registry@),
            r.is_some() ==> {
                let graph = r.unwrap();
                &&& graph.wf()
                &&& graph.unlinked()
                &&& graph.output == record.output
                &&& graph.changed == 0
                &&& record.nodes_placed(&graph, registry@, record.nodes@.len() as int)
            },
    {
        let mut graph = Graph { slots: vacant(record.next_id), output: record.output, changed: 0 };
        let mut k: usize = 0;
        while k < record.nodes.len()
            invariant
                registry.wf(),
                record.known(registry@),
                k <= record.nodes@.len(),
                graph.wf(),
                graph.unlinked(),
                graph.output == record.output,
                graph.changed == 0,
                record.nodes_placed(&graph, registry@, k as int),
            decreases record.nodes@.len() - k,
        {
            let entry = &record.nodes[k];
            let id = entry.id;
            if id >= graph.slots.len() {
                proof {
                    assert forall|other: Graph| other.wf() implies !#[trigger] record.describes(
                        &other,
                        registry@,
                    ) by {
                        if record.describes(&other, registry@) {
                            assert(record.places(&other, registry@, k as int));
                        }
                    }
                }
                return None;
            }
            if graph.slots[id].is_some() {
                proof {
                    assert(graph.has(id));
                    assert(record.names_node(id, k as int));
                    let j = choose|j: int|
                        #![trigger record.nodes@[j]]
                        0 <= j < k && record.nodes@[j].id == id;
                    assert(record.nodes@[j].id == record.nodes@[k as int].id);
                }
                return None;
            }
            let kind = match registry.new_by_name(entry.node_type.as_str()) {
                Ok(prototype) => prototype.kind,
                Err(_) => {
                    return None;
                },
            };
            let node = Node {
                kind,
                op: entry.op,
                channel: entry.channel,
                defaults: duplicate_literals(&entry.defaults),
            };
            assert(node@ == record.node_view(k as int, registry@[entry.node_type@].kind));
            if !node.is_well_formed() {
                proof {
                    assert forall|other: Graph| other.wf() implies !#[trigger] record.describes(
                        &other,
                        registry@,
                    ) by {
                        if record.describes(&other, registry@) {
                            assert(record.places(&other, registry@, k as int));
                            assert(other.slot_wf(id));
                        }
                    }
                }
                return None;
            }
            let sources = unconnected(kind.input_count());
            let ghost before = graph;
            graph.slots.set(id, Some(Slot { node, sources }));
            proof {
                assert forall|other: NodeId| graph.has(other) implies #[trigger] graph.slot_wf(
                    other,
                ) by {
                    if other != id {
                        assert(before.slot_wf(other));
                    }
                }
                assert forall|other: NodeId, input: int|
                    #![trigger graph.sources(other)[input]]
                    graph.has(other) implies !graph.linked(other, input) by {
                    if other != id {
                        assert(!before.linked(other, input));
                    }
                }
                assert forall|j: int| 0 <= j < k + 1 implies #[trigger] record.places(
                    &graph,
                    registry@,
                    j,
                ) by {
                    if j < k {
                        assert(record.places(&before, registry@, j));
                        assert(record.nodes@[j].id != id) by {
                            assert(before.has(record.nodes@[j].id));
                        }
                    }
                }
                assert forall|other: NodeId| graph.has(other) implies #[trigger] record.names_node(
                    other,
                    k + 1,
                ) by {
                    if other != id {
                        assert(before.has(other));
                        assert(record.names_node(other, k as int));
                    } else {
                        assert(record.nodes@[k as int].id == id);
                    }
                }
                assert forall|i: int, j: int|
                    #![trigger record.nodes@[i], record.nodes@[j]]
                    0 <= i < j < k + 1 implies record.nodes@[i].id != record.nodes@[j].id by {
                    if j == k {
                        assert(record.places(&before, registry@, i));
                    }
                }
            }
            k += 1;
        }
        Some(graph)
    }

    /// The graph that `record` describes, with the node types of
    /// `registry`, and with no change counted. Refused with
    /// `UnknownNodeType` where a type name of the record is not registered,
    /// and else with `Malformed` where the record describes no well-formed
    /// graph.
    pub fn from_record(record: &GraphRecord, registry: &NodeRegistry) -> (r: Result<
        Graph,
        GraphError,
    >)
        requires
            registry.wf(),
        ensures
            r.is_ok() <==> record.known(registry@) && record.describable(registry@),
            r.is_err() && r.unwrap_err() == GraphError::UnknownNodeType <==> !record.known(
                registry@,
            ),
            r.is_err() && r.unwrap_err() == GraphError::Malformed <==> record.known(registry@)
                && !record.describable(registry@),
            r.is_ok() ==> r.unwrap().wf() && record.describes(&r.unwrap(), registry@)
                && r.unwrap().changed == 0,
    {
        let mut k: usize = 0;
        while k < record.nodes.len()
            invariant
                k <= record.nodes@.len(),
                forall|j: int|
                    0 <= j < k ==> registry@.contains_key((#[trigger] record.nodes@[j]).node_type@),
            decreases record.nodes@.len() - k,
        {
            if !registry.contains(record.nodes[k].node_type.as_str()) {
                return Err(GraphError::UnknownNodeType);
            }
            k += 1;
        }
        let mut graph = match Graph::place_nodes(record, registry) {
            Some(graph) => graph,
            None => {
                return Err(GraphError::Malformed);
            },
        };
        let ghost count = record.nodes@.len() as int;
        let mut j: usize = 0;
        while j < record.links.len()
            invariant
                j <= record.links@.len(),
                count == record.nodes@.len(),
                record.known(registry@),
                graph.wf(),
                graph.output == record.output,
                graph.changed == 0,
                record.nodes_placed(&graph, registry@, count),
                record.links_placed(&graph, j as int),
            decreases record.links@.len() - j,
        {
            let link = record.links[j];
            let fits = match (graph.kind_of(link.node), graph.kind_of(link.source.node)) {
                (Some(consumer), Some(producer)) => link.input < consumer.input_count()
                    && link.source.output < producer.output_count() && producer.output_kind(
                    link.source.output,
                ).can_feed(consumer.input_kind(link.input)),
                _ => false,
            };
            if !fits {
                proof {
                    assert forall|other: Graph| other.wf() implies !#[trigger] record.describes(
                        &other,
                        registry@,
                    ) by {
                        if record.describes(&other, registry@) {
                            record.lemma_same_nodes(&other, &graph, registry@);
                            assert(record.joins(&other, j as int));
                            assert(other.has(link.node));
                            assert(graph.has(link.node));
                            assert(other.slot_wf(link.node));
                            assert(other.sources(link.node)[link.input as int] == Some(link.source));
                            assert(other.has(link.source.node));
                            assert(graph.has(link.source.node));
                        }
                    }
                }
                return Err(GraphError::Malformed);
            }
            if graph.source_of(link.node, link.input).is_some() {
                proof {
                    assert(record.names_link(link.node, link.input as int, j as int));
                    let i = choose|i: int|
                        #![trigger record.links@[i]]
                        0 <= i < j && record.links@[i].node == link.node && record.links@[i].input
                            == link.input;
                    assert(record.links@[i].node == record.links@[j as int].node);
                }
                return Err(GraphError::Malformed);
            }
            let ghost before = graph;
            proof {
                assert(before.slot_wf(link.node));
            }
            match &mut graph.slots[link.node] {
                Some(slot) => {
                    slot.sources.set(link.input, Some(link.source));
                },
                None => {},
            }
            proof {
                graph.lemma_edited(&before, link.node);
                crate::graph::lemma_wf_edited(&before, &graph, link.node);
                assert forall|k: int| 0 <= k < count implies #[trigger] record.places(
                    &graph,
                    registry@,
                    k,
                ) by {
                    assert(record.places(&before, registry@, k));
                }
                assert forall|id: NodeId| graph.has(id) implies #[trigger] record.names_node(
                    id,
                    count,
                ) by {
                    assert(before.has(id));
                }
                assert forall|i: int| 0 <= i < j + 1 implies #[trigger] record.joins(&graph, i) by {
                    if i < j {
                        assert(record.joins(&before, i));
                        assert(!(record.links@[i].node == link.node && record.links@[i].input
                            == link.input)) by {
                            assert(before.linked(record.links@[i].node, record.links@[i].input as int));
                        }
                    }
                }
                assert forall|id: NodeId, input: int|
                    graph.has(id) && graph.linked(id, input) implies #[trigger] record.names_link(
                    id,
                    input,
                    j + 1,
                ) by {
                    if id == link.node && input == link.input {
                        assert(record.links@[j as int].node == id);
                    } else {
                        assert(before.linked(id, input));
                        assert(record.names_link(id, input, j as int));
                    }
                }
                assert forall|a: int, b: int|
                    #![trigger record.links@[a], record.links@[b]]
                    0 <= a < b < j + 1 implies !(record.links@[a].node == record.links@[b].node
                    && record.links@[a].input == record.links@[b].input) by {
                    if b == j {
                        assert(record.joins(&before, a));
                    }
                }
            }
            j += 1;
        }
        proof {
            assert(record.describes(&graph, registry@));
        }
        Ok(graph)
    }
}

/// Storing a graph and reading it back gives the graph: where a registry
/// holds the catalogue, the record of a well-formed graph is read without
/// refusal, and what is read has the nodes, the connections and the output
/// node of the graph that was stored.
pub proof fn lemma_round_trip(graph: &Graph, record: &GraphRecord, registry: &NodeRegistry, read: &Graph)
    requires
        graph.wf(),
        registry.holds_catalogue(),
        record.describes(graph, catalogue()),
        record.recorded_by_name(graph),
        record.describes(read, registry@),
    ensures
        record.known(registry@),
        record.describable(registry@),
        read@.nodes == graph@.nodes,
        read@.links == graph@.links,
        read@.output == graph@.output,
{
    record.lemma_describes_registered(graph, registry);
    record.lemma_describes_one(graph, read, registry@);
}

/// Whether the pair `a` stands before the pair `b`.
pub open spec fn before(a: (int, int), b: (int, int)) -> bool {
    a.0 < b.0 || (a.0 == b.0 && a.1 < b.1)
}

/// Whether each pair of `keys` stands before the next.
pub open spec fn ascending(keys: Seq<(int, int)>) -> bool {
    forall|i: int, j: int|
        #![trigger keys[i], keys[j]]
        0 <= i < j < keys.len() ==> before(keys[i], keys[j])
}

/// Two ascending lists of the same pairs are one list.
pub proof fn lemma_ascending_one(first: Seq<(int, int)>, second: Seq<(int, int)>)
    requires
        ascending(first),
        ascending(second),
        forall|key: (int, int)| first.contains(key) <==> second.contains(key),
    ensures
        first == second,
    decreases first.len(),
{
    if first.len() == 0 {
        if second.len() > 0 {
            assert(second.contains(second[0]));
        }
        assert(first =~= second);
    } else {
        let top = first.last();
        assert(first.contains(top)) by {
            assert(first[first.len() - 1] == top);
        }
        assert(second.contains(top));
        let other = second.last();
        assert(second.contains(other)) by {
            assert(second[second.len() - 1] == other);
        }
        assert(first.contains(other));
        let at = choose|at: int| 0 <= at < second.len() && second[at] == top;
        let back = choose|back: int| 0 <= back < first.len() && first[back] == other;
        if at < second.len() - 1 {
            assert(before(second[at], second[second.len() - 1]));
        }
        if back < first.len() - 1 {
            assert(before(first[back], first[first.len() - 1]));
        }
        assert(top == other);
        let left = first.drop_last();
        let right = second.drop_last();
        assert(ascending(left)) by {
            assert forall|i: int, j: int|
                #![trigger left[i], left[j]]
                0 <= i < j < left.len() implies before(left[i], left[j]) by {
                assert(before(first[i], first[j]));
            }
        }
        assert(ascending(right)) by {
            assert forall|i: int, j: int|
                #![trigger right[i], right[j]]
                0 <= i < j < right.len() implies before(right[i], right[j]) by {
                assert(before(second[i], second[j]));
            }
        }
        assert forall|key: (int, int)| left.contains(key) <==> right.contains(key) by {
            if left.contains(key) {
                let i = choose|i: int| 0 <= i < left.len() && left[i] == key;
                assert(before(first[i], first[first.len() - 1]));
                assert(first.contains(key)) by {
                    assert(first[i] == key);
                }
                let j = choose|j: int| 0 <= j < second.len() && second[j] == key;
                assert(right[j] == key);
            }
            if right.contains(key) {
                let j = choose|j: int| 0 <= j < right.len() && right[j] == key;
                assert(before(second[j], second[second.len() - 1]));
                assert(second.contains(key)) by {
                    assert(second[j] == key);
                }
                let i = choose|i: int| 0 <= i < first.len() && first[i] == key;
                assert(left[i] == key);
            }
        }
        lemma_ascending_one(left, right);
        assert(first =~= left.push(top));
        assert(second =~= right.push(other));
    }
}

impl GraphRecord {
    /// The ids of the node records, in order.
    pub open spec fn node_keys(&self) -> Seq<(int, int)> {
        Seq::new(self.nodes@.len(), |k: int| (self.nodes@[k].id as int, 0int))
    }

    /// The inputs of the connection records, in order.
    pub open spec fn link_keys(&self) -> Seq<(int, int)> {
        Seq::new(self.links@.len(), |j: int| (self.links@[j].node as int, self.links@[j].input as int))
    }

    /// Whether node record `k` of this record and of `other` say the same.
    pub open spec fn same_node(&self, other: &GraphRecord, k: int) -> bool {
        &&& self.nodes@[k].id == other.nodes@[k].id
        &&& self.nodes@[k].node_type@ == other.nodes@[k].node_type@
        &&& self.nodes@[k].op == other.nodes@[k].op
        &&& self.nodes@[k].channel == other.nodes@[k].channel
        &&& literal_views(self.nodes@[k].defaults@) == literal_views(other.nodes@[k].defaults@)
    }

    /// A graph has one record: two records of one graph, each in the order
    /// of the ids and of the inputs as [`Graph::to_record`] gives it, say the
    /// same, record for record.
    pub proof fn lemma_record_one(&self, other: &GraphRecord, graph: &Graph)
        requires
            self.describes(graph, catalogue()),
            other.describes(graph, catalogue()),
            self.recorded_by_name(graph),
            other.recorded_by_name(graph),
            self.nodes_ascend(self.nodes@.len() as int, graph.slots@.len() as int),
            other.nodes_ascend(other.nodes@.len() as int, graph.slots@.len() as int),
            self.links_ascend(graph.slots@.len() as int, 0),
            other.links_ascend(graph.slots@.len() as int, 0),
        ensures
            self.next_id == other.next_id,
            self.output == other.output,
            self.nodes@.len() == other.nodes@.len(),
            forall|k: int| 0 <= k < self.nodes@.len() ==> #[trigger] self.same_node(other, k),
            self.links@ == other.links@,
    {
        self.lemma_keys(other, graph);
        other.lemma_keys(self, graph);
        let ids = self.node_keys();
        let others = other.node_keys();
        assert(ascending(ids)) by {
            assert forall|i: int, j: int|
                #![trigger ids[i], ids[j]]
                0 <= i < j < ids.len() implies before(ids[i], ids[j]) by {
                assert(self.nodes@[i].id < self.nodes@[j].id);
            }
        }
        assert(ascending(others)) by {
            assert forall|i: int, j: int|
                #![trigger others[i], others[j]]
                0 <= i < j < others.len() implies before(others[i], others[j]) by {
                assert(other.nodes@[i].id < other.nodes@[j].id);
            }
        }
        lemma_ascending_one(ids, others);
        assert forall|k: int| 0 <= k < self.nodes@.len() implies #[trigger] self.same_node(
            other,
            k,
        ) by {
            assert(ids[k] == others[k]);
            assert(self.places(graph, catalogue(), k));
            assert(other.places(graph, catalogue(), k));
            assert(self.named_by_kind(graph, k));
            assert(other.named_by_kind(graph, k));
        }
        let ins = self.link_keys();
        let outs = other.link_keys();
        assert(ascending(ins)) by {
            assert forall|i: int, j: int|
                #![trigger ins[i], ins[j]]
                0 <= i < j < ins.len() implies before(ins[i], ins[j]) by {
                assert(self.links@[i].node < self.links@[j].node || (self.links@[i].node
                    == self.links@[j].node && self.links@[i].input < self.links@[j].input));
            }
        }
        assert(ascending(outs)) by {
            assert forall|i: int, j: int|
                #![trigger outs[i], outs[j]]
                0 <= i < j < outs.len() implies before(outs[i], outs[j]) by {
                assert(other.links@[i].node < other.links@[j].node || (other.links@[i].node
                    == other.links@[j].node && other.links@[i].input < other.links@[j].input));
            }
        }
        lemma_ascending_one(ins, outs);
        assert forall|j: int| 0 <= j < self.links@.len() implies self.links@[j] == other.links@[j] by {
            assert(ins[j] == outs[j]);
            assert(self.joins(graph, j));
            assert(other.joins(graph, j));
        }
        assert(self.links@ =~= other.links@);
    }

    /// What one record of a graph names, another names too.
    proof fn lemma_keys(&self, other: &GraphRecord, graph: &Graph)
        requires
            self.describes(graph, catalogue()),
            other.describes(graph, catalogue()),
        ensures
            forall|key: (int, int)| self.node_keys().contains(key) ==> other.node_keys().contains(key),
            forall|key: (int, int)| self.link_keys().contains(key) ==> other.link_keys().contains(key),
    {
        assert forall|key: (int, int)| self.node_keys().contains(key) implies other.node_keys().contains(
            key,
        ) by {
            let k = choose|k: int| 0 <= k < self.node_keys().len() && self.node_keys()[k] == key;
            assert(self.places(graph, catalogue(), k));
            let id = self.nodes@[k].id;
            assert(other.names_node(id, other.nodes@.len() as int));
            let m = choose|m: int|
                #![trigger other.nodes@[m]]
                0 <= m < other.nodes@.len() && other.nodes@[m].id == id;
            assert(other.node_keys()[m] == key);
        }
        assert forall|key: (int, int)| self.link_keys().contains(key) implies other.link_keys().contains(
            key,
        ) by {
            let j = choose|j: int| 0 <= j < self.link_keys().len() && self.link_keys()[j] == key;
            assert(self.joins(graph, j));
            let link = self.links@[j];
            assert(other.names_link(link.node, link.input as int, other.links@.len() as int));
            let m = choose|m: int|
                #![trigger other.links@[m]]
                0 <= m < other.links@.len() && other.links@[m].node == link.node
                    && other.links@[m].input == link.input as int;
            assert(other.link_keys()[m] == key);
        }
    }
}

} // verus!
