//! The graph: nodes, the connections between their sockets, and the output
//! node from which evaluation and compilation start.

use vstd::prelude::*;
use crate::error::GraphError;
use crate::node::{Node, NodeKind, NodeView};
use crate::value::{Literal, MathOp, UvChannel};

verus! {

/// The name of a node within its graph. A graph gives each node the next
/// unused number, and gives no number twice.
pub type NodeId = usize;

/// The output socket that an input is connected to.
#[derive(Clone, Copy, Debug, PartialEq, Eq, Hash, Structural)]
pub struct Source {
    pub node: NodeId,
    pub output: usize,
}

/// A node in its graph, with the source of each of its inputs.
#[derive(Debug)]
pub struct Slot {
    pub node: Node,
    pub sources: Vec<Option<Source>>,
}

/// A graph of nodes. The slot of a node that was removed stays empty.
#[derive(Debug)]
pub struct Graph {
    pub slots: Vec<Option<Slot>>,
    pub output: Option<NodeId>,
    pub changed: u64,
}

/// What a graph is, as a value: the number of ids that it has given out, its
/// nodes by id, the source of each connected input by node and input index,
/// its output node and its count of changes.
pub struct GraphView {
    pub next_id: nat,
    pub nodes: Map<NodeId, NodeView>,
    pub links: Map<(NodeId, int), Source>,
    pub output: Option<NodeId>,
    pub changed: nat,
}

/// The source `source`, unless it is an output of node `id`.
pub open spec fn detached(source: Option<Source>, id: NodeId) -> Option<Source> {
    if source.is_some() && source.unwrap().node == id {
        None
    } else {
        source
    }
}

/// The sources `sources`, without those that are outputs of node `id`.
pub open spec fn detached_all(sources: Seq<Option<Source>>, id: NodeId) -> Seq<Option<Source>> {
    Seq::new(sources.len(), |i: int| detached(sources[i], id))
}

impl View for Graph {
    type V = GraphView;

    open spec fn view(&self) -> GraphView {
        GraphView {
            next_id: self.slots@.len(),
            nodes: Map::new(|id: NodeId| self.has(id), |id: NodeId| self.node(id)),
            links: Map::new(
                |at: (NodeId, int)| self.has(at.0) && self.linked(at.0, at.1),
                |at: (NodeId, int)| self.sources(at.0)[at.1].unwrap(),
            ),
            output: self.output,
            changed: self.changed as nat,
        }
    }
}

impl Graph {
    /// Whether the graph holds a node under `id`.
    pub open spec fn has(&self, id: NodeId) -> bool {
        id < self.slots@.len() && self.slots@[id as int].is_some()
    }

    /// The node under `id`.
    pub open spec fn node(&self, id: NodeId) -> NodeView
        recommends
            self.has(id),
    {
        self.slots@[id as int].unwrap().node@
    }

    /// The sources of the inputs of the node under `id`.
    pub open spec fn sources(&self, id: NodeId) -> Seq<Option<Source>>
        recommends
            self.has(id),
    {
        self.slots@[id as int].unwrap().sources@
    }

    /// Whether input `input` of the node under `id` exists and is connected.
    pub open spec fn linked(&self, id: NodeId, input: int) -> bool
        recommends
            self.has(id),
    {
        0 <= input < self.sources(id).len() && self.sources(id)[input].is_some()
    }

    /// Whether an output of `producer` is connected to an input of `consumer`.
    pub open spec fn feeds(&self, producer: NodeId, consumer: NodeId) -> bool {
        self.has(consumer) && exists|input: int|
            #![trigger self.sources(consumer)[input]]
            self.linked(consumer, input) && self.sources(consumer)[input].unwrap().node == producer
    }

    /// Whether the node under `id` is well formed and each of its connections
    /// comes from an output that exists and whose kind feeds the input's kind.
    pub open spec fn slot_wf(&self, id: NodeId) -> bool
        recommends
            self.has(id),
    {
        &&& self.node(id).wf()
        &&& self.sources(id).len() == self.node(id).kind.inputs().len()
        &&& forall|input: int|
            #![trigger self.sources(id)[input]]
            self.linked(id, input) ==> {
                let source = self.sources(id)[input].unwrap();
                &&& self.has(source.node)
                &&& source.output < self.node(source.node).kind.outputs().len()
                &&& self.node(source.node).kind.outputs()[source.output as int].feeds(
                    self.node(id).kind.inputs()[input],
                )
            }
    }

    /// The invariant of a graph: every node in it is well formed, and every
    /// connection joins two sockets that exist and whose kinds agree. The
    /// output may name a node that is gone, and nothing here forbids a cycle.
    pub open spec fn wf(&self) -> bool {
        forall|id: NodeId| self.has(id) ==> #[trigger] self.slot_wf(id)
    }

    /// A graph without nodes, output or changes.
    pub fn new() -> (graph: Graph)
        ensures
            graph.wf(),
            graph.slots@.len() == 0,
            graph.output.is_none(),
            graph.changed == 0,
    {
        Graph { slots: Vec::new(), output: None, changed: 0 }
    }

    /// The number of ids that the graph has given out.
    pub fn capacity(&self) -> (n: usize)
        ensures
            n == self.slots@.len(),
    {
        self.slots.len()
    }

    /// Whether the graph holds a node under `id`.
    pub fn contains(&self, id: NodeId) -> (r: bool)
        ensures
            r == self.has(id),
    {
        id < self.slots.len() && self.slots[id].is_some()
    }

    /// The node under `id`, if there is one.
    pub fn get(&self, id: NodeId) -> (r: Option<&Node>)
        ensures
            r.is_some() == self.has(id),
            r.is_some() ==> r.unwrap()@ == self.node(id),
    {
        if id < self.slots.len() {
            match &self.slots[id] {
                Some(slot) => Some(&slot.node),
                None => None,
            }
        } else {
            None
        }
    }

    /// The kind of the node under `id`, if there is one.
    pub fn kind_of(&self, id: NodeId) -> (r: Option<NodeKind>)
        ensures
            r.is_some() == self.has(id),
            r.is_some() ==> r.unwrap() == self.node(id).kind,
    {
        match self.get(id) {
            Some(node) => Some(node.kind),
            None => None,
        }
    }

    /// The source of input `input` of the node under `id`: `None` when the
    /// node or the input does not exist, or the input is not connected.
    pub fn source_of(&self, id: NodeId, input: usize) -> (r: Option<Source>)
        ensures
            r.is_some() == (self.has(id) && self.linked(id, input as int)),
            r.is_some() ==> r == self.sources(id)[input as int],
    {
        if id < self.slots.len() {
            match &self.slots[id] {
                Some(slot) => if input < slot.sources.len() {
                    slot.sources[input]
                } else {
                    None
                },
                None => None,
            }
        } else {
            None
        }
    }

    /// The number of inputs of the node under `id`; none where there is no
    /// such node.
    pub fn input_count(&self, id: NodeId) -> (n: usize)
        ensures
            self.has(id) ==> n == self.sources(id).len(),
            !self.has(id) ==> n == 0,
    {
        if id < self.slots.len() {
            match &self.slots[id] {
                Some(slot) => slot.sources.len(),
                None => 0,
            }
        } else {
            0
        }
    }

    /// After a change to the one slot `id`, every other node and its sources
    /// are what they were.
    pub proof fn lemma_edited(&self, before: &Graph, id: NodeId)
        requires
            self.slots@.len() == before.slots@.len(),
            before.has(id),
            self.has(id),
            forall|k: int|
                0 <= k < self.slots@.len() && k != id ==> #[trigger] self.slots@[k] == before.slots@[k],
        ensures
            forall|other: NodeId| self.has(other) == before.has(other),
            forall|other: NodeId|
                self.has(other) && other != id ==> #[trigger] self.node(other) == before.node(
                    other,
                ),
            forall|other: NodeId|
                self.has(other) && other != id ==> #[trigger] self.sources(other) == before.sources(
                    other,
                ),
    {
        assert forall|other: NodeId| self.has(other) == before.has(other) by {
            if other < self.slots@.len() && other != id {
                assert(self.slots@[other as int] == before.slots@[other as int]);
            }
        }
        assert forall|other: NodeId| self.has(other) && other != id implies #[trigger] self.node(
            other,
        ) == before.node(other) && #[trigger] self.sources(other) == before.sources(other) by {
            assert(self.slots@[other as int] == before.slots@[other as int]);
        }
    }

    /// The output node, if one is set.
    pub fn output(&self) -> (r: Option<NodeId>)
        ensures
            r == self.output,
    {
        self.output
    }

    /// The count of changes: it grows by one with every change of the graph's
    /// structure, and never otherwise.
    pub fn changed_counter(&self) -> (n: u64)
        ensures
            n == self.changed,
    {
        self.changed
    }

    /// Puts `node` into the graph, unconnected, under the next unused id.
    pub fn add(&mut self, node: Node) -> (id: NodeId)
        requires
            old(self).wf(),
            node.wf(),
            old(self).changed < u64::MAX,
        ensures
            final(self).wf(),
            id == old(self).slots@.len(),
            !old(self).has(id),
            final(self)@ == (GraphView {
                next_id: old(self)@.next_id + 1,
                nodes: old(self)@.nodes.insert(id, node@),
                changed: old(self)@.changed + 1,
                ..old(self)@
            }),
            final(self).slots@.len() == old(self).slots@.len() + 1,
            final(self).has(id),
            final(self).node(id) == node@,
            final(self).sources(id) == Seq::new(node@.kind.inputs().len(), |i: int| None::<Source>),
            forall|other: NodeId|
                old(self).has(other) ==> #[trigger] final(self).has(other) && final(self).node(other)
                    == old(self).node(other) && final(self).sources(other) == old(self).sources(
                    other,
                ),
    {
        let count = node.kind.input_count();
        let mut sources: Vec<Option<Source>> = Vec::new();
        let mut i: usize = 0;
        while i < count
            invariant
                i <= count,
                sources@.len() == i,
                forall|j: int| 0 <= j < i ==> (#[trigger] sources@[j]).is_none(),
            decreases count - i,
        {
            sources.push(None);
            i += 1;
        }
        let id = self.slots.len();
        self.slots.push(Some(Slot { node, sources }));
        self.changed = self.changed + 1;
        proof {
            assert(self.sources(id) =~= Seq::new(
                node@.kind.inputs().len(),
                |i: int| None::<Source>,
            ));
            assert forall|other: NodeId| self.has(other) implies #[trigger] self.slot_wf(other) by {
                if other != id {
                    assert(old(self).slot_wf(other));
                    assert(self.slots@[other as int] == old(self).slots@[other as int]);
                    assert forall|input: int|
                        #![trigger self.sources(other)[input]]
                        self.linked(other, input) implies self.has(
                        self.sources(other)[input].unwrap().node,
                    ) by {
                        assert(old(self).linked(other, input));
                    }
                }
            }
            assert(self@.nodes =~= old(self)@.nodes.insert(id, node@));
            assert(self@.links =~= old(self)@.links);
        }
        id
    }

    /// Names the node from which evaluation and compilation start, or none.
    pub fn set_output(&mut self, output: Option<NodeId>)
        requires
            old(self).wf(),
            old(self).changed < u64::MAX,
        ensures
            final(self).wf(),
            final(self)@ == (GraphView { output, changed: old(self)@.changed + 1, ..old(self)@ }),
            final(self).slots == old(self).slots,
    {
        self.output = output;
        self.changed = self.changed + 1;
        proof {
            assert forall|id: NodeId| self.has(id) implies #[trigger] self.slot_wf(
                id,
            ) by {
                assert(old(self).slot_wf(id));
            }
            assert(self@.nodes =~= old(self)@.nodes);
            assert(self@.links =~= old(self)@.links);
        }
    }

    /// Takes the node under `id` out of the graph, with every connection
    /// that starts or ends at it. Where `id` names no node the graph stays as
    /// it is, count of changes included; the output is left as it was set.
    pub fn remove(&mut self, id: NodeId)
        requires
            old(self).wf(),
            old(self).changed < u64::MAX,
        ensures
            final(self).wf(),
            !old(self).has(id) ==> *final(self) == *old(self),
            old(self).has(id) ==> final(self)@ == (GraphView {
                next_id: old(self)@.next_id,
                nodes: old(self)@.nodes.remove(id),
                links: Map::new(
                    |at: (NodeId, int)|
                        old(self)@.links.contains_key(at) && at.0 != id && old(self)@.links[at].node
                            != id,
                    |at: (NodeId, int)| old(self)@.links[at],
                ),
                output: old(self).output,
                changed: old(self)@.changed + 1,
            }),
            final(self).slots@.len() == old(self).slots@.len(),
    {
        if !self.contains(id) {
            return ;
        }
        self.slots.set(id, None);
        let count = self.slots.len();
        let mut at: usize = 0;
        while at < count
            invariant
                at <= count,
                count == self.slots@.len(),
                count == old(self).slots@.len(),
                old(self).has(id),
                self.output == old(self).output,
                self.changed == old(self).changed,
                self.slots@[id as int].is_none(),
                forall|k: int|
                    0 <= k < count && k != id ==> (#[trigger] self.slots@[k]).is_some() == old(
                        self,
                    ).slots@[k].is_some(),
                forall|k: int|
                    0 <= k < count && (#[trigger] self.slots@[k]).is_some() ==> self.slots@[k].unwrap().node
                        == old(self).slots@[k].unwrap().node,
                forall|k: int|
                    0 <= k < at && (#[trigger] self.slots@[k]).is_some()
                        ==> self.slots@[k].unwrap().sources@ == detached_all(
                        old(self).slots@[k].unwrap().sources@,
                        id,
                    ),
                forall|k: int|
                    at <= k < count && (#[trigger] self.slots@[k]).is_some()
                        ==> self.slots@[k].unwrap().sources@ == old(
                        self,
                    ).slots@[k].unwrap().sources@,
            decreases count - at,
        {
            let ghost before = *self;
            match &mut self.slots[at] {
                Some(slot) => {
                    detach(&mut slot.sources, id);
                },
                None => {},
            }
            assert(forall|k: int| 0 <= k < count && k != at ==> self.slots@[k] == before.slots@[k]);
            at += 1;
        }
        self.changed = self.changed + 1;
        proof {
            assert forall|other: NodeId| self.has(other) implies old(self).has(other) && other
                != id && self.node(other) == old(self).node(other) && #[trigger] self.sources(other)
                == detached_all(old(self).sources(other), id) by {
                assert(self.slots@[other as int].is_some());
            }
            assert forall|other: NodeId| old(self).has(other) && other != id implies self.has(
                other,
            ) by {
                assert(self.slots@[other as int].is_some() == old(self).slots@[
                    other as int
                ].is_some());
            }
            assert forall|other: NodeId| self.has(other) implies #[trigger] self.slot_wf(other) by {
                assert(old(self).slot_wf(other));
                assert(self.sources(other) == detached_all(old(self).sources(other), id));
                assert forall|input: int|
                    #![trigger self.sources(other)[input]]
                    self.linked(other, input) implies {
                    let source = self.sources(other)[input].unwrap();
                    &&& self.has(source.node)
                    &&& source.output < self.node(source.node).kind.outputs().len()
                    &&& self.node(source.node).kind.outputs()[source.output as int].feeds(
                        self.node(other).kind.inputs()[input],
                    )
                } by {
                    assert(old(self).linked(other, input));
                    let source = old(self).sources(other)[input].unwrap();
                    assert(self.sources(other)[input] == Some(source));
                    assert(self.sources(source.node) == detached_all(
                        old(self).sources(source.node),
                        id,
                    ));
                }
            }
            assert(self@.nodes =~= old(self)@.nodes.remove(id));
            let links = Map::new(
                |at: (NodeId, int)|
                    old(self)@.links.contains_key(at) && at.0 != id && old(self)@.links[at].node
                        != id,
                |at: (NodeId, int)| old(self)@.links[at],
            );
            assert forall|at: (NodeId, int)| self@.links.contains_key(at) == links.contains_key(
                at,
            ) by {
                if self.has(at.0) {
                    assert(self.sources(at.0) == detached_all(old(self).sources(at.0), id));
                }
                if old(self).has(at.0) && at.0 != id {
                    assert(self.sources(at.0) == detached_all(old(self).sources(at.0), id));
                }
            }
            assert forall|at: (NodeId, int)| self@.links.contains_key(at) implies self@.links[at]
                == links[at] by {
                assert(self.sources(at.0) == detached_all(old(self).sources(at.0), id));
            }
            assert(self@.links =~= links);
        }
    }

    /// Whether the graph has output `src_output` on a node under `src` and
    /// input `dst_input` on a node under `dst`.
    pub open spec fn sockets_exist(
        &self,
        src: NodeId,
        src_output: usize,
        dst: NodeId,
        dst_input: usize,
    ) -> bool {
        &&& self.has(src)
        &&& src_output < self.node(src).kind.outputs().len()
        &&& self.has(dst)
        &&& dst_input < self.node(dst).kind.inputs().len()
    }

    /// Whether the kind of that output feeds the kind of that input.
    pub open spec fn kinds_agree(
        &self,
        src: NodeId,
        src_output: usize,
        dst: NodeId,
        dst_input: usize,
    ) -> bool
        recommends
            self.sockets_exist(src, src_output, dst, dst_input),
    {
        self.node(src).kind.outputs()[src_output as int].feeds(
            self.node(dst).kind.inputs()[dst_input as int],
        )
    }

    /// Connects output `src_output` of the node under `src` to input
    /// `dst_input` of the node under `dst`, in place of what that input was
    /// connected to. Refused with `InvalidSocket` where a node or a socket
    /// does not exist, else with `TypeMismatch` where the output's kind does
    /// not feed the input's, else with `WouldCreateCycle` where `src` depends
    /// on `dst`. A refusal leaves the graph as it was.
    pub fn connect(&mut self, src: NodeId, src_output: usize, dst: NodeId, dst_input: usize) -> (r:
        Result<(), GraphError>)
        requires
            old(self).wf(),
            old(self).changed < u64::MAX,
        ensures
            final(self).wf(),
            r == Err::<(), GraphError>(GraphError::InvalidSocket) <==> !old(self).sockets_exist(
                src,
                src_output,
                dst,
                dst_input,
            ),
            r == Err::<(), GraphError>(GraphError::TypeMismatch) <==> old(self).sockets_exist(
                src,
                src_output,
                dst,
                dst_input,
            ) && !old(self).kinds_agree(src, src_output, dst, dst_input),
            r == Err::<(), GraphError>(GraphError::WouldCreateCycle) <==> old(self).sockets_exist(
                src,
                src_output,
                dst,
                dst_input,
            ) && old(self).kinds_agree(src, src_output, dst, dst_input) && old(self).depends_on(
                src,
                dst,
            ),
            r.is_ok() <==> old(self).sockets_exist(src, src_output, dst, dst_input) && old(
                self,
            ).kinds_agree(src, src_output, dst, dst_input) && !old(self).depends_on(src, dst),
            r.is_err() ==> final(self)@ == old(self)@,
            r.is_ok() ==> final(self)@ == (GraphView {
                links: old(self)@.links.insert(
                    (dst, dst_input as int),
                    Source { node: src, output: src_output },
                ),
                changed: old(self)@.changed + 1,
                ..old(self)@
            }),
    {
        let src_kind = match self.kind_of(src) {
            Some(kind) => kind,
            None => {
                return Err(GraphError::InvalidSocket);
            },
        };
        let dst_kind = match self.kind_of(dst) {
            Some(kind) => kind,
            None => {
                return Err(GraphError::InvalidSocket);
            },
        };
        if src_output >= src_kind.output_count() || dst_input >= dst_kind.input_count() {
            return Err(GraphError::InvalidSocket);
        }
        if !src_kind.output_kind(src_output).can_feed(dst_kind.input_kind(dst_input)) {
            return Err(GraphError::TypeMismatch);
        }
        if self.depends(src, dst) {
            return Err(GraphError::WouldCreateCycle);
        }
        proof {
            assert(old(self).slot_wf(dst));
        }
        match &mut self.slots[dst] {
            Some(slot) => {
                slot.sources.set(dst_input, Some(Source { node: src, output: src_output }));
            },
            None => {},
        }
        self.changed = self.changed + 1;
        proof {
            self.lemma_edited(old(self), dst);
            lemma_wf_edited(old(self), self, dst);
            assert(self@.nodes =~= old(self)@.nodes);
            assert(self@.links =~= old(self)@.links.insert(
                (dst, dst_input as int),
                Source { node: src, output: src_output },
            ));
        }
        Ok(())
    }

    /// Disconnects input `input` of the node under `dst`. A node or an input
    /// that does not exist is refused with `InvalidSocket`.
    pub fn disconnect(&mut self, dst: NodeId, input: usize) -> (r: Result<(), GraphError>)
        requires
            old(self).wf(),
            old(self).changed < u64::MAX,
        ensures
            final(self).wf(),
            r.is_ok() == (old(self).has(dst) && input < old(self).sources(dst).len()),
            r.is_err() ==> r == Err::<(), GraphError>(GraphError::InvalidSocket) && final(self)@
                == old(self)@,
            r.is_ok() ==> final(self)@ == (GraphView {
                links: old(self)@.links.remove((dst, input as int)),
                changed: old(self)@.changed + 1,
                ..old(self)@
            }),
    {
        if input >= self.input_count(dst) {
            return Err(GraphError::InvalidSocket);
        }
        match &mut self.slots[dst] {
            Some(slot) => {
                slot.sources.set(input, None);
            },
            None => {},
        }
        self.changed = self.changed + 1;
        proof {
            assert(old(self).slot_wf(dst));
            self.lemma_edited(old(self), dst);
            lemma_wf_edited(old(self), self, dst);
            assert(self@.nodes =~= old(self)@.nodes);
            assert(self@.links =~= old(self)@.links.remove((dst, input as int)));
        }
        Ok(())
    }

    /// Sets the operator of the math node under `id`. Refused with
    /// `InvalidSocket` where there is no such node or it has no operator, and
    /// with `TypeMismatch` where its kind does not allow the operator.
    pub fn set_op(&mut self, id: NodeId, op: MathOp) -> (r: Result<(), GraphError>)
        requires
            old(self).wf(),
            old(self).changed < u64::MAX,
        ensures
            final(self).wf(),
            r.is_ok() == (old(self).has(id) && old(self).node(id).kind.allows(op)),
            r == Err::<(), GraphError>(GraphError::TypeMismatch) <==> old(self).has(id) && old(
                self,
            ).node(id).kind.operand().is_some() && !old(self).node(id).kind.allows(op),
            r.is_err() ==> (r == Err::<(), GraphError>(GraphError::TypeMismatch) || r == Err::<
                (),
                GraphError,
            >(GraphError::InvalidSocket)) && final(self)@ == old(self)@,
            r.is_ok() ==> final(self)@ == (GraphView {
                nodes: old(self)@.nodes.insert(id, NodeView { op, ..old(self).node(id) }),
                changed: old(self)@.changed + 1,
                ..old(self)@
            }),
    {
        if !self.contains(id) {
            return Err(GraphError::InvalidSocket);
        }
        let r = match &mut self.slots[id] {
            Some(slot) => slot.node.set_op(op),
            None => Err(GraphError::InvalidSocket),
        };
        if r.is_ok() {
            self.changed = self.changed + 1;
        }
        proof {
            assert(old(self).slot_wf(id));
            self.lemma_edited(old(self), id);
            lemma_wf_edited(old(self), self, id);
            assert(self@.links =~= old(self)@.links);
            if r.is_ok() {
                assert(self@.nodes =~= old(self)@.nodes.insert(
                    id,
                    NodeView { op, ..old(self).node(id) },
                ));
            } else {
                assert(self@.nodes =~= old(self)@.nodes);
            }
        }
        r
    }

    /// Sets the channel of the UV node under `id`. Refused with
    /// `InvalidSocket` where `id` names no UV node.
    pub fn set_channel(&mut self, id: NodeId, channel: UvChannel) -> (r: Result<(), GraphError>)
        requires
            old(self).wf(),
            old(self).changed < u64::MAX,
        ensures
            final(self).wf(),
            r.is_ok() == (old(self).has(id) && old(self).node(id).kind == NodeKind::Uv),
            r.is_err() ==> r == Err::<(), GraphError>(GraphError::InvalidSocket) && final(self)@
                == old(self)@,
            r.is_ok() ==> final(self)@ == (GraphView {
                nodes: old(self)@.nodes.insert(id, NodeView { channel, ..old(self).node(id) }),
                changed: old(self)@.changed + 1,
                ..old(self)@
            }),
    {
        if !self.contains(id) {
            return Err(GraphError::InvalidSocket);
        }
        let r = match &mut self.slots[id] {
            Some(slot) => slot.node.set_channel(channel),
            None => Err(GraphError::InvalidSocket),
        };
        if r.is_ok() {
            self.changed = self.changed + 1;
        }
        proof {
            assert(old(self).slot_wf(id));
            self.lemma_edited(old(self), id);
            lemma_wf_edited(old(self), self, id);
            assert(self@.links =~= old(self)@.links);
            if r.is_ok() {
                assert(self@.nodes =~= old(self)@.nodes.insert(
                    id,
                    NodeView { channel, ..old(self).node(id) },
                ));
            } else {
                assert(self@.nodes =~= old(self)@.nodes);
            }
        }
        r
    }

    /// Sets the literal that input `input` of the node under `id` holds while
    /// nothing is connected to it. Refused with `InvalidSocket` where the
    /// node or the input does not exist, and with `TypeMismatch` where the
    /// literal is of another kind than the input.
    pub fn set_default(&mut self, id: NodeId, input: usize, literal: Literal) -> (r: Result<
        (),
        GraphError,
    >)
        requires
            old(self).wf(),
            old(self).changed < u64::MAX,
        ensures
            final(self).wf(),
            r == Err::<(), GraphError>(GraphError::InvalidSocket) <==> !(old(self).has(id) && input
                < old(self).node(id).defaults.len()),
            r == Err::<(), GraphError>(GraphError::TypeMismatch) <==> old(self).has(id) && input
                < old(self).node(id).defaults.len() && literal.kind != old(self).node(
                id,
            ).kind.inputs()[input as int],
            r.is_err() ==> (r == Err::<(), GraphError>(GraphError::TypeMismatch) || r == Err::<
                (),
                GraphError,
            >(GraphError::InvalidSocket)) && final(self)@ == old(self)@,
            r.is_ok() ==> final(self)@ == (GraphView {
                nodes: old(self)@.nodes.insert(
                    id,
                    NodeView {
                        defaults: old(self).node(id).defaults.update(input as int, literal@),
                        ..old(self).node(id)
                    },
                ),
                changed: old(self)@.changed + 1,
                ..old(self)@
            }),
    {
        if !self.contains(id) {
            return Err(GraphError::InvalidSocket);
        }
        proof {
            assert(old(self).slot_wf(id));
        }
        let r = match &mut self.slots[id] {
            Some(slot) => slot.node.set_default(input, literal),
            None => Err(GraphError::InvalidSocket),
        };
        if r.is_ok() {
            self.changed = self.changed + 1;
        }
        proof {
            self.lemma_edited(old(self), id);
            lemma_wf_edited(old(self), self, id);
            assert(self@.links =~= old(self)@.links);
            if r.is_ok() {
                assert(self@.nodes =~= old(self)@.nodes.insert(
                    id,
                    NodeView {
                        defaults: old(self).node(id).defaults.update(input as int, literal@),
                        ..old(self).node(id)
                    },
                ));
            } else {
                assert(self@.nodes =~= old(self)@.nodes);
            }
        }
        r
    }
}

/// Clears every source that is an output of node `id`.
fn detach(sources: &mut Vec<Option<Source>>, id: NodeId)
    ensures
        final(sources)@ == detached_all(old(sources)@, id),
{
    let count = sources.len();
    let mut i: usize = 0;
    while i < count
        invariant
            i <= count,
            count == sources@.len(),
            count == old(sources)@.len(),
            forall|j: int| 0 <= j < i ==> #[trigger] sources@[j] == detached(old(sources)@[j], id),
            forall|j: int| i <= j < count ==> #[trigger] sources@[j] == old(sources)@[j],
        decreases count - i,
    {
        match sources[i] {
            Some(source) => if source.node == id {
                sources.set(i, None);
            },
            None => {},
        }
        i += 1;
    }
    assert(sources@ =~= detached_all(old(sources)@, id));
}

/// Two well-formed graphs that are equal as values hold the same nodes with
/// the same sources.
pub proof fn lemma_same_view(first: &Graph, second: &Graph)
    requires
        first.wf(),
        second.wf(),
        first@.nodes == second@.nodes,
        first@.links == second@.links,
    ensures
        forall|id: NodeId| #[trigger] first.has(id) == second.has(id),
        forall|id: NodeId| first.has(id) ==> #[trigger] first.node(id) == second.node(id),
        forall|id: NodeId| first.has(id) ==> #[trigger] first.sources(id) == second.sources(id),
{
    assert forall|id: NodeId| #[trigger] first.has(id) == second.has(id) by {
        assert(first@.nodes.contains_key(id) == first.has(id));
        assert(second@.nodes.contains_key(id) == second.has(id));
    }
    assert forall|id: NodeId| first.has(id) implies #[trigger] first.node(id) == second.node(
        id,
    ) by {
        assert(first@.nodes.contains_key(id));
        assert(second@.nodes.contains_key(id));
        assert(first@.nodes[id] == first.node(id));
        assert(second@.nodes[id] == second.node(id));
    }
    assert forall|id: NodeId| first.has(id) implies #[trigger] first.sources(id) == second.sources(
        id,
    ) by {
        assert(first.slot_wf(id));
        assert(second.slot_wf(id));
        assert forall|input: int| 0 <= input < first.sources(id).len() implies first.sources(
            id,
        )[input] == second.sources(id)[input] by {
            let at = (id, input);
            assert(first@.links.contains_key(at) == (first.has(at.0) && first.linked(at.0, at.1)));
            assert(second@.links.contains_key(at) == (second.has(at.0) && second.linked(
                at.0,
                at.1,
            )));
            if first@.links.contains_key(at) {
                assert(first@.links[at] == first.sources(at.0)[at.1].unwrap());
                assert(second@.links[at] == second.sources(at.0)[at.1].unwrap());
            }
        }
        assert(first.sources(id) =~= second.sources(id));
    }
}

/// A graph from which its output node was removed has no output node to
/// start from.
pub proof fn lemma_output_removed(before: &Graph, after: &Graph, id: NodeId)
    requires
        before.output == Some(id),
        after@.nodes == before@.nodes.remove(id),
        after@.output == before@.output,
    ensures
        !(after.output.is_some() && after.has(after.output.unwrap())),
{
    assert(!after@.nodes.contains_key(id));
}

/// A graph stays well formed under a change to one node that keeps the node's
/// kind, leaves it well formed, and gives its inputs no source but those they
/// had and such as exist and feed the input's kind.
pub proof fn lemma_wf_edited(before: &Graph, after: &Graph, id: NodeId)
    requires
        before.wf(),
        after.slots@.len() == before.slots@.len(),
        before.has(id),
        after.has(id),
        forall|k: int|
            0 <= k < after.slots@.len() && k != id ==> #[trigger] after.slots@[k] == before.slots@[k],
        after.node(id).wf(),
        after.node(id).kind == before.node(id).kind,
        after.sources(id).len() == before.sources(id).len(),
        forall|input: int|
            #![trigger after.sources(id)[input]]
            after.linked(id, input) ==> after.sources(id)[input] == before.sources(id)[input] || {
                let source = after.sources(id)[input].unwrap();
                &&& before.has(source.node)
                &&& source.output < before.node(source.node).kind.outputs().len()
                &&& before.node(source.node).kind.outputs()[source.output as int].feeds(
                    before.node(id).kind.inputs()[input],
                )
            },
    ensures
        after.wf(),
{
    after.lemma_edited(before, id);
    assert forall|other: NodeId| after.has(other) implies after.node(other).kind == before.node(
        other,
    ).kind by {}
    assert forall|other: NodeId| after.has(other) implies #[trigger] after.slot_wf(other) by {
        assert(before.slot_wf(other));
        assert forall|input: int|
            #![trigger after.sources(other)[input]]
            after.linked(other, input) implies {
            let source = after.sources(other)[input].unwrap();
            &&& after.has(source.node)
            &&& source.output < after.node(source.node).kind.outputs().len()
            &&& after.node(source.node).kind.outputs()[source.output as int].feeds(
                after.node(other).kind.inputs()[input],
            )
        } by {
            let source = after.sources(other)[input].unwrap();
            if after.sources(other)[input] == before.sources(other)[input] {
                assert(before.linked(other, input));
            }
            assert(before.has(source.node));
            assert(after.node(source.node).kind == before.node(source.node).kind);
        }
    }
}

} // verus!
