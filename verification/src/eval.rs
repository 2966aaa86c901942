//! Evaluation outside a shader: which nodes have to be evaluated for the
//! value of a node, in which order, and the evaluation along that order.
//!
//! The numbers are the host's: it says what a literal is worth and what a
//! node makes of the values of its inputs. Each node is computed once, when
//! the values of the nodes that feed it are there.

use vstd::prelude::*;
use crate::error::GraphError;
use crate::graph::{Graph, NodeId};
use crate::node::NodeKind;
use crate::value::MathOp;

verus! {

impl Graph {
    /// Whether every node on which `target` depends has a value outside a
    /// shader.
    pub open spec fn evaluable_from(&self, target: NodeId) -> bool {
        forall|id: NodeId| #[trigger] self.depends_on(target, id) ==> self.node(id).kind.evaluable()
    }

    /// Whether the node at place `k` of `order` has a value outside a shader.
    pub open spec fn evaluable_at(&self, order: Seq<NodeId>, k: int) -> bool {
        self.node(order[k]).kind.evaluable()
    }

    /// Whether the node under `id` is the first node of `order` that has no
    /// value outside a shader.
    pub open spec fn first_without_value(&self, order: Seq<NodeId>, id: NodeId) -> bool {
        exists|k: int|
            0 <= k < order.len() && order[k] == id && !#[trigger] self.evaluable_at(order, k)
                && forall|j: int| 0 <= j < k ==> #[trigger] self.evaluable_at(order, j)
    }

    /// The first node of `order` that has no value outside a shader.
    fn first_unevaluable(&self, order: &Vec<NodeId>) -> (r: Option<NodeId>)
        requires
            forall|k: int| 0 <= k < order@.len() ==> self.has(#[trigger] order@[k]),
        ensures
            r.is_none() ==> forall|k: int|
                0 <= k < order@.len() ==> #[trigger] self.evaluable_at(order@, k),
            r.is_some() ==> order@.contains(r.unwrap()) && !self.node(r.unwrap()).kind.evaluable(),
            r.is_some() ==> self.first_without_value(order@, r.unwrap()),
    {
        let mut k: usize = 0;
        while k < order.len()
            invariant
                forall|j: int| 0 <= j < order@.len() ==> self.has(#[trigger] order@[j]),
                k <= order@.len(),
                forall|j: int| 0 <= j < k ==> #[trigger] self.evaluable_at(order@, j),
            decreases order@.len() - k,
        {
            let id = order[k];
            if !self.kind_of(id).unwrap().is_evaluable() {
                assert(!self.evaluable_at(order@, k as int));
                return Some(id);
            }
            assert(self.evaluable_at(order@, k as int));
            k += 1;
        }
        None
    }

    /// The first node without a value, looked for in a dependency order of
    /// `target`, is a node on which `target` depends; there is none if and
    /// only if every such node has a value.
    proof fn lemma_verdict(&self, target: NodeId, order: Seq<NodeId>, verdict: Option<NodeId>)
        requires
            self.is_dependency_order(target, order),
            verdict.is_none() ==> forall|k: int|
                0 <= k < order.len() ==> #[trigger] self.evaluable_at(order, k),
            verdict.is_some() ==> order.contains(verdict.unwrap()) && !self.node(
                verdict.unwrap(),
            ).kind.evaluable(),
        ensures
            verdict.is_none() <==> self.evaluable_from(target),
            verdict.is_some() ==> self.depends_on(target, verdict.unwrap()),
    {
        if verdict.is_some() {
            let id = verdict.unwrap();
            let j = choose|j: int| 0 <= j < order.len() && order[j] == id;
            assert(self.has(order[j]) && self.depends_on(target, order[j]));
        } else {
            assert forall|id: NodeId| #[trigger] self.depends_on(target, id) implies self.node(
                id,
            ).kind.evaluable() by {
                assert(order.contains(id));
                let j = choose|j: int| 0 <= j < order.len() && order[j] == id;
                assert(self.evaluable_at(order, j));
            }
        }
    }

    /// The nodes to evaluate for the value of the node under `target`: the
    /// nodes on which it depends, each once and after the nodes that feed
    /// it, `target` last. Refused with `InvalidSocket` where `target` names
    /// no node, else with `CycleDetected` where a cycle can be reached from
    /// it, else with `NotEvaluable` and the first node of the walk that has
    /// no value outside a shader.
    pub fn evaluation_order(&self, target: NodeId) -> (r: Result<Vec<NodeId>, GraphError>)
        requires
            self.wf(),
        ensures
            r.is_ok() <==> self.has(target) && !self.cyclic_from(target) && self.evaluable_from(
                target,
            ),
            r.is_ok() ==> r.unwrap()@ == self.dependency_walk(target) && self.is_dependency_order(
                target,
                r.unwrap()@,
            ),
            forall|id: NodeId|
                r.is_err() && r.unwrap_err() == GraphError::NotEvaluable(id)
                    ==> #[trigger] self.first_without_value(self.dependency_walk(target), id),
            r.is_err() && r.unwrap_err() == GraphError::InvalidSocket <==> !self.has(target),
            r.is_err() && r.unwrap_err().is_cycle() <==> self.has(target) && self.cyclic_from(
                target,
            ),
            forall|id: NodeId|
                r.is_err() && r.unwrap_err() == GraphError::CycleDetected(id)
                    ==> #[trigger] self.on_cycle_from(target, id),
            r.is_err() && r.unwrap_err() != GraphError::InvalidSocket
                && !r.unwrap_err().is_cycle() ==> exists|id: NodeId|
                r.unwrap_err() == GraphError::NotEvaluable(id) && #[trigger] self.depends_on(
                    target,
                    id,
                ) && !self.node(id).kind.evaluable(),
    {
        let order = match self.dependency_order(target) {
            Ok(order) => order,
            Err(error) => {
                return Err(error);
            },
        };
        let verdict = self.first_unevaluable(&order);
        proof {
            self.lemma_verdict(target, order@, verdict);
        }
        match verdict {
            Some(id) => {
                return Err(GraphError::NotEvaluable(id));
            },
            None => {},
        }
        Ok(order)
    }

    /// The nodes to evaluate for the value of the graph's output node.
    /// Refused with `MissingOutputNode` where the graph names no output node
    /// or does not hold it, and else as [`Graph::evaluation_order`] refuses.
    pub fn evaluation_plan(&self) -> (r: Result<Vec<NodeId>, GraphError>)
        requires
            self.wf(),
        ensures
            r.is_ok() <==> self.has_output() && !self.cyclic_from(self.output.unwrap())
                && self.evaluable_from(self.output.unwrap()),
            r.is_ok() ==> r.unwrap()@ == self.dependency_walk(self.output.unwrap())
                && self.is_dependency_order(self.output.unwrap(), r.unwrap()@),
            forall|id: NodeId|
                r.is_err() && r.unwrap_err() == GraphError::NotEvaluable(id)
                    ==> #[trigger] self.first_without_value(
                    self.dependency_walk(self.output.unwrap()),
                    id,
                ),
            r.is_err() && r.unwrap_err() == GraphError::MissingOutputNode <==> !self.has_output(),
            r.is_err() && r.unwrap_err().is_cycle() <==> self.has_output() && self.cyclic_from(
                self.output.unwrap(),
            ),
            forall|id: NodeId|
                r.is_err() && r.unwrap_err() == GraphError::CycleDetected(id)
                    ==> #[trigger] self.on_cycle_from(self.output.unwrap(), id),
            r.is_err() && r.unwrap_err() != GraphError::MissingOutputNode
                && !r.unwrap_err().is_cycle() ==> exists|id: NodeId|
                r.unwrap_err() == GraphError::NotEvaluable(id) && #[trigger] self.depends_on(
                    self.output.unwrap(),
                    id,
                ) && !self.node(id).kind.evaluable(),
    {
        match self.output {
            Some(root) => if self.contains(root) {
                self.evaluation_order(root)
            } else {
                Err(GraphError::MissingOutputNode)
            },
            None => Err(GraphError::MissingOutputNode),
        }
    }
}

impl Graph {
    /// Whether `args` are what the inputs of the node under `id` read,
    /// where the nodes have the values `values`: the value of the node that
    /// an input is connected to, or what `literal` gives for the input.
    pub open spec fn reads<V, L: Fn(NodeId, usize) -> V>(
        &self,
        literal: L,
        values: Map<NodeId, V>,
        id: NodeId,
        args: Seq<V>,
    ) -> bool {
        &&& args.len() == self.sources(id).len()
        &&& forall|input: int|
            0 <= input < args.len() ==> match self.sources(id)[input] {
                Some(source) => values.contains_key(source.node) && #[trigger] args[input]
                    == values[source.node],
                None => call_ensures(literal, (id, input as usize), #[trigger] args[input]),
            }
    }

    /// Whether the node under `id` has in `values` the value that `apply`
    /// gives for its kind and operator over what its inputs read.
    pub open spec fn valued<
        V,
        L: Fn(NodeId, usize) -> V,
        A: Fn(NodeKind, MathOp, Vec<V>) -> Option<V>,
    >(&self, literal: L, apply: A, values: Map<NodeId, V>, id: NodeId) -> bool {
        values.contains_key(id) && exists|args: Vec<V>|
            #![trigger args@]
            self.reads(literal, values, id, args@) && call_ensures(
                apply,
                (self.node(id).kind, self.node(id).op, args),
                Some(values[id]),
            )
    }

    /// The value of the node under `target`: the nodes on which it depends
    /// are computed in the order of the walk, each once, by `apply` over the
    /// values of the nodes that feed it and, for an input that is not
    /// connected, what `literal` gives. Refused as
    /// [`Graph::evaluation_order`] refuses, and with `TypeMismatch` where
    /// `apply` has no value for a node over what its inputs read, and only
    /// there.
    pub fn evaluate<V: Copy, L: Fn(NodeId, usize) -> V, A: Fn(NodeKind, MathOp, Vec<V>) -> Option<V>>(
        &self,
        target: NodeId,
        literal: L,
        apply: A,
    ) -> (r: Result<V, GraphError>)
        requires
            self.wf(),
            forall|id: NodeId, input: usize| call_requires(literal, (id, input)),
            forall|kind: NodeKind, op: MathOp, args: Vec<V>| call_requires(apply, (kind, op, args)),
        ensures
            r.is_ok() ==> self.has(target) && !self.cyclic_from(target) && self.evaluable_from(
                target,
            ) && exists|values: Map<NodeId, V>|
                #![trigger values[target]]
                r.unwrap() == values[target] && forall|id: NodeId| #[trigger]
                    self.depends_on(target, id) ==> self.valued(literal, apply, values, id),
            r.is_err() && r->Err_0 == GraphError::InvalidSocket <==> !self.has(target),
            r.is_err() && r->Err_0.is_cycle() <==> self.has(target) && self.cyclic_from(
                target,
            ),
            forall|id: NodeId|
                r.is_err() && r->Err_0 == GraphError::CycleDetected(id)
                    ==> #[trigger] self.on_cycle_from(target, id),
            forall|id: NodeId|
                r.is_err() && r->Err_0 == GraphError::NotEvaluable(id)
                    ==> #[trigger] self.first_without_value(self.dependency_walk(target), id),
            r.is_err() && r->Err_0 == GraphError::TypeMismatch ==> self.has(target)
                && !self.cyclic_from(target) && self.evaluable_from(target),
            r.is_err() && r->Err_0 == GraphError::TypeMismatch ==> exists|
                values: Map<NodeId, V>,
                id: NodeId,
                args: Vec<V>,
            |
                #![trigger self.reads(literal, values, id, args@)]
                self.depends_on(target, id) && self.reads(literal, values, id, args@)
                    && call_ensures(
                    apply,
                    (self.node(id).kind, self.node(id).op, args),
                    None::<V>,
                ),
            r.is_err() ==> r->Err_0 == GraphError::InvalidSocket || r->Err_0.is_cycle()
                || r->Err_0 == GraphError::TypeMismatch || exists|id: NodeId|
                r->Err_0 == GraphError::NotEvaluable(id),
    {
        let order = match self.evaluation_order(target) {
            Ok(order) => order,
            Err(error) => {
                return Err(error);
            },
        };
        let mut values: Vec<Option<V>> = Vec::new();
        while values.len() < self.slots.len()
            invariant
                values@.len() <= self.slots@.len(),
                forall|i: int| 0 <= i < values@.len() ==> (#[trigger] values@[i]).is_none(),
            decreases self.slots@.len() - values@.len(),
        {
            values.push(None);
        }
        let ghost mut known: Map<NodeId, V> = Map::empty();
        let mut k: usize = 0;
        while k < order.len()
            invariant
                self.wf(),
                self.has(target),
                !self.cyclic_from(target),
                self.evaluable_from(target),
                self.is_dependency_order(target, order@),
                forall|id: NodeId, input: usize| call_requires(literal, (id, input)),
                forall|kind: NodeKind, op: MathOp, args: Vec<V>|
                    call_requires(apply, (kind, op, args)),
                k <= order@.len(),
                values@.len() == self.slots@.len(),
                forall|j: int|
                    0 <= j < k ==> known.contains_key(#[trigger] order@[j]) && values@[order@[j] as int]
                        == Some(known[order@[j]]),
                forall|id: NodeId| known.contains_key(id) ==> order@.take(k as int).contains(id),
                forall|j: int|
                    0 <= j < k ==> #[trigger] self.valued(literal, apply, known, order@[j]),
            decreases order@.len() - k,
        {
            let id = order[k];
            let node = self.get(id).unwrap();
            let inputs = self.input_count(id);
            let mut args: Vec<V> = Vec::new();
            let mut input: usize = 0;
            while input < inputs
                invariant
                    self.wf(),
                    self.has(id),
                    self.has(target),
                    !self.cyclic_from(target),
                    self.evaluable_from(target),
                    self.is_dependency_order(target, order@),
                    forall|id: NodeId, input: usize| call_requires(literal, (id, input)),
                    k < order@.len(),
                    id == order@[k as int],
                    inputs == self.sources(id).len(),
                    input <= inputs,
                    values@.len() == self.slots@.len(),
                    forall|j: int|
                        0 <= j < k ==> known.contains_key(#[trigger] order@[j])
                            && values@[order@[j] as int] == Some(known[order@[j]]),
                    args@.len() == input,
                    forall|i: int|
                        0 <= i < input ==> match self.sources(id)[i] {
                            Some(source) => known.contains_key(source.node) && #[trigger] args@[i]
                                == known[source.node],
                            None => call_ensures(literal, (id, i as usize), #[trigger] args@[i]),
                        },
                decreases inputs - input,
            {
                let value = match self.source_of(id, input) {
                    Some(source) => {
                        proof {
                            assert(self.linked(id, input as int));
                            assert(self.sources(order@[k as int])[input as int] == Some(source));
                            assert(order@.take(k as int).contains(source.node));
                            let j = choose|j: int|
                                0 <= j < order@.take(k as int).len() && order@.take(k as int)[j]
                                    == source.node;
                            assert(order@[j] == source.node);
                        }
                        match values[source.node] {
                            Some(value) => value,
                            None => {
                                assert(false);
                                return Err(GraphError::InvalidSocket);
                            },
                        }
                    },
                    None => {
                        proof {
                            assert(self.sources(id)[input as int].is_none());
                        }
                        literal(id, input)
                    },
                };
                args.push(value);
                input += 1;
            }
            let ghost read = args;
            let value = match apply(node.kind, node.op, args) {
                Some(value) => value,
                None => {
                    proof {
                        assert(self.depends_on(target, order@[k as int]));
                        assert(self.reads(literal, known, id, read@));
                    }
                    return Err(GraphError::TypeMismatch);
                },
            };
            let ghost before = known;
            values.set(id, Some(value));
            proof {
                known = known.insert(id, value);
                assert(!order@.take(k as int).contains(id)) by {
                    if order@.take(k as int).contains(id) {
                        let j = choose|j: int|
                            0 <= j < order@.take(k as int).len() && order@.take(k as int)[j] == id;
                        assert(order@[j] == order@[k as int]);
                    }
                }
                assert(self.reads(literal, known, id, read@));
                assert(self.valued(literal, apply, known, id));
                assert forall|j: int| 0 <= j < k + 1 implies known.contains_key(#[trigger] order@[j])
                    && values@[order@[j] as int] == Some(known[order@[j]]) by {
                    if j < k {
                        assert(order@[j] != order@[k as int]);
                    }
                }
                assert forall|other: NodeId| known.contains_key(other) implies order@.take(
                    k + 1,
                ).contains(other) by {
                    if other == id {
                        assert(order@.take(k + 1)[k as int] == id);
                    } else {
                        let j = choose|j: int|
                            0 <= j < order@.take(k as int).len() && order@.take(k as int)[j]
                                == other;
                        assert(order@.take(k + 1)[j] == other);
                    }
                }
                assert forall|j: int| 0 <= j < k + 1 implies #[trigger] self.valued(
                    literal,
                    apply,
                    known,
                    order@[j],
                ) by {
                    if j < k {
                        let earlier = order@[j];
                        assert(self.valued(literal, apply, before, earlier));
                        let args = choose|args: Vec<V>|
                            #![trigger args@]
                            self.reads(literal, before, earlier, args@) && call_ensures(
                                apply,
                                (self.node(earlier).kind, self.node(earlier).op, args),
                                Some(before[earlier]),
                            );
                        assert(earlier != id);
                        assert forall|i: int| 0 <= i < args@.len() implies match self.sources(
                            earlier,
                        )[i] {
                            Some(source) => known.contains_key(source.node) && #[trigger] args@[i]
                                == known[source.node],
                            None => call_ensures(literal, (earlier, i as usize), #[trigger] args@[i]),
                        } by {
                            match self.sources(earlier)[i] {
                                Some(source) => {
                                    assert(before.contains_key(source.node));
                                    assert(order@.take(k as int).contains(source.node));
                                },
                                None => {},
                            }
                        }
                        assert(self.reads(literal, known, earlier, args@));
                    }
                }
            }
            k += 1;
        }
        proof {
            assert(order@.take(order@.len() as int) =~= order@);
            assert forall|id: NodeId| #[trigger] self.depends_on(target, id) implies self.valued(
                literal,
                apply,
                known,
                id,
            ) by {
                assert(order@.contains(id));
                let j = choose|j: int| 0 <= j < order@.len() && order@[j] == id;
                assert(self.valued(literal, apply, known, order@[j]));
            }
            assert(order@[order@.len() - 1] == target);
        }
        match values[target] {
            Some(value) => {
                proof {
                    assert(value == known[target]);
                }
                Ok(value)
            },
            None => {
                assert(false);
                Err(GraphError::InvalidSocket)
            },
        }
    }
}

} // verus!
