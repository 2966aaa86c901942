//! The order in which the nodes that a node depends on must be handled:
//! every node after the nodes that feed it, each node once.

use vstd::prelude::*;
use crate::error::GraphError;
use crate::graph::{Graph, NodeId};
use crate::reach::{lemma_distinct_bounded, unmarked};

verus! {

/// The state of a walk through the dependencies of a node.
pub struct Walk {
    /// The nodes that the walk has entered and not left.
    pub on_path: Vec<bool>,
    /// The nodes that the walk has left.
    pub done: Vec<bool>,
    /// The nodes that the walk has left, in the order in which it left them.
    pub order: Vec<NodeId>,
}

impl Graph {
    /// Whether `order` holds only nodes on which `root` depends, none twice,
    /// and each after every node that feeds it.
    pub open spec fn ordered(&self, root: NodeId, order: Seq<NodeId>) -> bool {
        &&& order.no_duplicates()
        &&& forall|k: int|
            0 <= k < order.len() ==> self.has(#[trigger] order[k]) && self.depends_on(
                root,
                order[k],
            )
        &&& forall|k: int, input: int|
            #![trigger self.sources(order[k])[input]]
            0 <= k < order.len() && self.linked(order[k], input) ==> order.take(k).contains(
                self.sources(order[k])[input].unwrap().node,
            )
    }

    /// Whether `order` is a dependency order of `root`: it holds exactly the
    /// nodes on which `root` depends, each once and after every node that
    /// feeds it, and so ends with `root`.
    pub open spec fn is_dependency_order(&self, root: NodeId, order: Seq<NodeId>) -> bool {
        &&& self.ordered(root, order)
        &&& forall|id: NodeId| self.depends_on(root, id) ==> order.contains(id)
        &&& order.len() > 0
        &&& order.last() == root
    }

    /// The nodes listed by a walk that comes to the node under `id` with
    /// `listed` in its list and `depth` steps to go: a node that is listed
    /// is passed by; any other node is listed after the walk has been, in
    /// the order of the inputs, to every node that feeds it.
    pub open spec fn walked(&self, id: NodeId, listed: Seq<NodeId>, depth: nat) -> Seq<NodeId>
        decreases depth, 0nat, 0nat,
    {
        if listed.contains(id) || depth == 0 {
            listed
        } else {
            self.walked_inputs(id, self.sources(id).len(), listed, (depth - 1) as nat).push(id)
        }
    }

    /// The nodes listed once the walk has been to what feeds the first
    /// `upto` inputs of the node under `id`.
    pub open spec fn walked_inputs(
        &self,
        id: NodeId,
        upto: nat,
        listed: Seq<NodeId>,
        depth: nat,
    ) -> Seq<NodeId>
        decreases depth, 1nat, upto,
    {
        if upto == 0 {
            listed
        } else {
            let before = self.walked_inputs(id, (upto - 1) as nat, listed, depth);
            match self.sources(id)[upto - 1] {
                Some(source) => self.walked(source.node, before, depth),
                None => before,
            }
        }
    }

    /// The nodes on which `root` depends, as a depth-first walk from `root`
    /// lists them: each node once, after the nodes that feed it, the nodes
    /// that feed an earlier input before those that feed a later one.
    pub open spec fn dependency_walk(&self, root: NodeId) -> Seq<NodeId> {
        self.walked(root, Seq::empty(), self.slots@.len())
    }

    /// The invariant of a walk from `root` that stands at the end of `path`.
    pub open spec fn walk_inv(
        &self,
        root: NodeId,
        path: Seq<NodeId>,
        on_path: Seq<bool>,
        done: Seq<bool>,
        order: Seq<NodeId>,
    ) -> bool {
        &&& on_path.len() == self.slots@.len()
        &&& done.len() == self.slots@.len()
        &&& path.no_duplicates()
        &&& forall|k: int|
            0 <= k < path.len() ==> (#[trigger] path[k]) < on_path.len() && on_path[path[k] as int]
        &&& forall|id: NodeId| id < on_path.len() && #[trigger] on_path[id as int] ==> path.contains(id)
        &&& path.len() > 0 ==> self.is_chain(path) && path[0] == root
        &&& self.ordered(root, order)
        &&& forall|k: int|
            0 <= k < order.len() ==> (#[trigger] order[k]) < done.len() && done[order[k] as int]
        &&& forall|id: NodeId| id < done.len() && #[trigger] done[id as int] ==> order.contains(id)
        &&& forall|id: NodeId| id < done.len() && #[trigger] on_path[id as int] ==> !done[id as int]
    }

    /// The walk may enter a node that it has neither entered nor left and
    /// that feeds the node at which it stands.
    proof fn lemma_enter(
        &self,
        root: NodeId,
        path: Seq<NodeId>,
        on_path: Seq<bool>,
        done: Seq<bool>,
        order: Seq<NodeId>,
        id: NodeId,
    )
        requires
            self.wf(),
            self.has(id),
            self.walk_inv(root, path, on_path, done, order),
            !on_path[id as int],
            !done[id as int],
            path.len() == 0 ==> id == root,
            path.len() > 0 ==> self.feeds(id, path.last()),
        ensures
            self.walk_inv(root, path.push(id), on_path.update(id as int, true), done, order),
            self.depends_on(root, id),
            path.push(id).len() <= self.slots@.len(),
    {
        let longer = path.push(id);
        let marks = on_path.update(id as int, true);
        if path.contains(id) {
            let k = choose|k: int| 0 <= k < path.len() && path[k] == id;
            assert(on_path[path[k] as int]);
        }
        assert forall|i: int, j: int| 0 <= i < longer.len() && 0 <= j < longer.len() && i != j implies longer[i]
            != longer[j] by {
            if i < path.len() && j < path.len() {
                assert(path[i] != path[j]);
            } else if i < path.len() {
                assert(path.contains(path[i]));
            } else {
                assert(path.contains(path[j]));
            }
        }
        assert forall|k: int| 0 <= k < longer.len() implies (#[trigger] longer[k]) < marks.len()
            && marks[longer[k] as int] by {
            if k < path.len() {
                assert(longer[k] == path[k]);
            }
        }
        assert forall|other: NodeId| other < marks.len() && #[trigger] marks[other as int] implies longer.contains(
            other,
        ) by {
            if other == id {
                assert(longer[longer.len() - 1] == id);
            } else {
                assert(on_path[other as int]);
                let k = choose|k: int| 0 <= k < path.len() && path[k] == other;
                assert(longer[k] == other);
            }
        }
        if path.len() > 0 {
            self.lemma_chain_push(path, id);
        } else {
            assert(self.is_chain(longer));
        }
        assert(self.is_chain(longer) && longer[0] == root && longer.last() == id);
        lemma_distinct_bounded(longer, self.slots@.len());
    }

    /// The walk may leave the node at which it stands once it has left every
    /// node that feeds it.
    proof fn lemma_leave(
        &self,
        root: NodeId,
        path: Seq<NodeId>,
        on_path: Seq<bool>,
        done: Seq<bool>,
        order: Seq<NodeId>,
        id: NodeId,
    )
        requires
            self.wf(),
            self.has(id),
            self.walk_inv(root, path.push(id), on_path, done, order),
            self.sources_marked(id, done),
        ensures
            self.walk_inv(
                root,
                path,
                on_path.update(id as int, false),
                done.update(id as int, true),
                order.push(id),
            ),
    {
        let longer = path.push(id);
        let marks = on_path.update(id as int, false);
        let left = done.update(id as int, true);
        let listed = order.push(id);
        assert(longer[longer.len() - 1] == id);
        assert(on_path[id as int]);
        assert(!done[id as int]);
        assert forall|i: int, j: int| 0 <= i < path.len() && 0 <= j < path.len() && i != j implies path[i]
            != path[j] by {
            assert(longer[i] == path[i] && longer[j] == path[j]);
        }
        assert forall|k: int| 0 <= k < path.len() implies (#[trigger] path[k]) < marks.len()
            && marks[path[k] as int] by {
            assert(longer[k] == path[k]);
            assert(longer[k] != longer[longer.len() - 1]);
        }
        assert forall|other: NodeId| other < marks.len() && #[trigger] marks[other as int] implies path.contains(
            other,
        ) by {
            assert(on_path[other as int]);
            let k = choose|k: int| 0 <= k < longer.len() && longer[k] == other;
            assert(path[k] == other);
        }
        if path.len() > 0 {
            assert(longer.drop_last() =~= path);
            self.lemma_chain_drop_last(longer);
        }
        if order.contains(id) {
            let k = choose|k: int| 0 <= k < order.len() && order[k] == id;
            assert(done[order[k] as int]);
        }
        assert forall|i: int, j: int| 0 <= i < listed.len() && 0 <= j < listed.len() && i != j implies listed[i]
            != listed[j] by {
            if i < order.len() && j < order.len() {
                assert(order[i] != order[j]);
            } else if i < order.len() {
                assert(order.contains(order[i]));
            } else {
                assert(order.contains(order[j]));
            }
        }
        assert(self.is_chain(longer) && longer[0] == root && longer.last() == id);
        assert forall|k: int| 0 <= k < listed.len() implies self.has(#[trigger] listed[k])
            && self.depends_on(root, listed[k]) by {
            if k < order.len() {
                assert(listed[k] == order[k]);
            }
        }
        assert forall|k: int, input: int|
            #![trigger self.sources(listed[k])[input]]
            0 <= k < listed.len() && self.linked(listed[k], input) implies listed.take(k).contains(
            self.sources(listed[k])[input].unwrap().node,
        ) by {
            if k < order.len() {
                assert(listed[k] == order[k]);
                assert(listed.take(k) =~= order.take(k));
            } else {
                assert(listed.take(k) =~= order);
                let producer = self.sources(id)[input].unwrap().node;
                assert(done[producer as int]);
            }
        }
        assert forall|k: int| 0 <= k < listed.len() implies (#[trigger] listed[k]) < left.len()
            && left[listed[k] as int] by {
            if k < order.len() {
                assert(listed[k] == order[k]);
            }
        }
        assert forall|other: NodeId| other < left.len() && #[trigger] left[other as int] implies listed.contains(
            other,
        ) by {
            if other == id {
                assert(listed[listed.len() - 1] == id);
            } else {
                assert(done[other as int]);
                let k = choose|k: int| 0 <= k < order.len() && order[k] == other;
                assert(listed[k] == other);
            }
        }
    }

    /// Every node on which `root` depends stands in an order that holds
    /// `root` and, with each node, the nodes that feed it.
    pub proof fn lemma_order_complete(&self, root: NodeId, order: Seq<NodeId>, path: Seq<NodeId>)
        requires
            self.ordered(root, order),
            order.contains(root),
            self.is_chain(path),
            path[0] == root,
        ensures
            order.contains(path.last()),
        decreases path.len(),
    {
        if path.len() > 1 {
            self.lemma_chain_drop_last(path);
            self.lemma_order_complete(root, order, path.drop_last());
            let consumer = path.drop_last().last();
            let k = choose|k: int| 0 <= k < order.len() && order[k] == consumer;
            let input = choose|input: int|
                #![trigger self.sources(consumer)[input]]
                self.linked(consumer, input) && self.sources(consumer)[input].unwrap().node
                    == path.last();
            assert(order.take(k).contains(self.sources(order[k])[input].unwrap().node));
            let j = choose|j: int| 0 <= j < order.take(k).len() && order.take(k)[j] == path.last();
            assert(order[j] == path.last());
        }
    }

    /// Along a chain from `root`, every node stands before the node at which
    /// the chain began to count.
    proof fn lemma_order_descends(&self, root: NodeId, order: Seq<NodeId>, path: Seq<NodeId>, k: int)
        requires
            self.ordered(root, order),
            order.contains(root),
            self.is_chain(path),
            path[0] == root,
            0 <= k < path.len() - 1,
        ensures
            exists|a: int, b: int|
                0 <= b < a < order.len() && order[a] == path[k] && order[b] == path.last(),
        decreases path.len(),
    {
        self.lemma_chain_drop_last(path);
        let shorter = path.drop_last();
        let consumer = shorter.last();
        self.lemma_order_complete(root, order, shorter);
        let c = choose|c: int| 0 <= c < order.len() && order[c] == consumer;
        let input = choose|input: int|
            #![trigger self.sources(consumer)[input]]
            self.linked(consumer, input) && self.sources(consumer)[input].unwrap().node
                == path.last();
        assert(order.take(c).contains(self.sources(order[c])[input].unwrap().node));
        let b = choose|b: int| 0 <= b < order.take(c).len() && order.take(c)[b] == path.last();
        assert(order[b] == path.last());
        if k == path.len() - 2 {
            assert(order[c] == path[k]);
        } else {
            self.lemma_order_descends(root, order, shorter, k);
            let (a, m) = choose|a: int, m: int|
                0 <= m < a < order.len() && order[a] == shorter[k] && order[m] == shorter.last();
            assert(m == c);
            assert(order[a] == path[k]);
        }
    }

    /// Where `root` has a dependency order, no cycle can be reached from it.
    pub proof fn lemma_order_acyclic(&self, root: NodeId, order: Seq<NodeId>)
        requires
            self.is_dependency_order(root, order),
        ensures
            !self.cyclic_from(root),
    {
        if self.cyclic_from(root) {
            let path = choose|path: Seq<NodeId>|
                #![trigger self.is_chain(path)]
                self.is_chain(path) && path[0] == root && path.drop_last().contains(path.last());
            let k = choose|k: int| 0 <= k < path.drop_last().len() && path.drop_last()[k] == path.last();
            assert(order.contains(root)) by {
                assert(order[order.len() - 1] == root);
            }
            self.lemma_order_descends(root, order, path, k);
            let (a, b) = choose|a: int, b: int|
                0 <= b < a < order.len() && order[a] == path[k] && order[b] == path.last();
            assert(path[k] == path.last());
        }
    }

    /// Walks through the node under `id` and what it depends on, and lists
    /// each node as it leaves it. Where it comes to a node that it has
    /// entered and not left, it stops and gives that node.
    fn visit(
        &self,
        id: NodeId,
        walk: &mut Walk,
        Ghost(root): Ghost<NodeId>,
        Ghost(path): Ghost<Seq<NodeId>>,
    ) -> (met: Option<NodeId>)
        requires
            self.wf(),
            self.has(id),
            self.walk_inv(root, path, old(walk).on_path@, old(walk).done@, old(walk).order@),
            path.len() == 0 ==> id == root,
            path.len() > 0 ==> self.feeds(id, path.last()),
        ensures
            met.is_none() ==> {
                &&& self.walk_inv(root, path, final(walk).on_path@, final(walk).done@, final(walk).order@)
                &&& final(walk).done@[id as int]
                &&& final(walk).order@.len() >= old(walk).order@.len()
                &&& final(walk).order@.take(old(walk).order@.len() as int) == old(walk).order@
                &&& !old(walk).done@[id as int] ==> final(walk).order@.last() == id
                    && final(walk).order@.len() > old(walk).order@.len()
                &&& final(walk).order@ == self.walked(
                    id,
                    old(walk).order@,
                    (self.slots@.len() - path.len()) as nat,
                )
            },
            met.is_some() ==> self.on_cycle_from(root, met.unwrap()),
        decreases self.slots@.len() - path.len(),
    {
        if walk.done[id] {
            assert(walk.order@.take(walk.order@.len() as int) =~= walk.order@);
            assert(walk.order@.contains(id));
            return None;
        }
        if walk.on_path[id] {
            proof {
                assert(path.contains(id));
                self.lemma_chain_push(path, id);
                assert(path.push(id).drop_last() =~= path);
            }
            return Some(id);
        }
        proof {
            self.lemma_enter(root, path, walk.on_path@, walk.done@, walk.order@, id);
        }
        walk.on_path.set(id, true);
        let ghost longer = path.push(id);
        let ghost depth = (self.slots@.len() - longer.len()) as nat;
        proof {
            if old(walk).order@.contains(id) {
                let k = choose|k: int| 0 <= k < old(walk).order@.len() && old(walk).order@[k] == id;
                assert(old(walk).done@[old(walk).order@[k] as int]);
            }
        }
        let inputs = self.input_count(id);
        let mut input: usize = 0;
        while input < inputs
            invariant
                self.wf(),
                self.has(id),
                inputs == self.sources(id).len(),
                input <= inputs,
                longer == path.push(id),
                longer.len() <= self.slots@.len(),
                self.walk_inv(root, longer, walk.on_path@, walk.done@, walk.order@),
                walk.order@.len() >= old(walk).order@.len(),
                walk.order@.take(old(walk).order@.len() as int) == old(walk).order@,
                forall|j: int|
                    #![trigger self.sources(id)[j]]
                    0 <= j < input && self.linked(id, j) ==> walk.done@[self.sources(
                        id,
                    )[j].unwrap().node as int],
                depth == self.slots@.len() - longer.len(),
                walk.order@ == self.walked_inputs(id, input as nat, old(walk).order@, depth),
            decreases inputs - input,
        {
            match self.source_of(id, input) {
                Some(source) => {
                    let ghost before = walk.order@;
                    let ghost left = walk.done@;
                    proof {
                        assert(self.slot_wf(id));
                        assert(self.sources(id)[input as int] == Some(source));
                        assert(self.linked(id, input as int));
                        assert(self.feeds(source.node, id));
                        assert(longer.last() == id);
                    }
                    let met = self.visit(source.node, walk, Ghost(root), Ghost(longer));
                    if met.is_some() {
                        return met;
                    }
                    proof {
                        assert(walk.order@.take(old(walk).order@.len() as int) =~= before.take(
                            old(walk).order@.len() as int,
                        ));
                        assert forall|j: int|
                            #![trigger self.sources(id)[j]]
                            0 <= j < input + 1 && self.linked(id, j) implies walk.done@[self.sources(
                            id,
                        )[j].unwrap().node as int] by {
                            let producer = self.sources(id)[j].unwrap().node;
                            if j < input {
                                assert(left[producer as int]);
                                let k = choose|k: int| 0 <= k < before.len() && before[k] == producer;
                                assert(walk.order@.take(before.len() as int)[k] == producer);
                                assert(walk.order@[k] == producer);
                            }
                        }
                    }
                },
                None => {
                    proof {
                        assert(self.sources(id)[input as int].is_none());
                    }
                },
            }
            input += 1;
        }
        proof {
            assert(self.slot_wf(id));
            assert(self.sources_marked(id, walk.done@));
            self.lemma_leave(root, path, walk.on_path@, walk.done@, walk.order@, id);
            assert(walk.order@.push(id).take(old(walk).order@.len() as int) =~= walk.order@.take(
                old(walk).order@.len() as int,
            ));
        }
        walk.on_path.set(id, false);
        walk.done.set(id, true);
        walk.order.push(id);
        None
    }

    /// The nodes on which `root` depends, as a depth-first walk from `root`
    /// lists them: each once and after every node that feeds it, `root`
    /// last. Refused with `InvalidSocket` where `root` names no node, and
    /// with `CycleDetected` where a cycle can be reached from `root`: the
    /// failure names the node to which the walk came back.
    pub fn dependency_order(&self, root: NodeId) -> (r: Result<Vec<NodeId>, GraphError>)
        requires
            self.wf(),
        ensures
            r.is_ok() <==> self.has(root) && !self.cyclic_from(root),
            r.is_ok() ==> self.is_dependency_order(root, r.unwrap()@),
            r == Err::<Vec<NodeId>, GraphError>(GraphError::InvalidSocket) <==> !self.has(root),
            r.is_err() && r.unwrap_err().is_cycle() <==> self.has(root) && self.cyclic_from(root),
            forall|id: NodeId|
                r.is_err() && r.unwrap_err() == GraphError::CycleDetected(id)
                    ==> #[trigger] self.on_cycle_from(root, id),
            r.is_ok() ==> r.unwrap()@ == self.dependency_walk(root),
    {
        if !self.contains(root) {
            return Err(GraphError::InvalidSocket);
        }
        let count = self.slots.len();
        let mut walk = Walk { on_path: unmarked(count), done: unmarked(count), order: Vec::new() };
        let ghost path: Seq<NodeId> = Seq::empty();
        match self.visit(root, &mut walk, Ghost(root), Ghost(path)) {
            Some(id) => {
                proof {
                    self.lemma_on_cycle(root, id);
                }
                return Err(GraphError::CycleDetected(id));
            },
            None => {},
        }
        let order = walk.order;
        proof {
            assert(order@.contains(root)) by {
                assert(order@[order@.len() - 1] == root);
            }
            assert forall|id: NodeId| self.depends_on(root, id) implies order@.contains(id) by {
                let chain = choose|chain: Seq<NodeId>|
                    #![trigger self.is_chain(chain)]
                    self.is_chain(chain) && chain[0] == root && chain.last() == id;
                self.lemma_order_complete(root, order@, chain);
            }
            self.lemma_order_acyclic(root, order@);
        }
        Ok(order)
    }
}

} // verus!
