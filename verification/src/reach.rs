//! Dependencies between nodes: chains of connections, which nodes a node
//! depends on, and whether a node depends on itself.

use vstd::prelude::*;
use crate::graph::{Graph, NodeId, Source};

verus! {

impl Graph {
    /// Whether `path` is a chain of dependencies: it starts at a node of the
    /// graph, and each further node feeds the one before it.
    pub open spec fn is_chain(&self, path: Seq<NodeId>) -> bool {
        &&& path.len() > 0
        &&& self.has(path[0])
        &&& forall|k: int| 1 <= k < path.len() ==> #[trigger] self.step(path, k)
    }

    /// Whether node `k` of `path` feeds the node before it.
    pub open spec fn step(&self, path: Seq<NodeId>, k: int) -> bool {
        self.feeds(path[k], path[k - 1])
    }

    /// Whether `consumer` depends on `producer`: a chain of dependencies
    /// leads from the one to the other. Every node depends on itself in this
    /// sense, by the chain of length one.
    pub open spec fn depends_on(&self, consumer: NodeId, producer: NodeId) -> bool {
        exists|path: Seq<NodeId>|
            #![trigger self.is_chain(path)]
            self.is_chain(path) && path[0] == consumer && path.last() == producer
    }

    /// Whether a cycle can be reached from `root`: a chain of dependencies
    /// that starts at `root` comes back to a node that it has passed.
    pub open spec fn cyclic_from(&self, root: NodeId) -> bool {
        exists|path: Seq<NodeId>|
            #![trigger self.is_chain(path)]
            self.is_chain(path) && path[0] == root && path.drop_last().contains(path.last())
    }

    /// Whether a chain of dependencies from `root` comes back to the node
    /// under `id`, which it has passed.
    pub open spec fn on_cycle_from(&self, root: NodeId, id: NodeId) -> bool {
        exists|path: Seq<NodeId>|
            #![trigger self.is_chain(path)]
            self.is_chain(path) && path[0] == root && path.last() == id
                && path.drop_last().contains(id)
    }

    /// A cycle at a node is a cycle.
    pub proof fn lemma_on_cycle(&self, root: NodeId, id: NodeId)
        requires
            self.on_cycle_from(root, id),
        ensures
            self.cyclic_from(root),
    {
        let path = choose|path: Seq<NodeId>|
            #![trigger self.is_chain(path)]
            self.is_chain(path) && path[0] == root && path.last() == id
                && path.drop_last().contains(id);
        assert(self.is_chain(path) && path.drop_last().contains(path.last()));
    }

    /// A cycle that can be reached from a node can be reached from every
    /// node that the node feeds.
    pub proof fn lemma_cycle_behind(&self, consumer: NodeId, producer: NodeId, id: NodeId)
        requires
            self.feeds(producer, consumer),
            self.on_cycle_from(producer, id),
        ensures
            self.on_cycle_from(consumer, id),
    {
        let path = choose|path: Seq<NodeId>|
            #![trigger self.is_chain(path)]
            self.is_chain(path) && path[0] == producer && path.last() == id
                && path.drop_last().contains(id);
        let k = choose|k: int| 0 <= k < path.drop_last().len() && path.drop_last()[k] == id;
        let longer = seq![consumer] + path;
        assert forall|j: int| 1 <= j < longer.len() implies #[trigger] self.step(longer, j) by {
            if j > 1 {
                assert(self.step(path, j - 1));
            }
        }
        assert(self.is_chain(longer));
        assert(longer.drop_last()[k + 1] == id);
    }

    /// Whether every source of the node under `id` is marked in `marks`.
    pub open spec fn sources_marked(&self, id: NodeId, marks: Seq<bool>) -> bool {
        forall|input: int|
            #![trigger self.sources(id)[input]]
            self.linked(id, input) ==> {
                let producer = self.sources(id)[input].unwrap().node;
                producer < marks.len() && marks[producer as int]
            }
    }

    /// A chain that is extended by a node that feeds its last node is a chain.
    pub proof fn lemma_chain_push(&self, path: Seq<NodeId>, producer: NodeId)
        requires
            self.is_chain(path),
            self.feeds(producer, path.last()),
        ensures
            self.is_chain(path.push(producer)),
            path.push(producer)[0] == path[0],
            path.push(producer).last() == producer,
    {
        let longer = path.push(producer);
        assert forall|k: int| 1 <= k < longer.len() implies #[trigger] self.step(longer, k) by {
            if k < path.len() {
                assert(self.step(path, k));
            }
        }
    }

    /// A chain without its last node is a chain, if a node is left.
    pub proof fn lemma_chain_drop_last(&self, path: Seq<NodeId>)
        requires
            self.is_chain(path),
            path.len() > 1,
        ensures
            self.is_chain(path.drop_last()),
            path.drop_last()[0] == path[0],
            self.feeds(path.last(), path.drop_last().last()),
    {
        let shorter = path.drop_last();
        assert forall|k: int| 1 <= k < shorter.len() implies #[trigger] self.step(shorter, k) by {
            assert(self.step(path, k));
        }
        assert(self.step(path, path.len() - 1));
    }

    /// In a well-formed graph every node of a chain is a node of the graph.
    pub proof fn lemma_chain_present(&self, path: Seq<NodeId>, k: int)
        requires
            self.wf(),
            self.is_chain(path),
            0 <= k < path.len(),
        ensures
            self.has(path[k]),
        decreases k,
    {
        if k > 0 {
            self.lemma_chain_present(path, k - 1);
            assert(self.step(path, k));
            assert(self.slot_wf(path[k - 1]));
        }
    }

    /// What a node depends on, it depends on through each of its consumers.
    pub proof fn lemma_depends_step(&self, start: NodeId, consumer: NodeId, producer: NodeId)
        requires
            self.depends_on(start, consumer),
            self.feeds(producer, consumer),
        ensures
            self.depends_on(start, producer),
    {
        let path = choose|path: Seq<NodeId>|
            #![trigger self.is_chain(path)]
            self.is_chain(path) && path[0] == start && path.last() == consumer;
        self.lemma_chain_push(path, producer);
    }

    /// Every node of the graph depends on itself.
    pub proof fn lemma_depends_self(&self, id: NodeId)
        requires
            self.has(id),
        ensures
            self.depends_on(id, id),
    {
        assert(self.is_chain(seq![id]));
    }

    /// Where a set of marks holds the start of a chain and, with each marked
    /// node, that node's sources, it holds the end of the chain.
    pub proof fn lemma_marks_closed(&self, marks: Seq<bool>, path: Seq<NodeId>)
        requires
            self.wf(),
            marks.len() == self.slots@.len(),
            self.is_chain(path),
            marks[path[0] as int],
            forall|id: NodeId|
                id < marks.len() && marks[id as int] ==> #[trigger] self.sources_marked(id, marks),
        ensures
            path.last() < marks.len(),
            marks[path.last() as int],
        decreases path.len(),
    {
        if path.len() > 1 {
            self.lemma_chain_drop_last(path);
            self.lemma_marks_closed(marks, path.drop_last());
            let consumer = path.drop_last().last();
            assert(self.sources_marked(consumer, marks));
        }
    }

    /// A connection from a node to a node on which it depends makes a
    /// cycle: where `src` depends on `dst`, every graph that keeps the nodes
    /// and connections of this one and has `src` feed `dst` has a cycle
    /// that can be reached from `dst`.
    pub proof fn lemma_would_create_cycle(&self, after: &Graph, src: NodeId, dst: NodeId)
        requires
            self.depends_on(src, dst),
            forall|id: NodeId| self.has(id) ==> after.has(id),
            forall|producer: NodeId, consumer: NodeId|
                self.feeds(producer, consumer) ==> #[trigger] after.feeds(producer, consumer),
            after.feeds(src, dst),
        ensures
            after.cyclic_from(dst),
    {
        let path = choose|path: Seq<NodeId>|
            #![trigger self.is_chain(path)]
            self.is_chain(path) && path[0] == src && path.last() == dst;
        let longer = seq![dst] + path;
        assert forall|k: int| 1 <= k < longer.len() implies #[trigger] after.step(longer, k) by {
            if k > 1 {
                assert(self.step(path, k - 1));
                assert(after.feeds(path[k - 1], path[k - 2]));
            }
        }
        assert(after.is_chain(longer));
        assert(longer.drop_last()[0] == longer.last());
        assert(longer.drop_last().contains(longer.last()));
    }

    /// What a node depends on, it depends on with all that this depends on.
    pub proof fn lemma_depends_trans(&self, a: NodeId, b: NodeId, c: NodeId)
        requires
            self.depends_on(a, b),
            self.depends_on(b, c),
        ensures
            self.depends_on(a, c),
    {
        let first = choose|path: Seq<NodeId>|
            #![trigger self.is_chain(path)]
            self.is_chain(path) && path[0] == a && path.last() == b;
        let second = choose|path: Seq<NodeId>|
            #![trigger self.is_chain(path)]
            self.is_chain(path) && path[0] == b && path.last() == c;
        let rest = second.subrange(1, second.len() as int);
        let joined = first + rest;
        assert forall|k: int| 1 <= k < joined.len() implies #[trigger] self.step(joined, k) by {
            if k < first.len() {
                assert(self.step(first, k));
            } else {
                assert(self.step(second, k - first.len() + 1));
            }
        }
        assert(self.is_chain(joined));
    }

    /// A node that feeds a node on which it depends is on a cycle.
    pub proof fn lemma_cycle_closed(&self, consumer: NodeId, producer: NodeId)
        requires
            self.feeds(producer, consumer),
            self.depends_on(producer, consumer),
        ensures
            self.cyclic_from(consumer),
    {
        let path = choose|path: Seq<NodeId>|
            #![trigger self.is_chain(path)]
            self.is_chain(path) && path[0] == producer && path.last() == consumer;
        let longer = seq![consumer] + path;
        assert forall|k: int| 1 <= k < longer.len() implies #[trigger] self.step(longer, k) by {
            if k > 1 {
                assert(self.step(path, k - 1));
            }
        }
        assert(self.is_chain(longer));
        assert(longer.drop_last()[0] == longer.last());
        assert(longer.drop_last().contains(longer.last()));
    }

    /// Whether `after` is this graph with one more connection at most, from
    /// `src` to `dst`: the two hold the same nodes, and whatever feeds a
    /// node in `after` feeds it here, unless it is `src` that feeds `dst`.
    pub open spec fn extended_by(&self, after: &Graph, src: NodeId, dst: NodeId) -> bool {
        &&& forall|id: NodeId| self.has(id) == #[trigger] after.has(id)
        &&& forall|producer: NodeId, consumer: NodeId| #[trigger]
            after.feeds(producer, consumer) ==> self.feeds(producer, consumer) || (producer == src
                && consumer == dst)
    }

    /// A chain of the extended graph is a chain of this graph, or it passes
    /// through the new connection: then its start depends here on `dst`, and
    /// `src` depends here on its end.
    pub proof fn lemma_chain_split(&self, after: &Graph, src: NodeId, dst: NodeId, path: Seq<NodeId>)
        requires
            self.extended_by(after, src, dst),
            self.has(src),
            after.is_chain(path),
        ensures
            self.depends_on(path[0], path.last()) || (self.depends_on(path[0], dst)
                && self.depends_on(src, path.last())),
        decreases path.len(),
    {
        if path.len() == 1 {
            self.lemma_depends_self(path[0]);
        } else {
            after.lemma_chain_drop_last(path);
            let shorter = path.drop_last();
            self.lemma_chain_split(after, src, dst, shorter);
            let consumer = shorter.last();
            let producer = path.last();
            assert(after.feeds(producer, consumer));
            if self.feeds(producer, consumer) {
                if self.depends_on(path[0], consumer) {
                    self.lemma_depends_step(path[0], consumer, producer);
                } else {
                    self.lemma_depends_step(src, consumer, producer);
                }
            } else {
                self.lemma_depends_self(src);
            }
        }
    }

    /// A connection from a node to a node that does not depend on it makes
    /// no cycle: where this graph has no cycle and `src` does not depend on
    /// `dst`, the graph extended by a connection from `src` to `dst` has no
    /// cycle.
    pub proof fn lemma_extension_acyclic(&self, after: &Graph, src: NodeId, dst: NodeId, root: NodeId)
        requires
            after.wf(),
            self.extended_by(after, src, dst),
            self.has(src),
            !self.depends_on(src, dst),
            forall|id: NodeId| !#[trigger] self.cyclic_from(id),
        ensures
            !after.cyclic_from(root),
    {
        if after.cyclic_from(root) {
            let path = choose|path: Seq<NodeId>|
                #![trigger after.is_chain(path)]
                after.is_chain(path) && path[0] == root && path.drop_last().contains(path.last());
            let k = choose|k: int| 0 <= k < path.drop_last().len() && path.drop_last()[k] == path.last();
            let start = path[k];
            let tail = path.subrange(k + 1, path.len() as int);
            after.lemma_chain_present(path, k + 1);
            assert forall|j: int| 1 <= j < tail.len() implies #[trigger] after.step(tail, j) by {
                assert(after.step(path, j + k + 1));
            }
            assert(after.is_chain(tail));
            assert(after.step(path, k + 1));
            assert(after.feeds(tail[0], start));
            assert(tail.last() == start);
            self.lemma_chain_split(after, src, dst, tail);
            if self.feeds(tail[0], start) {
                if self.depends_on(tail[0], start) {
                    self.lemma_cycle_closed(start, tail[0]);
                } else {
                    self.lemma_depends_step(src, start, tail[0]);
                    self.lemma_depends_trans(src, tail[0], dst);
                }
            }
        }
    }

    /// The law of `connect`: a graph without cycles has none after a
    /// connection that was accepted.
    pub proof fn lemma_connect_keeps_acyclic(
        &self,
        after: &Graph,
        src: NodeId,
        src_output: usize,
        dst: NodeId,
        dst_input: usize,
        root: NodeId,
    )
        requires
            self.wf(),
            after.wf(),
            self.sockets_exist(src, src_output, dst, dst_input),
            !self.depends_on(src, dst),
            after@.nodes == self@.nodes,
            after@.links == self@.links.insert(
                (dst, dst_input as int),
                Source { node: src, output: src_output },
            ),
            forall|id: NodeId| !#[trigger] self.cyclic_from(id),
        ensures
            !after.cyclic_from(root),
    {
        assert forall|id: NodeId| self.has(id) == #[trigger] after.has(id) by {
            assert(self@.nodes.contains_key(id) == self.has(id));
            assert(after@.nodes.contains_key(id) == after.has(id));
        }
        assert forall|producer: NodeId, consumer: NodeId| #[trigger]
            after.feeds(producer, consumer) implies self.feeds(producer, consumer) || (producer
            == src && consumer == dst) by {
            let input = choose|input: int|
                #![trigger after.sources(consumer)[input]]
                after.linked(consumer, input) && after.sources(consumer)[input].unwrap().node
                    == producer;
            let at = (consumer, input);
            assert(after@.links.contains_key(at));
            assert(after@.links[at] == after.sources(consumer)[input].unwrap());
            if at != (dst, dst_input as int) {
                assert(self@.links.contains_key(at));
                assert(self@.links[at] == self.sources(consumer)[input].unwrap());
                assert(self.linked(consumer, input));
            }
        }
        self.lemma_extension_acyclic(after, src, dst, root);
    }

    /// The nodes on which `start` depends, as a mark for each id of the graph.
    pub fn dependencies(&self, start: NodeId) -> (marks: Vec<bool>)
        requires
            self.wf(),
            self.has(start),
        ensures
            marks@.len() == self.slots@.len(),
            forall|id: NodeId|
                id < marks@.len() ==> #[trigger] marks@[id as int] == self.depends_on(start, id),
    {
        let count = self.slots.len();
        let mut marks = unmarked(count);
        let mut work: Vec<NodeId> = Vec::new();
        marks.set(start, true);
        work.push(start);
        let ghost mut seen: Seq<NodeId> = seq![start];
        proof {
            self.lemma_depends_self(start);
            assert forall|id: NodeId|
                id < count && marks@[id as int] && !work@.contains(id) implies #[trigger] self.sources_marked(
                id,
                marks@,
            ) by {
                assert(work@[0] == start);
            }
            assert(seen[0] == start);
            lemma_distinct_bounded(seen, count as nat);
        }
        while work.len() > 0
            invariant
                self.wf(),
                self.has(start),
                count == self.slots@.len(),
                marks@.len() == count,
                marks@[start as int],
                forall|k: int| 0 <= k < work@.len() ==> (#[trigger] work@[k]) < count && marks@[work@[k] as int],
                forall|id: NodeId|
                    id < count && #[trigger] marks@[id as int] ==> self.has(id) && self.depends_on(
                        start,
                        id,
                    ),
                forall|id: NodeId|
                    id < count && marks@[id as int] && !work@.contains(id)
                        ==> #[trigger] self.sources_marked(id, marks@),
                seen.no_duplicates(),
                seen.len() <= count,
                forall|k: int|
                    0 <= k < seen.len() ==> (#[trigger] seen[k]) < count && marks@[seen[k] as int],
                forall|id: NodeId| id < count && #[trigger] marks@[id as int] ==> seen.contains(id),
            decreases 2 * (count - seen.len()) + work@.len(),
        {
            let ghost work_before = work@;
            let ghost seen_before = seen;
            let current = work.pop().unwrap();
            assert(current == work_before[work_before.len() - 1]);
            proof {
                assert forall|id: NodeId|
                    id < count && marks@[id as int] && !work@.contains(id) && id
                        != current implies #[trigger] self.sources_marked(id, marks@) by {
                    if work_before.contains(id) {
                        let k = choose|k: int| 0 <= k < work_before.len() && work_before[k] == id;
                        assert(work@[k] == id);
                    }
                }
            }
            let inputs = self.input_count(current);
            let mut input: usize = 0;
            while input < inputs
                invariant
                    self.wf(),
                    self.has(start),
                    self.has(current),
                    current < count,
                    marks@[current as int],
                    count == self.slots@.len(),
                    inputs == self.sources(current).len(),
                    input <= inputs,
                    marks@.len() == count,
                    marks@[start as int],
                    forall|k: int|
                        0 <= k < work@.len() ==> (#[trigger] work@[k]) < count && marks@[work@[k] as int],
                    forall|id: NodeId|
                        id < count && #[trigger] marks@[id as int] ==> self.has(id)
                            && self.depends_on(start, id),
                    forall|id: NodeId|
                        id < count && marks@[id as int] && !work@.contains(id) && id != current
                            ==> #[trigger] self.sources_marked(id, marks@),
                    forall|j: int|
                        #![trigger self.sources(current)[j]]
                        0 <= j < input && self.linked(current, j) ==> marks@[self.sources(
                            current,
                        )[j].unwrap().node as int],
                    seen.no_duplicates(),
                    seen.len() <= count,
                    forall|k: int|
                        0 <= k < seen.len() ==> (#[trigger] seen[k]) < count && marks@[seen[k] as int],
                    forall|id: NodeId|
                        id < count && #[trigger] marks@[id as int] ==> seen.contains(id),
                    2 * (count - seen.len()) + work@.len() < 2 * (count - seen_before.len())
                        + work_before.len(),
                decreases inputs - input,
            {
                match self.source_of(current, input) {
                    Some(source) => {
                        proof {
                            assert(self.slot_wf(current));
                            assert(self.linked(current, input as int));
                            assert(self.sources(current)[input as int] == Some(source));
                            assert(self.feeds(source.node, current));
                        }
                        if !marks[source.node] {
                            let ghost marks_before = marks@;
                            let ghost work_inner = work@;
                            let ghost seen_inner = seen;
                            marks.set(source.node, true);
                            work.push(source.node);
                            proof {
                                self.lemma_depends_step(start, current, source.node);
                                if seen.contains(source.node) {
                                    let k = choose|k: int|
                                        0 <= k < seen.len() && seen[k] == source.node;
                                    assert(marks_before[seen[k] as int]);
                                }
                                seen = seen.push(source.node);
                                assert forall|k: int| 0 <= k < seen.len() implies (
                                #[trigger] seen[k]) < count && marks@[seen[k] as int] by {
                                    if k < seen_inner.len() {
                                        assert(seen[k] == seen_inner[k]);
                                    }
                                }
                                lemma_distinct_bounded(seen, count as nat);
                                assert forall|id: NodeId|
                                    id < count && #[trigger] marks@[id as int] implies seen.contains(
                                    id,
                                ) by {
                                    if id == source.node {
                                        assert(seen[seen.len() - 1] == id);
                                    } else {
                                        assert(marks_before[id as int]);
                                        let k = choose|k: int|
                                            0 <= k < seen_inner.len() && seen_inner[k] == id;
                                        assert(seen[k] == id);
                                    }
                                }
                                assert forall|k: int| 0 <= k < work@.len() implies (
                                #[trigger] work@[k]) < count && marks@[work@[k] as int] by {
                                    if k < work_inner.len() {
                                        assert(work@[k] == work_inner[k]);
                                    }
                                }
                                assert forall|id: NodeId|
                                    id < count && marks@[id as int] && !work@.contains(id) && id
                                        != current implies #[trigger] self.sources_marked(
                                    id,
                                    marks@,
                                ) by {
                                    assert(work@[work@.len() - 1] == source.node);
                                    assert(id != source.node);
                                    assert(marks_before[id as int]);
                                    if work_inner.contains(id) {
                                        let k = choose|k: int|
                                            0 <= k < work_inner.len() && work_inner[k] == id;
                                        assert(work@[k] == id);
                                    }
                                    assert(self.sources_marked(id, marks_before));
                                }
                            }
                        }
                    },
                    None => {},
                }
                input += 1;
            }
            proof {
                assert(self.slot_wf(current));
                assert forall|j: int|
                    #![trigger self.sources(current)[j]]
                    self.linked(current, j) implies self.sources(current)[j].unwrap().node
                    < marks@.len() && marks@[self.sources(current)[j].unwrap().node as int] by {}
                assert(self.sources_marked(current, marks@));
            }
        }
        proof {
            assert forall|id: NodeId| id < count && marks@[id as int] implies #[trigger] self.sources_marked(
                id,
                marks@,
            ) by {
                assert(!work@.contains(id));
            }
            assert forall|id: NodeId| id < marks@.len() implies #[trigger] marks@[id as int]
                == self.depends_on(start, id) by {
                if self.depends_on(start, id) {
                    let path = choose|path: Seq<NodeId>|
                        #![trigger self.is_chain(path)]
                        self.is_chain(path) && path[0] == start && path.last() == id;
                    self.lemma_marks_closed(marks@, path);
                }
            }
        }
        marks
    }

    /// Whether `consumer` depends on `producer`.
    pub fn depends(&self, consumer: NodeId, producer: NodeId) -> (r: bool)
        requires
            self.wf(),
        ensures
            r == self.depends_on(consumer, producer),
    {
        if !self.contains(consumer) || !self.contains(producer) {
            proof {
                if self.depends_on(consumer, producer) {
                    let path = choose|path: Seq<NodeId>|
                        #![trigger self.is_chain(path)]
                        self.is_chain(path) && path[0] == consumer && path.last() == producer;
                    self.lemma_chain_present(path, path.len() - 1);
                }
            }
            return false;
        }
        let marks = self.dependencies(consumer);
        marks[producer]
    }
}

/// `count` marks, none of them set.
pub fn unmarked(count: usize) -> (marks: Vec<bool>)
    ensures
        marks@.len() == count,
        forall|i: int| 0 <= i < count ==> !(#[trigger] marks@[i]),
{
    let mut marks: Vec<bool> = Vec::new();
    while marks.len() < count
        invariant
            marks@.len() <= count,
            forall|i: int| 0 <= i < marks@.len() ==> !(#[trigger] marks@[i]),
        decreases count - marks@.len(),
    {
        marks.push(false);
    }
    marks
}

/// Distinct numbers below a bound are at most as many as the bound.
pub proof fn lemma_distinct_bounded(items: Seq<NodeId>, bound: nat)
    requires
        items.no_duplicates(),
        forall|k: int| 0 <= k < items.len() ==> (#[trigger] items[k]) < bound,
    ensures
        items.len() <= bound,
    decreases bound,
{
    if bound == 0 {
        if items.len() > 0 {
            assert(items[0] < bound);
        }
    } else {
        let top = (bound - 1) as NodeId;
        if items.contains(top) {
            let at = choose|at: int| 0 <= at < items.len() && items[at] == top;
            let rest = items.remove(at);
            assert forall|k: int| 0 <= k < rest.len() implies (#[trigger] rest[k]) < bound - 1 by {
                if k < at {
                    assert(rest[k] == items[k]);
                } else {
                    assert(rest[k] == items[k + 1]);
                }
            }
            assert forall|i: int, j: int| 0 <= i < rest.len() && 0 <= j < rest.len() && i != j implies rest[i]
                != rest[j] by {
                let a = if i < at { i } else { i + 1 };
                let b = if j < at { j } else { j + 1 };
                assert(rest[i] == items[a] && rest[j] == items[b]);
            }
            lemma_distinct_bounded(rest, (bound - 1) as nat);
        } else {
            assert forall|k: int| 0 <= k < items.len() implies (#[trigger] items[k]) < bound - 1 by {
                assert(items.contains(items[k]));
            }
            lemma_distinct_bounded(items, (bound - 1) as nat);
        }
    }
}

} // verus!
