//! The compiler: the statement of each node, and the pass that writes the
//! statements of a graph into blocks of shader text.

use vstd::prelude::*;
use vstd::string::StringExecFns;
use crate::context::{CompileContext, ContextView, FrameView};
use crate::error::{GraphError, Unbound};
use crate::graph::{Graph, NodeId};
use crate::node::NodeKind;
use crate::shader::{
    fragment_body, BINDINGS, BINDINGS_BLOCK, COLOR_HEAD, COLOR_TAIL, FRAGMENT_BLOCK, FRAGMENT_HEAD,
    FRAGMENT_TAIL, IMPORTS, IMPORTS_BLOCK,
};
use crate::text::{concat, decimal, decimal_text};

verus! {

/// The name of the variable that holds the value of node `id`.
pub open spec fn variable(id: NodeId) -> Seq<char> {
    "node_"@ + decimal(id as nat)
}

/// The name of the variable that holds the value of node `id`.
pub fn variable_name(id: NodeId) -> (name: String)
    ensures
        name@ == variable(id),
{
    let mut name = String::from_str("node_");
    name.append(decimal_text(id).as_str());
    name
}

/// No two nodes have one variable.
pub proof fn lemma_variables_differ(a: NodeId, b: NodeId)
    ensures
        variable(a) == variable(b) ==> a == b,
{
    if variable(a) == variable(b) {
        let prefix = "node_"@;
        assert((prefix + decimal(a as nat)).subrange(prefix.len() as int, variable(a).len() as int)
            =~= decimal(a as nat));
        assert((prefix + decimal(b as nat)).subrange(prefix.len() as int, variable(b).len() as int)
            =~= decimal(b as nat));
        crate::text::lemma_decimal_differs(a as nat, b as nat);
    }
}

/// The nodes of `order` that are not in `memo`, in the order of `order`.
pub open spec fn fresh(order: Seq<NodeId>, memo: Seq<NodeId>) -> Seq<NodeId>
    decreases order.len(),
{
    if order.len() == 0 {
        Seq::empty()
    } else if memo.contains(order.last()) {
        fresh(order.drop_last(), memo)
    } else {
        fresh(order.drop_last(), memo).push(order.last())
    }
}

/// What is fresh in `order` stands in `order`.
pub proof fn lemma_fresh_within(order: Seq<NodeId>, memo: Seq<NodeId>, id: NodeId)
    requires
        fresh(order, memo).contains(id),
    ensures
        order.contains(id),
        !memo.contains(id),
    decreases order.len(),
{
    if order.len() > 0 {
        let rest = fresh(order.drop_last(), memo);
        if rest.contains(id) {
            lemma_fresh_within(order.drop_last(), memo, id);
            let k = choose|k: int| 0 <= k < order.drop_last().len() && order.drop_last()[k] == id;
            assert(order[k] == id);
        } else {
            let k = choose|k: int| 0 <= k < fresh(order, memo).len() && fresh(order, memo)[k] == id;
            assert(!memo.contains(order.last()));
            assert(fresh(order, memo) == rest.push(order.last()));
            if k < rest.len() {
                assert(rest[k] == id);
            }
            assert(order[order.len() - 1] == id);
        }
    }
}

/// No node is written twice: where a block holds no node twice and an
/// order holds no node twice, the block holds no node twice after the fresh
/// nodes of the order were written into it.
pub proof fn lemma_written_once(order: Seq<NodeId>, memo: Seq<NodeId>)
    requires
        order.no_duplicates(),
        memo.no_duplicates(),
    ensures
        (memo + fresh(order, memo)).no_duplicates(),
    decreases order.len(),
{
    if order.len() > 0 {
        let rest = order.drop_last();
        assert forall|i: int, j: int| 0 <= i < rest.len() && 0 <= j < rest.len() && i != j implies rest[i]
            != rest[j] by {
            assert(order[i] != order[j]);
        }
        lemma_written_once(rest, memo);
        let last = order.last();
        if !memo.contains(last) {
            let before = memo + fresh(rest, memo);
            let after = memo + fresh(order, memo);
            assert(after =~= before.push(last));
            if fresh(rest, memo).contains(last) {
                lemma_fresh_within(rest, memo, last);
                let k = choose|k: int| 0 <= k < rest.len() && rest[k] == last;
                assert(order[k] == order[order.len() - 1]);
            }
            assert forall|i: int, j: int| 0 <= i < after.len() && 0 <= j < after.len() && i != j implies after[i]
                != after[j] by {
                if i < before.len() && j < before.len() {
                    assert(before[i] != before[j]);
                } else {
                    let k = if i < before.len() { i } else { j };
                    assert(before[k] != last) by {
                        if k < memo.len() {
                            assert(memo.contains(memo[k]));
                        } else {
                            assert(fresh(rest, memo).contains(fresh(rest, memo)[k - memo.len()]));
                        }
                    }
                }
            }
        }
    } else {
        assert(memo + fresh(order, memo) =~= memo);
    }
}

/// Where nothing was written yet, everything is fresh.
pub proof fn lemma_fresh_all(order: Seq<NodeId>)
    ensures
        fresh(order, Seq::empty()) == order,
    decreases order.len(),
{
    if order.len() > 0 {
        lemma_fresh_all(order.drop_last());
        assert(order.drop_last().push(order.last()) =~= order);
    } else {
        assert(order =~= Seq::empty());
    }
}

impl Graph {
    /// The expression that input `input` of the node under `id` reads: the
    /// variable of the node that it is connected to, coerced to the input's
    /// kind, or the input's literal.
    pub open spec fn argument(&self, id: NodeId, input: int) -> Seq<char>
        recommends
            self.has(id),
            0 <= input < self.sources(id).len(),
    {
        match self.sources(id)[input] {
            Some(source) => self.node(source.node).kind.outputs()[source.output as int].coerced(
                self.node(id).kind.inputs()[input],
                variable(source.node),
            ),
            None => self.node(id).defaults[input].code,
        }
    }

    /// The expressions that the inputs of the node under `id` read.
    pub open spec fn arguments(&self, id: NodeId) -> Seq<Seq<char>>
        recommends
            self.has(id),
    {
        Seq::new(self.sources(id).len(), |input: int| self.argument(id, input))
    }

    /// The statement of the node under `id`: it binds the node's variable to
    /// the node's expression over what its inputs read.
    pub open spec fn statement(&self, id: NodeId) -> Seq<char>
        recommends
            self.has(id),
    {
        "\n  let "@ + variable(id) + " = "@ + self.node(id).kind.expression(
            self.node(id).op,
            self.arguments(id),
        ) + ";"@
    }

    /// The statements of the nodes `ids`, one after the other.
    pub open spec fn statements(&self, ids: Seq<NodeId>) -> Seq<char>
        decreases ids.len(),
    {
        if ids.len() == 0 {
            Seq::empty()
        } else {
            self.statements(ids.drop_last()) + self.statement(ids.last())
        }
    }

    /// Writes the expression that input `input` of the node under `id` reads.
    pub fn argument_code(&self, id: NodeId, input: usize) -> (code: String)
        requires
            self.wf(),
            self.has(id),
            input < self.sources(id).len(),
        ensures
            code@ == self.argument(id, input as int),
    {
        proof {
            assert(self.slot_wf(id));
        }
        let node = self.get(id).unwrap();
        match self.source_of(id, input) {
            Some(source) => {
                proof {
                    assert(self.linked(id, input as int));
                    assert(self.sources(id)[input as int] == Some(source));
                }
                let from = self.kind_of(source.node).unwrap().output_kind(source.output);
                from.coerce(node.kind.input_kind(input), variable_name(source.node))
            },
            None => {
                assert(node@.defaults[input as int] == node.defaults@[input as int]@);
                node.defaults[input].code.clone()
            },
        }
    }

    /// Writes the statement of the node under `id`.
    pub fn statement_code(&self, id: NodeId) -> (code: String)
        requires
            self.wf(),
            self.has(id),
        ensures
            code@ == self.statement(id),
    {
        proof {
            assert(self.slot_wf(id));
        }
        let node = self.get(id).unwrap();
        let inputs = self.input_count(id);
        let mut args: Vec<String> = Vec::new();
        let mut input: usize = 0;
        while input < inputs
            invariant
                self.wf(),
                self.has(id),
                inputs == self.sources(id).len(),
                input <= inputs,
                args@.len() == input,
                forall|j: int| 0 <= j < input ==> (#[trigger] args@[j])@ == self.argument(id, j),
            decreases inputs - input,
        {
            args.push(self.argument_code(id, input));
            input += 1;
        }
        assert(args@.map_values(|a: String| a@) =~= self.arguments(id));
        let mut code = String::from_str("\n  let ");
        code.append(variable_name(id).as_str());
        code.append(" = ");
        code.append(node.kind.render(node.op, &args).as_str());
        code.append(";");
        code
    }
}

impl ContextView {
    /// The state after the statements of the nodes `ids` of `graph` were
    /// written, one after the other, into the innermost open block.
    pub open spec fn written(self, graph: &Graph, ids: Seq<NodeId>) -> ContextView
        recommends
            self.open.len() > 0,
        decreases ids.len(),
    {
        if ids.len() == 0 {
            self
        } else {
            self.written(graph, ids.drop_last()).emitted(ids.last(), graph.statement(ids.last()))
        }
    }

    /// Writing statements adds their text to the innermost open block and
    /// their nodes to what that block holds, and leaves all else as it was.
    pub proof fn lemma_written(self, graph: &Graph, ids: Seq<NodeId>)
        requires
            self.open.len() > 0,
            self.texts.contains_key(self.open.last().name),
        ensures
            self.written(graph, ids) == (ContextView {
                texts: self.texts.insert(
                    self.open.last().name,
                    self.texts[self.open.last().name] + graph.statements(ids),
                ),
                open: self.open.update(
                    self.open.len() - 1,
                    FrameView {
                        memo: self.open.last().memo + ids,
                        ..self.open.last()
                    },
                ),
                ..self
            }),
        decreases ids.len(),
    {
        let name = self.open.last().name;
        if ids.len() == 0 {
            assert(graph.statements(ids) =~= Seq::empty());
            assert(self.texts[name] + graph.statements(ids) =~= self.texts[name]);
            assert(self.open.last().memo + ids =~= self.open.last().memo);
            assert(self.texts.insert(name, self.texts[name]) =~= self.texts);
            assert(self.open.update(self.open.len() - 1, self.open.last()) =~= self.open);
        } else {
            self.lemma_written(graph, ids.drop_last());
            let before = self.written(graph, ids.drop_last());
            let after = before.emitted(ids.last(), graph.statement(ids.last()));
            assert(self.open.last().memo + ids =~= (self.open.last().memo + ids.drop_last()).push(
                ids.last(),
            ));
            assert(after.texts =~= self.texts.insert(
                name,
                self.texts[name] + graph.statements(ids),
            )) by {
                assert((self.texts[name] + graph.statements(ids.drop_last())) + graph.statement(
                    ids.last(),
                ) =~= self.texts[name] + graph.statements(ids));
            }
            assert(after.open =~= self.open.update(
                self.open.len() - 1,
                FrameView {
                    memo: self.open.last().memo + ids,
                    ..self.open.last()
                },
            ));
        }
    }
}

impl CompileContext {
    /// Writes into the innermost open block the statements of the nodes of
    /// `order` that the block does not hold yet.
    fn write_fresh(&mut self, graph: &Graph, order: &Vec<NodeId>)
        requires
            old(self).wf(),
            old(self)@.open.len() > 0,
            graph.wf(),
            order@.no_duplicates(),
            forall|k: int| 0 <= k < order@.len() ==> graph.has(#[trigger] order@[k]),
        ensures
            final(self).wf(),
            final(self)@ == old(self)@.written(graph, fresh(order@, old(self)@.open.last().memo)),
    {
        let ghost memo = self@.open.last().memo;
        let mut k: usize = 0;
        while k < order.len()
            invariant
                self.wf(),
                graph.wf(),
                k <= order@.len(),
                order@.no_duplicates(),
                forall|j: int| 0 <= j < order@.len() ==> graph.has(#[trigger] order@[j]),
                old(self).wf(),
                old(self)@.open.len() > 0,
                memo == old(self)@.open.last().memo,
                self@ == old(self)@.written(graph, fresh(order@.take(k as int), memo)),
            decreases order@.len() - k,
        {
            let id = order[k];
            let ghost done = fresh(order@.take(k as int), memo);
            proof {
                assert(old(self)@.open.last() == old(self).frames@[old(self).frames@.len() - 1]@);
                old(self)@.lemma_written(graph, done);
                assert(order@.take(k + 1).drop_last() =~= order@.take(k as int));
                assert(order@.take(k + 1).last() == id);
                assert(self@.open.last().memo == memo + done);
                if done.contains(id) {
                    lemma_fresh_within(order@.take(k as int), memo, id);
                    let j = choose|j: int|
                        0 <= j < order@.take(k as int).len() && order@.take(k as int)[j] == id;
                    assert(order@[j] == id);
                }
                if (memo + done).contains(id) {
                    let j = choose|j: int| 0 <= j < (memo + done).len() && (memo + done)[j] == id;
                    if j < memo.len() {
                        assert(memo[j] == id);
                    } else {
                        assert(done[j - memo.len()] == id);
                    }
                }
                if memo.contains(id) {
                    let j = choose|j: int| 0 <= j < memo.len() && memo[j] == id;
                    assert((memo + done)[j] == id);
                }
            }
            let ghost next = fresh(order@.take(k + 1), memo);
            if !self.is_emitted(id) {
                let code = graph.statement_code(id);
                let written = self.emit(id, code.as_str());
                proof {
                    assert(written.is_ok());
                    assert(next == done.push(id));
                    assert(next.drop_last() =~= done);
                }
            } else {
                proof {
                    assert(next == done);
                }
            }
            k += 1;
        }
        assert(order@.take(order@.len() as int) =~= order@);
    }

    /// Writes into the innermost open block the statements of the node
    /// under `id` and of the nodes on which it depends, each after the
    /// statements of the nodes that feed it, but for the nodes whose
    /// statements the block holds already. Gives the dependency order of
    /// `id` that it followed. Refused with `InvalidSocket` where `id` names
    /// no node, else with `CycleDetected` where a cycle can be reached from
    /// `id`, else with `UnboundBlock` where no block is open; a refusal
    /// writes nothing.
    pub fn compile_value(&mut self, graph: &Graph, id: NodeId) -> (r: Result<
        Vec<NodeId>,
        GraphError,
    >)
        requires
            old(self).wf(),
            graph.wf(),
        ensures
            final(self).wf(),
            r == Err::<Vec<NodeId>, GraphError>(GraphError::InvalidSocket) <==> !graph.has(id),
            r.is_err() && r.unwrap_err().is_cycle() <==> graph.has(id) && graph.cyclic_from(id),
            forall|at: NodeId|
                r.is_err() && r.unwrap_err() == GraphError::CycleDetected(at)
                    ==> #[trigger] graph.on_cycle_from(id, at),
            r == Err::<Vec<NodeId>, GraphError>(GraphError::UnboundBlock(Unbound::Open))
                <==> graph.has(id) && !graph.cyclic_from(id) && old(self)@.open.len() == 0,
            r.is_err() && r.unwrap_err().is_unbound() ==> r.unwrap_err()
                == GraphError::UnboundBlock(Unbound::Open),
            r.is_ok() <==> graph.has(id) && !graph.cyclic_from(id) && old(self)@.open.len() > 0,
            r.is_err() ==> final(self)@ == old(self)@,
            r.is_ok() ==> r.unwrap()@ == graph.dependency_walk(id) && graph.is_dependency_order(
                id,
                r.unwrap()@,
            ) && final(self)@ == old(self)@.written(
                graph,
                fresh(r.unwrap()@, old(self)@.open.last().memo),
            ),
    {
        let order = match graph.dependency_order(id) {
            Ok(order) => order,
            Err(error) => {
                return Err(error);
            },
        };
        if self.depth() == 0 {
            return Err(GraphError::UnboundBlock(Unbound::Open));
        }
        self.write_fresh(graph, &order);
        Ok(order)
    }
}

impl Graph {
    /// Whether the graph names an output node that it holds.
    pub open spec fn has_output(&self) -> bool {
        self.output.is_some() && self.has(self.output.unwrap())
    }

    /// Whether the node under `id` is an output node, which takes a value
    /// and gives none.
    pub open spec fn is_sink(&self, id: NodeId) -> bool
        recommends
            self.has(id),
    {
        self.node(id).kind == NodeKind::FragmentOutput
    }

    /// Whether `order` is the order in which a compile pass from the node
    /// under `root` handles nodes: for an output node the dependency order
    /// of what its color is connected to, and no node where it is not
    /// connected; for any other node its own dependency order.
    pub open spec fn is_compile_order(&self, root: NodeId, order: Seq<NodeId>) -> bool
        recommends
            self.has(root),
    {
        &&& order == self.compile_walk(root)
        &&& if self.is_sink(root) {
            match self.sources(root)[0] {
                Some(source) => self.is_dependency_order(source.node, order),
                None => order.len() == 0,
            }
        } else {
            self.is_dependency_order(root, order)
        }
    }

    /// The nodes that a compile pass from the node under `root` handles, in
    /// the order in which it handles them: for an output node what a
    /// depth-first walk lists from the node that its color is connected to,
    /// for any other node what the walk lists from the node itself.
    pub open spec fn compile_walk(&self, root: NodeId) -> Seq<NodeId>
        recommends
            self.has(root),
    {
        if self.is_sink(root) {
            match self.sources(root)[0] {
                Some(source) => self.dependency_walk(source.node),
                None => Seq::empty(),
            }
        } else {
            self.dependency_walk(root)
        }
    }

    /// A cycle can be reached from an output node if and only if its color
    /// is connected and a cycle can be reached from what it is connected to.
    pub proof fn lemma_sink_cycle(&self, root: NodeId)
        requires
            self.wf(),
            self.has(root),
            self.is_sink(root),
        ensures
            self.cyclic_from(root) <==> self.sources(root)[0].is_some() && self.cyclic_from(
                self.sources(root)[0].unwrap().node,
            ),
    {
        assert(self.slot_wf(root));
        if self.cyclic_from(root) {
            let path = choose|path: Seq<NodeId>|
                #![trigger self.is_chain(path)]
                self.is_chain(path) && path[0] == root && path.drop_last().contains(path.last());
            let k = choose|k: int| 0 <= k < path.drop_last().len() && path.drop_last()[k] == path.last();
            assert(path.len() >= 2);
            assert(self.step(path, 1));
            let input = choose|input: int|
                #![trigger self.sources(root)[input]]
                self.linked(root, input) && self.sources(root)[input].unwrap().node == path[1];
            assert(input == 0);
            let tail = path.subrange(1, path.len() as int);
            self.lemma_chain_present(path, 1);
            assert forall|j: int| 1 <= j < tail.len() implies #[trigger] self.step(tail, j) by {
                assert(self.step(path, j + 1));
            }
            assert(self.is_chain(tail));
            if k == 0 {
                let last = path.len() - 1;
                assert(self.step(path, last));
                let consumer = path[last - 1];
                let at = choose|at: int|
                    #![trigger self.sources(consumer)[at]]
                    self.linked(consumer, at) && self.sources(consumer)[at].unwrap().node == root;
                assert(self.slot_wf(consumer));
                assert(false);
            }
            assert(tail.drop_last()[k - 1] == tail.last());
            assert(tail.drop_last().contains(tail.last()));
        }
        if self.sources(root)[0].is_some() && self.cyclic_from(self.sources(root)[0].unwrap().node) {
            let producer = self.sources(root)[0].unwrap().node;
            let path = choose|path: Seq<NodeId>|
                #![trigger self.is_chain(path)]
                self.is_chain(path) && path[0] == producer && path.drop_last().contains(path.last());
            let k = choose|k: int| 0 <= k < path.drop_last().len() && path.drop_last()[k] == path.last();
            let longer = seq![root] + path;
            assert(self.linked(root, 0));
            assert(self.feeds(producer, root));
            assert forall|j: int| 1 <= j < longer.len() implies #[trigger] self.step(longer, j) by {
                if j > 1 {
                    assert(self.step(path, j - 1));
                }
            }
            assert(self.is_chain(longer));
            assert(longer.drop_last()[k + 1] == longer.last());
            assert(longer.drop_last().contains(longer.last()));
        }
    }
}

impl ContextView {
    /// Whether a compile pass that starts at a node of the given sort finds
    /// the blocks that it writes to: an output node needs the imports and
    /// the bindings defined, and the fragment block defined or a number left
    /// to define it under; any other node needs an open block.
    pub open spec fn accepts(self, sink: bool) -> bool {
        if sink {
            &&& self.texts.contains_key(IMPORTS_BLOCK@)
            &&& self.texts.contains_key(BINDINGS_BLOCK@)
            &&& self.texts.contains_key(FRAGMENT_BLOCK@) || self.names.len() < u32::MAX
        } else {
            self.open.len() > 0
        }
    }

    /// The block that a pass from a node of the given sort does not find,
    /// where it does not find one: the first of the imports, the bindings
    /// and the fragment block that is not there, or the open block.
    pub open spec fn missing(self, sink: bool) -> Unbound
        recommends
            !self.accepts(sink),
    {
        if !sink {
            Unbound::Open
        } else if !self.texts.contains_key(IMPORTS_BLOCK@) {
            Unbound::Imports
        } else if !self.texts.contains_key(BINDINGS_BLOCK@) {
            Unbound::Bindings
        } else {
            Unbound::Fragment
        }
    }

    /// The state after the output node under `root` was compiled, with the
    /// nodes `order` before it: the imports and the bindings have got their
    /// text, and the fragment block was opened, has got the head of the
    /// fragment function, the statements of `order`, the statement that
    /// takes the color and the rest of the function, and was closed.
    pub open spec fn fragment_written(self, graph: &Graph, root: NodeId, order: Seq<NodeId>) -> ContextView
        recommends
            self.accepts(true),
    {
        self.appended(IMPORTS_BLOCK@, IMPORTS@).appended(BINDINGS_BLOCK@, BINDINGS@).opened(
            FRAGMENT_BLOCK@,
        ).appended(FRAGMENT_BLOCK@, FRAGMENT_HEAD@).written(graph, order).appended(
            FRAGMENT_BLOCK@,
            COLOR_HEAD@ + graph.argument(root, 0) + COLOR_TAIL@ + FRAGMENT_TAIL@,
        ).closed()
    }

    /// The state after a compile pass from the node under `root` that
    /// handled the nodes `order`.
    pub open spec fn compiled(self, graph: &Graph, root: NodeId, order: Seq<NodeId>) -> ContextView
        recommends
            graph.has(root),
            self.accepts(graph.is_sink(root)),
    {
        if graph.is_sink(root) {
            self.fragment_written(graph, root, order)
        } else {
            self.written(graph, fresh(order, self.open.last().memo))
        }
    }
}

impl CompileContext {
    /// Compiles `graph` from its output node. An output node adds its text
    /// to the imports and the bindings and writes the fragment function into
    /// the fragment block; any other node has its statements, and those of
    /// the nodes on which it depends, written into the innermost open block.
    /// Gives the order in which the nodes were handled. Refused with
    /// `MissingOutputNode` where the graph names no output node or does not
    /// hold it, else with `CycleDetected` where a cycle can be reached from
    /// the output node, else with `UnboundBlock` where a block to write to
    /// is not there; a refusal writes nothing.
    pub fn compile_graph(&mut self, graph: &Graph) -> (r: Result<Vec<NodeId>, GraphError>)
        requires
            old(self).wf(),
            graph.wf(),
        ensures
            final(self).wf(),
            r == Err::<Vec<NodeId>, GraphError>(GraphError::MissingOutputNode)
                <==> !graph.has_output(),
            r.is_err() && r.unwrap_err().is_cycle() <==> graph.has_output() && graph.cyclic_from(
                graph.output.unwrap(),
            ),
            forall|at: NodeId|
                r.is_err() && r.unwrap_err() == GraphError::CycleDetected(at)
                    ==> #[trigger] graph.on_cycle_from(graph.output.unwrap(), at),
            r.is_err() && r.unwrap_err().is_unbound() <==> graph.has_output() && !graph.cyclic_from(
                graph.output.unwrap(),
            ) && !old(self)@.accepts(graph.is_sink(graph.output.unwrap())),
            r.is_err() && r.unwrap_err().is_unbound() ==> r.unwrap_err()
                == GraphError::UnboundBlock(
                old(self)@.missing(graph.is_sink(graph.output.unwrap())),
            ),
            r.is_ok() <==> graph.has_output() && !graph.cyclic_from(graph.output.unwrap()) && old(
                self,
            )@.accepts(graph.is_sink(graph.output.unwrap())),
            r.is_err() ==> final(self)@ == old(self)@,
            r.is_ok() ==> graph.is_compile_order(graph.output.unwrap(), r.unwrap()@) && final(self)@
                == old(self)@.compiled(graph, graph.output.unwrap(), r.unwrap()@),
    {
        let root = match graph.output() {
            Some(root) => root,
            None => {
                return Err(GraphError::MissingOutputNode);
            },
        };
        let kind = match graph.kind_of(root) {
            Some(kind) => kind,
            None => {
                return Err(GraphError::MissingOutputNode);
            },
        };
        if kind != NodeKind::FragmentOutput {
            return self.compile_value(graph, root);
        }
        proof {
            graph.lemma_sink_cycle(root);
            assert(graph.slot_wf(root));
        }
        let order = match graph.source_of(root, 0) {
            Some(source) => {
                proof {
                    assert(graph.linked(root, 0));
                }
                match graph.dependency_order(source.node) {
                    Ok(order) => order,
                    Err(error) => {
                        proof {
                            assert(graph.feeds(source.node, root));
                            if let GraphError::CycleDetected(at) = error {
                                graph.lemma_cycle_behind(root, source.node, at);
                            }
                        }
                        return Err(error);
                    },
                }
            },
            None => {
                let order: Vec<NodeId> = Vec::new();
                assert(order@ =~= Seq::empty());
                order
            },
        };
        if !self.is_defined(IMPORTS_BLOCK) {
            return Err(GraphError::UnboundBlock(Unbound::Imports));
        }
        if !self.is_defined(BINDINGS_BLOCK) {
            return Err(GraphError::UnboundBlock(Unbound::Bindings));
        }
        if !self.has_room_for(FRAGMENT_BLOCK) {
            return Err(GraphError::UnboundBlock(Unbound::Fragment));
        }
        proof {
            self.lemma_block_count();
        }
        let _ = self.append_code(IMPORTS_BLOCK, IMPORTS);
        let _ = self.append_code(BINDINGS_BLOCK, BINDINGS);
        proof {
            self.lemma_block_count();
        }
        self.push_new_block(FRAGMENT_BLOCK);
        let _ = self.append(FRAGMENT_HEAD);
        let ghost opened = self@;
        proof {
            lemma_fresh_all(order@);
            assert(opened.open.last().memo =~= Seq::empty());
        }
        self.write_fresh(graph, &order);
        let mut tail = String::from_str(COLOR_HEAD);
        tail.append(graph.argument_code(root, 0).as_str());
        tail.append(COLOR_TAIL);
        tail.append(FRAGMENT_TAIL);
        proof {
            opened.lemma_written(graph, order@);
        }
        let _ = self.append(tail.as_str());
        let _ = self.pop();
        Ok(order)
    }
}

/// A block of generated text.
#[derive(Debug)]
pub struct Block {
    pub name: String,
    pub text: String,
}

/// What a compile pass has generated: the blocks in the order of their
/// definition, and the nodes in the order in which the pass handled them.
#[derive(Debug)]
pub struct GeneratedCode {
    pub blocks: Vec<Block>,
    pub order: Vec<NodeId>,
}

impl GeneratedCode {
    /// The names of the blocks, in order.
    pub open spec fn names(&self) -> Seq<Seq<char>> {
        Seq::new(self.blocks@.len(), |i: int| self.blocks@[i].name@)
    }

    /// The texts of the blocks, in order.
    pub open spec fn texts(&self) -> Seq<Seq<char>> {
        Seq::new(self.blocks@.len(), |i: int| self.blocks@[i].text@)
    }

    /// The text of the first block of the given name, if there is one.
    pub fn get(&self, name: &str) -> (r: Option<&String>)
        ensures
            r.is_some() <==> self.names().contains(name@),
            r.is_some() ==> exists|i: int|
                0 <= i < self.blocks@.len() && self.names()[i] == name@ && r.unwrap()@
                    == #[trigger] self.texts()[i] && forall|j: int|
                    0 <= j < i ==> self.names()[j] != name@,
    {
        let wanted = String::from_str(name);
        let mut i: usize = 0;
        while i < self.blocks.len()
            invariant
                wanted@ == name@,
                i <= self.blocks@.len(),
                forall|j: int| 0 <= j < i ==> self.names()[j] != name@,
            decreases self.blocks@.len() - i,
        {
            if self.blocks[i].name == wanted {
                assert(self.names()[i as int] == name@);
                assert(self.texts()[i as int] == self.blocks@[i as int].text@);
                return Some(&self.blocks[i].text);
            }
            i += 1;
        }
        None
    }

    /// The texts of all blocks, one after the other.
    pub fn dump(&self) -> (text: String)
        ensures
            text@ == concat(self.texts()),
    {
        let mut text = String::new();
        let mut i: usize = 0;
        while i < self.blocks.len()
            invariant
                i <= self.blocks@.len(),
                text@ == concat(self.texts().take(i as int)),
            decreases self.blocks@.len() - i,
        {
            proof {
                assert(self.texts().take(i + 1).drop_last() =~= self.texts().take(i as int));
            }
            text.append(self.blocks[i].text.as_str());
            i += 1;
        }
        assert(self.texts().take(self.blocks@.len() as int) =~= self.texts());
        text
    }
}

impl CompileContext {
    /// The blocks, in the order of their definition.
    pub fn blocks(&self) -> (blocks: Vec<Block>)
        requires
            self.wf(),
        ensures
            blocks@.len() == self@.names.len(),
            forall|i: int|
                0 <= i < blocks@.len() ==> (#[trigger] blocks@[i]).name@ == self@.names[i]
                    && blocks@[i].text@ == self@.texts[self@.names[i]],
    {
        let mut blocks: Vec<Block> = Vec::new();
        let mut i: usize = 0;
        while i < self.names.len()
            invariant
                self.wf(),
                i <= self.names@.len(),
                blocks@.len() == i,
                forall|j: int|
                    0 <= j < i ==> (#[trigger] blocks@[j]).name@ == self@.names[j]
                        && blocks@[j].text@ == self@.texts[self@.names[j]],
            decreases self.names@.len() - i,
        {
            proof {
                assert(crate::context::name_views(self.names@)[i as int] == self.names@[i as int]@);
                assert(self@.names.contains(self@.names[i as int]));
            }
            let text = self.block(self.names[i].as_str()).unwrap();
            blocks.push(Block { name: self.names[i].clone(), text });
            i += 1;
        }
        proof {
            assert(crate::context::name_views(self.names@).len() == self.names@.len());
        }
        blocks
    }
}

/// The three blocks of a pass have three names.
pub proof fn lemma_block_names()
    ensures
        IMPORTS_BLOCK@ != BINDINGS_BLOCK@,
        IMPORTS_BLOCK@ != FRAGMENT_BLOCK@,
        BINDINGS_BLOCK@ != FRAGMENT_BLOCK@,
{
    reveal_strlit("imports");
    reveal_strlit("bindings");
    reveal_strlit("fragment");
    assert(IMPORTS_BLOCK@.len() == 7);
    assert(BINDINGS_BLOCK@[0] == 'b');
    assert(FRAGMENT_BLOCK@[0] == 'f');
}

/// The state of a pass that has defined the imports and the bindings and
/// nothing else.
pub open spec fn pass_start() -> ContextView {
    ContextView::blank().defined(IMPORTS_BLOCK@).defined(BINDINGS_BLOCK@)
}

/// What a pass that starts with the imports and the bindings defined holds
/// after it has compiled an output node: three blocks, the imports, the
/// bindings and the fragment function around the statements of the graph.
pub proof fn lemma_pass_texts(graph: &Graph, root: NodeId, order: Seq<NodeId>)
    ensures
        pass_start().fragment_written(graph, root, order).names == seq![
            IMPORTS_BLOCK@,
            BINDINGS_BLOCK@,
            FRAGMENT_BLOCK@,
        ],
        pass_start().fragment_written(graph, root, order).texts[IMPORTS_BLOCK@] == IMPORTS@,
        pass_start().fragment_written(graph, root, order).texts[BINDINGS_BLOCK@] == BINDINGS@,
        pass_start().fragment_written(graph, root, order).texts[FRAGMENT_BLOCK@] == fragment_body(
            graph.statements(order),
            graph.argument(root, 0),
        ),
        pass_start().fragment_written(graph, root, order).open.len() == 0,
{
    lemma_block_names();
    let start = pass_start();
    assert(start.names =~= seq![IMPORTS_BLOCK@, BINDINGS_BLOCK@]);
    let filled = start.appended(IMPORTS_BLOCK@, IMPORTS@).appended(BINDINGS_BLOCK@, BINDINGS@);
    assert(filled.texts[IMPORTS_BLOCK@] =~= IMPORTS@);
    assert(filled.texts[BINDINGS_BLOCK@] =~= BINDINGS@);
    let opened = filled.opened(FRAGMENT_BLOCK@);
    assert(opened.names =~= seq![IMPORTS_BLOCK@, BINDINGS_BLOCK@, FRAGMENT_BLOCK@]);
    let headed = opened.appended(FRAGMENT_BLOCK@, FRAGMENT_HEAD@);
    assert(headed.texts[FRAGMENT_BLOCK@] =~= FRAGMENT_HEAD@);
    headed.lemma_written(graph, order);
    let written = headed.written(graph, order);
    let tail = COLOR_HEAD@ + graph.argument(root, 0) + COLOR_TAIL@ + FRAGMENT_TAIL@;
    let all = written.appended(FRAGMENT_BLOCK@, tail);
    assert(all.texts[FRAGMENT_BLOCK@] =~= fragment_body(
        graph.statements(order),
        graph.argument(root, 0),
    ));
    assert(all.closed().open =~= Seq::empty());
}

/// Compiles `graph` from its output node in a pass of its own, which starts
/// with the imports and the bindings defined and no block open. Gives the
/// three blocks of the fragment shader: the imports, the bindings, and the
/// fragment function around the statements of the nodes on which the color
/// depends, each node once and after the nodes that feed it. Refused with
/// `MissingOutputNode` where the graph names no output node or does not hold
/// it, else with `CycleDetected` where a cycle can be reached from the
/// output node, else with `UnboundBlock` where the output node is no output
/// node by kind, so that its statements have no block to go to.
pub fn compile_graph(graph: &Graph) -> (r: Result<GeneratedCode, GraphError>)
    requires
        graph.wf(),
    ensures
        r.is_err() ==> r.unwrap_err() == GraphError::MissingOutputNode
            || r.unwrap_err().is_cycle() || r.unwrap_err() == GraphError::UnboundBlock(
            Unbound::Open,
        ),
        r.is_err() && r.unwrap_err() == GraphError::MissingOutputNode <==> !graph.has_output(),
        r.is_err() && r.unwrap_err().is_cycle() <==> graph.has_output() && graph.cyclic_from(
            graph.output.unwrap(),
        ),
        forall|at: NodeId|
            r.is_err() && r.unwrap_err() == GraphError::CycleDetected(at)
                ==> #[trigger] graph.on_cycle_from(graph.output.unwrap(), at),
        r.is_err() && r.unwrap_err() == GraphError::UnboundBlock(Unbound::Open)
            <==> graph.has_output()
            && !graph.cyclic_from(graph.output.unwrap()) && !graph.is_sink(graph.output.unwrap()),
        r.is_ok() ==> {
            let code = r.unwrap();
            &&& graph.is_compile_order(graph.output.unwrap(), code.order@)
            &&& code.names() == seq![IMPORTS_BLOCK@, BINDINGS_BLOCK@, FRAGMENT_BLOCK@]
            &&& code.texts() == seq![
                IMPORTS@,
                BINDINGS@,
                fragment_body(
                    graph.statements(code.order@),
                    graph.argument(graph.output.unwrap(), 0),
                ),
            ]
            &&& forall|i: int| 0 <= i < 3 ==> (#[trigger] code.texts()[i]).len() > 0
        },
{
    let mut context = CompileContext::new();
    proof {
        context.lemma_block_count();
    }
    context.define_block(IMPORTS_BLOCK);
    proof {
        context.lemma_block_count();
    }
    context.define_block(BINDINGS_BLOCK);
    proof {
        context.lemma_block_count();
    }
    assert(context@ == pass_start());
    match context.compile_graph(graph) {
        Ok(order) => {
            proof {
                lemma_pass_texts(graph, graph.output.unwrap(), order@);
                crate::shader::lemma_fixed_blocks_filled();
                crate::shader::lemma_fragment_body_filled(
                    graph.statements(order@),
                    graph.argument(graph.output.unwrap(), 0),
                );
            }
            let blocks = context.blocks();
            let code = GeneratedCode { blocks, order };
            proof {
                assert(code.names() =~= seq![IMPORTS_BLOCK@, BINDINGS_BLOCK@, FRAGMENT_BLOCK@]);
                assert(code.texts() =~= seq![
                    IMPORTS@,
                    BINDINGS@,
                    fragment_body(
                        graph.statements(code.order@),
                        graph.argument(graph.output.unwrap(), 0),
                    ),
                ]);
            }
            Ok(code)
        },
        Err(error) => Err(error),
    }
}

} // verus!
