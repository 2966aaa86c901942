//! The state of a graph editor: the graph that is edited, the shader text
//! generated from it, and when that text has to be generated and handed on.

use vstd::prelude::*;
use vstd::string::StringExecFns;
use crate::compile::compile_graph;
use crate::error::{GraphError, Unbound};
use crate::graph::Graph;
use crate::node::{NodeKind, NodeView};
use crate::record::GraphRecord;
use crate::registry::NodeRegistry;

verus! {

/// The state of a graph editor.
#[derive(Debug)]
pub struct ShaderGraphEditor {
    /// The title of the editor's window.
    pub title: String,
    /// The graph that is edited.
    pub graph: Graph,
    /// Whether the graph window is open.
    pub open: bool,
    /// Whether the code window is open.
    pub open_preview: bool,
    /// The shader text that was generated last.
    pub code: String,
    /// The graph's count of changes when the text was last generated.
    pub last_change_counter: u64,
    /// What went wrong last, if the last action went wrong.
    pub last_error_msg: Option<String>,
    /// Whether what went wrong last is that the graph did not compile.
    pub compile_failed: bool,
    /// Whether the text has changed since it was last handed on.
    pub changed: bool,
}

/// The text of a failure under a heading.
pub open spec fn failure_text(context: Seq<char>, failure: Seq<char>) -> Seq<char> {
    context + ": "@ + failure
}

/// The heading of a save that failed.
pub const SAVE_FAILED: &'static str = "Failed to save";

/// The heading of a compile pass that failed.
pub const COMPILE_FAILED: &'static str = "Failed to compile shader graph";

impl ShaderGraphEditor {
    /// The invariant of an editor: its graph is well formed, and the count
    /// of changes that the text was generated for is not ahead of the
    /// graph's.
    pub open spec fn wf(&self) -> bool {
        self.graph.wf() && self.last_change_counter <= self.graph.changed
    }

    /// No change of the graph goes unseen: once the graph has counted a
    /// change that the editor has generated no text for, the text is
    /// generated anew at the end of the next frame.
    pub proof fn lemma_change_is_seen(&self, before: &ShaderGraphEditor)
        requires
            before.wf(),
            self.last_change_counter == before.last_change_counter,
            self.graph.changed > before.graph.changed,
        ensures
            self.stale(),
    {
    }

    /// What went wrong last, as a value.
    pub open spec fn last_error(&self) -> Option<Seq<char>> {
        match self.last_error_msg {
            Some(text) => Some(text@),
            None => None,
        }
    }

    /// Whether the editor is `before` but for what went wrong last.
    pub open spec fn same_but_error(&self, before: &ShaderGraphEditor) -> bool {
        &&& self.graph == before.graph
        &&& self.title == before.title
        &&& self.open == before.open
        &&& self.open_preview == before.open_preview
        &&& self.code == before.code
        &&& self.last_change_counter == before.last_change_counter
        &&& self.changed == before.changed
    }

    /// An editor on a graph that holds one node, the fragment output, as its
    /// output node. Both windows are open, no text is generated yet, and
    /// the text counts as changed.
    pub fn new() -> (editor: ShaderGraphEditor)
        ensures
            editor.wf(),
            editor.title@ == "Graph editor"@,
            editor.graph.slots@.len() == 1,
            editor.graph.has(0),
            editor.graph.node(0) == NodeView::fresh(NodeKind::FragmentOutput),
            editor.graph.output == Some(0usize),
            editor.graph.changed == 2,
            editor.open,
            editor.open_preview,
            editor.code@.len() == 0,
            editor.last_change_counter == 0,
            editor.last_error_msg.is_none(),
            !editor.compile_failed,
            editor.changed,
    {
        let registry = NodeRegistry::build();
        let mut graph = Graph::new();
        proof {
            assert(registry@.contains_key(NodeKind::FragmentOutput.name()));
        }
        match registry.new_by_name(NodeKind::FragmentOutput.display_name()) {
            Ok(root) => {
                let id = graph.add(root);
                graph.set_output(Some(id));
            },
            Err(_) => {},
        }
        ShaderGraphEditor {
            title: String::from_str("Graph editor"),
            graph,
            open: true,
            open_preview: true,
            code: String::new(),
            last_change_counter: 0,
            last_error_msg: None,
            compile_failed: false,
            changed: true,
        }
    }

    /// Takes the graph of `record` for the graph to edit, read with the
    /// node types of `registry`. The load counts as one change of the graph
    /// that no text was generated for, so the text is generated anew at the
    /// end of the next frame. Refused as [`Graph::from_record`] refuses, and
    /// then the editor stays as it is.
    pub fn load(&mut self, record: &GraphRecord, registry: &NodeRegistry) -> (r: Result<
        (),
        GraphError,
    >)
        requires
            old(self).wf(),
            registry.wf(),
        ensures
            final(self).wf(),
            r.is_ok() <==> record.known(registry@) && record.describable(registry@),
            r.is_err() && r.unwrap_err() == GraphError::UnknownNodeType <==> !record.known(
                registry@,
            ),
            r.is_err() && r.unwrap_err() == GraphError::Malformed <==> record.known(registry@)
                && !record.describable(registry@),
            r.is_err() ==> *final(self) == *old(self),
            r.is_ok() ==> record.describes(&final(self).graph, registry@),
            r.is_ok() ==> final(self).graph.changed == 1 && final(self).last_change_counter == 0
                && final(self).stale() && final(self).changed,
            r.is_ok() ==> final(self).title == old(self).title && final(self).code == old(self).code
                && final(self).open == old(self).open && final(self).open_preview == old(
                self,
            ).open_preview && final(self).last_error_msg == old(self).last_error_msg && final(self).compile_failed == old(self).compile_failed,
    {
        match Graph::from_record(record, registry) {
            Ok(graph) => {
                self.graph = graph;
                self.graph.changed = 1;
                self.changed = true;
                self.last_change_counter = 0;
                proof {
                    assert forall|id: usize| self.graph.has(id) implies #[trigger] self.graph.slot_wf(
                        id,
                    ) by {
                        assert(graph.slot_wf(id));
                    }
                    assert(record.describes(&self.graph, registry@)) by {
                        assert forall|k: int|
                            0 <= k < record.nodes@.len() implies #[trigger] record.places(
                            &self.graph,
                            registry@,
                            k,
                        ) by {
                            assert(record.places(&graph, registry@, k));
                        }
                        assert forall|j: int|
                            0 <= j < record.links@.len() implies #[trigger] record.joins(
                            &self.graph,
                            j,
                        ) by {
                            assert(record.joins(&graph, j));
                        }
                        assert forall|id: usize|
                            self.graph.has(id) implies #[trigger] record.names_node(
                            id,
                            record.nodes@.len() as int,
                        ) by {
                            assert(graph.has(id));
                        }
                        assert forall|id: usize, input: int|
                            self.graph.has(id) && self.graph.linked(
                                id,
                                input,
                            ) implies #[trigger] record.names_link(
                            id,
                            input,
                            record.links@.len() as int,
                        ) by {
                            assert(graph.has(id) && graph.linked(id, input));
                        }
                    }
                }
                Ok(())
            },
            Err(error) => Err(error),
        }
    }

    /// The graph that is edited, as a record to store: the record that
    /// [`Graph::to_record`] gives, with its records in the order of the ids.
    pub fn save(&self) -> (record: GraphRecord)
        requires
            self.wf(),
        ensures
            record.describes(&self.graph, crate::record::catalogue()),
            record.recorded_by_name(&self.graph),
            record.nodes_ascend(record.nodes@.len() as int, self.graph.slots@.len() as int),
            record.links_ascend(self.graph.slots@.len() as int, 0),
    {
        self.graph.to_record()
    }

    /// What went wrong last once the outcome of an action was noted: the
    /// text of a failure under the heading `context`, and nothing after a
    /// success.
    pub open spec fn noted(context: Seq<char>, failure: Option<Seq<char>>) -> Option<Seq<char>> {
        match failure {
            Some(text) => Some(failure_text(context, text)),
            None => None,
        }
    }

    /// Notes the outcome of an action: a failure leaves its text, under the
    /// heading `context`, as the last error; a success clears the last
    /// error. Hands the outcome on.
    pub fn handle_result<V>(&mut self, context: &str, outcome: Result<V, String>) -> (r: Result<
        V,
        String,
    >)
        ensures
            r == outcome,
            outcome is Ok ==> final(self).last_error() == None::<Seq<char>>,
            outcome is Err ==> final(self).last_error() == Some(
                failure_text(context@, outcome->Err_0@),
            ),
            !final(self).compile_failed,
            final(self).same_but_error(old(self)),
    {
        match &outcome {
            Ok(_) => {
                self.last_error_msg = None;
            },
            Err(failure) => {
                let mut text = String::from_str(context);
                text.append(": ");
                text.append(failure.as_str());
                self.last_error_msg = Some(text);
            },
        }
        self.compile_failed = false;
        outcome
    }

    /// Opens the graph window if it is closed, and closes it if it is open.
    pub fn toggle_open(&mut self)
        ensures
            *final(self) == (ShaderGraphEditor { open: !old(self).open, ..*old(self) }),
    {
        self.open = !self.open;
    }

    /// Opens the code window if it is closed, and closes it if it is open.
    pub fn toggle_open_preview(&mut self)
        ensures
            *final(self) == (ShaderGraphEditor {
                open_preview: !old(self).open_preview,
                ..*old(self)
            }),
    {
        self.open_preview = !self.open_preview;
    }

    /// Notes whether the graph window is still open after a frame, and says
    /// whether the text has changed since it was last handed on.
    pub fn show(&mut self, open: bool) -> (changed: bool)
        ensures
            changed == old(self).changed,
            *final(self) == (ShaderGraphEditor { open, ..*old(self) }),
    {
        self.open = open;
        self.changed
    }

    /// Notes whether the code window is still open after a frame, and says
    /// whether the text has changed since it was last handed on.
    pub fn show_preview(&mut self, open: bool) -> (changed: bool)
        ensures
            changed == old(self).changed,
            *final(self) == (ShaderGraphEditor { open_preview: open, ..*old(self) }),
    {
        self.open_preview = open;
        self.changed
    }

    /// Whether the text has to be generated: the graph has changed since the
    /// text was generated, or there is no text.
    pub open spec fn stale(&self) -> bool {
        self.graph.changed != self.last_change_counter || self.code@.len() == 0
    }

    /// What went wrong last once a frame has noted its save: as it was
    /// where none was asked for, nothing after a save that was made, and
    /// the failure of a save that failed.
    pub open spec fn after_save(&self, saved: Option<Result<(), String>>) -> Option<Seq<char>> {
        match saved {
            None => self.last_error(),
            Some(Ok(_)) => None,
            Some(Err(failure)) => Some(failure_text(SAVE_FAILED@, failure@)),
        }
    }

    /// Ends a frame of the graph window. `saved` is the outcome of the save
    /// that the user asked for in this frame, if there was one: it is noted
    /// first, as [`ShaderGraphEditor::handle_result`] notes it. Then, where
    /// the graph has changed since the text was generated, or there is no
    /// text, the text is generated anew. Says whether it was.
    pub fn ui(&mut self, saved: Option<Result<(), String>>) -> (generated: bool)
        requires
            old(self).wf(),
        ensures
            final(self).wf(),
            generated == old(self).stale(),
            !generated ==> final(self).same_but_error(old(self)) && final(self).last_error() == old(
                self,
            ).after_save(saved) && final(self).compile_failed == (saved.is_none() && old(
                self,
            ).compile_failed),
            generated ==> final(self).last_change_counter == old(self).graph.changed && final(self).regenerated(
                old(self),
                old(self).after_save(saved),
                saved.is_none() && old(self).compile_failed,
            ),
    {
        match saved {
            Some(outcome) => {
                let _ = self.handle_result(SAVE_FAILED, outcome);
            },
            None => {},
        }
        let counter = self.graph.changed_counter();
        if counter != self.last_change_counter || self.code.as_str().unicode_len() == 0 {
            self.last_change_counter = counter;
            self.generate_code();
            true
        } else {
            false
        }
    }

    /// Takes a text that was edited by hand in the code window. The text
    /// then counts as changed.
    pub fn preview_ui(&mut self, code: String)
        ensures
            *final(self) == (ShaderGraphEditor { code, changed: true, ..*old(self) }),
    {
        self.code = code;
        self.changed = true;
    }

    /// Whether the editor is `before` after its text was generated anew,
    /// where `error` was what went wrong last and `failed` says whether that
    /// was a compile pass. The text counts as changed. Where the graph
    /// compiles, the text is that of the three blocks of the shader, one
    /// after the other; the failure of an earlier compile pass is cleared,
    /// and what another action left stays. Where the graph does not compile,
    /// the text stays and the failure of the pass is the last error, with
    /// the node or the block at which it was met.
    pub open spec fn regenerated(
        &self,
        before: &ShaderGraphEditor,
        error: Option<Seq<char>>,
        failed: bool,
    ) -> bool {
        &&& self.graph == before.graph
        &&& self.title == before.title
        &&& self.open == before.open
        &&& self.open_preview == before.open_preview
        &&& self.changed
        &&& before.graph.compiles() ==> {
            &&& self.code@ == before.graph.shader_text(
                before.graph.compile_walk(before.graph.output.unwrap()),
            )
            &&& !self.compile_failed
            &&& self.last_error() == if failed {
                None
            } else {
                error
            }
        }
        &&& !before.graph.compiles() ==> {
            &&& self.code == before.code
            &&& self.compile_failed
            &&& exists|failure: GraphError|
                #![trigger failure.message()]
                before.graph.refuses(failure) && self.last_error() == Some(
                    failure_text(COMPILE_FAILED@, failure.message()),
                )
        }
    }

    /// Generates the text anew from the graph.
    pub fn generate_code(&mut self)
        requires
            old(self).wf(),
        ensures
            final(self).wf(),
            final(self).last_change_counter == old(self).last_change_counter,
            final(self).regenerated(old(self), old(self).last_error(), old(self).compile_failed),
    {
        self.changed = true;
        let outcome = compile_graph(&self.graph);
        match outcome {
            Ok(code) => {
                proof {
                    assert(crate::text::concat(code.texts()) =~= self.graph.shader_text(
                        code.order@,
                    )) by {
                        let texts = code.texts();
                        assert(texts.drop_last().drop_last().drop_last() =~= Seq::<
                            Seq<char>,
                        >::empty());
                        reveal_with_fuel(crate::text::concat, 4);
                    }
                }
                self.code = code.dump();
                if self.compile_failed {
                    self.last_error_msg = None;
                    self.compile_failed = false;
                }
            },
            Err(failure) => {
                let mut text = String::from_str(COMPILE_FAILED);
                text.append(": ");
                text.append(failure.describe().as_str());
                self.last_error_msg = Some(text);
                self.compile_failed = true;
                proof {
                    assert(self.graph.refuses(failure));
                }
            },
        }
    }

    /// Hands on the text where it has changed since it was last handed on,
    /// and counts it as not changed from then on.
    pub fn recompile(&mut self) -> (r: Option<String>)
        ensures
            r.is_some() == old(self).changed,
            r.is_some() ==> r.unwrap()@ == old(self).code@,
            *final(self) == (ShaderGraphEditor { changed: false, ..*old(self) }),
    {
        if !self.changed {
            return None;
        }
        self.changed = false;
        Some(self.code.clone())
    }
}

impl Graph {
    /// Whether a compile pass of its own compiles the graph: the graph
    /// holds its output node, that node is an output node by kind, and no
    /// cycle can be reached from it.
    pub open spec fn compiles(&self) -> bool {
        self.has_output() && !self.cyclic_from(self.output.unwrap()) && self.is_sink(
            self.output.unwrap(),
        )
    }

    /// Whether `failure` is a failure with which a compile pass of its own
    /// refuses the graph: there is no output node; or a cycle can be reached
    /// from it, at the node that the failure names; or neither, and the
    /// output node is no output node by kind, so that no block is open for
    /// its statements.
    pub open spec fn refuses(&self, failure: GraphError) -> bool {
        match failure {
            GraphError::MissingOutputNode => !self.has_output(),
            GraphError::CycleDetected(at) => self.has_output() && self.on_cycle_from(
                self.output.unwrap(),
                at,
            ),
            GraphError::UnboundBlock(block) => block == Unbound::Open && self.has_output()
                && !self.cyclic_from(self.output.unwrap()) && !self.is_sink(self.output.unwrap()),
            _ => false,
        }
    }

    /// The text of the shader of the graph, for a pass that handled the
    /// nodes `order`: the imports, the bindings and the fragment function.
    pub open spec fn shader_text(&self, order: Seq<usize>) -> Seq<char> {
        crate::shader::IMPORTS@ + crate::shader::BINDINGS@ + crate::shader::fragment_body(
            self.statements(order),
            self.argument(self.output.unwrap(), 0),
        )
    }
}

/// Handles the keys of a frame: unless a text field has the keyboard, the
/// key for the graph window opens or closes that window, and the key for the
/// code window opens or closes that one.
pub fn shader_editor(editor: &mut ShaderGraphEditor, wants_keyboard_input: bool, graph_key: bool, code_key: bool)
    ensures
        *final(editor) == (ShaderGraphEditor {
            open: if !wants_keyboard_input && graph_key {
                !old(editor).open
            } else {
                old(editor).open
            },
            open_preview: if !wants_keyboard_input && code_key {
                !old(editor).open_preview
            } else {
                old(editor).open_preview
            },
            ..*old(editor)
        }),
{
    if !wants_keyboard_input && graph_key {
        editor.toggle_open();
    }
    if !wants_keyboard_input && code_key {
        editor.toggle_open_preview();
    }
}

} // verus!
