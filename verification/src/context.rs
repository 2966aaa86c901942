//! The state of a compile pass: named blocks of text, the blocks that are
//! open, and what has been written into each open block.

use vstd::prelude::*;
use vstd::string::StringExecFns;
use crate::error::{GraphError, Unbound};
use crate::graph::NodeId;
use crate::store::{block_names, block_texts, joined};

verus! {

/// An open block: its name, and the nodes whose statements were written into
/// it since it was opened, in the order of writing.
#[derive(Debug)]
pub struct Frame {
    pub name: String,
    pub memo: Vec<NodeId>,
}

/// What an open block is, as a value.
pub struct FrameView {
    pub name: Seq<char>,
    pub memo: Seq<NodeId>,
}

impl View for Frame {
    type V = FrameView;

    open spec fn view(&self) -> FrameView {
        FrameView { name: self.name@, memo: self.memo@ }
    }
}

/// The state of a compile pass.
#[derive(Debug)]
pub struct CompileContext {
    /// The blocks by name.
    pub store: node_engine::NodeGraphCompile,
    /// The names of the blocks, in the order in which they were defined.
    pub names: Vec<String>,
    /// The open blocks, the innermost last.
    pub frames: Vec<Frame>,
}

/// What the state of a compile pass is, as a value: the text of each block,
/// the names of the blocks in the order of their definition, and the open
/// blocks, the innermost last.
pub struct ContextView {
    pub texts: Map<Seq<char>, Seq<char>>,
    pub names: Seq<Seq<char>>,
    pub open: Seq<FrameView>,
}

impl ContextView {
    /// The state of a pass without blocks.
    pub open spec fn blank() -> ContextView {
        ContextView { texts: Map::empty(), names: Seq::empty(), open: Seq::empty() }
    }

    /// The state after `name` was defined: a new name gets an empty block,
    /// last in the order; a known name changes nothing.
    pub open spec fn defined(self, name: Seq<char>) -> ContextView {
        if self.texts.contains_key(name) {
            self
        } else {
            ContextView {
                texts: self.texts.insert(name, Seq::empty()),
                names: self.names.push(name),
                ..self
            }
        }
    }

    /// The state after `code` was added to the end of block `name`.
    pub open spec fn appended(self, name: Seq<char>, code: Seq<char>) -> ContextView
        recommends
            self.texts.contains_key(name),
    {
        ContextView { texts: self.texts.insert(name, self.texts[name] + code), ..self }
    }

    /// The state after block `name` was opened.
    pub open spec fn opened(self, name: Seq<char>) -> ContextView {
        ContextView {
            open: self.defined(name).open.push(FrameView { name, memo: Seq::empty() }),
            ..self.defined(name)
        }
    }

    /// The state after the innermost open block was closed.
    pub open spec fn closed(self) -> ContextView
        recommends
            self.open.len() > 0,
    {
        ContextView { open: self.open.drop_last(), ..self }
    }

    /// The state after `code` was written into the innermost open block as
    /// the statement of node `id`.
    pub open spec fn emitted(self, id: NodeId, code: Seq<char>) -> ContextView
        recommends
            self.open.len() > 0,
    {
        let frame = self.open.last();
        ContextView {
            open: self.open.update(
                self.open.len() - 1,
                FrameView { memo: frame.memo.push(id), ..frame },
            ),
            ..self.appended(frame.name, code)
        }
    }

    /// The text of all blocks, joined in the order of their definition.
    pub open spec fn dump(self) -> Seq<char> {
        joined(self.texts, self.names)
    }
}

/// The names `names`, as values.
pub open spec fn name_views(names: Seq<String>) -> Seq<Seq<char>> {
    Seq::new(names.len(), |i: int| names[i]@)
}

/// The frames `frames`, as values.
pub open spec fn frame_views(frames: Seq<Frame>) -> Seq<FrameView> {
    Seq::new(frames.len(), |i: int| frames[i]@)
}

impl View for CompileContext {
    type V = ContextView;

    open spec fn view(&self) -> ContextView {
        ContextView {
            texts: block_texts(self.store),
            names: block_names(self.store),
            open: frame_views(self.frames@),
        }
    }
}

impl CompileContext {
    /// The invariant of a compile pass: the blocks that have a text are the
    /// blocks that were defined, the list of names agrees with the store,
    /// and every open block is defined.
    pub open spec fn wf(&self) -> bool {
        &&& name_views(self.names@) == block_names(self.store)
        &&& forall|name: Seq<char>|
            block_texts(self.store).contains_key(name) <==> block_names(self.store).contains(name)
        &&& forall|k: int|
            0 <= k < self.frames@.len() ==> block_texts(self.store).contains_key(
                (#[trigger] self.frames@[k]).name@,
            )
    }

    /// A compile pass without blocks.
    pub fn new() -> (context: CompileContext)
        ensures
            context.wf(),
            context@ == ContextView::blank(),
    {
        let context = CompileContext {
            store: node_engine::NodeGraphCompile::new(),
            names: Vec::new(),
            frames: Vec::new(),
        };
        assert(name_views(context.names@) =~= block_names(context.store));
        assert(context@.open =~= Seq::empty());
        context
    }

    /// Whether a block of that name is defined.
    pub fn is_defined(&self, name: &str) -> (r: bool)
        ensures
            r == self@.texts.contains_key(name@),
    {
        self.store.get_block(name).is_some()
    }

    /// The number of blocks that are defined.
    pub fn block_count(&self) -> (n: usize)
        requires
            self.wf(),
        ensures
            n == self@.names.len(),
            n == self.names@.len(),
    {
        proof {
            self.lemma_block_count();
        }
        self.names.len()
    }

    /// The list of names is as long as the store has names.
    pub proof fn lemma_block_count(&self)
        requires
            self.wf(),
        ensures
            self.names@.len() == self@.names.len(),
    {
        assert(name_views(self.names@).len() == self.names@.len());
    }

    /// Whether the pass can define a block under `name`: the blocks are
    /// numbered in 32 bits, so a new name needs a number that is left.
    pub open spec fn can_define(&self, name: Seq<char>) -> bool {
        name_views(self.names@).contains(name) || self.names@.len() < u32::MAX
    }

    /// Whether the pass can define a block under `name`.
    pub fn has_room_for(&self, name: &str) -> (r: bool)
        requires
            self.wf(),
        ensures
            r == self.can_define(name@),
    {
        self.is_defined(name) || self.names.len() < u32::MAX as usize
    }

    /// Defines the block `name`, empty, unless it is defined already.
    pub fn define_block(&mut self, name: &str)
        requires
            old(self).wf(),
            old(self).can_define(name@),
        ensures
            final(self).wf(),
            final(self)@ == old(self)@.defined(name@),
    {
        let known = self.is_defined(name);
        assert(name_views(self.names@).len() == self.names@.len());
        let _ = self.store.define_block(name);
        if !known {
            self.names.push(String::from_str(name));
        }
        proof {
            assert(name_views(self.names@) =~= block_names(self.store));
            assert forall|other: Seq<char>|
                block_texts(self.store).contains_key(other) <==> block_names(self.store).contains(
                    other,
                ) by {
                let before = block_names(old(self).store);
                let after = block_names(self.store);
                if known {
                } else {
                    if after.contains(other) {
                        let k = choose|k: int| 0 <= k < after.len() && after[k] == other;
                        if k < before.len() {
                            assert(before[k] == other);
                        }
                    }
                    if other == name@ {
                        assert(after[after.len() - 1] == other);
                    } else if before.contains(other) {
                        let k = choose|k: int| 0 <= k < before.len() && before[k] == other;
                        assert(after[k] == other);
                    }
                }
            }
            assert(frame_views(self.frames@) =~= frame_views(old(self).frames@));
        }
    }

    /// Adds `code` to the end of the block `name`. Refused with
    /// `UnboundBlock`, and nothing changes, where no such block is defined.
    pub fn append_code(&mut self, name: &str, code: &str) -> (r: Result<(), GraphError>)
        requires
            old(self).wf(),
        ensures
            final(self).wf(),
            r.is_ok() == old(self)@.texts.contains_key(name@),
            r.is_ok() ==> final(self)@ == old(self)@.appended(name@, code@),
            r.is_err() ==> r == Err::<(), GraphError>(GraphError::UnboundBlock(Unbound::Named))
                && final(self)@ == old(self)@,
    {
        let outcome = self.store.append_code(name, String::from_str(code));
        proof {
            assert(frame_views(self.frames@) =~= frame_views(old(self).frames@));
        }
        match outcome {
            Ok(()) => Ok(()),
            Err(_) => Err(GraphError::UnboundBlock(Unbound::Named)),
        }
    }

    /// Defines the block `name` if need be, and opens it: it is the
    /// innermost open block until it is closed, with nothing written yet.
    pub fn push_new_block(&mut self, name: &str)
        requires
            old(self).wf(),
            old(self).can_define(name@),
        ensures
            final(self).wf(),
            final(self)@ == old(self)@.opened(name@),
    {
        self.define_block(name);
        let ghost before = self.frames@;
        self.frames.push(Frame { name: String::from_str(name), memo: Vec::new() });
        proof {
            assert(frame_views(self.frames@) =~= frame_views(before).push(
                FrameView { name: name@, memo: Seq::empty() },
            ));
            assert forall|k: int| 0 <= k < self.frames@.len() implies block_texts(
                self.store,
            ).contains_key((#[trigger] self.frames@[k]).name@) by {
                if k < before.len() {
                    assert(self.frames@[k] == before[k]);
                }
            }
        }
    }

    /// Closes the innermost open block and gives its name. Refused with
    /// `UnboundBlock` where no block is open.
    pub fn pop(&mut self) -> (r: Result<String, GraphError>)
        requires
            old(self).wf(),
        ensures
            final(self).wf(),
            r.is_ok() == (old(self)@.open.len() > 0),
            r.is_ok() ==> final(self)@ == old(self)@.closed() && r.unwrap()@ == old(
                self,
            )@.open.last().name,
            r.is_err() ==> r == Err::<String, GraphError>(GraphError::UnboundBlock(Unbound::Open))
                && final(self)@ == old(self)@,
    {
        match self.frames.pop() {
            Some(frame) => {
                proof {
                    assert(frame_views(self.frames@) =~= frame_views(old(self).frames@).drop_last());
                    assert forall|k: int| 0 <= k < self.frames@.len() implies block_texts(
                        self.store,
                    ).contains_key((#[trigger] self.frames@[k]).name@) by {
                        assert(self.frames@[k] == old(self).frames@[k]);
                    }
                }
                Ok(frame.name)
            },
            None => {
                proof {
                    assert(frame_views(self.frames@) =~= frame_views(old(self).frames@));
                }
                Err(GraphError::UnboundBlock(Unbound::Open))
            },
        }
    }

    /// The number of open blocks.
    pub fn depth(&self) -> (n: usize)
        ensures
            n == self@.open.len(),
    {
        self.frames.len()
    }

    /// Whether the statement of node `id` was written into the innermost
    /// open block since that block was opened.
    pub fn is_emitted(&self, id: NodeId) -> (r: bool)
        ensures
            r == (self@.open.len() > 0 && self@.open.last().memo.contains(id)),
    {
        let depth = self.frames.len();
        if depth == 0 {
            return false;
        }
        let memo = &self.frames[depth - 1].memo;
        assert(self@.open.last().memo == memo@);
        let mut k: usize = 0;
        while k < memo.len()
            invariant
                self@.open.len() > 0,
                self@.open.last().memo == memo@,
                k <= memo@.len(),
                forall|j: int| 0 <= j < k ==> memo@[j] != id,
            decreases memo@.len() - k,
        {
            if memo[k] == id {
                return true;
            }
            k += 1;
        }
        false
    }

    /// Writes `code` into the innermost open block as the statement of node
    /// `id`. Refused with `UnboundBlock`, and nothing changes, where no
    /// block is open.
    pub fn emit(&mut self, id: NodeId, code: &str) -> (r: Result<(), GraphError>)
        requires
            old(self).wf(),
        ensures
            final(self).wf(),
            r.is_ok() == (old(self)@.open.len() > 0),
            r.is_ok() ==> final(self)@ == old(self)@.emitted(id, code@),
            r.is_err() ==> r == Err::<(), GraphError>(GraphError::UnboundBlock(Unbound::Open))
                && final(self)@ == old(self)@,
    {
        let depth = self.frames.len();
        if depth == 0 {
            return Err(GraphError::UnboundBlock(Unbound::Open));
        }
        let outcome = self.store.append_code(
            self.frames[depth - 1].name.as_str(),
            String::from_str(code),
        );
        let ghost frame = self.frames@[depth - 1]@;
        self.frames[depth - 1].memo.push(id);
        proof {
            assert(outcome.is_ok());
            assert(frame_views(self.frames@) =~= frame_views(old(self).frames@).update(
                depth - 1,
                FrameView { memo: frame.memo.push(id), ..frame },
            ));
            assert forall|k: int| 0 <= k < self.frames@.len() implies block_texts(
                self.store,
            ).contains_key((#[trigger] self.frames@[k]).name@) by {
                assert(self.frames@[k].name == old(self).frames@[k].name);
            }
        }
        Ok(())
    }

    /// Adds `code` to the end of the innermost open block. Refused with
    /// `UnboundBlock`, and nothing changes, where no block is open.
    pub fn append(&mut self, code: &str) -> (r: Result<(), GraphError>)
        requires
            old(self).wf(),
        ensures
            final(self).wf(),
            r.is_ok() == (old(self)@.open.len() > 0),
            r.is_ok() ==> final(self)@ == old(self)@.appended(old(self)@.open.last().name, code@),
            r.is_err() ==> r == Err::<(), GraphError>(GraphError::UnboundBlock(Unbound::Open))
                && final(self)@ == old(self)@,
    {
        let depth = self.frames.len();
        if depth == 0 {
            return Err(GraphError::UnboundBlock(Unbound::Open));
        }
        let outcome = self.store.append_code(
            self.frames[depth - 1].name.as_str(),
            String::from_str(code),
        );
        proof {
            assert(outcome.is_ok());
            assert(frame_views(self.frames@) =~= frame_views(old(self).frames@));
        }
        Ok(())
    }

    /// The text of the block `name`, if it is defined.
    pub fn block(&self, name: &str) -> (r: Option<String>)
        ensures
            r.is_some() == self@.texts.contains_key(name@),
            r.is_some() ==> r.unwrap()@ == self@.texts[name@],
    {
        match self.store.get_block(name) {
            Some(block) => Some(block.dump()),
            None => None,
        }
    }

    /// The text of all blocks, joined in the order of their definition.
    pub fn dump(&self) -> (text: String)
        ensures
            text@ == self@.dump(),
    {
        self.store.dump()
    }
}

} // verus!
