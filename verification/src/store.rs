//! Named blocks of generated text, kept by `node_engine::NodeGraphCompile`.
//!
//! The items of this file state what the block store does; they are believed,
//! not proved. Everything else in the crate is proved against them.

use vstd::prelude::*;
use crate::text::concat;

verus! {

/// The block store of `node_engine`.
#[verifier::external_type_specification]
#[verifier::external_body]
pub struct ExNodeGraphCompile(node_engine::NodeGraphCompile);

/// One block of the store.
#[verifier::external_type_specification]
#[verifier::external_body]
pub struct ExCodeBlock(node_engine::CodeBlock);

/// The store's handle of a block.
#[verifier::external_type_specification]
#[verifier::external_body]
pub struct ExCodeBlockId(node_engine::CodeBlockId);

/// The error of the store's fallible calls.
#[verifier::external_type_specification]
#[verifier::external_body]
pub struct ExAnyhowError(anyhow::Error);

/// The text accumulated so far under each block name of the store.
pub uninterp spec fn block_texts(store: node_engine::NodeGraphCompile) -> Map<Seq<char>, Seq<char>>;

/// The block names of the store, in the order in which they were defined.
pub uninterp spec fn block_names(store: node_engine::NodeGraphCompile) -> Seq<Seq<char>>;

/// The text accumulated in one block.
pub uninterp spec fn block_text(block: node_engine::CodeBlock) -> Seq<char>;

/// The texts of a store without blocks.
pub open spec fn no_blocks() -> Map<Seq<char>, Seq<char>> {
    Map::empty()
}

/// The texts of `names`, looked up in `texts`, one after the other.
pub open spec fn joined(texts: Map<Seq<char>, Seq<char>>, names: Seq<Seq<char>>) -> Seq<char> {
    concat(Seq::new(names.len(), |i: int| texts[names[i]]))
}

/// `NodeGraphCompile::new` gives a store without blocks.
pub assume_specification[ node_engine::NodeGraphCompile::new ]() -> (store: node_engine::NodeGraphCompile)
    ensures
        block_texts(store) == no_blocks(),
        block_names(store) == Seq::<Seq<char>>::empty(),
;

/// `NodeGraphCompile::define_block` leaves a block that is already defined as
/// it is; a new name gets an empty block, last in the order of definition.
/// The store numbers its blocks in 32 bits, one number for each new name,
/// so the call is for a name that is defined or a store that has numbers
/// left.
pub assume_specification[ node_engine::NodeGraphCompile::define_block ](
    store: &mut node_engine::NodeGraphCompile,
    name: &str,
) -> (id: node_engine::CodeBlockId)
    requires
        block_texts(*old(store)).contains_key(name@) || block_names(*old(store)).len() < u32::MAX,
    ensures
        block_texts(*final(store)) == if block_texts(*old(store)).contains_key(name@) {
            block_texts(*old(store))
        } else {
            block_texts(*old(store)).insert(name@, Seq::empty())
        },
        block_names(*final(store)) == if block_texts(*old(store)).contains_key(name@) {
            block_names(*old(store))
        } else {
            block_names(*old(store)).push(name@)
        },
;

/// `NodeGraphCompile::append_code` adds `code` to the end of the named block,
/// and fails, changing nothing, when no block has that name.
pub assume_specification[ node_engine::NodeGraphCompile::append_code ](
    store: &mut node_engine::NodeGraphCompile,
    name: &str,
    code: String,
) -> (r: Result<(), anyhow::Error>)
    ensures
        r.is_ok() == block_texts(*old(store)).contains_key(name@),
        r.is_ok() ==> block_texts(*final(store)) == block_texts(*old(store)).insert(
            name@,
            block_texts(*old(store))[name@] + code@,
        ),
        r.is_err() ==> block_texts(*final(store)) == block_texts(*old(store)),
        block_names(*final(store)) == block_names(*old(store)),
;

/// `NodeGraphCompile::dump` joins the texts of all blocks in the order in
/// which the blocks were defined.
pub assume_specification[ node_engine::NodeGraphCompile::dump ](
    store: &node_engine::NodeGraphCompile,
) -> (text: String)
    ensures
        text@ == joined(block_texts(*store), block_names(*store)),
;

/// `NodeGraphCompile::get_block` finds the block of a name that was defined.
pub assume_specification<'a>[ node_engine::NodeGraphCompile::get_block ](
    store: &'a node_engine::NodeGraphCompile,
    name: &str,
) -> (found: Option<&'a node_engine::CodeBlock>)
    ensures
        found.is_some() == block_texts(*store).contains_key(name@),
        found.is_some() ==> block_text(*found.unwrap()) == block_texts(*store)[name@],
;

/// `CodeBlock::dump` gives the text of the block.
pub assume_specification[ node_engine::CodeBlock::dump ](block: &node_engine::CodeBlock) -> (text: String)
    ensures
        text@ == block_text(*block),
;

} // verus!
