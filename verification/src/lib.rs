//! A typed node graph for shader authoring: the graph model, dependency
//! ordering with cycle detection, and a compiler that turns a graph into
//! named blocks of shader text.

pub mod compile;
pub mod context;
pub mod editor;
pub mod error;
pub mod eval;
pub mod graph;
pub mod material;
pub mod node;
pub mod order;
pub mod reach;
pub mod record;
pub mod registry;
pub mod shader;
pub mod store;
pub mod text;
pub mod value;
