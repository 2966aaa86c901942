//! The shaders that a material takes in place of those of its pipeline.

use vstd::prelude::*;

verus! {

/// The shaders that replace those of a material's pipeline, where set.
#[derive(Clone, Debug, PartialEq, Eq, Hash)]
pub struct ShaderGraph<H> {
    pub vertex: Option<H>,
    pub fragment: Option<H>,
}

impl<H> ShaderGraph<H> {
    /// No replacement.
    pub fn new() -> (r: ShaderGraph<H>)
        ensures
            r.vertex.is_none(),
            r.fragment.is_none(),
    {
        ShaderGraph { vertex: None, fragment: None }
    }

    /// The shaders of a pipeline after the replacement: the vertex shader
    /// is replaced where one is set; the fragment shader is replaced where
    /// one is set and the pipeline has a fragment stage.
    pub fn specialize(self, vertex: H, fragment: Option<H>) -> (r: (H, Option<H>))
        ensures
            r.0 == if self.vertex.is_some() {
                self.vertex.unwrap()
            } else {
                vertex
            },
            r.1 == if self.fragment.is_some() && fragment.is_some() {
                self.fragment
            } else {
                fragment
            },
    {
        let vertex = match self.vertex {
            Some(replacement) => replacement,
            None => vertex,
        };
        let fragment = match (self.fragment, fragment) {
            (Some(replacement), Some(_)) => Some(replacement),
            (_, fragment) => fragment,
        };
        (vertex, fragment)
    }
}

} // verus!
