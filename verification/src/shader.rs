//! The fixed text of the fragment shader that the output node writes.

use vstd::prelude::*;

verus! {

/// The name of the block that holds the imports.
pub const IMPORTS_BLOCK: &'static str = "imports";

/// The name of the block that holds the bindings.
pub const BINDINGS_BLOCK: &'static str = "bindings";

/// The name of the block that holds the fragment function.
pub const FRAGMENT_BLOCK: &'static str = "fragment";

/// What the output node adds to the imports.
pub const IMPORTS: &'static str = r#"
#import bevy_pbr::{
	pbr_fragment::pbr_input_from_standard_material,
	pbr_functions::alpha_discard,
	pbr_bindings,
	mesh_view_bindings::view,
	mesh_functions,
	skinning,
	view_transformations::position_world_to_clip,
}
#import bevy_render::instance_index::get_instance_index

#ifdef PREPASS_PIPELINE
#import bevy_pbr::{
	prepass_io::{Vertex, VertexOutput, FragmentOutput},
	pbr_deferred_functions::deferred_output,
}
#else
#import bevy_pbr::{
	forward_io::{Vertex, VertexOutput, FragmentOutput},
	pbr_functions::{apply_pbr_lighting, main_pass_post_lighting_processing},
	pbr_types::STANDARD_MATERIAL_FLAGS_UNLIT_BIT,
}
#endif
"#;

/// What the output node adds to the bindings.
pub const BINDINGS: &'static str = r#"
struct ShaderGraphMaterialUniform {
  prop_vec4: vec4<f32>,
};

@group(1) @binding(100) var<uniform> material: ShaderGraphMaterialUniform;
"#;

/// The head of the fragment function, up to the statements of the graph.
pub const FRAGMENT_HEAD: &'static str = r##"
@fragment
fn fragment(
  v_in: VertexOutput,
  @builtin(front_facing) is_front: bool,
) -> FragmentOutput {
	var in = v_in;

	// get PbrInput from StandardMaterial bindings.
	var pbr_input = pbr_input_from_standard_material(in, is_front);
"##;

/// What stands before the color in the statement that takes it.
pub const COLOR_HEAD: &'static str = r#"
  // Color from graph input `color`.
  pbr_input.material.base_color = "#;

/// What stands after the color in the statement that takes it.
pub const COLOR_TAIL: &'static str = r#";
"#;

/// The rest of the fragment function.
pub const FRAGMENT_TAIL: &'static str = r#"
	// alpha discard
  pbr_input.material.base_color = alpha_discard(pbr_input.material, pbr_input.material.base_color);

#ifdef PREPASS_PIPELINE
	// No lighting in deferred mode.
	let out = deferred_output(in, pbr_input);
#else
	var out: FragmentOutput;
  if (pbr_input.material.flags & STANDARD_MATERIAL_FLAGS_UNLIT_BIT) == 0u {
		out.color = apply_pbr_lighting(pbr_input);
	} else {
		out.color = pbr_input.material.base_color;
  }

	// Apply PBR post processing.
	out.color = main_pass_post_lighting_processing(pbr_input, out.color);
#endif

  return out;
}
"#;

/// The body of the fragment function: the statements of the graph, then the
/// statement that takes the color.
pub open spec fn fragment_body(statements: Seq<char>, color: Seq<char>) -> Seq<char> {
    FRAGMENT_HEAD@ + statements + COLOR_HEAD@ + color + COLOR_TAIL@ + FRAGMENT_TAIL@
}

/// The imports and the bindings are not empty.
pub proof fn lemma_fixed_blocks_filled()
    ensures
        IMPORTS@.len() > 0,
        BINDINGS@.len() > 0,
{
    reveal_strlit(
        r#"
#import bevy_pbr::{
	pbr_fragment::pbr_input_from_standard_material,
	pbr_functions::alpha_discard,
	pbr_bindings,
	mesh_view_bindings::view,
	mesh_functions,
	skinning,
	view_transformations::position_world_to_clip,
}
#import bevy_render::instance_index::get_instance_index

#ifdef PREPASS_PIPELINE
#import bevy_pbr::{
	prepass_io::{Vertex, VertexOutput, FragmentOutput},
	pbr_deferred_functions::deferred_output,
}
#else
#import bevy_pbr::{
	forward_io::{Vertex, VertexOutput, FragmentOutput},
	pbr_functions::{apply_pbr_lighting, main_pass_post_lighting_processing},
	pbr_types::STANDARD_MATERIAL_FLAGS_UNLIT_BIT,
}
#endif
"#,
    );
    reveal_strlit(
        r#"
struct ShaderGraphMaterialUniform {
  prop_vec4: vec4<f32>,
};

@group(1) @binding(100) var<uniform> material: ShaderGraphMaterialUniform;
"#,
    );
}

/// The fragment function is never empty, whatever the graph gives.
pub proof fn lemma_fragment_body_filled(statements: Seq<char>, color: Seq<char>)
    ensures
        fragment_body(statements, color).len() > 0,
{
    reveal_strlit(";\n");
    assert(COLOR_TAIL@.len() == 2);
}

} // verus!
