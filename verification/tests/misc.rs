use shader_graph::editor::{shader_editor, ShaderGraphEditor};
use shader_graph::material::ShaderGraph;
use shader_graph::error::{GraphError, Unbound};
use shader_graph::graph::Graph;
use shader_graph::node::{Node, NodeKind};
use shader_graph::record::GraphRecord;
use shader_graph::registry::NodeRegistry;
use shader_graph::shader::{BINDINGS, IMPORTS};
use shader_graph::text::{decimal_text, digit_text};
use shader_graph::value::{Literal, MathOp, ValueKind};

#[test]
fn numbers_are_written_in_decimal() {
    assert_eq!(decimal_text(0), "0");
    assert_eq!(decimal_text(7), "7");
    assert_eq!(decimal_text(10), "10");
    assert_eq!(decimal_text(109), "109");
    assert_eq!(decimal_text(12345), "12345");
    assert_eq!(decimal_text(usize::MAX), usize::MAX.to_string());
    assert_eq!(digit_text(0), "0");
    assert_eq!(digit_text(9), "9");
}

#[test]
fn kinds_have_their_shader_names() {
    assert_eq!(ValueKind::Scalar.shader_name(), "f32");
    assert_eq!(ValueKind::Vec2.shader_name(), "vec2<f32>");
    assert_eq!(ValueKind::Vec3.shader_name(), "vec3<f32>");
    assert_eq!(ValueKind::Vec4.shader_name(), "vec4<f32>");
    assert_eq!(ValueKind::Mat2.shader_name(), "mat2x2<f32>");
    assert_eq!(ValueKind::Mat3.shader_name(), "mat3x3<f32>");
    assert_eq!(ValueKind::Mat4.shader_name(), "mat4x4<f32>");
    assert_eq!(ValueKind::Color.shader_name(), "vec4<f32>");
    assert_eq!(ValueKind::Texture.shader_name(), "texture_2d<f32>");
    assert_eq!(MathOp::Add.symbol(), " + ");
    assert_eq!(MathOp::Sub.symbol(), " - ");
    assert_eq!(MathOp::Mul.symbol(), " * ");
    assert_eq!(MathOp::Div.symbol(), " / ");
}

#[test]
fn a_scalar_is_spread_over_a_vector() {
    let x = || "x".to_string();
    assert_eq!(ValueKind::Scalar.coerce(ValueKind::Vec2, x()), "vec2<f32>(x)");
    assert_eq!(ValueKind::Scalar.coerce(ValueKind::Vec3, x()), "vec3<f32>(x)");
    assert_eq!(ValueKind::Scalar.coerce(ValueKind::Color, x()), "vec4<f32>(x)");
    assert_eq!(ValueKind::Scalar.coerce(ValueKind::Scalar, x()), "x");
    assert_eq!(ValueKind::Vec4.coerce(ValueKind::Color, x()), "x");
    assert_eq!(ValueKind::Color.coerce(ValueKind::Vec4, x()), "x");
    assert_eq!(ValueKind::Mat2.coerce(ValueKind::Mat2, x()), "x");
}

#[test]
fn fresh_inputs_hold_the_default_of_their_kind() {
    assert_eq!(Literal::default_of(ValueKind::Scalar).code, "0.0");
    assert_eq!(Literal::default_of(ValueKind::Vec2).code, "vec2<f32>(0.0, 0.0)");
    assert_eq!(Literal::default_of(ValueKind::Vec3).code, "vec3<f32>(0.0, 0.0, 0.0)");
    assert_eq!(Literal::default_of(ValueKind::Color).code, "vec4<f32>(0.0, 0.0, 0.0, 0.0)");
    assert_eq!(
        Literal::default_of(ValueKind::Mat2).code,
        "mat2x2(vec2<f32>(1.0, 0.0), vec2<f32>(0.0, 1.0))"
    );
    assert_eq!(
        Literal::default_of(ValueKind::Vec4).code,
        Literal::default_of(ValueKind::Color).code
    );
    assert_eq!(
        Literal::default_of(ValueKind::Mat3).code,
        "mat3x3(vec3<f32>(1.0, 0.0, 0.0), vec3<f32>(0.0, 1.0, 0.0), vec3<f32>(0.0, 0.0, 1.0))"
    );
    assert_eq!(
        Literal::default_of(ValueKind::Mat4).code,
        "mat4x4(vec4<f32>(1.0, 0.0, 0.0, 0.0), vec4<f32>(0.0, 1.0, 0.0, 0.0), vec4<f32>(0.0, 0.0, 1.0, 0.0), vec4<f32>(0.0, 0.0, 0.0, 1.0))"
    );
    assert_eq!(Literal::default_of(ValueKind::Texture).code, "vec4<f32>(0.5, 0.5, 0., 1.)");
    assert_eq!(Literal::default_of(ValueKind::Texture).kind, ValueKind::Texture);
    let literal = Literal::new(ValueKind::Vec3, "vec3<f32>(1.0, 2.0, 3.0)");
    let copy = literal.duplicate();
    assert_eq!((copy.kind, copy.code.as_str()), (ValueKind::Vec3, "vec3<f32>(1.0, 2.0, 3.0)"));
}

#[test]
fn failures_have_their_texts() {
    assert_eq!(GraphError::UnknownNodeType.describe(), "unknown node type");
    assert_eq!(GraphError::InvalidSocket.describe(), "invalid socket");
    assert_eq!(GraphError::TypeMismatch.describe(), "type mismatch");
    assert_eq!(GraphError::WouldCreateCycle.describe(), "connection would create a cycle");
    assert_eq!(GraphError::CycleDetected(2).describe(), "cycle detected at node 2");
    assert_eq!(GraphError::CycleDetected(140).describe(), "cycle detected at node 140");
    assert_eq!(GraphError::NotEvaluable(3).describe(), "no value outside a shader for node 3");
    assert_eq!(GraphError::MissingOutputNode.describe(), "missing output node");
    assert_eq!(GraphError::Malformed.describe(), "malformed graph");
    let unbound = |block: Unbound| GraphError::UnboundBlock(block).describe();
    assert_eq!(unbound(Unbound::Named), "unbound block: the block named is not defined");
    assert_eq!(unbound(Unbound::Open), "unbound block: no block is open");
    assert_eq!(unbound(Unbound::Imports), "unbound block: imports");
    assert_eq!(unbound(Unbound::Bindings), "unbound block: bindings");
    assert_eq!(unbound(Unbound::Fragment), "unbound block: fragment");
    assert_eq!(Unbound::Fragment.describe(), "fragment");
}

#[test]
fn a_new_editor_holds_the_fragment_output() {
    let editor = ShaderGraphEditor::new();
    assert_eq!(editor.title, "Graph editor");
    assert_eq!(editor.graph.capacity(), 1);
    assert_eq!(editor.graph.kind_of(0), Some(NodeKind::FragmentOutput));
    assert_eq!(editor.graph.output(), Some(0));
    assert!(editor.open);
    assert!(editor.open_preview);
    assert!(editor.changed);
    assert_eq!(editor.code, "");
    assert_eq!(editor.last_change_counter, 0);
    assert_eq!(editor.graph.changed_counter(), 2);
    assert_eq!(editor.last_error_msg, None);
    assert!(!editor.compile_failed);
}

#[test]
fn the_text_is_generated_when_the_graph_has_changed() {
    let mut editor = ShaderGraphEditor::new();
    assert!(editor.ui(None));
    assert_eq!(editor.last_change_counter, editor.graph.changed_counter());
    assert!(editor.code.starts_with(IMPORTS));
    assert!(editor.code.contains(BINDINGS));
    assert!(editor.code.contains("pbr_input.material.base_color = vec4<f32>(0.0, 0.0, 0.0, 0.0);"));
    assert_eq!(editor.last_error_msg, None);
    assert_eq!(editor.recompile(), Some(editor.code.clone()));
    assert_eq!(editor.recompile(), None);
    assert!(!editor.ui(None));
    assert!(!editor.changed);

    let math = editor.graph.add(Node::new(NodeKind::Vec4Math));
    assert_eq!(editor.graph.connect(math, 0, 0, 0), Ok(()));
    assert!(editor.ui(None));
    assert!(editor.changed);
    assert!(editor.code.contains("\n  let node_1 = "));
    assert!(editor.code.contains("pbr_input.material.base_color = node_1;"));
    assert_eq!(editor.recompile(), Some(editor.code.clone()));
}

#[test]
fn a_failed_pass_keeps_the_last_text() {
    let mut editor = ShaderGraphEditor::new();
    assert!(editor.ui(None));
    let text = editor.code.clone();
    assert_eq!(editor.recompile(), Some(text.clone()));
    editor.graph.set_output(None);
    assert!(editor.ui(None));
    assert_eq!(editor.code, text);
    assert_eq!(
        editor.last_error_msg.as_deref(),
        Some("Failed to compile shader graph: missing output node")
    );
    assert!(editor.compile_failed);
    assert!(editor.changed);
    let math = editor.graph.add(Node::new(NodeKind::ScalarMath));
    editor.graph.set_output(Some(math));
    editor.generate_code();
    assert_eq!(
        editor.last_error_msg.as_deref(),
        Some("Failed to compile shader graph: unbound block: no block is open")
    );
    editor.graph.set_output(Some(0));
    editor.generate_code();
    assert_eq!(editor.last_error_msg, None);
    assert!(!editor.compile_failed);
    assert_eq!(editor.code, text);
}

#[test]
fn a_removed_output_node_leaves_no_fragment() {
    let mut editor = ShaderGraphEditor::new();
    let output = editor.graph.output().unwrap();
    editor.graph.remove(output);
    editor.generate_code();
    assert!(!editor.code.contains("@fragment"));
    assert!(!editor.code.contains("pbr_input.material.base_color"));
    assert_eq!(
        editor.last_error_msg.as_deref(),
        Some("Failed to compile shader graph: missing output node")
    );
    assert!(editor.ui(None));
    assert_eq!(editor.code, "");
}

#[test]
fn a_cycle_is_shown_with_its_node() {
    let scalar = |id: usize| shader_graph::record::NodeRecord {
        id,
        node_type: "Vec4 Math".to_string(),
        op: MathOp::Add,
        channel: shader_graph::value::UvChannel::Uv0,
        defaults: vec![Literal::new(ValueKind::Vec4, "a"), Literal::new(ValueKind::Vec4, "b")],
    };
    let sink = shader_graph::record::NodeRecord {
        id: 0,
        node_type: "Fragment output".to_string(),
        op: MathOp::Add,
        channel: shader_graph::value::UvChannel::Uv0,
        defaults: vec![Literal::new(ValueKind::Color, "c")],
    };
    let link = |node: usize, from: usize| shader_graph::record::LinkRecord {
        node,
        input: 0,
        source: shader_graph::graph::Source { node: from, output: 0 },
    };
    let record = GraphRecord {
        next_id: 3,
        nodes: vec![sink, scalar(1), scalar(2)],
        links: vec![link(0, 1), link(1, 2), link(2, 1)],
        output: Some(0),
    };
    let mut editor = ShaderGraphEditor::new();
    assert!(editor.ui(None));
    let text = editor.code.clone();
    assert_eq!(editor.load(&record, &NodeRegistry::build()), Ok(()));
    assert!(editor.ui(None));
    assert_eq!(editor.code, text);
    assert_eq!(
        editor.last_error_msg.as_deref(),
        Some("Failed to compile shader graph: cycle detected at node 1")
    );
}

#[test]
fn a_save_that_failed_outlives_a_regeneration() {
    let mut editor = ShaderGraphEditor::new();
    assert!(editor.ui(Some(Err("disk full".to_string()))));
    assert!(editor.code.contains("@fragment"));
    assert_eq!(editor.last_error_msg.as_deref(), Some("Failed to save: disk full"));
    assert!(!editor.compile_failed);
    let math = editor.graph.add(Node::new(NodeKind::Vec4Math));
    assert_eq!(editor.graph.connect(math, 0, 0, 0), Ok(()));
    assert!(editor.ui(None));
    assert_eq!(editor.last_error_msg.as_deref(), Some("Failed to save: disk full"));
    assert!(!editor.ui(Some(Ok(()))));
    assert_eq!(editor.last_error_msg, None);
    assert!(!editor.ui(Some(Err("no such directory".to_string()))));
    assert_eq!(editor.last_error_msg.as_deref(), Some("Failed to save: no such directory"));
    assert!(!editor.ui(None));
    assert_eq!(editor.last_error_msg.as_deref(), Some("Failed to save: no such directory"));
}

#[test]
fn a_compile_failure_is_cleared_by_the_next_pass_that_compiles() {
    let mut editor = ShaderGraphEditor::new();
    editor.graph.set_output(None);
    assert!(editor.ui(None));
    assert!(editor.compile_failed);
    editor.graph.set_output(Some(0));
    assert!(editor.ui(None));
    assert_eq!(editor.last_error_msg, None);
    assert!(!editor.compile_failed);
    editor.graph.set_output(None);
    assert!(editor.ui(Some(Err("disk full".to_string()))));
    assert_eq!(
        editor.last_error_msg.as_deref(),
        Some("Failed to compile shader graph: missing output node")
    );
}

#[test]
fn outcomes_leave_their_message() {
    let mut editor = ShaderGraphEditor::new();
    let failed: Result<u8, String> = Err(GraphError::Malformed.describe());
    assert_eq!(
        editor.handle_result("Failed to save", failed),
        Err("malformed graph".to_string())
    );
    assert_eq!(editor.last_error_msg.as_deref(), Some("Failed to save: malformed graph"));
    assert_eq!(editor.handle_result("Failed to save", Ok(3u8)), Ok(3));
    assert_eq!(editor.last_error_msg, None);
    let mut graph = Graph::new();
    let three = graph.add(Node::new(NodeKind::Vec3Math));
    let two = graph.add(Node::new(NodeKind::Vec2Math));
    let refused = graph.connect(three, 0, two, 0).map_err(|error| error.describe());
    assert_eq!(editor.handle_result("Failed to connect", refused), Err("type mismatch".to_string()));
    assert_eq!(editor.last_error_msg.as_deref(), Some("Failed to connect: type mismatch"));
    let back = graph.connect(two, 0, two, 1).map_err(|error| error.describe());
    assert!(editor.handle_result("Failed to connect", back).is_err());
    assert_eq!(
        editor.last_error_msg.as_deref(),
        Some("Failed to connect: connection would create a cycle")
    );
}

#[test]
fn windows_open_and_close() {
    let mut editor = ShaderGraphEditor::new();
    editor.toggle_open();
    assert!(!editor.open);
    assert!(editor.open_preview);
    editor.toggle_open_preview();
    assert!(!editor.open_preview);
    editor.toggle_open();
    assert!(editor.open);
    assert!(editor.show(false));
    assert!(!editor.open);
    assert!(editor.show_preview(true));
    assert!(editor.open_preview);
    assert_eq!(editor.recompile(), Some(String::new()));
    assert!(!editor.show(true));
    assert!(!editor.show_preview(false));
}

#[test]
fn keys_reach_the_windows_unless_a_field_has_the_keyboard() {
    let mut editor = ShaderGraphEditor::new();
    shader_editor(&mut editor, true, true, true);
    assert!(editor.open && editor.open_preview);
    shader_editor(&mut editor, false, true, false);
    assert!(!editor.open && editor.open_preview);
    shader_editor(&mut editor, false, false, true);
    assert!(!editor.open && !editor.open_preview);
    shader_editor(&mut editor, false, true, true);
    assert!(editor.open && editor.open_preview);
    shader_editor(&mut editor, false, false, false);
    assert!(editor.open && editor.open_preview);
}

#[test]
fn a_text_edited_by_hand_counts_as_changed() {
    let mut editor = ShaderGraphEditor::new();
    assert!(editor.ui(None));
    assert!(editor.recompile().is_some());
    editor.preview_ui("// by hand".to_string());
    assert!(editor.changed);
    assert_eq!(editor.recompile().as_deref(), Some("// by hand"));
    assert!(!editor.ui(None));
}

#[test]
fn an_editor_stores_and_loads_its_graph() {
    let mut editor = ShaderGraphEditor::new();
    let math = editor.graph.add(Node::new(NodeKind::Vec4Math));
    assert_eq!(editor.graph.connect(math, 0, 0, 0), Ok(()));
    assert!(editor.ui(None));
    let text = editor.code.clone();
    let record = editor.save();

    let registry = NodeRegistry::build();
    let mut other = ShaderGraphEditor::new();
    assert!(other.ui(None));
    assert!(other.recompile().is_some());
    let before = other.code.clone();
    assert_eq!(other.load(&record, &registry), Ok(()));
    assert!(other.changed);
    assert_eq!(other.last_change_counter, 0);
    assert_eq!(other.graph.changed_counter(), 1);
    assert_eq!(other.graph.kind_of(math), Some(NodeKind::Vec4Math));
    assert_eq!(other.code, before);
    assert!(other.ui(None));
    assert_eq!(other.code, text);
    assert_ne!(other.code, before);
    assert!(!other.ui(None));
    let again = editor.save();
    assert_eq!(again.next_id, record.next_id);
    assert_eq!(again.links, record.links);
    let ids = |record: &GraphRecord| record.nodes.iter().map(|node| node.id).collect::<Vec<_>>();
    assert_eq!(ids(&again), ids(&record));

    let broken = GraphRecord { next_id: 0, nodes: record.nodes, links: vec![], output: None };
    let before = other.graph.capacity();
    assert_eq!(other.load(&broken, &registry), Err(GraphError::Malformed));
    assert_eq!(other.graph.capacity(), before);
    assert_eq!(other.load(&broken, &NodeRegistry::new()), Err(GraphError::UnknownNodeType));
}

#[test]
fn set_shaders_replace_those_of_the_pipeline() {
    let none: ShaderGraph<u32> = ShaderGraph::new();
    assert_eq!(none.specialize(1, Some(2)), (1, Some(2)));
    let both = ShaderGraph { vertex: Some(7u32), fragment: Some(8u32) };
    assert_eq!(both.clone().specialize(1, Some(2)), (7, Some(8)));
    assert_eq!(both.specialize(1, None), (7, None));
    let fragment = ShaderGraph { vertex: None, fragment: Some(8u32) };
    assert_eq!(fragment.specialize(1, Some(2)), (1, Some(8)));
}

#[test]
fn a_graph_without_cycles_compiles_from_every_output_node() {
    let mut graph = Graph::new();
    let sink = graph.add(Node::new(NodeKind::FragmentOutput));
    graph.set_output(Some(sink));
    let mut last = sink;
    for step in 0..20 {
        let next = graph.add(Node::new(NodeKind::Vec4Math));
        assert_eq!(graph.connect(next, 0, last, 0), Ok(()));
        if step > 0 {
            assert_eq!(graph.connect(next, 0, last, 1), Ok(()));
        }
        last = next;
    }
    let code = shader_graph::compile::compile_graph(&graph).unwrap();
    assert_eq!(code.order.len(), 20);
    assert_eq!(code.order.first(), Some(&last));
    assert_eq!(code.get("fragment").unwrap().matches("\n  let node_").count(), 20);
}
