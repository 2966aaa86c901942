use shader_graph::compile::{compile_graph, variable_name};
use shader_graph::context::CompileContext;
use shader_graph::error::{GraphError, Unbound};
use shader_graph::graph::{Graph, Source};
use shader_graph::node::{Node, NodeKind};
use shader_graph::record::{GraphRecord, LinkRecord, NodeRecord};
use shader_graph::registry::NodeRegistry;
use shader_graph::shader::{
    BINDINGS, COLOR_HEAD, COLOR_TAIL, FRAGMENT_HEAD, FRAGMENT_TAIL, IMPORTS,
};
use shader_graph::value::{Literal, MathOp, UvChannel, ValueKind};

fn count(text: &str, part: &str) -> usize {
    text.matches(part).count()
}

#[test]
fn scalar_math_feeds_fragment_color() {
    let mut graph = Graph::new();
    let math = graph.add(Node::new(NodeKind::ScalarMath));
    let sink = graph.add(Node::new(NodeKind::FragmentOutput));
    assert_eq!(graph.set_default(math, 0, Literal::new(ValueKind::Scalar, "2")), Ok(()));
    assert_eq!(graph.set_default(math, 1, Literal::new(ValueKind::Scalar, "3")), Ok(()));
    assert_eq!(graph.connect(math, 0, sink, 0), Ok(()));
    graph.set_output(Some(sink));

    let code = compile_graph(&graph).expect("an acyclic graph with an output node compiles");
    assert_eq!(code.order, vec![math]);
    let fragment = code.get("fragment").expect("the fragment block");
    assert!(fragment.contains("\n  let node_0 = 2 + 3;"));
    assert!(fragment.contains("pbr_input.material.base_color = vec4<f32>(node_0);"));
    assert!(code.get("imports").expect("the imports").contains("#import bevy_pbr::{"));
    assert!(code.get("bindings").expect("the bindings").contains("ShaderGraphMaterialUniform"));
}

#[test]
fn fragment_shader_text_is_exact() {
    let mut graph = Graph::new();
    let math = graph.add(Node::new(NodeKind::Vec4Math));
    let sink = graph.add(Node::new(NodeKind::FragmentOutput));
    assert_eq!(graph.set_op(math, MathOp::Mul), Ok(()));
    assert_eq!(graph.connect(math, 0, sink, 0), Ok(()));
    graph.set_output(Some(sink));

    let code = compile_graph(&graph).unwrap();
    let names: Vec<&str> = code.blocks.iter().map(|block| block.name.as_str()).collect();
    assert_eq!(names, vec!["imports", "bindings", "fragment"]);
    assert_eq!(code.get("imports").unwrap().as_str(), IMPORTS);
    assert_eq!(code.get("bindings").unwrap().as_str(), BINDINGS);
    let zero = "vec4<f32>(0.0, 0.0, 0.0, 0.0)";
    let fragment = format!(
        "{}\n  let node_0 = {} * {};{}node_0{}{}",
        FRAGMENT_HEAD, zero, zero, COLOR_HEAD, COLOR_TAIL, FRAGMENT_TAIL
    );
    assert_eq!(code.get("fragment").unwrap().as_str(), fragment);
    assert_eq!(code.dump(), format!("{}{}{}", IMPORTS, BINDINGS, fragment));
    assert!(code.get("vertex").is_none());
}

#[test]
fn every_block_of_a_pass_is_filled() {
    let mut graph = Graph::new();
    let sink = graph.add(Node::new(NodeKind::FragmentOutput));
    graph.set_output(Some(sink));
    let code = compile_graph(&graph).unwrap();
    assert_eq!(code.blocks.len(), 3);
    for block in &code.blocks {
        assert!(!block.text.is_empty());
    }
    assert!(code.order.is_empty());
    assert!(code
        .get("fragment")
        .unwrap()
        .contains("pbr_input.material.base_color = vec4<f32>(0.0, 0.0, 0.0, 0.0);"));
}

#[test]
fn texture_without_uv_uses_its_default() {
    let mut graph = Graph::new();
    let texture = graph.add(Node::new(NodeKind::TextureSample));
    let sink = graph.add(Node::new(NodeKind::FragmentOutput));
    assert_eq!(graph.connect(texture, 0, sink, 0), Ok(()));
    graph.set_output(Some(sink));

    let code = compile_graph(&graph).expect("an unconnected input is read from its default");
    let fragment = code.get("fragment").unwrap();
    assert!(fragment.contains(
        "\n  let node_0 = \ntextureSampleBias(pbr_bindings::base_color_texture, pbr_bindings::base_color_sampler, vec2<f32>(0.0, 0.0), view.mip_bias)\n;"
    ));
    assert!(fragment.contains("pbr_input.material.base_color = node_0;"));
}

#[test]
fn texture_reads_a_connected_uv() {
    let mut graph = Graph::new();
    let uv = graph.add(Node::new(NodeKind::Uv));
    let texture = graph.add(Node::new(NodeKind::TextureSample));
    let sink = graph.add(Node::new(NodeKind::FragmentOutput));
    assert_eq!(graph.set_channel(uv, UvChannel::Uv1), Ok(()));
    assert_eq!(graph.connect(uv, 0, texture, 0), Ok(()));
    assert_eq!(graph.connect(texture, 0, sink, 0), Ok(()));
    graph.set_output(Some(sink));

    let code = compile_graph(&graph).unwrap();
    assert_eq!(code.order, vec![uv, texture]);
    let fragment = code.get("fragment").unwrap();
    assert!(fragment.contains("\n  let node_0 = in.uv;"));
    assert!(fragment.contains("base_color_sampler, node_0, view.mip_bias)"));
}

#[test]
fn shared_value_is_emitted_once() {
    let mut graph = Graph::new();
    let a = graph.add(Node::new(NodeKind::Uv));
    let b = graph.add(Node::new(NodeKind::Vec2Math));
    let c = graph.add(Node::new(NodeKind::Vec2Math));
    let d = graph.add(Node::new(NodeKind::Vec2Math));
    assert_eq!(graph.connect(a, 0, b, 0), Ok(()));
    assert_eq!(graph.connect(a, 0, c, 1), Ok(()));
    assert_eq!(graph.connect(b, 0, d, 0), Ok(()));
    assert_eq!(graph.connect(c, 0, d, 1), Ok(()));
    graph.set_output(Some(d));

    let mut context = CompileContext::new();
    context.push_new_block("main");
    let order = context.compile_graph(&graph).unwrap();
    assert_eq!(order, vec![a, b, c, d]);
    let text = context.block("main").unwrap();
    assert_eq!(count(&text, "let node_0 = in.uv;"), 1);
    assert_eq!(count(&text, "let node_"), 4);
    assert!(text.contains("\n  let node_1 = node_0 + vec2<f32>(0.0, 0.0);"));
    assert!(text.contains("\n  let node_2 = vec2<f32>(0.0, 0.0) + node_0;"));
    assert!(text.contains("\n  let node_3 = node_1 + node_2;"));
    assert!(context.is_emitted(a));
    assert!(context.is_emitted(d));
}

#[test]
fn a_second_pass_in_one_block_writes_only_what_is_new() {
    let mut graph = Graph::new();
    let a = graph.add(Node::new(NodeKind::ScalarMath));
    let b = graph.add(Node::new(NodeKind::ScalarMath));
    assert_eq!(graph.connect(a, 0, b, 0), Ok(()));

    let mut context = CompileContext::new();
    context.push_new_block("main");
    assert_eq!(context.compile_value(&graph, a), Ok(vec![a]));
    let first = context.block("main").unwrap();
    assert_eq!(first, "\n  let node_0 = 0.0 + 0.0;");
    assert_eq!(context.compile_value(&graph, b), Ok(vec![a, b]));
    let second = context.block("main").unwrap();
    assert_eq!(second, "\n  let node_0 = 0.0 + 0.0;\n  let node_1 = node_0 + 0.0;");
}

#[test]
fn a_new_block_is_a_new_scope() {
    let mut graph = Graph::new();
    let a = graph.add(Node::new(NodeKind::ScalarMath));
    let mut context = CompileContext::new();
    context.push_new_block("outer");
    assert_eq!(context.compile_value(&graph, a), Ok(vec![a]));
    context.push_new_block("inner");
    assert!(!context.is_emitted(a));
    assert_eq!(context.compile_value(&graph, a), Ok(vec![a]));
    assert_eq!(context.block("inner").unwrap(), "\n  let node_0 = 0.0 + 0.0;");
    assert_eq!(context.pop().unwrap(), "inner");
    assert!(context.is_emitted(a));
    assert_eq!(context.pop().unwrap(), "outer");
    assert_eq!(context.pop(), Err(GraphError::UnboundBlock(Unbound::Open)));
}

#[test]
fn missing_output_is_refused() {
    let mut graph = Graph::new();
    let sink = graph.add(Node::new(NodeKind::FragmentOutput));
    assert_eq!(compile_graph(&graph).err(), Some(GraphError::MissingOutputNode));
    graph.set_output(Some(sink));
    assert!(compile_graph(&graph).is_ok());
    graph.remove(sink);
    assert_eq!(compile_graph(&graph).err(), Some(GraphError::MissingOutputNode));
    graph.set_output(None);
    assert_eq!(compile_graph(&graph).err(), Some(GraphError::MissingOutputNode));
}

#[test]
fn a_value_without_a_block_is_unbound() {
    let mut graph = Graph::new();
    let math = graph.add(Node::new(NodeKind::ScalarMath));
    graph.set_output(Some(math));
    assert_eq!(compile_graph(&graph).err(), Some(GraphError::UnboundBlock(Unbound::Open)));
    let mut context = CompileContext::new();
    assert_eq!(context.compile_graph(&graph), Err(GraphError::UnboundBlock(Unbound::Open)));
    assert_eq!(context.dump(), "");
}

#[test]
fn an_output_node_needs_its_blocks() {
    let mut graph = Graph::new();
    let sink = graph.add(Node::new(NodeKind::FragmentOutput));
    graph.set_output(Some(sink));
    let mut context = CompileContext::new();
    assert_eq!(context.compile_graph(&graph), Err(GraphError::UnboundBlock(Unbound::Imports)));
    context.define_block("imports");
    assert_eq!(context.compile_graph(&graph), Err(GraphError::UnboundBlock(Unbound::Bindings)));
    assert_eq!(context.dump(), "");
    assert!(!context.is_defined("fragment"));
    context.define_block("bindings");
    assert_eq!(context.compile_graph(&graph), Ok(vec![]));
    assert!(context.is_defined("fragment"));
    assert_eq!(context.depth(), 0);
}

fn cyclic_record() -> GraphRecord {
    let node = |id: usize| NodeRecord {
        id,
        node_type: "Scalar Math".to_string(),
        op: MathOp::Add,
        channel: UvChannel::Uv0,
        defaults: vec![
            Literal::new(ValueKind::Scalar, "1"),
            Literal::new(ValueKind::Scalar, "1"),
        ],
    };
    GraphRecord {
        next_id: 2,
        nodes: vec![node(0), node(1)],
        links: vec![
            LinkRecord { node: 0, input: 0, source: Source { node: 1, output: 0 } },
            LinkRecord { node: 1, input: 0, source: Source { node: 0, output: 0 } },
        ],
        output: Some(0),
    }
}

#[test]
fn a_cycle_is_detected_in_a_stored_graph() {
    let registry = NodeRegistry::build();
    let graph = Graph::from_record(&cyclic_record(), &registry).expect("the record is well formed");
    assert!(graph.depends(0, 1));
    assert!(graph.depends(1, 0));
    let mut context = CompileContext::new();
    context.push_new_block("main");
    assert_eq!(context.compile_graph(&graph), Err(GraphError::CycleDetected(0)));
    assert_eq!(context.block("main").unwrap(), "");
    assert_eq!(compile_graph(&graph).err(), Some(GraphError::CycleDetected(0)));
    assert_eq!(graph.dependency_order(0), Err(GraphError::CycleDetected(0)));
    assert_eq!(graph.evaluation_order(1), Err(GraphError::CycleDetected(1)));
    let one = |_: usize, _: usize| 1u8;
    let first = |_: NodeKind, _: MathOp, args: Vec<u8>| args.first().copied();
    assert_eq!(graph.evaluate(1, one, first), Err(GraphError::CycleDetected(1)));
}

#[test]
fn blocks_keep_their_text_in_the_order_of_definition() {
    let mut context = CompileContext::new();
    context.define_block("second");
    context.define_block("first");
    context.define_block("second");
    assert_eq!(context.append_code("first", "b"), Ok(()));
    assert_eq!(context.append_code("second", "a"), Ok(()));
    assert_eq!(context.append_code("first", "c"), Ok(()));
    assert_eq!(context.append_code("third", "x"), Err(GraphError::UnboundBlock(Unbound::Named)));
    assert_eq!(context.block_count(), 2);
    assert!(context.has_room_for("third"));
    assert_eq!(context.dump(), "abc");
    assert_eq!(context.block("first").as_deref(), Some("bc"));
    assert_eq!(context.block("second").as_deref(), Some("a"));
    assert_eq!(context.block("third"), None);
    let blocks = context.blocks();
    assert_eq!(blocks.len(), 2);
    assert_eq!((blocks[0].name.as_str(), blocks[0].text.as_str()), ("second", "a"));
    assert_eq!((blocks[1].name.as_str(), blocks[1].text.as_str()), ("first", "bc"));
}

#[test]
fn text_goes_to_the_innermost_open_block() {
    let mut context = CompileContext::new();
    assert_eq!(context.append("x"), Err(GraphError::UnboundBlock(Unbound::Open)));
    assert_eq!(context.emit(3, "x"), Err(GraphError::UnboundBlock(Unbound::Open)));
    assert!(!context.is_emitted(3));
    context.push_new_block("outer");
    assert_eq!(context.append("1"), Ok(()));
    context.push_new_block("inner");
    assert_eq!(context.depth(), 2);
    assert_eq!(context.append("2"), Ok(()));
    assert_eq!(context.emit(3, "3"), Ok(()));
    assert!(context.is_emitted(3));
    assert!(!context.is_emitted(4));
    assert_eq!(context.pop().unwrap(), "inner");
    assert_eq!(context.append("4"), Ok(()));
    assert_eq!(context.block("outer").as_deref(), Some("14"));
    assert_eq!(context.block("inner").as_deref(), Some("23"));
    assert_eq!(context.dump(), "1423");
}

#[test]
fn variables_are_named_by_node() {
    assert_eq!(variable_name(0), "node_0");
    assert_eq!(variable_name(42), "node_42");
    assert_eq!(variable_name(1000), "node_1000");
}

#[test]
fn statements_follow_the_kind_of_the_node() {
    let mut graph = Graph::new();
    let scalar = graph.add(Node::new(NodeKind::ScalarMath));
    let fraction = graph.add(Node::new(NodeKind::Fraction));
    let matrix = graph.add(Node::new(NodeKind::Mat2Math));
    let color = graph.add(Node::new(NodeKind::Vec4Math));
    assert_eq!(graph.set_op(scalar, MathOp::Div), Ok(()));
    assert_eq!(graph.set_op(matrix, MathOp::Sub), Ok(()));
    assert_eq!(graph.connect(scalar, 0, fraction, 0), Ok(()));
    assert_eq!(graph.connect(fraction, 0, color, 1), Ok(()));
    assert_eq!(graph.statement_code(scalar), "\n  let node_0 = 0.0 / 0.0;");
    assert_eq!(graph.statement_code(fraction), "\n  let node_1 = fract(vec4<f32>(node_0));");
    assert_eq!(
        graph.statement_code(matrix),
        "\n  let node_2 = mat2x2(vec2<f32>(1.0, 0.0), vec2<f32>(0.0, 1.0)) - mat2x2(vec2<f32>(1.0, 0.0), vec2<f32>(0.0, 1.0));"
    );
    assert_eq!(
        graph.statement_code(color),
        "\n  let node_3 = vec4<f32>(0.0, 0.0, 0.0, 0.0) + node_1;"
    );
    assert_eq!(graph.argument_code(fraction, 0), "vec4<f32>(node_0)");
    assert_eq!(graph.argument_code(scalar, 1), "0.0");
}
