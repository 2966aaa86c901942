use shader_graph::error::GraphError;
use shader_graph::graph::{Graph, Source};
use shader_graph::node::{Node, NodeKind};
use shader_graph::record::{GraphRecord, LinkRecord, NodeRecord};
use shader_graph::registry::{NodeRegistry, NodeTypeDescriptor};
use shader_graph::value::{Literal, MathOp, UvChannel, ValueKind};

const KINDS: [NodeKind; 11] = [
    NodeKind::ScalarMath,
    NodeKind::Vec2Math,
    NodeKind::Vec3Math,
    NodeKind::Vec4Math,
    NodeKind::Mat2Math,
    NodeKind::Mat3Math,
    NodeKind::Mat4Math,
    NodeKind::Fraction,
    NodeKind::TextureSample,
    NodeKind::Uv,
    NodeKind::FragmentOutput,
];

#[test]
fn the_catalogue_is_registered_by_name() {
    let registry = NodeRegistry::build();
    for kind in KINDS {
        let node = registry.new_by_name(kind.display_name()).expect("a kind of the catalogue");
        assert_eq!(node.kind, kind);
        assert_eq!(node.op, MathOp::Add);
        assert_eq!(node.channel, UvChannel::Uv0);
        assert_eq!(node.defaults.len(), kind.input_count());
        assert!(node.is_well_formed());
        let descriptor = registry.descriptor_of(kind.display_name()).unwrap();
        assert_eq!(descriptor.name, kind.display_name());
        assert_eq!(descriptor.description, kind.description());
        assert_eq!(descriptor.category, kind.category());
        assert_eq!(descriptor.inputs.len(), kind.input_count());
        assert_eq!(descriptor.outputs.len(), kind.output_count());
    }
    assert!(registry.contains("Fragment output"));
    assert!(!registry.contains("fragment output"));
}

#[test]
fn an_unknown_name_is_refused() {
    let registry = NodeRegistry::build();
    assert_eq!(registry.new_by_name("Noise").err(), Some(GraphError::UnknownNodeType));
    assert!(registry.descriptor_of("Noise").is_none());
    let empty = NodeRegistry::new();
    assert_eq!(empty.new_by_name("Scalar Math").err(), Some(GraphError::UnknownNodeType));
}

#[test]
fn the_last_registration_counts() {
    let mut registry = NodeRegistry::new();
    let descriptor = |description: &str| NodeTypeDescriptor {
        name: "Custom".to_string(),
        description: description.to_string(),
        category: vec!["Math".to_string()],
        inputs: vec![ValueKind::Vec4],
        outputs: vec![ValueKind::Vec4],
    };
    assert!(!registry.register(descriptor("first"), Node::new(NodeKind::Fraction)));
    assert!(!registry.register_kind(NodeKind::Uv));
    assert!(registry.register(descriptor("second"), Node::new(NodeKind::Vec4Math)));
    assert_eq!(registry.new_by_name("Custom").unwrap().kind, NodeKind::Vec4Math);
    assert_eq!(registry.descriptor_of("Custom").unwrap().description, "second");
    assert_eq!(registry.new_by_name("UV Node").unwrap().kind, NodeKind::Uv);
}

#[test]
fn the_kinds_describe_their_sockets() {
    assert_eq!(NodeKind::ScalarMath.input_count(), 2);
    assert_eq!(NodeKind::ScalarMath.input_kind(1), ValueKind::Scalar);
    assert_eq!(NodeKind::ScalarMath.output_kind(0), ValueKind::Scalar);
    assert_eq!(NodeKind::Mat4Math.input_kind(0), ValueKind::Mat4);
    assert_eq!(NodeKind::Fraction.input_count(), 1);
    assert_eq!(NodeKind::Fraction.output_kind(0), ValueKind::Vec4);
    assert_eq!(NodeKind::TextureSample.input_kind(0), ValueKind::Vec2);
    assert_eq!(NodeKind::TextureSample.input_kind(1), ValueKind::Texture);
    assert_eq!(NodeKind::TextureSample.output_kind(0), ValueKind::Vec4);
    assert_eq!(NodeKind::Uv.input_count(), 0);
    assert_eq!(NodeKind::Uv.output_kind(0), ValueKind::Vec2);
    assert_eq!(NodeKind::FragmentOutput.input_kind(0), ValueKind::Color);
    assert_eq!(NodeKind::FragmentOutput.output_count(), 0);
    assert_eq!(NodeKind::Vec3Math.operand_kind(), Some(ValueKind::Vec3));
    assert_eq!(NodeKind::Uv.operand_kind(), None);
    assert!(NodeKind::Vec2Math.is_evaluable());
    assert!(NodeKind::FragmentOutput.is_evaluable());
    assert!(!NodeKind::TextureSample.is_evaluable());
    assert_eq!(NodeKind::ScalarMath.category(), vec!["Math", "Basic"]);
    assert_eq!(NodeKind::Fraction.category(), vec!["Math"]);
    assert_eq!(NodeKind::Fraction.description(), "");
}

#[test]
fn expressions_follow_the_kind() {
    let args = vec!["a".to_string(), "b".to_string()];
    assert_eq!(NodeKind::ScalarMath.render(MathOp::Add, &args), "a + b");
    assert_eq!(NodeKind::Vec3Math.render(MathOp::Sub, &args), "a - b");
    assert_eq!(NodeKind::Mat2Math.render(MathOp::Mul, &args), "a * b");
    assert_eq!(NodeKind::Vec4Math.render(MathOp::Div, &args), "a / b");
    assert_eq!(
        NodeKind::TextureSample.render(MathOp::Add, &args),
        "\ntextureSampleBias(pbr_bindings::base_color_texture, pbr_bindings::base_color_sampler, a, view.mip_bias)\n"
    );
    let one = vec!["x".to_string()];
    assert_eq!(NodeKind::Fraction.render(MathOp::Add, &one), "fract(x)");
    assert_eq!(NodeKind::FragmentOutput.render(MathOp::Add, &one), "x");
    assert_eq!(NodeKind::Uv.render(MathOp::Add, &vec![]), "in.uv");
}

#[test]
fn a_node_keeps_its_parameters_in_bounds() {
    let mut node = Node::new(NodeKind::Mat2Math);
    assert_eq!(node.set_op(MathOp::Div), Err(GraphError::TypeMismatch));
    assert_eq!(node.set_op(MathOp::Sub), Ok(()));
    assert_eq!(node.op, MathOp::Sub);
    assert_eq!(node.set_channel(UvChannel::Uv3), Err(GraphError::InvalidSocket));
    assert_eq!(
        node.set_default(0, Literal::new(ValueKind::Mat3, "m")),
        Err(GraphError::TypeMismatch)
    );
    assert_eq!(node.set_default(2, Literal::new(ValueKind::Mat2, "m")), Err(GraphError::InvalidSocket));
    assert_eq!(node.set_default(1, Literal::new(ValueKind::Mat2, "m")), Ok(()));
    let copy = node.duplicate();
    assert_eq!(copy.kind, NodeKind::Mat2Math);
    assert_eq!(copy.op, MathOp::Sub);
    assert_eq!(copy.defaults[1].code, "m");
    assert_eq!(copy.defaults[1].kind, ValueKind::Mat2);
    let mut uv = Node::new(NodeKind::Uv);
    assert_eq!(uv.set_op(MathOp::Add), Err(GraphError::InvalidSocket));
    assert_eq!(uv.set_channel(UvChannel::Uv3), Ok(()));
    assert_eq!(uv.channel, UvChannel::Uv3);
    let mut broken = Node::new(NodeKind::ScalarMath);
    broken.defaults.pop();
    assert!(!broken.is_well_formed());
}

fn sample() -> Graph {
    let mut graph = Graph::new();
    let uv = graph.add(Node::new(NodeKind::Uv));
    let gone = graph.add(Node::new(NodeKind::Fraction));
    let texture = graph.add(Node::new(NodeKind::TextureSample));
    let math = graph.add(Node::new(NodeKind::Vec4Math));
    let sink = graph.add(Node::new(NodeKind::FragmentOutput));
    graph.remove(gone);
    graph.set_channel(uv, UvChannel::Uv1).unwrap();
    graph.set_op(math, MathOp::Mul).unwrap();
    graph
        .set_default(math, 1, Literal::new(ValueKind::Vec4, "vec4<f32>(0.5, 0.5, 0.5, 1.0)"))
        .unwrap();
    graph.connect(uv, 0, texture, 0).unwrap();
    graph.connect(texture, 0, math, 0).unwrap();
    graph.connect(math, 0, sink, 0).unwrap();
    graph.set_output(Some(sink));
    graph
}

fn same_graph(first: &Graph, second: &Graph) {
    assert_eq!(first.capacity(), second.capacity());
    assert_eq!(first.output(), second.output());
    for id in 0..first.capacity() {
        assert_eq!(first.contains(id), second.contains(id));
        if let (Some(a), Some(b)) = (first.get(id), second.get(id)) {
            assert_eq!(a.kind, b.kind);
            assert_eq!(a.op, b.op);
            assert_eq!(a.channel, b.channel);
            assert_eq!(a.defaults.len(), b.defaults.len());
            for (x, y) in a.defaults.iter().zip(b.defaults.iter()) {
                assert_eq!((x.kind, &x.code), (y.kind, &y.code));
            }
            for input in 0..first.input_count(id) {
                assert_eq!(first.source_of(id, input), second.source_of(id, input));
            }
        }
    }
}

#[test]
fn a_stored_graph_is_read_back_as_it_was() {
    let graph = sample();
    let record = graph.to_record();
    assert_eq!(record.next_id, 5);
    assert_eq!(record.output, Some(4));
    let ids: Vec<usize> = record.nodes.iter().map(|node| node.id).collect();
    assert_eq!(ids, vec![0, 2, 3, 4]);
    let names: Vec<&str> = record.nodes.iter().map(|node| node.node_type.as_str()).collect();
    assert_eq!(names, vec!["UV Node", "Texture Sample", "Vec4 Math", "Fragment output"]);
    assert_eq!(
        record.links,
        vec![
            LinkRecord { node: 2, input: 0, source: Source { node: 0, output: 0 } },
            LinkRecord { node: 3, input: 0, source: Source { node: 2, output: 0 } },
            LinkRecord { node: 4, input: 0, source: Source { node: 3, output: 0 } },
        ]
    );
    let read = Graph::from_record(&record, &NodeRegistry::build()).expect("what was stored is read");
    same_graph(&graph, &read);
    assert_eq!(read.changed_counter(), 0);
    let mut read = read;
    assert_eq!(read.add(Node::new(NodeKind::Uv)), 5);
}

fn scalar(id: usize) -> NodeRecord {
    NodeRecord {
        id,
        node_type: "Scalar Math".to_string(),
        op: MathOp::Add,
        channel: UvChannel::Uv0,
        defaults: vec![Literal::new(ValueKind::Scalar, "1"), Literal::new(ValueKind::Scalar, "2")],
    }
}

fn link(node: usize, input: usize, from: usize) -> LinkRecord {
    LinkRecord { node, input, source: Source { node: from, output: 0 } }
}

fn read(record: &GraphRecord) -> Option<GraphError> {
    Graph::from_record(record, &NodeRegistry::build()).err()
}

#[test]
fn an_unknown_type_stops_the_reading() {
    let mut unknown = scalar(1);
    unknown.node_type = "Noise".to_string();
    let record = GraphRecord {
        next_id: 1,
        nodes: vec![scalar(5), unknown],
        links: vec![],
        output: None,
    };
    assert_eq!(read(&record), Some(GraphError::UnknownNodeType));
    let empty = NodeRegistry::new();
    let plain = GraphRecord { next_id: 1, nodes: vec![scalar(0)], links: vec![], output: None };
    assert_eq!(Graph::from_record(&plain, &empty).err(), Some(GraphError::UnknownNodeType));
    assert_eq!(read(&plain), None);
}

#[test]
fn a_record_that_describes_no_graph_is_malformed() {
    let with = |nodes: Vec<NodeRecord>, links: Vec<LinkRecord>| GraphRecord {
        next_id: 2,
        nodes,
        links,
        output: None,
    };
    assert_eq!(read(&with(vec![scalar(0), scalar(1)], vec![link(1, 0, 0)])), None);
    assert_eq!(read(&with(vec![scalar(0), scalar(2)], vec![])), Some(GraphError::Malformed));
    assert_eq!(read(&with(vec![scalar(0), scalar(0)], vec![])), Some(GraphError::Malformed));
    let mut short = scalar(1);
    short.defaults.pop();
    assert_eq!(read(&with(vec![scalar(0), short], vec![])), Some(GraphError::Malformed));
    let mut wrong = scalar(1);
    wrong.defaults[0] = Literal::new(ValueKind::Vec2, "v");
    assert_eq!(read(&with(vec![scalar(0), wrong], vec![])), Some(GraphError::Malformed));
    let mut divided = scalar(1);
    divided.node_type = "Mat2 Math".to_string();
    divided.op = MathOp::Div;
    divided.defaults =
        vec![Literal::new(ValueKind::Mat2, "m"), Literal::new(ValueKind::Mat2, "m")];
    assert_eq!(read(&with(vec![scalar(0), divided], vec![])), Some(GraphError::Malformed));
    let nodes = || vec![scalar(0), scalar(1)];
    assert_eq!(read(&with(nodes(), vec![link(1, 2, 0)])), Some(GraphError::Malformed));
    assert_eq!(read(&with(nodes(), vec![link(3, 0, 0)])), Some(GraphError::Malformed));
    assert_eq!(read(&with(nodes(), vec![link(1, 0, 3)])), Some(GraphError::Malformed));
    assert_eq!(
        read(&with(nodes(), vec![link(1, 0, 0), link(1, 0, 0)])),
        Some(GraphError::Malformed)
    );
    let far = LinkRecord { node: 1, input: 0, source: Source { node: 0, output: 1 } };
    assert_eq!(read(&with(nodes(), vec![far])), Some(GraphError::Malformed));
    let mut vector = scalar(1);
    vector.node_type = "Vec2 Math".to_string();
    vector.defaults = vec![Literal::new(ValueKind::Vec2, "v"), Literal::new(ValueKind::Vec2, "v")];
    let mut back = scalar(0);
    back.id = 0;
    assert_eq!(read(&with(vec![back, vector], vec![link(0, 0, 1)])), Some(GraphError::Malformed));
}
