use shader_graph::error::GraphError;
use shader_graph::graph::{Graph, Source};
use shader_graph::node::{Node, NodeKind};
use shader_graph::value::{Literal, MathOp, UvChannel, ValueKind};

fn sources(graph: &Graph, id: usize) -> Vec<Option<Source>> {
    (0..graph.input_count(id)).map(|input| graph.source_of(id, input)).collect()
}

#[test]
fn a_new_graph_is_empty() {
    let graph = Graph::new();
    assert_eq!(graph.capacity(), 0);
    assert_eq!(graph.output(), None);
    assert_eq!(graph.changed_counter(), 0);
    assert!(!graph.contains(0));
    assert!(graph.get(0).is_none());
    assert_eq!(graph.kind_of(0), None);
    assert_eq!(graph.input_count(0), 0);
}

#[test]
fn add_gives_fresh_ids_and_counts_a_change() {
    let mut graph = Graph::new();
    let a = graph.add(Node::new(NodeKind::ScalarMath));
    let b = graph.add(Node::new(NodeKind::Uv));
    assert_eq!((a, b), (0, 1));
    assert_eq!(graph.changed_counter(), 2);
    assert_eq!(graph.kind_of(a), Some(NodeKind::ScalarMath));
    assert_eq!(graph.kind_of(b), Some(NodeKind::Uv));
    assert_eq!(sources(&graph, a), vec![None, None]);
    assert_eq!(sources(&graph, b), vec![]);
    graph.remove(b);
    let c = graph.add(Node::new(NodeKind::Fraction));
    assert_eq!(c, 2);
    assert!(!graph.contains(b));
}

#[test]
fn vec3_into_vec2_is_a_type_mismatch() {
    let mut graph = Graph::new();
    let three = graph.add(Node::new(NodeKind::Vec3Math));
    let two = graph.add(Node::new(NodeKind::Vec2Math));
    let counter = graph.changed_counter();
    assert_eq!(graph.connect(three, 0, two, 0), Err(GraphError::TypeMismatch));
    assert_eq!(graph.connect(three, 0, two, 1), Err(GraphError::TypeMismatch));
    assert_eq!(graph.changed_counter(), counter);
    assert_eq!(sources(&graph, two), vec![None, None]);
    assert!(!graph.depends(two, three));
}

#[test]
fn the_coercion_table_decides_what_connects() {
    let kinds = [
        (NodeKind::ScalarMath, NodeKind::Vec2Math, true),
        (NodeKind::ScalarMath, NodeKind::Vec3Math, true),
        (NodeKind::ScalarMath, NodeKind::Vec4Math, true),
        (NodeKind::ScalarMath, NodeKind::FragmentOutput, true),
        (NodeKind::Vec4Math, NodeKind::FragmentOutput, true),
        (NodeKind::TextureSample, NodeKind::Vec4Math, true),
        (NodeKind::Uv, NodeKind::TextureSample, true),
        (NodeKind::Vec2Math, NodeKind::ScalarMath, false),
        (NodeKind::Vec2Math, NodeKind::Vec3Math, false),
        (NodeKind::Vec2Math, NodeKind::Vec4Math, false),
        (NodeKind::Vec3Math, NodeKind::FragmentOutput, false),
        (NodeKind::ScalarMath, NodeKind::Mat2Math, false),
        (NodeKind::Mat2Math, NodeKind::Mat3Math, false),
        (NodeKind::Mat4Math, NodeKind::Vec4Math, false),
        (NodeKind::Mat3Math, NodeKind::Mat3Math, true),
    ];
    for (from, to, accepted) in kinds {
        let mut graph = Graph::new();
        let src = graph.add(Node::new(from));
        let dst = graph.add(Node::new(to));
        let outcome = graph.connect(src, 0, dst, 0);
        if accepted {
            assert_eq!(outcome, Ok(()), "{:?} into {:?}", from, to);
            assert_eq!(graph.source_of(dst, 0), Some(Source { node: src, output: 0 }));
        } else {
            assert_eq!(outcome, Err(GraphError::TypeMismatch), "{:?} into {:?}", from, to);
            assert_eq!(graph.source_of(dst, 0), None);
        }
    }
    assert!(ValueKind::Color.can_feed(ValueKind::Vec4));
    assert!(!ValueKind::Texture.can_feed(ValueKind::Vec4));
    assert!(ValueKind::Texture.can_feed(ValueKind::Texture));
}

#[test]
fn a_connection_that_closes_a_cycle_is_refused() {
    let mut graph = Graph::new();
    let a = graph.add(Node::new(NodeKind::ScalarMath));
    let b = graph.add(Node::new(NodeKind::ScalarMath));
    let c = graph.add(Node::new(NodeKind::ScalarMath));
    assert_eq!(graph.connect(b, 0, a, 0), Ok(()));
    assert_eq!(graph.connect(c, 0, b, 0), Ok(()));
    let counter = graph.changed_counter();
    assert_eq!(graph.connect(a, 0, c, 0), Err(GraphError::WouldCreateCycle));
    assert_eq!(graph.connect(a, 0, b, 1), Err(GraphError::WouldCreateCycle));
    assert_eq!(graph.connect(a, 0, a, 1), Err(GraphError::WouldCreateCycle));
    assert_eq!(graph.changed_counter(), counter);
    assert_eq!(sources(&graph, a), vec![Some(Source { node: b, output: 0 }), None]);
    assert_eq!(sources(&graph, b), vec![Some(Source { node: c, output: 0 }), None]);
    assert_eq!(sources(&graph, c), vec![None, None]);
    assert_eq!(graph.connect(c, 0, a, 1), Ok(()));
    assert_eq!(graph.dependency_order(a), Ok(vec![c, b, a]));
}

#[test]
fn sockets_that_do_not_exist_are_refused() {
    let mut graph = Graph::new();
    let math = graph.add(Node::new(NodeKind::ScalarMath));
    let sink = graph.add(Node::new(NodeKind::FragmentOutput));
    let counter = graph.changed_counter();
    assert_eq!(graph.connect(math, 1, sink, 0), Err(GraphError::InvalidSocket));
    assert_eq!(graph.connect(math, 0, sink, 1), Err(GraphError::InvalidSocket));
    assert_eq!(graph.connect(sink, 0, math, 0), Err(GraphError::InvalidSocket));
    assert_eq!(graph.connect(7, 0, sink, 0), Err(GraphError::InvalidSocket));
    assert_eq!(graph.connect(math, 0, 7, 0), Err(GraphError::InvalidSocket));
    assert_eq!(graph.disconnect(7, 0), Err(GraphError::InvalidSocket));
    assert_eq!(graph.disconnect(sink, 1), Err(GraphError::InvalidSocket));
    assert_eq!(graph.changed_counter(), counter);
    assert_eq!(graph.source_of(sink, 0), None);
    assert_eq!(graph.source_of(sink, 5), None);
    assert_eq!(graph.source_of(9, 0), None);
}

#[test]
fn an_input_has_one_producer() {
    let mut graph = Graph::new();
    let first = graph.add(Node::new(NodeKind::ScalarMath));
    let second = graph.add(Node::new(NodeKind::ScalarMath));
    let user = graph.add(Node::new(NodeKind::ScalarMath));
    assert_eq!(graph.connect(first, 0, user, 0), Ok(()));
    assert_eq!(graph.connect(second, 0, user, 0), Ok(()));
    assert_eq!(graph.source_of(user, 0), Some(Source { node: second, output: 0 }));
    assert!(!graph.depends(user, first));
    assert!(graph.depends(user, second));
    let counter = graph.changed_counter();
    assert_eq!(graph.disconnect(user, 0), Ok(()));
    assert_eq!(graph.changed_counter(), counter + 1);
    assert_eq!(graph.source_of(user, 0), None);
    assert!(!graph.depends(user, second));
}

#[test]
fn remove_takes_the_connections_along() {
    let mut graph = Graph::new();
    let a = graph.add(Node::new(NodeKind::ScalarMath));
    let b = graph.add(Node::new(NodeKind::ScalarMath));
    let c = graph.add(Node::new(NodeKind::ScalarMath));
    assert_eq!(graph.connect(a, 0, b, 0), Ok(()));
    assert_eq!(graph.connect(b, 0, c, 0), Ok(()));
    assert_eq!(graph.connect(a, 0, c, 1), Ok(()));
    graph.set_output(Some(b));
    let counter = graph.changed_counter();
    graph.remove(b);
    assert_eq!(graph.changed_counter(), counter + 1);
    assert!(!graph.contains(b));
    assert_eq!(sources(&graph, c), vec![None, Some(Source { node: a, output: 0 })]);
    assert_eq!(sources(&graph, a), vec![None, None]);
    assert_eq!(graph.output(), Some(b));
    assert_eq!(graph.capacity(), 3);
    graph.remove(b);
    assert_eq!(graph.changed_counter(), counter + 1);
    graph.remove(17);
    assert_eq!(graph.changed_counter(), counter + 1);
    assert_eq!(graph.dependency_order(b), Err(GraphError::InvalidSocket));
}

#[test]
fn every_change_is_counted() {
    let mut graph = Graph::new();
    let a = graph.add(Node::new(NodeKind::ScalarMath));
    let b = graph.add(Node::new(NodeKind::Uv));
    assert_eq!(graph.changed_counter(), 2);
    graph.set_output(Some(a));
    assert_eq!(graph.changed_counter(), 3);
    assert_eq!(graph.set_op(a, MathOp::Mul), Ok(()));
    assert_eq!(graph.changed_counter(), 4);
    assert_eq!(graph.set_channel(b, UvChannel::Uv2), Ok(()));
    assert_eq!(graph.changed_counter(), 5);
    assert_eq!(graph.set_default(a, 0, Literal::new(ValueKind::Scalar, "4")), Ok(()));
    assert_eq!(graph.changed_counter(), 6);
    graph.set_output(None);
    assert_eq!(graph.changed_counter(), 7);
    assert_eq!(graph.output(), None);
    assert_eq!(graph.get(a).unwrap().op, MathOp::Mul);
    assert_eq!(graph.get(b).unwrap().channel, UvChannel::Uv2);
    assert_eq!(graph.get(a).unwrap().defaults[0].code, "4");
}

#[test]
fn parameters_are_checked() {
    let mut graph = Graph::new();
    let matrix = graph.add(Node::new(NodeKind::Mat3Math));
    let uv = graph.add(Node::new(NodeKind::Uv));
    let scalar = graph.add(Node::new(NodeKind::ScalarMath));
    let counter = graph.changed_counter();
    assert_eq!(graph.set_op(matrix, MathOp::Div), Err(GraphError::TypeMismatch));
    assert_eq!(graph.set_op(uv, MathOp::Add), Err(GraphError::InvalidSocket));
    assert_eq!(graph.set_op(9, MathOp::Add), Err(GraphError::InvalidSocket));
    assert_eq!(graph.set_channel(scalar, UvChannel::Uv1), Err(GraphError::InvalidSocket));
    assert_eq!(graph.set_channel(9, UvChannel::Uv1), Err(GraphError::InvalidSocket));
    assert_eq!(
        graph.set_default(scalar, 0, Literal::new(ValueKind::Vec2, "vec2<f32>(1.0, 1.0)")),
        Err(GraphError::TypeMismatch)
    );
    assert_eq!(
        graph.set_default(scalar, 2, Literal::new(ValueKind::Scalar, "1")),
        Err(GraphError::InvalidSocket)
    );
    assert_eq!(
        graph.set_default(9, 0, Literal::new(ValueKind::Scalar, "1")),
        Err(GraphError::InvalidSocket)
    );
    assert_eq!(graph.changed_counter(), counter);
    assert_eq!(graph.set_op(matrix, MathOp::Mul), Ok(()));
    assert_eq!(graph.set_op(scalar, MathOp::Div), Ok(()));
}

#[test]
fn dependencies_follow_the_connections() {
    let mut graph = Graph::new();
    let a = graph.add(Node::new(NodeKind::Uv));
    let b = graph.add(Node::new(NodeKind::Vec2Math));
    let c = graph.add(Node::new(NodeKind::Vec2Math));
    let d = graph.add(Node::new(NodeKind::Vec2Math));
    let lone = graph.add(Node::new(NodeKind::Vec2Math));
    assert_eq!(graph.connect(a, 0, b, 0), Ok(()));
    assert_eq!(graph.connect(a, 0, c, 0), Ok(()));
    assert_eq!(graph.connect(c, 0, d, 0), Ok(()));
    assert_eq!(graph.connect(b, 0, d, 1), Ok(()));
    assert_eq!(graph.dependencies(d), vec![true, true, true, true, false]);
    assert_eq!(graph.dependencies(b), vec![true, true, false, false, false]);
    assert_eq!(graph.dependencies(a), vec![true, false, false, false, false]);
    assert!(graph.depends(d, a));
    assert!(graph.depends(d, d));
    assert!(!graph.depends(a, d));
    assert!(!graph.depends(d, lone));
    assert!(!graph.depends(d, 9));
    assert!(!graph.depends(9, d));
    assert_eq!(graph.dependency_order(d), Ok(vec![a, c, b, d]));
    assert_eq!(graph.dependency_order(lone), Ok(vec![lone]));
    assert_eq!(graph.dependency_order(9), Err(GraphError::InvalidSocket));
}

#[test]
fn the_order_of_evaluation_ends_with_the_target() {
    let mut graph = Graph::new();
    let a = graph.add(Node::new(NodeKind::ScalarMath));
    let b = graph.add(Node::new(NodeKind::ScalarMath));
    let sink = graph.add(Node::new(NodeKind::FragmentOutput));
    assert_eq!(graph.connect(a, 0, b, 0), Ok(()));
    assert_eq!(graph.connect(a, 0, b, 1), Ok(()));
    assert_eq!(graph.connect(b, 0, sink, 0), Ok(()));
    assert_eq!(graph.evaluation_plan(), Err(GraphError::MissingOutputNode));
    graph.set_output(Some(sink));
    assert_eq!(graph.evaluation_plan(), Ok(vec![a, b, sink]));
    assert_eq!(graph.evaluation_order(b), Ok(vec![a, b]));
    assert_eq!(graph.evaluation_order(9), Err(GraphError::InvalidSocket));
    graph.remove(sink);
    assert_eq!(graph.evaluation_plan(), Err(GraphError::MissingOutputNode));
}

#[test]
fn a_shader_only_node_is_not_evaluable() {
    let mut graph = Graph::new();
    let uv = graph.add(Node::new(NodeKind::Uv));
    let texture = graph.add(Node::new(NodeKind::TextureSample));
    let sink = graph.add(Node::new(NodeKind::FragmentOutput));
    let fraction = graph.add(Node::new(NodeKind::Fraction));
    assert_eq!(graph.connect(uv, 0, texture, 0), Ok(()));
    assert_eq!(graph.connect(texture, 0, sink, 0), Ok(()));
    graph.set_output(Some(sink));
    assert_eq!(graph.evaluation_plan(), Err(GraphError::NotEvaluable(uv)));
    assert_eq!(graph.evaluation_order(texture), Err(GraphError::NotEvaluable(uv)));
    assert_eq!(graph.evaluation_order(fraction), Err(GraphError::NotEvaluable(fraction)));
    assert_eq!(graph.disconnect(texture, 0), Ok(()));
    assert_eq!(graph.evaluation_plan(), Err(GraphError::NotEvaluable(texture)));
}

fn number(code: &str) -> f64 {
    code.parse().expect("a scalar literal is a number")
}

fn apply(kind: NodeKind, op: MathOp, args: Vec<f64>) -> Option<f64> {
    match (kind, op) {
        (NodeKind::FragmentOutput, _) => Some(args[0]),
        (NodeKind::ScalarMath, MathOp::Add) => Some(args[0] + args[1]),
        (NodeKind::ScalarMath, MathOp::Sub) => Some(args[0] - args[1]),
        (NodeKind::ScalarMath, MathOp::Mul) => Some(args[0] * args[1]),
        (NodeKind::ScalarMath, MathOp::Div) => Some(args[0] / args[1]),
        _ => None,
    }
}

#[test]
fn scalar_math_evaluates_to_the_sum() {
    let mut graph = Graph::new();
    let sum = graph.add(Node::new(NodeKind::ScalarMath));
    let sink = graph.add(Node::new(NodeKind::FragmentOutput));
    assert_eq!(graph.set_default(sum, 0, Literal::new(ValueKind::Scalar, "2.0")), Ok(()));
    assert_eq!(graph.set_default(sum, 1, Literal::new(ValueKind::Scalar, "3.0")), Ok(()));
    assert_eq!(graph.connect(sum, 0, sink, 0), Ok(()));
    let literal = |id: usize, input: usize| number(&graph.get(id).unwrap().defaults[input].code);
    assert_eq!(graph.evaluate(sum, literal, apply), Ok(5.0));
    assert_eq!(graph.evaluate(sink, literal, apply), Ok(5.0));
}

#[test]
fn a_shared_value_is_computed_once() {
    let mut graph = Graph::new();
    let sum = graph.add(Node::new(NodeKind::ScalarMath));
    let product = graph.add(Node::new(NodeKind::ScalarMath));
    let quotient = graph.add(Node::new(NodeKind::ScalarMath));
    assert_eq!(graph.set_default(sum, 0, Literal::new(ValueKind::Scalar, "2")), Ok(()));
    assert_eq!(graph.set_default(sum, 1, Literal::new(ValueKind::Scalar, "3")), Ok(()));
    assert_eq!(graph.set_default(quotient, 1, Literal::new(ValueKind::Scalar, "4")), Ok(()));
    assert_eq!(graph.set_op(product, MathOp::Mul), Ok(()));
    assert_eq!(graph.set_op(quotient, MathOp::Div), Ok(()));
    assert_eq!(graph.connect(sum, 0, product, 0), Ok(()));
    assert_eq!(graph.connect(sum, 0, product, 1), Ok(()));
    assert_eq!(graph.connect(product, 0, quotient, 0), Ok(()));
    let calls = std::cell::Cell::new(0);
    let counted = |kind: NodeKind, op: MathOp, args: Vec<f64>| {
        calls.set(calls.get() + 1);
        apply(kind, op, args)
    };
    let literal = |id: usize, input: usize| number(&graph.get(id).unwrap().defaults[input].code);
    assert_eq!(graph.evaluate(quotient, literal, counted), Ok(6.25));
    assert_eq!(calls.get(), 3);
}

#[test]
fn evaluation_is_refused_where_there_is_no_value() {
    let mut graph = Graph::new();
    let vector = graph.add(Node::new(NodeKind::Vec2Math));
    let uv = graph.add(Node::new(NodeKind::Uv));
    let scalar = graph.add(Node::new(NodeKind::ScalarMath));
    assert_eq!(graph.connect(scalar, 0, vector, 0), Ok(()));
    let literal = |_: usize, _: usize| 1.0;
    assert_eq!(graph.evaluate(scalar, literal, apply), Ok(2.0));
    assert_eq!(graph.evaluate(vector, literal, apply), Err(GraphError::TypeMismatch));
    assert_eq!(graph.evaluate(uv, literal, apply), Err(GraphError::NotEvaluable(uv)));
    assert_eq!(graph.evaluate(9, literal, apply), Err(GraphError::InvalidSocket));
    assert_eq!(graph.connect(uv, 0, vector, 1), Ok(()));
    assert_eq!(graph.evaluate(vector, literal, apply), Err(GraphError::NotEvaluable(uv)));
}
