//! The catalogue of node kinds, and node instances.

use vstd::prelude::*;
use vstd::string::StringExecFns;
use crate::error::GraphError;
use crate::value::{
    duplicate_literals, literal_views, Literal, LiteralView, MathOp, UvChannel, ValueKind,
};

verus! {

/// The kinds of node that a graph can hold.
#[derive(Clone, Copy, Debug, PartialEq, Eq, Hash, Structural)]
pub enum NodeKind {
    ScalarMath,
    Vec2Math,
    Vec3Math,
    Vec4Math,
    Mat2Math,
    Mat3Math,
    Mat4Math,
    Fraction,
    TextureSample,
    Uv,
    FragmentOutput,
}

impl NodeKind {
    /// The kind of value on which a math node works, if the node is one.
    pub open spec fn operand(self) -> Option<ValueKind> {
        match self {
            NodeKind::ScalarMath => Some(ValueKind::Scalar),
            NodeKind::Vec2Math => Some(ValueKind::Vec2),
            NodeKind::Vec3Math => Some(ValueKind::Vec3),
            NodeKind::Vec4Math => Some(ValueKind::Vec4),
            NodeKind::Mat2Math => Some(ValueKind::Mat2),
            NodeKind::Mat3Math => Some(ValueKind::Mat3),
            NodeKind::Mat4Math => Some(ValueKind::Mat4),
            _ => None,
        }
    }

    /// The kind of value on which a math node works, if the node is one.
    pub fn operand_kind(self) -> (r: Option<ValueKind>)
        ensures
            r == self.operand(),
    {
        match self {
            NodeKind::ScalarMath => Some(ValueKind::Scalar),
            NodeKind::Vec2Math => Some(ValueKind::Vec2),
            NodeKind::Vec3Math => Some(ValueKind::Vec3),
            NodeKind::Vec4Math => Some(ValueKind::Vec4),
            NodeKind::Mat2Math => Some(ValueKind::Mat2),
            NodeKind::Mat3Math => Some(ValueKind::Mat3),
            NodeKind::Mat4Math => Some(ValueKind::Mat4),
            _ => None,
        }
    }

    /// The kinds of the inputs, in socket order.
    pub open spec fn inputs(self) -> Seq<ValueKind> {
        match self.operand() {
            Some(kind) => seq![kind, kind],
            None => match self {
                NodeKind::Fraction => seq![ValueKind::Vec4],
                NodeKind::TextureSample => seq![ValueKind::Vec2, ValueKind::Texture],
                NodeKind::FragmentOutput => seq![ValueKind::Color],
                _ => seq![],
            },
        }
    }

    /// The kinds of the outputs, in socket order.
    pub open spec fn outputs(self) -> Seq<ValueKind> {
        match self.operand() {
            Some(kind) => seq![kind],
            None => match self {
                NodeKind::Fraction => seq![ValueKind::Vec4],
                NodeKind::TextureSample => seq![ValueKind::Vec4],
                NodeKind::Uv => seq![ValueKind::Vec2],
                _ => seq![],
            },
        }
    }

    /// The number of inputs.
    pub fn input_count(self) -> (n: usize)
        ensures
            n == self.inputs().len(),
            n <= 2,
    {
        match self {
            NodeKind::Fraction | NodeKind::FragmentOutput => 1,
            NodeKind::Uv => 0,
            _ => 2,
        }
    }

    /// The kind of the input at `index`.
    pub fn input_kind(self, index: usize) -> (kind: ValueKind)
        requires
            index < self.inputs().len(),
        ensures
            kind == self.inputs()[index as int],
    {
        match self.operand_kind() {
            Some(kind) => kind,
            None => match self {
                NodeKind::Fraction => ValueKind::Vec4,
                NodeKind::TextureSample => if index == 0 {
                    ValueKind::Vec2
                } else {
                    ValueKind::Texture
                },
                _ => ValueKind::Color,
            },
        }
    }

    /// The number of outputs.
    pub fn output_count(self) -> (n: usize)
        ensures
            n == self.outputs().len(),
            n <= 1,
    {
        match self {
            NodeKind::FragmentOutput => 0,
            _ => 1,
        }
    }

    /// The kind of the output at `index`.
    pub fn output_kind(self, index: usize) -> (kind: ValueKind)
        requires
            index < self.outputs().len(),
        ensures
            kind == self.outputs()[index as int],
    {
        match self.operand_kind() {
            Some(kind) => kind,
            None => match self {
                NodeKind::Uv => ValueKind::Vec2,
                _ => ValueKind::Vec4,
            },
        }
    }

    /// Whether the operator `op` can be set on a node of this kind: on a math
    /// node, where matrices have no division.
    pub open spec fn allows(self, op: MathOp) -> bool {
        match self {
            NodeKind::ScalarMath | NodeKind::Vec2Math | NodeKind::Vec3Math | NodeKind::Vec4Math => true,
            NodeKind::Mat2Math | NodeKind::Mat3Math | NodeKind::Mat4Math => op != MathOp::Div,
            _ => false,
        }
    }

    /// Whether the operator `op` can be set on a node of this kind.
    pub fn permits(self, op: MathOp) -> (r: bool)
        ensures
            r == self.allows(op),
    {
        match self {
            NodeKind::ScalarMath | NodeKind::Vec2Math | NodeKind::Vec3Math | NodeKind::Vec4Math => true,
            NodeKind::Mat2Math | NodeKind::Mat3Math | NodeKind::Mat4Math => op != MathOp::Div,
            _ => false,
        }
    }

    /// Whether a node of this kind has a value outside a shader: the math
    /// nodes, and the output node, which has the value of its color.
    pub open spec fn evaluable(self) -> bool {
        self.operand().is_some() || self == NodeKind::FragmentOutput
    }

    /// Whether a node of this kind has a value outside a shader.
    pub fn is_evaluable(self) -> (r: bool)
        ensures
            r == self.evaluable(),
    {
        match self {
            NodeKind::Fraction | NodeKind::TextureSample | NodeKind::Uv => false,
            _ => true,
        }
    }

    /// The name under which the kind is registered.
    pub open spec fn name(self) -> Seq<char> {
        match self {
            NodeKind::ScalarMath => "Scalar Math"@,
            NodeKind::Vec2Math => "Vec2 Math"@,
            NodeKind::Vec3Math => "Vec3 Math"@,
            NodeKind::Vec4Math => "Vec4 Math"@,
            NodeKind::Mat2Math => "Mat2 Math"@,
            NodeKind::Mat3Math => "Mat3 Math"@,
            NodeKind::Mat4Math => "Mat4 Math"@,
            NodeKind::Fraction => "Fraction Vec4"@,
            NodeKind::TextureSample => "Texture Sample"@,
            NodeKind::Uv => "UV Node"@,
            NodeKind::FragmentOutput => "Fragment output"@,
        }
    }

    /// The name under which the kind is registered.
    pub fn display_name(self) -> (text: &'static str)
        ensures
            text@ == self.name(),
    {
        match self {
            NodeKind::ScalarMath => "Scalar Math",
            NodeKind::Vec2Math => "Vec2 Math",
            NodeKind::Vec3Math => "Vec3 Math",
            NodeKind::Vec4Math => "Vec4 Math",
            NodeKind::Mat2Math => "Mat2 Math",
            NodeKind::Mat3Math => "Mat3 Math",
            NodeKind::Mat4Math => "Mat4 Math",
            NodeKind::Fraction => "Fraction Vec4",
            NodeKind::TextureSample => "Texture Sample",
            NodeKind::Uv => "UV Node",
            NodeKind::FragmentOutput => "Fragment output",
        }
    }

    /// What the kind is for, in a sentence.
    pub open spec fn summary(self) -> Seq<char> {
        match self {
            NodeKind::Fraction => ""@,
            NodeKind::TextureSample => "Texture sampler"@,
            NodeKind::Uv => "Vertex or Fragment UV"@,
            NodeKind::FragmentOutput => "Fragment shader node"@,
            _ => "Simple math node"@,
        }
    }

    /// What the kind is for, in a sentence.
    pub fn description(self) -> (text: &'static str)
        ensures
            text@ == self.summary(),
    {
        match self {
            NodeKind::Fraction => "",
            NodeKind::TextureSample => "Texture sampler",
            NodeKind::Uv => "Vertex or Fragment UV",
            NodeKind::FragmentOutput => "Fragment shader node",
            _ => "Simple math node",
        }
    }

    /// The path of groups under which an editor lists the kind.
    pub open spec fn groups(self) -> Seq<Seq<char>> {
        match self {
            NodeKind::Fraction => seq!["Math"@],
            NodeKind::TextureSample => seq!["Input"@],
            NodeKind::Uv => seq!["UV"@],
            NodeKind::FragmentOutput => seq!["Output"@],
            _ => seq!["Math"@, "Basic"@],
        }
    }

    /// The path of groups under which an editor lists the kind.
    pub fn category(self) -> (path: Vec<&'static str>)
        ensures
            path@.len() == self.groups().len(),
            forall|i: int| 0 <= i < path@.len() ==> (#[trigger] path@[i])@ == self.groups()[i],
    {
        match self {
            NodeKind::Fraction => vec!["Math"],
            NodeKind::TextureSample => vec!["Input"],
            NodeKind::Uv => vec!["UV"],
            NodeKind::FragmentOutput => vec!["Output"],
            _ => vec!["Math", "Basic"],
        }
    }

    /// The expression of a node of this kind with operator `op`, over the
    /// expressions `args` of its inputs. The output node has the expression of
    /// its color.
    pub open spec fn expression(self, op: MathOp, args: Seq<Seq<char>>) -> Seq<char>
        recommends
            args.len() == self.inputs().len(),
    {
        match self {
            NodeKind::Fraction => "fract("@ + args[0] + ")"@,
            NodeKind::TextureSample =>
                "\ntextureSampleBias(pbr_bindings::base_color_texture, pbr_bindings::base_color_sampler, "@
                    + args[0] + ", view.mip_bias)\n"@,
            NodeKind::Uv => "in.uv"@,
            NodeKind::FragmentOutput => args[0],
            _ => args[0] + op.infix() + args[1],
        }
    }

    /// Writes the expression of a node of this kind.
    pub fn render(self, op: MathOp, args: &Vec<String>) -> (text: String)
        requires
            args@.len() == self.inputs().len(),
        ensures
            text@ == self.expression(op, args@.map_values(|a: String| a@)),
    {
        match self {
            NodeKind::Fraction => {
                let mut text = String::from_str("fract(");
                text.append(args[0].as_str());
                text.append(")");
                text
            },
            NodeKind::TextureSample => {
                let mut text = String::from_str(
                    "\ntextureSampleBias(pbr_bindings::base_color_texture, pbr_bindings::base_color_sampler, ",
                );
                text.append(args[0].as_str());
                text.append(", view.mip_bias)\n");
                text
            },
            NodeKind::Uv => String::from_str("in.uv"),
            NodeKind::FragmentOutput => args[0].clone(),
            _ => {
                let mut text = args[0].clone();
                text.append(op.symbol());
                text.append(args[1].as_str());
                text
            },
        }
    }
}

/// What a node is, as a value.
pub struct NodeView {
    pub kind: NodeKind,
    pub op: MathOp,
    pub channel: UvChannel,
    pub defaults: Seq<LiteralView>,
}

/// A node: its kind, its parameters, and the literal that each input holds
/// while nothing is connected to it.
#[derive(Debug)]
pub struct Node {
    pub kind: NodeKind,
    pub op: MathOp,
    pub channel: UvChannel,
    pub defaults: Vec<Literal>,
}

impl View for Node {
    type V = NodeView;

    open spec fn view(&self) -> NodeView {
        NodeView {
            kind: self.kind,
            op: self.op,
            channel: self.channel,
            defaults: literal_views(self.defaults@),
        }
    }
}

impl NodeView {
    /// A node is well formed when it holds one literal for each input, of the
    /// input's kind, and an operator that its kind allows if it is a math node.
    pub open spec fn wf(self) -> bool {
        &&& self.defaults.len() == self.kind.inputs().len()
        &&& forall|i: int|
            0 <= i < self.defaults.len() ==> (#[trigger] self.defaults[i]).kind
                == self.kind.inputs()[i]
        &&& self.kind.operand().is_some() ==> self.kind.allows(self.op)
    }

    /// The node as its factory makes it: operator `Add`, the first UV channel,
    /// and the default literal of each input's kind.
    pub open spec fn fresh(kind: NodeKind) -> NodeView {
        NodeView {
            kind,
            op: MathOp::Add,
            channel: UvChannel::Uv0,
            defaults: Seq::new(
                kind.inputs().len(),
                |i: int|
                    LiteralView {
                        kind: kind.inputs()[i],
                        code: Literal::default_code(kind.inputs()[i]),
                    },
            ),
        }
    }
}

impl Node {
    /// See [`NodeView::wf`].
    pub open spec fn wf(&self) -> bool {
        self@.wf()
    }

    /// A node of the given kind, as its factory makes it.
    pub fn new(kind: NodeKind) -> (node: Node)
        ensures
            node@ == NodeView::fresh(kind),
            node.wf(),
    {
        let count = kind.input_count();
        let mut defaults: Vec<Literal> = Vec::new();
        let mut i: usize = 0;
        while i < count
            invariant
                i <= count,
                count == kind.inputs().len(),
                defaults@.len() == i,
                forall|j: int|
                    0 <= j < i ==> (#[trigger] defaults@[j])@ == (LiteralView {
                        kind: kind.inputs()[j],
                        code: Literal::default_code(kind.inputs()[j]),
                    }),
            decreases count - i,
        {
            defaults.push(Literal::default_of(kind.input_kind(i)));
            i += 1;
        }
        let node = Node { kind, op: MathOp::Add, channel: UvChannel::Uv0, defaults };
        assert(node@.defaults =~= NodeView::fresh(kind).defaults);
        node
    }

    /// A copy of the node.
    pub fn duplicate(&self) -> (node: Node)
        ensures
            node@ == self@,
    {
        Node {
            kind: self.kind,
            op: self.op,
            channel: self.channel,
            defaults: duplicate_literals(&self.defaults),
        }
    }

    /// Whether the node is well formed.
    pub fn is_well_formed(&self) -> (r: bool)
        ensures
            r == self.wf(),
    {
        if self.defaults.len() != self.kind.input_count() {
            return false;
        }
        let mut i: usize = 0;
        while i < self.defaults.len()
            invariant
                i <= self.defaults@.len(),
                self.defaults@.len() == self.kind.inputs().len(),
                forall|j: int| 0 <= j < i ==> (#[trigger] self@.defaults[j]).kind == self.kind.inputs()[j],
            decreases self.defaults@.len() - i,
        {
            if self.defaults[i].kind != self.kind.input_kind(i) {
                assert(self@.defaults[i as int].kind != self.kind.inputs()[i as int]);
                return false;
            }
            i += 1;
        }
        self.kind.operand_kind().is_none() || self.kind.permits(self.op)
    }

    /// Sets the operator of a math node. A node without an operator refuses
    /// with `InvalidSocket`, a matrix node refuses division with
    /// `TypeMismatch`; a refusal changes nothing.
    pub fn set_op(&mut self, op: MathOp) -> (r: Result<(), GraphError>)
        ensures
            old(self).kind.operand().is_none() ==> r == Err::<(), GraphError>(
                GraphError::InvalidSocket,
            ),
            old(self).kind.operand().is_some() && !old(self).kind.allows(op) ==> r == Err::<
                (),
                GraphError,
            >(GraphError::TypeMismatch),
            old(self).kind.allows(op) ==> r.is_ok(),
            r.is_ok() ==> final(self)@ == (NodeView { op, ..old(self)@ }),
            r.is_err() ==> final(self)@ == old(self)@,
    {
        if self.kind.operand_kind().is_none() {
            Err(GraphError::InvalidSocket)
        } else if !self.kind.permits(op) {
            Err(GraphError::TypeMismatch)
        } else {
            self.op = op;
            Ok(())
        }
    }

    /// Sets the channel that a UV node reads; any other node refuses with
    /// `InvalidSocket` and is left as it was.
    pub fn set_channel(&mut self, channel: UvChannel) -> (r: Result<(), GraphError>)
        ensures
            r.is_ok() == (old(self).kind == NodeKind::Uv),
            r.is_err() ==> r == Err::<(), GraphError>(GraphError::InvalidSocket) && final(self)@
                == old(self)@,
            r.is_ok() ==> final(self)@ == (NodeView { channel, ..old(self)@ }),
    {
        if self.kind == NodeKind::Uv {
            self.channel = channel;
            Ok(())
        } else {
            Err(GraphError::InvalidSocket)
        }
    }

    /// Sets the literal that input `index` holds while nothing is connected
    /// to it. An index that the node does not have is refused with
    /// `InvalidSocket`, a literal of another kind than the input's with
    /// `TypeMismatch`; a refusal changes nothing.
    pub fn set_default(&mut self, index: usize, literal: Literal) -> (r: Result<(), GraphError>)
        requires
            old(self).wf(),
        ensures
            final(self).wf(),
            index >= old(self)@.defaults.len() ==> r == Err::<(), GraphError>(
                GraphError::InvalidSocket,
            ),
            index < old(self)@.defaults.len() && literal.kind != old(self).kind.inputs()[index as int]
                ==> r == Err::<(), GraphError>(GraphError::TypeMismatch),
            index < old(self)@.defaults.len() && literal.kind == old(self).kind.inputs()[index as int]
                ==> r.is_ok(),
            r.is_ok() ==> final(self)@ == (NodeView {
                defaults: old(self)@.defaults.update(index as int, literal@),
                ..old(self)@
            }),
            r.is_err() ==> final(self)@ == old(self)@,
    {
        if index >= self.defaults.len() {
            return Err(GraphError::InvalidSocket);
        }
        if literal.kind != self.kind.input_kind(index) {
            return Err(GraphError::TypeMismatch);
        }
        self.defaults.set(index, literal);
        assert(self@.defaults =~= old(self)@.defaults.update(index as int, literal@));
        Ok(())
    }
}

} // verus!
