//! Value kinds, the coercions between them, and literal values.

use vstd::prelude::*;
use vstd::string::StringExecFns;

verus! {

/// The kind of a value that flows through a socket.
#[derive(Clone, Copy, Debug, PartialEq, Eq, Hash, Structural)]
pub enum ValueKind {
    Scalar,
    Vec2,
    Vec3,
    Vec4,
    Mat2,
    Mat3,
    Mat4,
    Color,
    Texture,
}

impl ValueKind {
    /// The name of the kind in shader text.
    pub open spec fn shader_type(self) -> Seq<char> {
        match self {
            ValueKind::Scalar => "f32"@,
            ValueKind::Vec2 => "vec2<f32>"@,
            ValueKind::Vec3 => "vec3<f32>"@,
            ValueKind::Vec4 => "vec4<f32>"@,
            ValueKind::Mat2 => "mat2x2<f32>"@,
            ValueKind::Mat3 => "mat3x3<f32>"@,
            ValueKind::Mat4 => "mat4x4<f32>"@,
            ValueKind::Color => "vec4<f32>"@,
            ValueKind::Texture => "texture_2d<f32>"@,
        }
    }

    /// The name of the kind in shader text.
    pub fn shader_name(self) -> (name: &'static str)
        ensures
            name@ == self.shader_type(),
    {
        match self {
            ValueKind::Scalar => "f32",
            ValueKind::Vec2 => "vec2<f32>",
            ValueKind::Vec3 => "vec3<f32>",
            ValueKind::Vec4 => "vec4<f32>",
            ValueKind::Mat2 => "mat2x2<f32>",
            ValueKind::Mat3 => "mat3x3<f32>",
            ValueKind::Mat4 => "mat4x4<f32>",
            ValueKind::Color => "vec4<f32>",
            ValueKind::Texture => "texture_2d<f32>",
        }
    }

    /// Whether the kind is a vector of numbers, a color among them.
    pub open spec fn is_vector(self) -> bool {
        self == ValueKind::Vec2 || self == ValueKind::Vec3 || self == ValueKind::Vec4 || self
            == ValueKind::Color
    }

    /// The coercion table: whether an output of kind `self` may feed an input
    /// of kind `to`. A kind feeds itself, a scalar feeds every vector (it is
    /// repeated in each component), and a color and a four-vector feed each
    /// other. Nothing else is coerced: no vector is cut or padded, and
    /// matrices and textures feed their own kind only.
    pub open spec fn feeds(self, to: ValueKind) -> bool {
        ||| self == to
        ||| (self == ValueKind::Scalar && to.is_vector())
        ||| (self == ValueKind::Vec4 && to == ValueKind::Color)
        ||| (self == ValueKind::Color && to == ValueKind::Vec4)
    }

    /// The number of numbers in a value of the kind; a texture has none.
    pub open spec fn width(self) -> nat {
        match self {
            ValueKind::Scalar => 1,
            ValueKind::Vec2 => 2,
            ValueKind::Vec3 => 3,
            ValueKind::Vec4 | ValueKind::Color | ValueKind::Mat2 => 4,
            ValueKind::Mat3 => 9,
            ValueKind::Mat4 => 16,
            ValueKind::Texture => 0,
        }
    }

    /// The coercion table never narrows: what feeds an input has no more
    /// numbers than the input takes. So no three-vector feeds a two-vector.
    pub proof fn lemma_feeds_never_narrows(self, to: ValueKind)
        ensures
            self.feeds(to) ==> self.width() <= to.width(),
            self.width() > to.width() ==> !self.feeds(to),
    {
    }

    /// Whether an output of kind `self` may feed an input of kind `to`.
    pub fn can_feed(self, to: ValueKind) -> (r: bool)
        ensures
            r == self.feeds(to),
    {
        if self == to {
            true
        } else {
            match self {
                ValueKind::Scalar => to == ValueKind::Vec2 || to == ValueKind::Vec3 || to
                    == ValueKind::Vec4 || to == ValueKind::Color,
                ValueKind::Vec4 => to == ValueKind::Color,
                ValueKind::Color => to == ValueKind::Vec4,
                _ => false,
            }
        }
    }

    /// The expression `expr` of kind `self`, as an input of kind `to` reads
    /// it: a scalar that feeds a vector is wrapped in the vector's
    /// constructor, everything else is read as it is.
    pub open spec fn coerced(self, to: ValueKind, expr: Seq<char>) -> Seq<char> {
        if self == ValueKind::Scalar && to.is_vector() {
            to.shader_type() + "("@ + expr + ")"@
        } else {
            expr
        }
    }

    /// Rewrites `expr`, of kind `self`, for an input of kind `to`.
    pub fn coerce(self, to: ValueKind, expr: String) -> (r: String)
        ensures
            r@ == self.coerced(to, expr@),
    {
        if self == ValueKind::Scalar && (to == ValueKind::Vec2 || to == ValueKind::Vec3 || to
            == ValueKind::Vec4 || to == ValueKind::Color) {
            let mut text = String::from_str(to.shader_name());
            text.append("(");
            text.append(expr.as_str());
            text.append(")");
            text
        } else {
            expr
        }
    }
}

/// The operator of a math node.
#[derive(Clone, Copy, Debug, PartialEq, Eq, Hash, Structural)]
pub enum MathOp {
    Add,
    Sub,
    Mul,
    Div,
}

impl MathOp {
    /// The operator as it stands between its operands.
    pub open spec fn infix(self) -> Seq<char> {
        match self {
            MathOp::Add => " + "@,
            MathOp::Sub => " - "@,
            MathOp::Mul => " * "@,
            MathOp::Div => " / "@,
        }
    }

    /// The operator as it stands between its operands.
    pub fn symbol(self) -> (text: &'static str)
        ensures
            text@ == self.infix(),
    {
        match self {
            MathOp::Add => " + ",
            MathOp::Sub => " - ",
            MathOp::Mul => " * ",
            MathOp::Div => " / ",
        }
    }
}

/// The texture coordinate set that a UV node reads.
#[derive(Clone, Copy, Debug, PartialEq, Eq, Hash, Structural)]
pub enum UvChannel {
    Uv0,
    Uv1,
    Uv2,
    Uv3,
}

/// What a literal is, as a value.
pub struct LiteralView {
    pub kind: ValueKind,
    pub code: Seq<char>,
}

/// A literal value: its kind, and the shader expression that denotes it.
#[derive(Debug)]
pub struct Literal {
    pub kind: ValueKind,
    pub code: String,
}

impl View for Literal {
    type V = LiteralView;

    open spec fn view(&self) -> LiteralView {
        LiteralView { kind: self.kind, code: self.code@ }
    }
}

/// `node_engine::Value::compile`, on the value that the engine holds by
/// default for the kind: a zero for a scalar and for each component of a
/// vector or a color, the identity for a matrix, and the engine's stand-in
/// for a texture. The text is the engine's; the contract says which text it
/// is, with each number as `{:?}` writes it.
#[verifier::external_body]
fn default_text(kind: ValueKind) -> (text: String)
    ensures
        text@ == Literal::default_code(kind),
{
    let value = match kind {
        ValueKind::Scalar => node_engine::Value::F32(Default::default()),
        ValueKind::Vec2 => node_engine::Value::Vec2(Default::default()),
        ValueKind::Vec3 => node_engine::Value::Vec3(Default::default()),
        ValueKind::Vec4 | ValueKind::Color => node_engine::Value::Vec4(Default::default()),
        ValueKind::Mat2 => node_engine::Value::Mat2(Default::default()),
        ValueKind::Mat3 => node_engine::Value::Mat3(Default::default()),
        ValueKind::Mat4 => node_engine::Value::Mat4(Default::default()),
        ValueKind::Texture => node_engine::Value::Texture2D(Default::default()),
    };
    value.compile().map(|compiled| compiled.value).unwrap_or_default()
}

/// The literals `literals`, as values.
pub open spec fn literal_views(literals: Seq<Literal>) -> Seq<LiteralView> {
    Seq::new(literals.len(), |i: int| literals[i]@)
}

/// A copy of the literals `literals`.
pub fn duplicate_literals(literals: &Vec<Literal>) -> (copy: Vec<Literal>)
    ensures
        literal_views(copy@) == literal_views(literals@),
{
    let mut copy: Vec<Literal> = Vec::new();
    let mut i: usize = 0;
    while i < literals.len()
        invariant
            i <= literals@.len(),
            copy@.len() == i,
            forall|j: int| 0 <= j < i ==> (#[trigger] copy@[j])@ == literals@[j]@,
        decreases literals@.len() - i,
    {
        copy.push(literals[i].duplicate());
        i += 1;
    }
    assert(literal_views(copy@) =~= literal_views(literals@));
    copy
}

impl Literal {
    /// A literal of the given kind, written as `code`.
    pub fn new(kind: ValueKind, code: &str) -> (r: Literal)
        ensures
            r@ == (LiteralView { kind, code: code@ }),
    {
        Literal { kind, code: String::from_str(code) }
    }

    /// The expression by which a fresh input of the given kind is read.
    pub open spec fn default_code(kind: ValueKind) -> Seq<char> {
        match kind {
            ValueKind::Scalar => "0.0"@,
            ValueKind::Vec2 => "vec2<f32>(0.0, 0.0)"@,
            ValueKind::Vec3 => "vec3<f32>(0.0, 0.0, 0.0)"@,
            ValueKind::Vec4 => "vec4<f32>(0.0, 0.0, 0.0, 0.0)"@,
            ValueKind::Mat2 => "mat2x2(vec2<f32>(1.0, 0.0), vec2<f32>(0.0, 1.0))"@,
            ValueKind::Mat3 =>
                "mat3x3(vec3<f32>(1.0, 0.0, 0.0), vec3<f32>(0.0, 1.0, 0.0), vec3<f32>(0.0, 0.0, 1.0))"@,
            ValueKind::Mat4 =>
                "mat4x4(vec4<f32>(1.0, 0.0, 0.0, 0.0), vec4<f32>(0.0, 1.0, 0.0, 0.0), vec4<f32>(0.0, 0.0, 1.0, 0.0), vec4<f32>(0.0, 0.0, 0.0, 1.0))"@,
            ValueKind::Color => "vec4<f32>(0.0, 0.0, 0.0, 0.0)"@,
            ValueKind::Texture => "vec4<f32>(0.5, 0.5, 0., 1.)"@,
        }
    }

    /// The literal that a fresh input of the given kind holds.
    pub fn default_of(kind: ValueKind) -> (r: Literal)
        ensures
            r@ == (LiteralView { kind, code: Literal::default_code(kind) }),
    {
        Literal { kind, code: default_text(kind) }
    }

    /// A copy of the literal.
    pub fn duplicate(&self) -> (r: Literal)
        ensures
            r@ == self@,
    {
        Literal { kind: self.kind, code: self.code.clone() }
    }
}

} // verus!
