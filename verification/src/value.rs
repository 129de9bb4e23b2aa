//! Values of application types and their shapes, as the wire encoding sees
//! them.
use vstd::prelude::*;

verus! {

/// The fixed-width kinds of the wire encoding. A float travels as its bit
/// pattern.
#[derive(Debug, PartialEq, Eq, Structural, Clone, Copy)]
pub enum Prim {
    Bool,
    U8,
    I8,
    U16,
    I16,
    U32,
    I32,
    U64,
    I64,
    F32,
    F64,
}

/// 256 to the power `w`.
pub open spec fn pow256(w: nat) -> nat
    decreases w,
{
    if w == 0 {
        1
    } else {
        256 * pow256((w - 1) as nat)
    }
}

/// The powers of 256 that the widths of the wire encoding ask for.
pub proof fn lemma_pow256_values()
    ensures
        pow256(0) == 1,
        pow256(1) == 0x100,
        pow256(2) == 0x1_0000,
        pow256(4) == 0x1_0000_0000,
        pow256(8) == 0x1_0000_0000_0000_0000,
{
    reveal_with_fuel(pow256, 9);
}

impl Prim {
    /// The number of bytes of a value of this kind, which is also its
    /// alignment.
    pub open spec fn width(self) -> nat {
        match self {
            Prim::Bool | Prim::U8 | Prim::I8 => 1,
            Prim::U16 | Prim::I16 => 2,
            Prim::U32 | Prim::I32 | Prim::F32 => 4,
            Prim::U64 | Prim::I64 | Prim::F64 => 8,
        }
    }

    /// Whether `bits` is the pattern of a value of this kind: it fits the
    /// width, and a boolean is 0 or 1.
    pub open spec fn holds(self, bits: u64) -> bool {
        bits < pow256(self.width()) && (self == Prim::Bool ==> bits <= 1)
    }

    /// The number of bytes of a value of this kind.
    pub fn size(&self) -> (w: usize)
        ensures
            w == self.width(),
            w == 1 || w == 2 || w == 4 || w == 8,
    {
        match self {
            Prim::Bool | Prim::U8 | Prim::I8 => 1,
            Prim::U16 | Prim::I16 => 2,
            Prim::U32 | Prim::I32 | Prim::F32 => 4,
            Prim::U64 | Prim::I64 | Prim::F64 => 8,
        }
    }

    /// Whether `bits` is the pattern of a value of this kind.
    pub fn admits(&self, bits: u64) -> (r: bool)
        ensures
            r == self.holds(bits),
    {
        proof {
            lemma_pow256_values();
        }
        match self {
            Prim::Bool => bits <= 1,
            Prim::U8 | Prim::I8 => bits < 0x100,
            Prim::U16 | Prim::I16 => bits < 0x1_0000,
            Prim::U32 | Prim::I32 | Prim::F32 => bits < 0x1_0000_0000,
            Prim::U64 | Prim::I64 | Prim::F64 => true,
        }
    }
}

/// The two's complement pattern of `x` in `w` bytes.
pub open spec fn twos_complement(x: int, w: nat) -> int {
    if x >= 0 {
        x
    } else {
        x + pow256(w)
    }
}

/// The number that the pattern `bits` stands for in `w` bytes of two's
/// complement.
pub open spec fn from_twos_complement(bits: int, w: nat) -> int {
    if 2 * bits >= pow256(w) {
        bits - pow256(w)
    } else {
        bits
    }
}

/// A value of an application type, as the wire encoding sees it.
pub enum ValueView {
    /// A fixed-width value: its kind and its bit pattern.
    Scalar(Prim, u64),
    /// A text.
    Text(Seq<char>),
    /// A sequence whose length travels with it.
    List(Seq<ValueView>),
    /// The members of a structure or the elements of an array, whose number
    /// the type fixes.
    Tuple(Seq<ValueView>),
    /// A variant of an enumeration without payload, by its index.
    Enum(u32),
}

/// A value of an application type, as the wire encoding sees it.
#[derive(Debug)]
pub enum Value {
    /// A fixed-width value: its kind and its bit pattern.
    Scalar(Prim, u64),
    /// A text.
    Text(String),
    /// A sequence whose length travels with it.
    List(Vec<Value>),
    /// The members of a structure or the elements of an array, whose number
    /// the type fixes.
    Tuple(Vec<Value>),
    /// A variant of an enumeration without payload, by its index.
    Enum(u32),
}

/// The views of `items`, in order.
pub open spec fn views_of(items: Seq<Value>) -> Seq<ValueView>
    decreases items,
{
    if items.len() == 0 {
        Seq::empty()
    } else {
        views_of(items.drop_last()).push(items.last().view())
    }
}

impl View for Value {
    type V = ValueView;

    open spec fn view(&self) -> ValueView
        decreases self,
    {
        match self {
            Value::Scalar(kind, bits) => ValueView::Scalar(*kind, *bits),
            Value::Text(text) => ValueView::Text(text@),
            Value::List(items) => ValueView::List(views_of(items@)),
            Value::Tuple(items) => ValueView::Tuple(views_of(items@)),
            Value::Enum(index) => ValueView::Enum(*index),
        }
    }
}

/// `views_of` keeps the length and views each item.
pub proof fn lemma_views_of(items: Seq<Value>)
    ensures
        views_of(items).len() == items.len(),
        forall|i: int| 0 <= i < items.len() ==> (#[trigger] views_of(items)[i]) == items[i]@,
    decreases items.len(),
{
    if items.len() > 0 {
        lemma_views_of(items.drop_last());
        assert(views_of(items) == views_of(items.drop_last()).push(items.last().view()));
    } else {
        assert(views_of(items) == Seq::<ValueView>::empty());
    }
}

/// The shape of an application type, as the wire encoding sees it.
pub enum ShapeView {
    Scalar(Prim),
    Text,
    /// A sequence of any length of one element shape.
    List(Box<ShapeView>),
    /// An array of a fixed number of elements of one shape.
    Array(Box<ShapeView>, nat),
    /// A structure: its members in order.
    Struct(Seq<MemberView>),
    /// An enumeration without payload: the number of its variants.
    Enum(u32),
}

/// A member of a structure: whether it belongs to the key, and its shape.
pub struct MemberView {
    pub key: bool,
    pub shape: ShapeView,
}

/// The shape of an application type, as the wire encoding sees it.
#[derive(Debug)]
pub enum Shape {
    Scalar(Prim),
    Text,
    /// A sequence of any length of one element shape.
    List(Box<Shape>),
    /// An array of a fixed number of elements of one shape.
    Array(Box<Shape>, usize),
    /// A structure: its members in order.
    Struct(Vec<Member>),
    /// An enumeration without payload: the number of its variants.
    Enum(u32),
}

/// A member of a structure: whether it belongs to the key, and its shape.
#[derive(Debug)]
pub struct Member {
    pub key: bool,
    pub shape: Shape,
}

/// The views of `members`, in order.
pub open spec fn member_views(members: Seq<Member>) -> Seq<MemberView>
    decreases members,
{
    if members.len() == 0 {
        Seq::empty()
    } else {
        member_views(members.drop_last()).push(members.last().view())
    }
}

impl View for Member {
    type V = MemberView;

    open spec fn view(&self) -> MemberView
        decreases self,
    {
        MemberView { key: self.key, shape: self.shape.view() }
    }
}

impl View for Shape {
    type V = ShapeView;

    open spec fn view(&self) -> ShapeView
        decreases self,
    {
        match self {
            Shape::Scalar(kind) => ShapeView::Scalar(*kind),
            Shape::Text => ShapeView::Text,
            Shape::List(element) => ShapeView::List(Box::new((**element).view())),
            Shape::Array(element, count) => ShapeView::Array(Box::new((**element).view()), *count as nat),
            Shape::Struct(members) => ShapeView::Struct(member_views(members@)),
            Shape::Enum(variants) => ShapeView::Enum(*variants),
        }
    }
}

/// `member_views` keeps the length and views each member.
pub proof fn lemma_member_views(members: Seq<Member>)
    ensures
        member_views(members).len() == members.len(),
        forall|i: int| 0 <= i < members.len() ==> (#[trigger] member_views(members)[i]) == members[i]@,
    decreases members.len(),
{
    if members.len() > 0 {
        lemma_member_views(members.drop_last());
        assert(member_views(members) == member_views(members.drop_last()).push(members.last().view()));
    } else {
        assert(member_views(members) == Seq::<MemberView>::empty());
    }
}

impl ValueView {
    /// Whether the value is one of shape `shape`.
    pub open spec fn conforms(self, shape: ShapeView) -> bool
        decreases self, 0nat,
    {
        match (self, shape) {
            (ValueView::Scalar(kind, bits), ShapeView::Scalar(wanted)) => kind == wanted && kind.holds(bits),
            (ValueView::Text(_), ShapeView::Text) => true,
            (ValueView::List(items), ShapeView::List(element)) => all_conform(items, *element, items.len()),
            (ValueView::Tuple(items), ShapeView::Array(element, count)) => items.len() == count && all_conform(
                items,
                *element,
                items.len(),
            ),
            (ValueView::Tuple(items), ShapeView::Struct(members)) => items.len() == members.len()
                && each_conforms(items, members, items.len()),
            (ValueView::Enum(index), ShapeView::Enum(variants)) => index < variants,
            _ => false,
        }
    }
}

/// Whether each of the first `n` items is a value of shape `element`.
pub open spec fn all_conform(items: Seq<ValueView>, element: ShapeView, n: nat) -> bool
    decreases items, n + 1,
{
    if n == 0 || n > items.len() {
        true
    } else {
        all_conform(items, element, (n - 1) as nat) && items[n - 1].conforms(element)
    }
}

/// Whether each of the first `n` items is a value of the shape of the
/// member at its place.
pub open spec fn each_conforms(items: Seq<ValueView>, members: Seq<MemberView>, n: nat) -> bool
    decreases items, n + 1,
{
    if n == 0 || n > items.len() || n > members.len() {
        true
    } else {
        each_conforms(items, members, (n - 1) as nat) && items[n - 1].conforms(members[n - 1].shape)
    }
}

/// The first `n` items conform where each of them does.
pub proof fn lemma_all_conform(items: Seq<ValueView>, element: ShapeView, n: nat)
    requires
        n <= items.len(),
    ensures
        all_conform(items, element, n) <==> (forall|i: int| 0 <= i < n ==> (#[trigger] items[i]).conforms(element)),
    decreases n,
{
    if n > 0 {
        lemma_all_conform(items, element, (n - 1) as nat);
        if all_conform(items, element, n) {
            assert forall|i: int| 0 <= i < n implies (#[trigger] items[i]).conforms(element) by {
                if i == n - 1 {
                    assert(items[n - 1].conforms(element));
                }
            }
        }
        if forall|i: int| 0 <= i < n ==> (#[trigger] items[i]).conforms(element) {
            assert(items[n - 1].conforms(element));
        }
    }
}

/// The first `n` items conform to their members where each of them does.
pub proof fn lemma_each_conforms(items: Seq<ValueView>, members: Seq<MemberView>, n: nat)
    requires
        n <= items.len(),
        n <= members.len(),
    ensures
        each_conforms(items, members, n) <==> (forall|i: int|
            0 <= i < n ==> (#[trigger] items[i]).conforms(members[i].shape)),
    decreases n,
{
    if n > 0 {
        lemma_each_conforms(items, members, (n - 1) as nat);
        if each_conforms(items, members, n) {
            assert forall|i: int| 0 <= i < n implies (#[trigger] items[i]).conforms(members[i].shape) by {
                if i == n - 1 {
                    assert(items[n - 1].conforms(members[n - 1].shape));
                }
            }
        }
        if forall|i: int| 0 <= i < n ==> (#[trigger] items[i]).conforms(members[i].shape) {
            assert(items[n - 1].conforms(members[n - 1].shape));
        }
    }
}

impl Clone for Value {
    fn clone(&self) -> (r: Self)
        ensures
            r@ == self@,
        decreases self,
    {
        match self {
            Value::Scalar(kind, bits) => Value::Scalar(*kind, *bits),
            Value::Text(text) => Value::Text(text.clone()),
            Value::List(items) => Value::List(clone_values(items)),
            Value::Tuple(items) => Value::Tuple(clone_values(items)),
            Value::Enum(index) => Value::Enum(*index),
        }
    }
}

/// A copy of `items`.
pub fn clone_values(items: &Vec<Value>) -> (r: Vec<Value>)
    ensures
        views_of(r@) == views_of(items@),
        r@.len() == items@.len(),
    decreases items,
{
    let mut out: Vec<Value> = Vec::new();
    let mut i: usize = 0;
    while i < items.len()
        invariant
            i <= items@.len(),
            out@.len() == i,
            views_of(out@) == views_of(items@.take(i as int)),
        decreases items@.len() - i,
    {
        let ghost before = out@;
        let item = items[i].clone();
        out.push(item);
        proof {
            assert(out@.drop_last() == before);
            assert(items@.take(i + 1).drop_last() == items@.take(i as int));
            assert(items@.take(i + 1).last() == items@[i as int]);
        }
        i += 1;
    }
    assert(items@.take(items@.len() as int) == items@);
    out
}

impl Clone for Member {
    fn clone(&self) -> (r: Self)
        ensures
            r@ == self@,
        decreases self,
    {
        Member { key: self.key, shape: self.shape.clone() }
    }
}

impl Clone for Shape {
    fn clone(&self) -> (r: Self)
        ensures
            r@ == self@,
        decreases self,
    {
        match self {
            Shape::Scalar(kind) => Shape::Scalar(*kind),
            Shape::Text => Shape::Text,
            Shape::List(element) => Shape::List(Box::new((**element).clone())),
            Shape::Array(element, count) => Shape::Array(Box::new((**element).clone()), *count),
            Shape::Struct(members) => Shape::Struct(clone_members(members)),
            Shape::Enum(variants) => Shape::Enum(*variants),
        }
    }
}

/// A copy of `members`.
pub fn clone_members(members: &Vec<Member>) -> (r: Vec<Member>)
    ensures
        member_views(r@) == member_views(members@),
        r@.len() == members@.len(),
    decreases members,
{
    let mut out: Vec<Member> = Vec::new();
    let mut i: usize = 0;
    while i < members.len()
        invariant
            i <= members@.len(),
            out@.len() == i,
            member_views(out@) == member_views(members@.take(i as int)),
        decreases members@.len() - i,
    {
        let ghost before = out@;
        let member = members[i].clone();
        out.push(member);
        proof {
            assert(out@.drop_last() == before);
            assert(members@.take(i + 1).drop_last() == members@.take(i as int));
            assert(members@.take(i + 1).last() == members@[i as int]);
        }
        i += 1;
    }
    assert(members@.take(members@.len() as int) == members@);
    out
}

/// Whether `value` is a value of shape `shape`.
pub fn conforms(value: &Value, shape: &Shape) -> (r: bool)
    ensures
        r == value@.conforms(shape@),
    decreases value, 0nat,
{
    match (value, shape) {
        (Value::Scalar(kind, bits), Shape::Scalar(wanted)) => {
            return *kind == *wanted && kind.admits(*bits);
        },
        (Value::Text(_), Shape::Text) => {
            return true;
        },
        (Value::List(items), Shape::List(element)) => {
            proof {
                lemma_views_of(items@);
            }
            return all_conform_to(items, element);
        },
        (Value::Tuple(items), Shape::Array(element, count)) => {
            proof {
                lemma_views_of(items@);
            }
            return items.len() == *count && all_conform_to(items, element);
        },
        (Value::Tuple(items), Shape::Struct(members)) => {
            proof {
                lemma_views_of(items@);
                lemma_member_views(members@);
            }
            return items.len() == members.len() && each_conforms_to(items, members);
        },
        (Value::Enum(index), Shape::Enum(variants)) => {
            return *index < *variants;
        },
        _ => {
            return false;
        },
    }
}

fn all_conform_to(items: &Vec<Value>, element: &Shape) -> (r: bool)
    ensures
        r == all_conform(views_of(items@), element@, items@.len()),
    decreases items, 1nat,
{
    let ghost views = views_of(items@);
    proof {
        lemma_views_of(items@);
    }
    let mut i: usize = 0;
    while i < items.len()
        invariant
            i <= items@.len(),
            views == views_of(items@),
            views.len() == items@.len(),
            forall|j: int| 0 <= j < items@.len() ==> (#[trigger] views[j]) == items@[j]@,
            all_conform(views, element@, i as nat),
        decreases items@.len() - i,
    {
        if !conforms(&items[i], element) {
            proof {
                assert(views[i as int] == items@[i as int]@);
                lemma_all_conform(views, element@, items@.len());
            }
            return false;
        }
        proof {
            assert(views[i as int] == items@[i as int]@);
        }
        i += 1;
    }
    true
}

fn each_conforms_to(items: &Vec<Value>, members: &Vec<Member>) -> (r: bool)
    requires
        items@.len() == members@.len(),
    ensures
        r == each_conforms(views_of(items@), member_views(members@), items@.len()),
    decreases items, 1nat,
{
    let ghost views = views_of(items@);
    let ghost shapes = member_views(members@);
    proof {
        lemma_views_of(items@);
        lemma_member_views(members@);
    }
    let mut i: usize = 0;
    while i < items.len()
        invariant
            i <= items@.len(),
            items@.len() == members@.len(),
            views == views_of(items@),
            views.len() == items@.len(),
            shapes == member_views(members@),
            shapes.len() == members@.len(),
            forall|j: int| 0 <= j < items@.len() ==> (#[trigger] views[j]) == items@[j]@,
            forall|j: int| 0 <= j < members@.len() ==> (#[trigger] shapes[j]) == members@[j]@,
            each_conforms(views, shapes, i as nat),
        decreases items@.len() - i,
    {
        proof {
            assert(shapes[i as int].shape == members@[i as int].shape@);
            assert(views[i as int] == items@[i as int]@);
        }
        if !conforms(&items[i], &members[i].shape) {
            proof {
                lemma_each_conforms(views, shapes, items@.len());
            }
            return false;
        }
        i += 1;
    }
    true
}

impl Value {
    /// A boolean.
    pub fn from_bool(b: bool) -> (r: Value)
        ensures
            r@ == ValueView::Scalar(
                Prim::Bool,
                if b {
                    1u64
                } else {
                    0u64
                },
            ),
            r@.conforms(ShapeView::Scalar(Prim::Bool)),
    {
        proof {
            lemma_pow256_values();
        }
        Value::Scalar(
            Prim::Bool,
            if b {
                1
            } else {
                0
            },
        )
    }

    /// An unsigned number of 8 bits.
    pub fn from_u8(x: u8) -> (r: Value)
        ensures
            r@ == ValueView::Scalar(Prim::U8, x as u64),
            r@.conforms(ShapeView::Scalar(Prim::U8)),
    {
        proof {
            lemma_pow256_values();
        }
        Value::Scalar(Prim::U8, x as u64)
    }

    /// An unsigned number of 16 bits.
    pub fn from_u16(x: u16) -> (r: Value)
        ensures
            r@ == ValueView::Scalar(Prim::U16, x as u64),
            r@.conforms(ShapeView::Scalar(Prim::U16)),
    {
        proof {
            lemma_pow256_values();
        }
        Value::Scalar(Prim::U16, x as u64)
    }

    /// An unsigned number of 32 bits.
    pub fn from_u32(x: u32) -> (r: Value)
        ensures
            r@ == ValueView::Scalar(Prim::U32, x as u64),
            r@.conforms(ShapeView::Scalar(Prim::U32)),
    {
        proof {
            lemma_pow256_values();
        }
        Value::Scalar(Prim::U32, x as u64)
    }

    /// An unsigned number of 64 bits.
    pub fn from_u64(x: u64) -> (r: Value)
        ensures
            r@ == ValueView::Scalar(Prim::U64, x),
            r@.conforms(ShapeView::Scalar(Prim::U64)),
    {
        proof {
            lemma_pow256_values();
        }
        Value::Scalar(Prim::U64, x)
    }

    /// A signed number of 8 bits, in two's complement.
    pub fn from_i8(x: i8) -> (r: Value)
        ensures
            r@ == ValueView::Scalar(Prim::I8, twos_complement(x as int, 1) as u64),
            r@.conforms(ShapeView::Scalar(Prim::I8)),
    {
        proof {
            lemma_pow256_values();
        }
        let bits: u64 = if x >= 0 {
            x as u64
        } else {
            (x as i64 + 0x100) as u64
        };
        Value::Scalar(Prim::I8, bits)
    }

    /// A signed number of 16 bits, in two's complement.
    pub fn from_i16(x: i16) -> (r: Value)
        ensures
            r@ == ValueView::Scalar(Prim::I16, twos_complement(x as int, 2) as u64),
            r@.conforms(ShapeView::Scalar(Prim::I16)),
    {
        proof {
            lemma_pow256_values();
        }
        let bits: u64 = if x >= 0 {
            x as u64
        } else {
            (x as i64 + 0x1_0000) as u64
        };
        Value::Scalar(Prim::I16, bits)
    }

    /// A signed number of 32 bits, in two's complement.
    pub fn from_i32(x: i32) -> (r: Value)
        ensures
            r@ == ValueView::Scalar(Prim::I32, twos_complement(x as int, 4) as u64),
            r@.conforms(ShapeView::Scalar(Prim::I32)),
    {
        proof {
            lemma_pow256_values();
        }
        let bits: u64 = if x >= 0 {
            x as u64
        } else {
            (x as i64 + 0x1_0000_0000) as u64
        };
        Value::Scalar(Prim::I32, bits)
    }

    /// A signed number of 64 bits, in two's complement.
    pub fn from_i64(x: i64) -> (r: Value)
        ensures
            r@ == ValueView::Scalar(Prim::I64, twos_complement(x as int, 8) as u64),
            r@.conforms(ShapeView::Scalar(Prim::I64)),
    {
        proof {
            lemma_pow256_values();
        }
        let bits: u64 = if x >= 0 {
            x as u64
        } else {
            u64::MAX - ((-(x + 1)) as u64)
        };
        Value::Scalar(Prim::I64, bits)
    }

    /// A float of 32 bits, by its bit pattern.
    pub fn from_f32_bits(bits: u32) -> (r: Value)
        ensures
            r@ == ValueView::Scalar(Prim::F32, bits as u64),
            r@.conforms(ShapeView::Scalar(Prim::F32)),
    {
        proof {
            lemma_pow256_values();
        }
        Value::Scalar(Prim::F32, bits as u64)
    }

    /// A float of 64 bits, by its bit pattern.
    pub fn from_f64_bits(bits: u64) -> (r: Value)
        ensures
            r@ == ValueView::Scalar(Prim::F64, bits),
            r@.conforms(ShapeView::Scalar(Prim::F64)),
    {
        proof {
            lemma_pow256_values();
        }
        Value::Scalar(Prim::F64, bits)
    }

    /// A text.
    pub fn from_str(text: &str) -> (r: Value)
        ensures
            r@ == ValueView::Text(text@),
            r@.conforms(ShapeView::Text),
    {
        Value::Text(text.to_owned())
    }

    /// The bit pattern of a fixed-width value.
    pub fn to_bits(&self) -> (r: Option<u64>)
        ensures
            r == match self@ {
                ValueView::Scalar(_, bits) => Some(bits),
                _ => None,
            },
    {
        match self {
            Value::Scalar(_, bits) => Some(*bits),
            _ => None,
        }
    }

    /// The number that a signed value stands for.
    pub fn to_i64(&self) -> (r: Option<i64>)
        ensures
            r == match self@ {
                ValueView::Scalar(kind, bits) => if (kind == Prim::I8 || kind == Prim::I16 || kind == Prim::I32
                    || kind == Prim::I64) && kind.holds(bits) {
                    Some(from_twos_complement(bits as int, kind.width()) as i64)
                } else {
                    None
                },
                _ => None,
            },
    {
        proof {
            lemma_pow256_values();
        }
        match self {
            Value::Scalar(kind, bits) => {
                if !kind.admits(*bits) {
                    return None;
                }
                match kind {
                    Prim::I8 => Some(
                        if *bits >= 0x80 {
                            *bits as i64 - 0x100
                        } else {
                            *bits as i64
                        },
                    ),
                    Prim::I16 => Some(
                        if *bits >= 0x8000 {
                            *bits as i64 - 0x1_0000
                        } else {
                            *bits as i64
                        },
                    ),
                    Prim::I32 => Some(
                        if *bits >= 0x8000_0000 {
                            *bits as i64 - 0x1_0000_0000
                        } else {
                            *bits as i64
                        },
                    ),
                    Prim::I64 => Some(
                        if *bits >= 0x8000_0000_0000_0000 {
                            -((u64::MAX - *bits) as i64) - 1
                        } else {
                            *bits as i64
                        },
                    ),
                    _ => None,
                }
            },
            _ => None,
        }
    }

    /// The text of a text.
    pub fn to_text(&self) -> (r: Option<&String>)
        ensures
            match self@ {
                ValueView::Text(chars) => r is Some && r->Some_0@ == chars,
                _ => r is None,
            },
    {
        match self {
            Value::Text(text) => Some(text),
            _ => None,
        }
    }

    /// The items of a sequence, or the members of a structure or an array.
    pub fn items(&self) -> (r: Option<&Vec<Value>>)
        ensures
            match self@ {
                ValueView::List(items) => r is Some && views_of(r->Some_0@) == items,
                ValueView::Tuple(items) => r is Some && views_of(r->Some_0@) == items,
                _ => r is None,
            },
    {
        match self {
            Value::List(items) => Some(items),
            Value::Tuple(items) => Some(items),
            _ => None,
        }
    }
}

} // verus!
