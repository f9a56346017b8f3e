//! Values and their shapes.
//!
//! The bytes of a value do not say what they are: a value is written by
//! walking it, and read back by walking the shape that the reader declares.

use vstd::prelude::*;

verus! {

/// A value of fixed layout.
#[derive(Clone, Copy, Debug, PartialEq, Eq, Structural)]
pub enum Primitive {
    Bool(bool),
    I8(i8),
    I16(i16),
    I32(i32),
    I64(i64),
    U8(u8),
    U16(u16),
    U32(u32),
    U64(u64),
    /// A 32-bit float, as its bit pattern.
    F32(u32),
    /// A 64-bit float, as its bit pattern.
    F64(u64),
    Char(char),
    Unit,
}

/// The shape of a value of fixed layout.
#[derive(Clone, Copy, Debug, PartialEq, Eq, Structural)]
pub enum PrimitiveShape {
    Bool,
    I8,
    I16,
    I32,
    I64,
    U8,
    U16,
    U32,
    U64,
    F32,
    F64,
    Char,
    Unit,
}

/// The payload of a variant of an enum.
#[derive(Debug, PartialEq, Eq)]
pub enum Payload {
    /// No payload.
    Unit,
    /// One value.
    NewType(Box<Value>),
    /// Elements, in order.
    Tuple(Vec<Value>),
    /// The values of the fields, in the order of their declaration.
    Struct(Vec<Value>),
}

/// A value.
#[derive(Debug, PartialEq, Eq)]
pub enum Value {
    Primitive(Primitive),
    Str(String),
    Bytes(Vec<u8>),
    /// An option without a value.
    Absent,
    /// An option with a value.
    Present(Box<Value>),
    /// A wrapper round one value.
    NewType(Box<Value>),
    /// Any number of elements of one shape.
    Sequence(Vec<Value>),
    /// A fixed number of elements, each of its own shape.
    Tuple(Vec<Value>),
    /// Any number of pairs of a key and its value, in order.
    Mapping(Vec<(Value, Value)>),
    /// The values of the fields of a struct, in the order of their
    /// declaration.
    Struct(Vec<Value>),
    /// A variant of an enum: its index among the variants declared, and its
    /// payload.
    Variant(u32, Payload),
}

/// What a variant of an enum holds.
#[derive(Debug, PartialEq, Eq)]
pub enum VariantShape {
    Unit,
    NewType(Shape),
    Tuple(Vec<Shape>),
    Struct(Vec<Shape>),
}

/// The shape of a value: what the reader expects to find.
#[derive(Debug, PartialEq, Eq)]
pub enum Shape {
    Primitive(PrimitiveShape),
    Str,
    Bytes,
    Optional(Box<Shape>),
    NewType(Box<Shape>),
    Sequence(Box<Shape>),
    Tuple(Vec<Shape>),
    /// A map, by the shapes of its keys and of its values.
    Mapping(Box<(Shape, Shape)>),
    Struct(Vec<Shape>),
    /// An enum, by its variants in the order of their declaration.
    Enum(Vec<VariantShape>),
}

/// The payload of a variant, as a mathematical value.
pub enum PayloadView {
    Unit,
    NewType(Box<ValueView>),
    Tuple(Seq<ValueView>),
    Struct(Seq<ValueView>),
}

/// A value, as a mathematical value: strings are sequences of characters,
/// buffers and collections are sequences.
pub enum ValueView {
    Primitive(Primitive),
    Str(Seq<char>),
    Bytes(Seq<u8>),
    Absent,
    Present(Box<ValueView>),
    NewType(Box<ValueView>),
    Sequence(Seq<ValueView>),
    Tuple(Seq<ValueView>),
    Mapping(Seq<(ValueView, ValueView)>),
    Struct(Seq<ValueView>),
    Variant(u32, PayloadView),
}

/// The views of the values of `items`.
pub open spec fn views(items: Seq<Value>) -> Seq<ValueView>
    decreases items,
{
    Seq::new(
        items.len(),
        |i: int|
            if 0 <= i < items.len() {
                value_view(items[i])
            } else {
                ValueView::Absent
            },
    )
}

/// The views of the keys and values of `pairs`.
pub open spec fn pair_views(pairs: Seq<(Value, Value)>) -> Seq<(ValueView, ValueView)>
    decreases pairs,
{
    Seq::new(
        pairs.len(),
        |i: int|
            if 0 <= i < pairs.len() {
                (value_view(pairs[i].0), value_view(pairs[i].1))
            } else {
                (ValueView::Absent, ValueView::Absent)
            },
    )
}

/// The view of a payload.
pub open spec fn payload_view(p: Payload) -> PayloadView
    decreases p,
{
    match p {
        Payload::Unit => PayloadView::Unit,
        Payload::NewType(v) => PayloadView::NewType(Box::new(value_view(*v))),
        Payload::Tuple(items) => PayloadView::Tuple(views(items@)),
        Payload::Struct(items) => PayloadView::Struct(views(items@)),
    }
}

/// The view of a value.
pub open spec fn value_view(v: Value) -> ValueView
    decreases v,
{
    match v {
        Value::Primitive(p) => ValueView::Primitive(p),
        Value::Str(s) => ValueView::Str(s@),
        Value::Bytes(b) => ValueView::Bytes(b@),
        Value::Absent => ValueView::Absent,
        Value::Present(inner) => ValueView::Present(Box::new(value_view(*inner))),
        Value::NewType(inner) => ValueView::NewType(Box::new(value_view(*inner))),
        Value::Sequence(items) => ValueView::Sequence(views(items@)),
        Value::Tuple(items) => ValueView::Tuple(views(items@)),
        Value::Mapping(pairs) => ValueView::Mapping(pair_views(pairs@)),
        Value::Struct(items) => ValueView::Struct(views(items@)),
        Value::Variant(index, payload) => ValueView::Variant(index, payload_view(payload)),
    }
}

/// The shape of a value of fixed layout.
pub open spec fn primitive_shape(p: Primitive) -> PrimitiveShape {
    match p {
        Primitive::Bool(_) => PrimitiveShape::Bool,
        Primitive::I8(_) => PrimitiveShape::I8,
        Primitive::I16(_) => PrimitiveShape::I16,
        Primitive::I32(_) => PrimitiveShape::I32,
        Primitive::I64(_) => PrimitiveShape::I64,
        Primitive::U8(_) => PrimitiveShape::U8,
        Primitive::U16(_) => PrimitiveShape::U16,
        Primitive::U32(_) => PrimitiveShape::U32,
        Primitive::U64(_) => PrimitiveShape::U64,
        Primitive::F32(_) => PrimitiveShape::F32,
        Primitive::F64(_) => PrimitiveShape::F64,
        Primitive::Char(_) => PrimitiveShape::Char,
        Primitive::Unit => PrimitiveShape::Unit,
    }
}

/// Whether each of `items` has the shape `shape`.
pub open spec fn all_conform(items: Seq<ValueView>, shape: Shape) -> bool
    decreases items, 0nat,
{
    items.len() == 0 || (conforms(items[0], shape) && all_conform(items.skip(1), shape))
}

/// Whether there are as many `items` as `shapes`, and each has the shape
/// at its place.
pub open spec fn each_conforms(items: Seq<ValueView>, shapes: Seq<Shape>) -> bool
    decreases items, 0nat,
{
    items.len() == shapes.len() && (items.len() == 0 || (conforms(items[0], shapes[0])
        && each_conforms(items.skip(1), shapes.skip(1))))
}

/// Whether each key of `pairs` has the first shape of `entry`, and each
/// value the second.
pub open spec fn pairs_conform(pairs: Seq<(ValueView, ValueView)>, entry: (Shape, Shape)) -> bool
    decreases pairs, 0nat,
{
    pairs.len() == 0 || (conforms(pairs[0].0, entry.0) && conforms(pairs[0].1, entry.1)
        && pairs_conform(pairs.skip(1), entry))
}

/// Whether a payload is one of a variant of the shape `variant`.
pub open spec fn payload_conforms(payload: PayloadView, variant: VariantShape) -> bool
    decreases payload, 0nat,
{
    match (payload, variant) {
        (PayloadView::Unit, VariantShape::Unit) => true,
        (PayloadView::NewType(inner), VariantShape::NewType(shape)) => conforms(*inner, shape),
        (PayloadView::Tuple(items), VariantShape::Tuple(shapes)) => each_conforms(items, shapes@),
        (PayloadView::Struct(items), VariantShape::Struct(shapes)) => each_conforms(
            items,
            shapes@,
        ),
        _ => false,
    }
}

/// Whether a value has the shape `shape`: whether a reader that expects
/// that shape expects this value.
pub open spec fn conforms(v: ValueView, shape: Shape) -> bool
    decreases v, 0nat,
{
    match (v, shape) {
        (ValueView::Primitive(p), Shape::Primitive(s)) => primitive_shape(p) == s,
        (ValueView::Str(_), Shape::Str) => true,
        (ValueView::Bytes(_), Shape::Bytes) => true,
        (ValueView::Absent, Shape::Optional(_)) => true,
        (ValueView::Present(inner), Shape::Optional(s)) => conforms(*inner, *s),
        (ValueView::NewType(inner), Shape::NewType(s)) => conforms(*inner, *s),
        (ValueView::Sequence(items), Shape::Sequence(s)) => all_conform(items, *s),
        (ValueView::Tuple(items), Shape::Tuple(shapes)) => each_conforms(items, shapes@),
        (ValueView::Mapping(pairs), Shape::Mapping(entry)) => pairs_conform(pairs, *entry),
        (ValueView::Struct(items), Shape::Struct(shapes)) => each_conforms(items, shapes@),
        (ValueView::Variant(index, payload), Shape::Enum(variants)) => index < variants@.len()
            && payload_conforms(payload, variants@[index as int]),
        _ => false,
    }
}

/// The views of some values and one more are the views of those values and
/// the view of that one.
pub proof fn lemma_views_push(items: Seq<Value>, v: Value)
    ensures
        views(items.push(v)) == views(items).push(value_view(v)),
{
    assert(views(items.push(v)) =~= views(items).push(value_view(v)));
}

/// The views of some pairs and one more are the views of those pairs and
/// the views of that one.
pub proof fn lemma_pair_views_push(pairs: Seq<(Value, Value)>, p: (Value, Value))
    ensures
        pair_views(pairs.push(p)) == pair_views(pairs).push((value_view(p.0), value_view(p.1))),
{
    assert(pair_views(pairs.push(p)) =~= pair_views(pairs).push(
        (value_view(p.0), value_view(p.1)),
    ));
}

impl View for Value {
    type V = ValueView;

    open spec fn view(&self) -> ValueView {
        value_view(*self)
    }
}

impl View for Payload {
    type V = PayloadView;

    open spec fn view(&self) -> PayloadView {
        payload_view(*self)
    }
}

} // verus!
