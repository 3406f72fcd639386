//! The conversions between a field and its wire form, one by one.

use crate::message::codec::{
    carries, decoded, encoded, fits, has_byte, narrow_signed, narrow_unsigned, present, FieldKind,
    Number, SignedInt, UnsignedInt, Value, WireValue,
};
use crate::message::plan::{wire_type_of, WireType};
use vstd::prelude::*;

verus! {

/// How a value becomes what the first wire field holds.
#[derive(Debug, Clone, Copy, PartialEq, Eq, Structural)]
pub enum WriteForm {
    /// The value itself.
    Same,
    /// One for `true`, zero for `false`.
    Flag,
    /// The value as `u64`.
    AsU64,
    /// The value as `i64`.
    AsI64,
    /// The value as `u128`.
    AsU128,
    /// The bits of a floating point number.
    Bits,
    /// The discriminant of an enum.
    Discriminant,
}

/// How what the first wire field holds becomes a value.
#[derive(Debug, Clone, Copy, PartialEq, Eq, Structural)]
pub enum ReadForm {
    /// What is there.
    Same,
    /// Whether it is not zero.
    NotZero,
    /// As `usize`.
    AsUsize,
    /// As `isize`.
    AsIsize,
    /// As this unsigned type.
    AsUnsigned(UnsignedInt),
    /// As this signed type.
    AsSigned(SignedInt),
    /// As `i128`.
    AsI128,
    /// The `f32` of these bits.
    F32OfBits,
    /// The `f64` of these bits.
    F64OfBits,
    /// The variant of this discriminant.
    Variant,
}

/// What a form writes for a value that is there.
pub open spec fn written(form: WriteForm, value: Value) -> WireValue {
    match (form, value) {
        (WriteForm::Same, Value::Number(n)) => WireValue::Number(n),
        (WriteForm::Same, Value::Array(a)) => WireValue::Array(a),
        (WriteForm::Flag, Value::Bool(b)) => WireValue::Number(Number::U8(has_byte(b))),
        (WriteForm::AsU64, Value::Usize(v)) => WireValue::Number(Number::U64(v as u64)),
        (WriteForm::AsU64, Value::Number(n)) => WireValue::Number(Number::U64(n.as_u64())),
        (WriteForm::AsI64, Value::Isize(v)) => WireValue::Number(Number::I64(v as i64)),
        (WriteForm::AsI64, Value::Number(n)) => WireValue::Number(Number::I64(n.as_i64())),
        (WriteForm::AsU128, Value::Number(Number::I128(v))) => WireValue::Number(
            Number::U128(v as u128),
        ),
        (WriteForm::Bits, Value::Number(Number::F32(bits))) => WireValue::Number(Number::U32(bits)),
        (WriteForm::Bits, Value::Number(Number::F64(bits))) => WireValue::Number(Number::U64(bits)),
        (WriteForm::Discriminant, Value::Enum(d)) => WireValue::Number(Number::U8(d)),
        _ => WireValue::Number(Number::U8(0)),
    }
}

/// What a form reads from the first wire field.
pub open spec fn read(form: ReadForm, wire: WireValue) -> Value {
    match (form, wire) {
        (ReadForm::Same, WireValue::Number(n)) => Value::Number(n),
        (ReadForm::Same, WireValue::Array(a)) => Value::Array(a),
        (ReadForm::NotZero, WireValue::Number(Number::U8(b))) => Value::Bool(b != 0),
        (ReadForm::AsUsize, WireValue::Number(Number::U64(v))) => Value::Usize(v as usize),
        (ReadForm::AsIsize, WireValue::Number(Number::I64(v))) => Value::Isize(v as isize),
        (ReadForm::AsUnsigned(ty), WireValue::Number(Number::U64(v))) => Value::Number(
            narrow_unsigned(ty, v),
        ),
        (ReadForm::AsSigned(ty), WireValue::Number(Number::I64(v))) => Value::Number(
            narrow_signed(ty, v),
        ),
        (ReadForm::AsI128, WireValue::Number(Number::U128(v))) => Value::Number(
            Number::I128(v as i128),
        ),
        (ReadForm::F32OfBits, WireValue::Number(Number::U32(bits))) => Value::Number(
            Number::F32(bits),
        ),
        (ReadForm::F64OfBits, WireValue::Number(Number::U64(bits))) => Value::Number(
            Number::F64(bits),
        ),
        (ReadForm::Variant, WireValue::Number(Number::U8(d))) => Value::Enum(d),
        _ => Value::Bool(false),
    }
}

/// The value in an optional one, if it is there. Any other value is there.
pub open spec fn inner(value: Value) -> Option<Value> {
    match value {
        Value::OptionNumber(Some(n)) => Some(Value::Number(n)),
        Value::OptionBool(Some(b)) => Some(Value::Bool(b)),
        Value::OptionUsize(Some(v)) => Some(Value::Usize(v)),
        Value::OptionIsize(Some(v)) => Some(Value::Isize(v)),
        Value::OptionNumber(None)
        | Value::OptionBool(None)
        | Value::OptionUsize(None)
        | Value::OptionIsize(None) => None,
        _ => Some(value),
    }
}

/// A zero of this type.
pub open spec fn zero_of(ty: WireType) -> WireValue {
    WireValue::Number(
        match ty {
            WireType::U32 => Number::U32(0),
            WireType::U64 => Number::U64(0),
            WireType::U128 => Number::U128(0),
            WireType::I64 => Number::I64(0),
            WireType::U8 | WireType::Same => Number::U8(0),
        },
    )
}

/// The form in which a field of this kind is written.
pub open spec fn write_form_of(kind: FieldKind) -> WriteForm {
    match kind {
        FieldKind::Bool | FieldKind::OptionBool => WriteForm::Flag,
        FieldKind::Usize | FieldKind::OptionUsize
        | FieldKind::OptionUnsignedInt(_) => WriteForm::AsU64,
        FieldKind::Isize | FieldKind::OptionIsize
        | FieldKind::OptionSignedInt(_) => WriteForm::AsI64,
        FieldKind::OptionI128 => WriteForm::AsU128,
        FieldKind::OptionF32 | FieldKind::OptionF64 => WriteForm::Bits,
        FieldKind::Enum => WriteForm::Discriminant,
        FieldKind::Passthrough | FieldKind::OptionU128
        | FieldKind::UnsupportedOption => WriteForm::Same,
    }
}

/// The form in which a field of this kind is read.
pub open spec fn read_form_of(kind: FieldKind) -> ReadForm {
    match kind {
        FieldKind::Bool | FieldKind::OptionBool => ReadForm::NotZero,
        FieldKind::Usize | FieldKind::OptionUsize => ReadForm::AsUsize,
        FieldKind::Isize | FieldKind::OptionIsize => ReadForm::AsIsize,
        FieldKind::OptionUnsignedInt(ty) => ReadForm::AsUnsigned(ty),
        FieldKind::OptionSignedInt(ty) => ReadForm::AsSigned(ty),
        FieldKind::OptionI128 => ReadForm::AsI128,
        FieldKind::OptionF32 => ReadForm::F32OfBits,
        FieldKind::OptionF64 => ReadForm::F64OfBits,
        FieldKind::Enum => ReadForm::Variant,
        FieldKind::Passthrough | FieldKind::OptionU128
        | FieldKind::UnsupportedOption => ReadForm::Same,
    }
}

/// A form writes a field of this kind: the first wire field holds what the form
/// makes of the value, or a zero where there is none.
pub open spec fn writes(form: WriteForm, kind: FieldKind, value: Value) -> bool {
    encoded(kind, value) == (match inner(value) {
        Some(v) => written(form, v),
        None => zero_of(wire_type_of(kind)),
    })
}

/// A form reads a field of this kind: the value is what the form makes of the
/// first wire field, and in an optional field it is there unless the second wire
/// field is zero.
pub open spec fn reads(form: ReadForm, kind: FieldKind, wire: WireValue, has: u8) -> bool {
    let value = decoded(kind, wire, has);
    if kind.is_option() {
        &&& fits(kind, value)
        &&& inner(value) == (if has != 0 {
            Some(read(form, wire))
        } else {
            None
        })
    } else {
        value == read(form, wire)
    }
}

/// Every value that fits a field is written by the form of its kind, and an
/// optional one is there exactly if it holds something.
pub proof fn lemma_write_form(kind: FieldKind, value: Value)
    requires
        fits(kind, value),
    ensures
        writes(write_form_of(kind), kind, value),
        present(value) <==> inner(value) is Some,
{
}

/// Every wire form of a field is read by the form of its kind.
pub proof fn lemma_read_form(kind: FieldKind, wire: WireValue, has: u8)
    requires
        carries(kind, wire),
    ensures
        reads(read_form_of(kind), kind, wire, has),
{
}

/// What is in an optional value, together with the kind of its field, tells the
/// value.
pub proof fn lemma_inner_tells(kind: FieldKind, a: Value, b: Value)
    requires
        fits(kind, a),
        fits(kind, b),
        inner(a) == inner(b),
    ensures
        a == b,
{
}

/// The form in which a field of this kind is written.
pub fn write_form(kind: FieldKind) -> (form: WriteForm)
    ensures
        form == write_form_of(kind),
        forall|value: Value| fits(kind, value) ==> #[trigger] writes(form, kind, value),
{
    proof {
        assert forall|value: Value| fits(kind, value) implies #[trigger] writes(
            write_form_of(kind),
            kind,
            value,
        ) by {
            lemma_write_form(kind, value);
        }
    }
    match kind {
        FieldKind::Bool | FieldKind::OptionBool => WriteForm::Flag,
        FieldKind::Usize | FieldKind::OptionUsize
        | FieldKind::OptionUnsignedInt(_) => WriteForm::AsU64,
        FieldKind::Isize | FieldKind::OptionIsize
        | FieldKind::OptionSignedInt(_) => WriteForm::AsI64,
        FieldKind::OptionI128 => WriteForm::AsU128,
        FieldKind::OptionF32 | FieldKind::OptionF64 => WriteForm::Bits,
        FieldKind::Enum => WriteForm::Discriminant,
        FieldKind::Passthrough | FieldKind::OptionU128
        | FieldKind::UnsupportedOption => WriteForm::Same,
    }
}

/// The form in which a field of this kind is read.
pub fn read_form(kind: FieldKind) -> (form: ReadForm)
    ensures
        form == read_form_of(kind),
        forall|wire: WireValue, has: u8|
            carries(kind, wire) ==> #[trigger] reads(form, kind, wire, has),
{
    proof {
        assert forall|wire: WireValue, has: u8| carries(kind, wire) implies #[trigger] reads(
            read_form_of(kind),
            kind,
            wire,
            has,
        ) by {
            lemma_read_form(kind, wire, has);
        }
    }
    match kind {
        FieldKind::Bool | FieldKind::OptionBool => ReadForm::NotZero,
        FieldKind::Usize | FieldKind::OptionUsize => ReadForm::AsUsize,
        FieldKind::Isize | FieldKind::OptionIsize => ReadForm::AsIsize,
        FieldKind::OptionUnsignedInt(ty) => ReadForm::AsUnsigned(ty),
        FieldKind::OptionSignedInt(ty) => ReadForm::AsSigned(ty),
        FieldKind::OptionI128 => ReadForm::AsI128,
        FieldKind::OptionF32 => ReadForm::F32OfBits,
        FieldKind::OptionF64 => ReadForm::F64OfBits,
        FieldKind::Enum => ReadForm::Variant,
        FieldKind::Passthrough | FieldKind::OptionU128
        | FieldKind::UnsupportedOption => ReadForm::Same,
    }
}

} // verus!
