//! The wire form of single fields.

use vstd::prelude::*;

verus! {

/// A number of one of the primitive types. Floating point numbers are carried
/// as their bits.
#[derive(Debug, Clone, Copy, PartialEq, Eq, Structural)]
pub enum Number {
    U8(u8),
    U16(u16),
    U32(u32),
    U64(u64),
    U128(u128),
    I8(i8),
    I16(i16),
    I32(i32),
    I64(i64),
    I128(i128),
    /// The bits of an `f32`.
    F32(u32),
    /// The bits of an `f64`.
    F64(u64),
}

/// Unsigned integer types of at most 64 bits.
#[derive(Debug, Clone, Copy, PartialEq, Eq, Structural)]
pub enum UnsignedInt {
    U8,
    U16,
    U32,
    U64,
}

/// Signed integer types of at most 64 bits.
#[derive(Debug, Clone, Copy, PartialEq, Eq, Structural)]
pub enum SignedInt {
    I8,
    I16,
    I32,
    I64,
}

/// How a field is carried on the wire.
#[derive(Debug, Clone, Copy, PartialEq, Eq, Structural)]
pub enum FieldKind {
    /// A number or an array: carried as it is.
    Passthrough,
    /// `bool`, as a byte.
    Bool,
    /// `usize`, as 64 bits.
    Usize,
    /// `isize`, as 64 bits.
    Isize,
    /// An optional unsigned integer, as 64 bits and a byte that tells whether
    /// it is there.
    OptionUnsignedInt(UnsignedInt),
    /// An optional signed integer, as 64 bits and a byte.
    OptionSignedInt(SignedInt),
    /// `Option<bool>`, as two bytes.
    OptionBool,
    /// `Option<u128>`, as 128 bits and a byte.
    OptionU128,
    /// `Option<i128>`, as 128 unsigned bits and a byte.
    OptionI128,
    /// `Option<usize>`, as 64 bits and a byte.
    OptionUsize,
    /// `Option<isize>`, as 64 bits and a byte.
    OptionIsize,
    /// `Option<f32>`, as its bits and a byte.
    OptionF32,
    /// `Option<f64>`, as its bits and a byte.
    OptionF64,
    /// Any other type, taken for an enum of one byte.
    Enum,
    /// An `Option` of something that has no wire form.
    UnsupportedOption,
}

/// The value of a field.
#[derive(Debug, PartialEq, Eq)]
pub enum Value {
    Number(Number),
    Array(Vec<Number>),
    Bool(bool),
    Usize(usize),
    Isize(isize),
    OptionNumber(Option<Number>),
    OptionBool(Option<bool>),
    OptionUsize(Option<usize>),
    OptionIsize(Option<isize>),
    /// The discriminant of an enum.
    Enum(u8),
}

/// The value of a wire field.
#[derive(Debug, PartialEq, Eq)]
pub enum WireValue {
    Number(Number),
    Array(Vec<Number>),
}

impl FieldKind {
    /// The wire form has a second field that tells whether there is a value.
    pub open spec fn is_option(self) -> bool {
        match self {
            FieldKind::OptionUnsignedInt(_) | FieldKind::OptionSignedInt(_) | FieldKind::OptionBool
            | FieldKind::OptionU128 | FieldKind::OptionI128 | FieldKind::OptionUsize
            | FieldKind::OptionIsize | FieldKind::OptionF32 | FieldKind::OptionF64 => true,
            _ => false,
        }
    }

    /// Number of wire fields.
    pub open spec fn width(self) -> nat {
        if self.is_option() {
            2
        } else {
            1
        }
    }
}

impl Number {
    /// The number is of the unsigned type `ty`.
    pub open spec fn is_unsigned(self, ty: UnsignedInt) -> bool {
        match ty {
            UnsignedInt::U8 => self is U8,
            UnsignedInt::U16 => self is U16,
            UnsignedInt::U32 => self is U32,
            UnsignedInt::U64 => self is U64,
        }
    }

    /// The number is of the signed type `ty`.
    pub open spec fn is_signed(self, ty: SignedInt) -> bool {
        match ty {
            SignedInt::I8 => self is I8,
            SignedInt::I16 => self is I16,
            SignedInt::I32 => self is I32,
            SignedInt::I64 => self is I64,
        }
    }

    /// An unsigned integer of at most 64 bits, widened.
    pub open spec fn as_u64(self) -> u64 {
        match self {
            Number::U8(v) => v as u64,
            Number::U16(v) => v as u64,
            Number::U32(v) => v as u64,
            Number::U64(v) => v,
            _ => 0,
        }
    }

    /// A signed integer of at most 64 bits, widened.
    pub open spec fn as_i64(self) -> i64 {
        match self {
            Number::I8(v) => v as i64,
            Number::I16(v) => v as i64,
            Number::I32(v) => v as i64,
            Number::I64(v) => v,
            _ => 0,
        }
    }
}

/// The number of type `ty` in the low bits of `v`.
pub open spec fn narrow_unsigned(ty: UnsignedInt, v: u64) -> Number {
    match ty {
        UnsignedInt::U8 => Number::U8(v as u8),
        UnsignedInt::U16 => Number::U16(v as u16),
        UnsignedInt::U32 => Number::U32(v as u32),
        UnsignedInt::U64 => Number::U64(v),
    }
}

/// The number of type `ty` in the low bits of `v`.
pub open spec fn narrow_signed(ty: SignedInt, v: i64) -> Number {
    match ty {
        SignedInt::I8 => Number::I8(v as i8),
        SignedInt::I16 => Number::I16(v as i16),
        SignedInt::I32 => Number::I32(v as i32),
        SignedInt::I64 => Number::I64(v),
    }
}

/// `value` can be the value of a field of this kind.
pub open spec fn fits(kind: FieldKind, value: Value) -> bool {
    match kind {
        FieldKind::Passthrough => value is Number || value is Array,
        FieldKind::Bool => value is Bool,
        FieldKind::Usize => value is Usize,
        FieldKind::Isize => value is Isize,
        FieldKind::OptionUnsignedInt(ty) => value matches Value::OptionNumber(n) && (n matches Some(
            x,
        ) ==> x.is_unsigned(ty)),
        FieldKind::OptionSignedInt(ty) => value matches Value::OptionNumber(n) && (n matches Some(
            x,
        ) ==> x.is_signed(ty)),
        FieldKind::OptionBool => value is OptionBool,
        FieldKind::OptionU128 => value matches Value::OptionNumber(n) && (n matches Some(x)
            ==> x is U128),
        FieldKind::OptionI128 => value matches Value::OptionNumber(n) && (n matches Some(x)
            ==> x is I128),
        FieldKind::OptionUsize => value is OptionUsize,
        FieldKind::OptionIsize => value is OptionIsize,
        FieldKind::OptionF32 => value matches Value::OptionNumber(n) && (n matches Some(x)
            ==> x is F32),
        FieldKind::OptionF64 => value matches Value::OptionNumber(n) && (n matches Some(x)
            ==> x is F64),
        FieldKind::Enum => value is Enum,
        FieldKind::UnsupportedOption => false,
    }
}

/// One as a byte if there is a value.
pub open spec fn has_byte(present: bool) -> u8 {
    if present {
        1
    } else {
        0
    }
}

/// The wire form of `value`: what the first wire field holds.
pub open spec fn encoded(kind: FieldKind, value: Value) -> WireValue {
    match (kind, value) {
        (FieldKind::Passthrough, Value::Number(n)) => WireValue::Number(n),
        (FieldKind::Passthrough, Value::Array(a)) => WireValue::Array(a),
        (FieldKind::Bool, Value::Bool(b)) => WireValue::Number(Number::U8(has_byte(b))),
        (FieldKind::Usize, Value::Usize(v)) => WireValue::Number(Number::U64(v as u64)),
        (FieldKind::Isize, Value::Isize(v)) => WireValue::Number(Number::I64(v as i64)),
        (FieldKind::OptionUnsignedInt(_), Value::OptionNumber(n)) => WireValue::Number(
            Number::U64(
                match n {
                    Some(x) => x.as_u64(),
                    None => 0,
                },
            ),
        ),
        (FieldKind::OptionSignedInt(_), Value::OptionNumber(n)) => WireValue::Number(
            Number::I64(
                match n {
                    Some(x) => x.as_i64(),
                    None => 0,
                },
            ),
        ),
        (FieldKind::OptionBool, Value::OptionBool(b)) => WireValue::Number(
            Number::U8(
                has_byte(
                    match b {
                        Some(v) => v,
                        None => false,
                    },
                ),
            ),
        ),
        (FieldKind::OptionU128, Value::OptionNumber(n)) => WireValue::Number(
            Number::U128(
                match n {
                    Some(Number::U128(v)) => v,
                    _ => 0,
                },
            ),
        ),
        (FieldKind::OptionI128, Value::OptionNumber(n)) => WireValue::Number(
            Number::U128(
                match n {
                    Some(Number::I128(v)) => v as u128,
                    _ => 0,
                },
            ),
        ),
        (FieldKind::OptionUsize, Value::OptionUsize(n)) => WireValue::Number(
            Number::U64(
                match n {
                    Some(v) => v as u64,
                    None => 0,
                },
            ),
        ),
        (FieldKind::OptionIsize, Value::OptionIsize(n)) => WireValue::Number(
            Number::I64(
                match n {
                    Some(v) => v as i64,
                    None => 0,
                },
            ),
        ),
        (FieldKind::OptionF32, Value::OptionNumber(n)) => WireValue::Number(
            Number::U32(
                match n {
                    Some(Number::F32(bits)) => bits,
                    _ => 0,
                },
            ),
        ),
        (FieldKind::OptionF64, Value::OptionNumber(n)) => WireValue::Number(
            Number::U64(
                match n {
                    Some(Number::F64(bits)) => bits,
                    _ => 0,
                },
            ),
        ),
        (FieldKind::Enum, Value::Enum(d)) => WireValue::Number(Number::U8(d)),
        _ => WireValue::Number(Number::U8(0)),
    }
}

/// There is a value in an optional field.
pub open spec fn present(value: Value) -> bool {
    match value {
        Value::OptionNumber(n) => n is Some,
        Value::OptionBool(b) => b is Some,
        Value::OptionUsize(v) => v is Some,
        Value::OptionIsize(v) => v is Some,
        _ => true,
    }
}

/// `wire` can stand in the first wire field of this kind.
pub open spec fn carries(kind: FieldKind, wire: WireValue) -> bool {
    match kind {
        FieldKind::Passthrough => true,
        FieldKind::Bool | FieldKind::OptionBool | FieldKind::Enum => wire matches WireValue::Number(
            n,
        ) && n is U8,
        FieldKind::Usize | FieldKind::OptionUnsignedInt(_) | FieldKind::OptionUsize
        | FieldKind::OptionF64 => wire matches WireValue::Number(n) && n is U64,
        FieldKind::Isize | FieldKind::OptionSignedInt(_) | FieldKind::OptionIsize => wire matches WireValue::Number(
            n,
        ) && n is I64,
        FieldKind::OptionU128 | FieldKind::OptionI128 => wire matches WireValue::Number(n)
            && n is U128,
        FieldKind::OptionF32 => wire matches WireValue::Number(n) && n is U32,
        FieldKind::UnsupportedOption => false,
    }
}

/// The value that a wire form stands for. `has` counts for optional fields
/// only.
pub open spec fn decoded(kind: FieldKind, wire: WireValue, has: u8) -> Value {
    match (kind, wire) {
        (FieldKind::Passthrough, WireValue::Number(n)) => Value::Number(n),
        (FieldKind::Passthrough, WireValue::Array(a)) => Value::Array(a),
        (FieldKind::Bool, WireValue::Number(Number::U8(b))) => Value::Bool(b != 0),
        (FieldKind::Usize, WireValue::Number(Number::U64(v))) => Value::Usize(v as usize),
        (FieldKind::Isize, WireValue::Number(Number::I64(v))) => Value::Isize(v as isize),
        (FieldKind::OptionUnsignedInt(ty), WireValue::Number(Number::U64(v))) => Value::OptionNumber(
            if has != 0 {
                Some(narrow_unsigned(ty, v))
            } else {
                None
            },
        ),
        (FieldKind::OptionSignedInt(ty), WireValue::Number(Number::I64(v))) => Value::OptionNumber(
            if has != 0 {
                Some(narrow_signed(ty, v))
            } else {
                None
            },
        ),
        (FieldKind::OptionBool, WireValue::Number(Number::U8(b))) => Value::OptionBool(
            if has != 0 {
                Some(b != 0)
            } else {
                None
            },
        ),
        (FieldKind::OptionU128, WireValue::Number(Number::U128(v))) => Value::OptionNumber(
            if has != 0 {
                Some(Number::U128(v))
            } else {
                None
            },
        ),
        (FieldKind::OptionI128, WireValue::Number(Number::U128(v))) => Value::OptionNumber(
            if has != 0 {
                Some(Number::I128(v as i128))
            } else {
                None
            },
        ),
        (FieldKind::OptionUsize, WireValue::Number(Number::U64(v))) => Value::OptionUsize(
            if has != 0 {
                Some(v as usize)
            } else {
                None
            },
        ),
        (FieldKind::OptionIsize, WireValue::Number(Number::I64(v))) => Value::OptionIsize(
            if has != 0 {
                Some(v as isize)
            } else {
                None
            },
        ),
        (FieldKind::OptionF32, WireValue::Number(Number::U32(bits))) => Value::OptionNumber(
            if has != 0 {
                Some(Number::F32(bits))
            } else {
                None
            },
        ),
        (FieldKind::OptionF64, WireValue::Number(Number::U64(bits))) => Value::OptionNumber(
            if has != 0 {
                Some(Number::F64(bits))
            } else {
                None
            },
        ),
        (FieldKind::Enum, WireValue::Number(Number::U8(d))) => Value::Enum(d),
        _ => Value::Bool(false),
    }
}

/// A value comes back from its wire form as it was. In particular an optional
/// zero is told apart from nothing.
pub proof fn lemma_field_round_trip(kind: FieldKind, value: Value)
    requires
        fits(kind, value),
    ensures
        carries(kind, encoded(kind, value)),
        decoded(kind, encoded(kind, value), has_byte(present(value))) == value,
{
    match value {
        Value::OptionNumber(Some(Number::I128(v))) => {
            assert((v as u128) as i128 == v) by (bit_vector);
        },
        Value::OptionBool(b) => {
            assert(b is None || b == Some(true) || b == Some(false));
        },
        _ => {},
    }
}

/// The wire form of a field.
pub struct Encoded {
    pub wire: WireValue,
    /// Tells whether there is a value, for optional fields.
    pub has: Option<u8>,
}

/// The wire form of `value`.
pub fn encode(kind: FieldKind, value: Value) -> (r: Encoded)
    requires
        fits(kind, value),
    ensures
        r.wire == encoded(kind, value),
        r.has == (if kind.is_option() {
            Some(has_byte(present(value)))
        } else {
            None
        }),
{
    match value {
        Value::Number(n) => Encoded { wire: WireValue::Number(n), has: None },
        Value::Array(a) => Encoded { wire: WireValue::Array(a), has: None },
        Value::Bool(b) => Encoded {
            wire: WireValue::Number(Number::U8(flag(b))),
            has: None,
        },
        Value::Usize(v) => Encoded { wire: WireValue::Number(Number::U64(v as u64)), has: None },
        Value::Isize(v) => Encoded { wire: WireValue::Number(Number::I64(v as i64)), has: None },
        Value::Enum(d) => Encoded { wire: WireValue::Number(Number::U8(d)), has: None },
        Value::OptionBool(b) => Encoded {
            wire: WireValue::Number(
                Number::U8(
                    flag(
                        match b {
                            Some(v) => v,
                            None => false,
                        },
                    ),
                ),
            ),
            has: Some(flag(b.is_some())),
        },
        Value::OptionUsize(v) => Encoded {
            wire: WireValue::Number(
                Number::U64(
                    match v {
                        Some(x) => x as u64,
                        None => 0,
                    },
                ),
            ),
            has: Some(flag(v.is_some())),
        },
        Value::OptionIsize(v) => Encoded {
            wire: WireValue::Number(
                Number::I64(
                    match v {
                        Some(x) => x as i64,
                        None => 0,
                    },
                ),
            ),
            has: Some(flag(v.is_some())),
        },
        Value::OptionNumber(n) => Encoded {
            wire: WireValue::Number(encode_number(kind, n)),
            has: Some(flag(n.is_some())),
        },
    }
}

/// One as a byte if `present`.
fn flag(present: bool) -> (byte: u8)
    ensures
        byte == has_byte(present),
{
    if present {
        1
    } else {
        0
    }
}

/// What the first wire field of an optional number holds.
fn encode_number(kind: FieldKind, n: Option<Number>) -> (r: Number)
    requires
        fits(kind, Value::OptionNumber(n)),
    ensures
        WireValue::Number(r) == encoded(kind, Value::OptionNumber(n)),
{
    match kind {
        FieldKind::OptionUnsignedInt(_) => Number::U64(
            match n {
                Some(Number::U8(v)) => v as u64,
                Some(Number::U16(v)) => v as u64,
                Some(Number::U32(v)) => v as u64,
                Some(Number::U64(v)) => v,
                _ => 0,
            },
        ),
        FieldKind::OptionSignedInt(_) => Number::I64(
            match n {
                Some(Number::I8(v)) => v as i64,
                Some(Number::I16(v)) => v as i64,
                Some(Number::I32(v)) => v as i64,
                Some(Number::I64(v)) => v,
                _ => 0,
            },
        ),
        FieldKind::OptionU128 => Number::U128(
            match n {
                Some(Number::U128(v)) => v,
                _ => 0,
            },
        ),
        FieldKind::OptionI128 => Number::U128(
            match n {
                Some(Number::I128(v)) => #[verifier::truncate] (v as u128),
                _ => 0,
            },
        ),
        FieldKind::OptionF32 => Number::U32(
            match n {
                Some(Number::F32(bits)) => bits,
                _ => 0,
            },
        ),
        _ => Number::U64(
            match n {
                Some(Number::F64(bits)) => bits,
                _ => 0,
            },
        ),
    }
}

/// The number of type `ty` in the low bits of `v`.
fn cast_unsigned(ty: UnsignedInt, v: u64) -> (n: Number)
    ensures
        n == narrow_unsigned(ty, v),
{
    match ty {
        UnsignedInt::U8 => Number::U8(#[verifier::truncate] (v as u8)),
        UnsignedInt::U16 => Number::U16(#[verifier::truncate] (v as u16)),
        UnsignedInt::U32 => Number::U32(#[verifier::truncate] (v as u32)),
        UnsignedInt::U64 => Number::U64(v),
    }
}

/// The number of type `ty` in the low bits of `v`.
fn cast_signed(ty: SignedInt, v: i64) -> (n: Number)
    ensures
        n == narrow_signed(ty, v),
{
    match ty {
        SignedInt::I8 => Number::I8(#[verifier::truncate] (v as i8)),
        SignedInt::I16 => Number::I16(#[verifier::truncate] (v as i16)),
        SignedInt::I32 => Number::I32(#[verifier::truncate] (v as i32)),
        SignedInt::I64 => Number::I64(v),
    }
}

/// The value that a wire form stands for.
pub fn decode(kind: FieldKind, wire: WireValue, has: u8) -> (value: Value)
    requires
        carries(kind, wire),
    ensures
        value == decoded(kind, wire, has),
{
    let n: Number = match wire {
        WireValue::Array(a) => {
            return Value::Array(a);
        },
        WireValue::Number(n) => n,
    };
    let there: bool = has != 0;
    match (kind, n) {
        (FieldKind::Bool, Number::U8(b)) => Value::Bool(b != 0),
        (FieldKind::Usize, Number::U64(v)) => Value::Usize(#[verifier::truncate] (v as usize)),
        (FieldKind::Isize, Number::I64(v)) => Value::Isize(#[verifier::truncate] (v as isize)),
        (FieldKind::OptionUnsignedInt(ty), Number::U64(v)) => Value::OptionNumber(
            if there {
                Some(cast_unsigned(ty, v))
            } else {
                None
            },
        ),
        (FieldKind::OptionSignedInt(ty), Number::I64(v)) => Value::OptionNumber(
            if there {
                Some(cast_signed(ty, v))
            } else {
                None
            },
        ),
        (FieldKind::OptionBool, Number::U8(b)) => Value::OptionBool(
            if there {
                Some(b != 0)
            } else {
                None
            },
        ),
        (FieldKind::OptionU128, Number::U128(v)) => Value::OptionNumber(
            if there {
                Some(Number::U128(v))
            } else {
                None
            },
        ),
        (FieldKind::OptionI128, Number::U128(v)) => Value::OptionNumber(
            if there {
                Some(Number::I128(#[verifier::truncate] (v as i128)))
            } else {
                None
            },
        ),
        (FieldKind::OptionUsize, Number::U64(v)) => Value::OptionUsize(
            if there {
                Some(#[verifier::truncate] (v as usize))
            } else {
                None
            },
        ),
        (FieldKind::OptionIsize, Number::I64(v)) => Value::OptionIsize(
            if there {
                Some(#[verifier::truncate] (v as isize))
            } else {
                None
            },
        ),
        (FieldKind::OptionF32, Number::U32(bits)) => Value::OptionNumber(
            if there {
                Some(Number::F32(bits))
            } else {
                None
            },
        ),
        (FieldKind::OptionF64, Number::U64(bits)) => Value::OptionNumber(
            if there {
                Some(Number::F64(bits))
            } else {
                None
            },
        ),
        (FieldKind::Enum, Number::U8(d)) => Value::Enum(d),
        _ => Value::Number(n),
    }
}

impl FieldKind {
    /// Whether the wire form has a second field that tells whether there is a
    /// value.
    pub fn optional(&self) -> (optional: bool)
        ensures
            optional == self.is_option(),
    {
        match self {
            FieldKind::OptionUnsignedInt(_) | FieldKind::OptionSignedInt(_) | FieldKind::OptionBool
            | FieldKind::OptionU128 | FieldKind::OptionI128 | FieldKind::OptionUsize
            | FieldKind::OptionIsize | FieldKind::OptionF32 | FieldKind::OptionF64 => true,
            _ => false,
        }
    }
}

/// Every value fits its field.
pub open spec fn all_fit(kinds: Seq<FieldKind>, values: Seq<Value>) -> bool {
    &&& kinds.len() == values.len()
    &&& forall|i: int| 0 <= i < kinds.len() ==> fits(#[trigger] kinds[i], values[i])
}

/// The wire fields of one value.
pub open spec fn field_wire(kind: FieldKind, value: Value) -> Seq<WireValue> {
    if kind.is_option() {
        seq![
            encoded(kind, value),
            WireValue::Number(Number::U8(has_byte(present(value)))),
        ]
    } else {
        seq![encoded(kind, value)]
    }
}

/// The wire fields of a record, in the order of its fields.
pub open spec fn record_wire(kinds: Seq<FieldKind>, values: Seq<Value>) -> Seq<WireValue>
    decreases kinds.len(),
{
    if kinds.len() == 0 {
        Seq::empty()
    } else {
        field_wire(kinds.first(), values.first()) + record_wire(
            kinds.drop_first(),
            values.drop_first(),
        )
    }
}

/// Number of wire fields of a record.
pub open spec fn record_width(kinds: Seq<FieldKind>) -> nat
    decreases kinds.len(),
{
    if kinds.len() == 0 {
        0
    } else {
        kinds.first().width() + record_width(kinds.drop_first())
    }
}

/// `wire` has the wire fields of a record of these kinds.
pub open spec fn record_carries(kinds: Seq<FieldKind>, wire: Seq<WireValue>) -> bool
    decreases kinds.len(),
{
    if kinds.len() == 0 {
        wire.len() == 0
    } else {
        let width = kinds.first().width() as int;
        &&& wire.len() >= width
        &&& carries(kinds.first(), wire[0])
        &&& kinds.first().is_option() ==> (wire[1] matches WireValue::Number(n) && n is U8)
        &&& record_carries(kinds.drop_first(), wire.skip(width))
    }
}

/// The byte that tells whether there is a value.
pub open spec fn has_of(wire: WireValue) -> u8 {
    match wire {
        WireValue::Number(Number::U8(b)) => b,
        _ => 0,
    }
}

/// The record that wire fields stand for.
pub open spec fn record_decoded(kinds: Seq<FieldKind>, wire: Seq<WireValue>) -> Seq<Value>
    decreases kinds.len(),
{
    if kinds.len() == 0 {
        Seq::empty()
    } else {
        let kind = kinds.first();
        seq![decoded(kind, wire[0], has_of(wire[1]))] + record_decoded(
            kinds.drop_first(),
            wire.skip(kind.width() as int),
        )
    }
}

/// `has` counts for optional fields only.
proof fn lemma_has_ignored(kind: FieldKind, wire: WireValue, a: u8, b: u8)
    requires
        !kind.is_option(),
        carries(kind, wire),
    ensures
        decoded(kind, wire, a) == decoded(kind, wire, b),
{
}

/// A record comes back from its wire form as it was.
pub proof fn lemma_record_round_trip(kinds: Seq<FieldKind>, values: Seq<Value>)
    requires
        all_fit(kinds, values),
    ensures
        record_carries(kinds, record_wire(kinds, values)),
        record_decoded(kinds, record_wire(kinds, values)) == values,
        record_wire(kinds, values).len() == record_width(kinds),
    decreases kinds.len(),
{
    if kinds.len() > 0 {
        let kind = kinds.first();
        let value = values.first();
        let rest = record_wire(kinds.drop_first(), values.drop_first());
        let wire = record_wire(kinds, values);
        assert(fits(kinds[0], values[0]));
        assert forall|i: int| 0 <= i < kinds.drop_first().len() implies fits(
            #[trigger] kinds.drop_first()[i],
            values.drop_first()[i],
        ) by {
            assert(fits(kinds[i + 1], values[i + 1]));
        }
        lemma_record_round_trip(kinds.drop_first(), values.drop_first());
        lemma_field_round_trip(kind, value);
        assert(wire.skip(kind.width() as int) =~= rest);
        if !kind.is_option() {
            lemma_has_ignored(kind, wire[0], has_of(wire[1]), has_byte(present(value)));
        }
        assert(record_decoded(kinds, wire) =~= seq![value] + values.drop_first());
        assert(values =~= seq![value] + values.drop_first());
    } else {
        assert(values =~= Seq::empty());
    }
}

/// The wire fields of a record.
pub fn to_wire(kinds: &Vec<FieldKind>, values: Vec<Value>) -> (wire: Vec<WireValue>)
    requires
        all_fit(kinds@, values@),
    ensures
        wire@ == record_wire(kinds@, values@),
{
    let ghost all = values@;
    let mut values = values;
    let mut wire: Vec<WireValue> = Vec::new();
    let mut i: usize = 0;
    assert(kinds@.skip(0) =~= kinds@);
    assert(all.skip(0) =~= all);
    assert(wire@ + record_wire(kinds@, all) =~= record_wire(kinds@, all));
    while i < kinds.len()
        invariant
            i <= kinds@.len(),
            all_fit(kinds@, all),
            values@ == all.skip(i as int),
            wire@ + record_wire(kinds@.skip(i as int), all.skip(i as int)) == record_wire(
                kinds@,
                all,
            ),
        decreases kinds@.len() - i,
    {
        let kind: FieldKind = kinds[i];
        let value = values.remove(0);
        proof {
            assert(fits(kinds@[i as int], all[i as int]));
            assert(kinds@.skip(i as int).drop_first() =~= kinds@.skip(i + 1));
            assert(all.skip(i as int).drop_first() =~= all.skip(i + 1));
            assert(values@ =~= all.skip(i + 1));
        }
        let ghost had = wire@;
        let encoded_field = encode(kind, value);
        wire.push(encoded_field.wire);
        if let Some(has) = encoded_field.has {
            wire.push(WireValue::Number(Number::U8(has)));
        }
        proof {
            assert(wire@ =~= had + field_wire(kind, value));
            let rest = record_wire(kinds@.skip(i + 1), all.skip(i + 1));
            assert(wire@ + rest =~= had + (field_wire(kind, value) + rest));
        }
        i += 1;
    }
    assert(record_wire(kinds@.skip(i as int), all.skip(i as int)) =~= Seq::empty());
    assert(wire@ =~= wire@ + Seq::<WireValue>::empty());
    wire
}

/// The record that wire fields stand for.
pub fn from_wire(kinds: &Vec<FieldKind>, wire: Vec<WireValue>) -> (values: Vec<Value>)
    requires
        record_carries(kinds@, wire@),
    ensures
        values@ == record_decoded(kinds@, wire@),
{
    let ghost all = wire@;
    let mut wire = wire;
    let mut values: Vec<Value> = Vec::new();
    let mut i: usize = 0;
    assert(kinds@.skip(0) =~= kinds@);
    assert(values@ + record_decoded(kinds@, all) =~= record_decoded(kinds@, all));
    while i < kinds.len()
        invariant
            i <= kinds@.len(),
            record_carries(kinds@.skip(i as int), wire@),
            values@ + record_decoded(kinds@.skip(i as int), wire@) == record_decoded(kinds@, all),
        decreases kinds@.len() - i,
    {
        let kind: FieldKind = kinds[i];
        let ghost before = wire@;
        let ghost had = values@;
        proof {
            assert(kinds@.skip(i as int).first() == kind);
            assert(kinds@.skip(i as int).drop_first() =~= kinds@.skip(i + 1));
        }
        let first = wire.remove(0);
        let mut has: u8 = 0;
        if kind.optional() {
            let second = wire.remove(0);
            if let WireValue::Number(Number::U8(b)) = second {
                has = b;
            }
        }
        proof {
            assert(wire@ =~= before.skip(kind.width() as int));
            if !kind.is_option() {
                lemma_has_ignored(kind, before[0], has_of(before[1]), has);
            }
        }
        let value = decode(kind, first, has);
        values.push(value);
        proof {
            let rest = record_decoded(kinds@.skip(i + 1), wire@);
            assert(values@ + rest =~= had + (seq![value] + rest));
        }
        i += 1;
    }
    assert(values@ =~= values@ + Seq::<Value>::empty());
    values
}

} // verus!
