//! Which types are carried, and as what.

use crate::message::codec::{
    carries, decoded, encoded, fits, has_byte, narrow_signed, narrow_unsigned, present, FieldKind,
    Number, SignedInt, UnsignedInt, Value, WireValue,
};
use crate::message::forms::{written, WriteForm};
use crate::message::plan::{wire_type_of, WireType};
use crate::message::types::{
    argument_name, kind_of, option_of, ArgumentView, FieldTypeView, SegmentView,
};
use vstd::prelude::*;

verus! {

/// A type that is a path whose last segment is `name`.
pub open spec fn ends_in(ty: FieldTypeView, name: Seq<char>) -> bool {
    ty matches FieldTypeView::Path(segments) && segments.len() > 0 && segments.last().name == name
}

/// The names of the types that are known, spelled out.
proof fn lemma_names_spelled()
    ensures
        "u8"@ == seq!['u', '8'],
        "u16"@ == seq!['u', '1', '6'],
        "u32"@ == seq!['u', '3', '2'],
        "u64"@ == seq!['u', '6', '4'],
        "u128"@ == seq!['u', '1', '2', '8'],
        "i8"@ == seq!['i', '8'],
        "i16"@ == seq!['i', '1', '6'],
        "i32"@ == seq!['i', '3', '2'],
        "i64"@ == seq!['i', '6', '4'],
        "i128"@ == seq!['i', '1', '2', '8'],
        "f32"@ == seq!['f', '3', '2'],
        "f64"@ == seq!['f', '6', '4'],
        "bool"@ == seq!['b', 'o', 'o', 'l'],
        "usize"@ == seq!['u', 's', 'i', 'z', 'e'],
        "isize"@ == seq!['i', 's', 'i', 'z', 'e'],
        "Option"@ == seq!['O', 'p', 't', 'i', 'o', 'n'],
{
    reveal_strlit("u8");
    reveal_strlit("u16");
    reveal_strlit("u32");
    reveal_strlit("u64");
    reveal_strlit("u128");
    reveal_strlit("i8");
    reveal_strlit("i16");
    reveal_strlit("i32");
    reveal_strlit("i64");
    reveal_strlit("i128");
    reveal_strlit("f32");
    reveal_strlit("f64");
    reveal_strlit("bool");
    reveal_strlit("usize");
    reveal_strlit("isize");
    reveal_strlit("Option");
    assert("u8"@ =~= seq!['u', '8']);
    assert("u16"@ =~= seq!['u', '1', '6']);
    assert("u32"@ =~= seq!['u', '3', '2']);
    assert("u64"@ =~= seq!['u', '6', '4']);
    assert("u128"@ =~= seq!['u', '1', '2', '8']);
    assert("i8"@ =~= seq!['i', '8']);
    assert("i16"@ =~= seq!['i', '1', '6']);
    assert("i32"@ =~= seq!['i', '3', '2']);
    assert("i64"@ =~= seq!['i', '6', '4']);
    assert("i128"@ =~= seq!['i', '1', '2', '8']);
    assert("f32"@ =~= seq!['f', '3', '2']);
    assert("f64"@ =~= seq!['f', '6', '4']);
    assert("bool"@ =~= seq!['b', 'o', 'o', 'l']);
    assert("usize"@ =~= seq!['u', 's', 'i', 'z', 'e']);
    assert("isize"@ =~= seq!['i', 's', 'i', 'z', 'e']);
    assert("Option"@ =~= seq!['O', 'p', 't', 'i', 'o', 'n']);
}

/// Numbers and arrays are carried as they are: every type that goes under the name of a
/// primitive number type, wherever its path leads, and every array.
pub proof fn lemma_numbers_pass_through(ty: FieldTypeView)
    ensures
        ends_in(ty, "u8"@) ==> kind_of(ty) == FieldKind::Passthrough,
        ends_in(ty, "u16"@) ==> kind_of(ty) == FieldKind::Passthrough,
        ends_in(ty, "u32"@) ==> kind_of(ty) == FieldKind::Passthrough,
        ends_in(ty, "u64"@) ==> kind_of(ty) == FieldKind::Passthrough,
        ends_in(ty, "u128"@) ==> kind_of(ty) == FieldKind::Passthrough,
        ends_in(ty, "i8"@) ==> kind_of(ty) == FieldKind::Passthrough,
        ends_in(ty, "i16"@) ==> kind_of(ty) == FieldKind::Passthrough,
        ends_in(ty, "i32"@) ==> kind_of(ty) == FieldKind::Passthrough,
        ends_in(ty, "i64"@) ==> kind_of(ty) == FieldKind::Passthrough,
        ends_in(ty, "i128"@) ==> kind_of(ty) == FieldKind::Passthrough,
        ends_in(ty, "f32"@) ==> kind_of(ty) == FieldKind::Passthrough,
        ends_in(ty, "f64"@) ==> kind_of(ty) == FieldKind::Passthrough,
        ty is Array ==> kind_of(ty) == FieldKind::Passthrough,
{
    lemma_names_spelled();
}

/// `bool` and the machine words have kinds of their own.
pub proof fn lemma_words_and_flags(ty: FieldTypeView)
    ensures
        ends_in(ty, "bool"@) ==> kind_of(ty) == FieldKind::Bool,
        ends_in(ty, "usize"@) ==> kind_of(ty) == FieldKind::Usize,
        ends_in(ty, "isize"@) ==> kind_of(ty) == FieldKind::Isize,
{
    lemma_names_spelled();
}

/// A type is taken for an enum exactly if it goes under none of the known names and is
/// no array.
pub proof fn lemma_anything_else_is_an_enum(ty: FieldTypeView)
    ensures
        kind_of(ty) == FieldKind::Enum <==> {
            &&& !(ty is Array)
            &&& !ends_in(ty, "u8"@) && !ends_in(ty, "u16"@) && !ends_in(ty, "u32"@) && !ends_in(
                ty,
                "u64"@,
            ) && !ends_in(ty, "u128"@)
            &&& !ends_in(ty, "i8"@) && !ends_in(ty, "i16"@) && !ends_in(ty, "i32"@) && !ends_in(
                ty,
                "i64"@,
            ) && !ends_in(ty, "i128"@)
            &&& !ends_in(ty, "f32"@) && !ends_in(ty, "f64"@)
            &&& !ends_in(ty, "bool"@) && !ends_in(ty, "usize"@) && !ends_in(ty, "isize"@)
            &&& !ends_in(ty, "Option"@)
        },
{
    lemma_names_spelled();
    lemma_numbers_pass_through(ty);
    lemma_words_and_flags(ty);
    if ends_in(ty, "Option"@) {
        let segment = ty->Path_0.last();
        lemma_option_kind_is_no_enum(segment);
    }
}

proof fn lemma_option_kind_is_no_enum(segment: SegmentView)
    requires
        segment.name == "Option"@,
    ensures
        forall|segments: Seq<SegmentView>|
            #![trigger kind_of(FieldTypeView::Path(segments))]
            segments.len() > 0 && segments.last() == segment ==> !(kind_of(
                FieldTypeView::Path(segments),
            ) is Enum),
{
    lemma_names_spelled();
}

/// An `Option` whose first argument is a path that ends in `name`.
pub open spec fn option_of_name(ty: FieldTypeView, name: Seq<char>) -> bool {
    &&& ends_in(ty, "Option"@)
    &&& ty->Path_0.last().arguments.len() > 0
    &&& ty->Path_0.last().arguments[0] matches ArgumentView::Named(names) && names.len() > 0
        && names.last() == name
}

/// An optional number, flag or machine word has the kind of what is in it.
pub proof fn lemma_options(ty: FieldTypeView)
    ensures
        option_of_name(ty, "u8"@) ==> kind_of(ty) == FieldKind::OptionUnsignedInt(UnsignedInt::U8),
        option_of_name(ty, "u16"@) ==> kind_of(ty) == FieldKind::OptionUnsignedInt(
            UnsignedInt::U16,
        ),
        option_of_name(ty, "u32"@) ==> kind_of(ty) == FieldKind::OptionUnsignedInt(
            UnsignedInt::U32,
        ),
        option_of_name(ty, "u64"@) ==> kind_of(ty) == FieldKind::OptionUnsignedInt(
            UnsignedInt::U64,
        ),
        option_of_name(ty, "i8"@) ==> kind_of(ty) == FieldKind::OptionSignedInt(SignedInt::I8),
        option_of_name(ty, "i16"@) ==> kind_of(ty) == FieldKind::OptionSignedInt(SignedInt::I16),
        option_of_name(ty, "i32"@) ==> kind_of(ty) == FieldKind::OptionSignedInt(SignedInt::I32),
        option_of_name(ty, "i64"@) ==> kind_of(ty) == FieldKind::OptionSignedInt(SignedInt::I64),
        option_of_name(ty, "u128"@) ==> kind_of(ty) == FieldKind::OptionU128,
        option_of_name(ty, "i128"@) ==> kind_of(ty) == FieldKind::OptionI128,
        option_of_name(ty, "usize"@) ==> kind_of(ty) == FieldKind::OptionUsize,
        option_of_name(ty, "isize"@) ==> kind_of(ty) == FieldKind::OptionIsize,
        option_of_name(ty, "f32"@) ==> kind_of(ty) == FieldKind::OptionF32,
        option_of_name(ty, "f64"@) ==> kind_of(ty) == FieldKind::OptionF64,
        option_of_name(ty, "bool"@) ==> kind_of(ty) == FieldKind::OptionBool,
{
    lemma_names_spelled();
    if ends_in(ty, "Option"@) {
        let segment = ty->Path_0.last();
        if segment.arguments.len() > 0 {
            assert(segment.arguments.first() == segment.arguments[0]);
        }
    }
}

/// An `Option` has no wire form exactly if it is of none of these names.
pub proof fn lemma_unsupported_options(ty: FieldTypeView)
    ensures
        kind_of(ty) == FieldKind::UnsupportedOption <==> {
            &&& ends_in(ty, "Option"@)
            &&& !option_of_name(ty, "u8"@) && !option_of_name(ty, "u16"@) && !option_of_name(
                ty,
                "u32"@,
            ) && !option_of_name(ty, "u64"@) && !option_of_name(ty, "u128"@)
            &&& !option_of_name(ty, "i8"@) && !option_of_name(ty, "i16"@) && !option_of_name(
                ty,
                "i32"@,
            ) && !option_of_name(ty, "i64"@) && !option_of_name(ty, "i128"@)
            &&& !option_of_name(ty, "f32"@) && !option_of_name(ty, "f64"@) && !option_of_name(
                ty,
                "bool"@,
            ) && !option_of_name(ty, "usize"@) && !option_of_name(ty, "isize"@)
        },
{
    lemma_names_spelled();
    lemma_options(ty);
    lemma_numbers_pass_through(ty);
    lemma_words_and_flags(ty);
    if ends_in(ty, "Option"@) {
        let segment = ty->Path_0.last();
        if segment.arguments.len() > 0 {
            assert(segment.arguments.first() == segment.arguments[0]);
        }
        assert(Seq::<char>::empty().len() == 0);
    }
}

/// A type goes under the last name of its path, and what is no path has no name.
pub proof fn lemma_type_names(names: Seq<Seq<char>>, segment: SegmentView)
    ensures
        names.len() > 0 ==> argument_name(ArgumentView::Named(names)) == Some(
            names[names.len() - 1],
        ),
        names.len() == 0 ==> argument_name(ArgumentView::Named(names)) is None,
        argument_name(ArgumentView::Unnamed) is None,
        segment.arguments.len() == 0 ==> option_of(segment).len() == 0,
        segment.arguments.len() > 0 ==> match segment.arguments[0] {
            ArgumentView::Named(path) => if path.len() > 0 {
                option_of(segment) == path[path.len() - 1]
            } else {
                option_of(segment).len() == 0
            },
            ArgumentView::Unnamed => option_of(segment).len() == 0,
        },
{
    if segment.arguments.len() > 0 {
        assert(segment.arguments.first() == segment.arguments[0]);
    }
}

/// The number that a primitive number stands for; of a floating point number its bits.
pub open spec fn number_value(n: Number) -> int {
    match n {
        Number::U8(v) => v as int,
        Number::U16(v) => v as int,
        Number::U32(v) => v as int,
        Number::U64(v) => v as int,
        Number::U128(v) => v as int,
        Number::I8(v) => v as int,
        Number::I16(v) => v as int,
        Number::I32(v) => v as int,
        Number::I64(v) => v as int,
        Number::I128(v) => v as int,
        Number::F32(bits) => bits as int,
        Number::F64(bits) => bits as int,
    }
}

/// The number that a wire field holds.
pub open spec fn wire_number(wire: WireValue) -> int {
    number_value(wire->Number_0)
}

/// What goes on the wire is the number itself: a flag is one or zero, an integer is
/// itself, a floating point number is its bits, an enum is its discriminant, and
/// nothing is zero. Only a negative 128-bit number wraps around.
pub proof fn lemma_wire_numbers(kind: FieldKind, value: Value)
    requires
        fits(kind, value),
    ensures
        value matches Value::Number(n) ==> encoded(kind, value) == WireValue::Number(n),
        value matches Value::Array(a) ==> encoded(kind, value) == WireValue::Array(a),
        value matches Value::Bool(b) ==> wire_number(encoded(kind, value)) == (if b {
            1int
        } else {
            0int
        }),
        value matches Value::Usize(v) ==> wire_number(encoded(kind, value)) == v,
        value matches Value::Isize(v) ==> wire_number(encoded(kind, value)) == v,
        value matches Value::Enum(d) ==> wire_number(encoded(kind, value)) == d,
        value matches Value::OptionBool(Some(b)) ==> wire_number(encoded(kind, value)) == (if b {
            1int
        } else {
            0int
        }),
        value matches Value::OptionUsize(Some(v)) ==> wire_number(encoded(kind, value)) == v,
        value matches Value::OptionIsize(Some(v)) ==> wire_number(encoded(kind, value)) == v,
        value matches Value::OptionNumber(Some(n)) ==> wire_number(encoded(kind, value)) == (if n
            is I128 && number_value(n) < 0 {
            number_value(n) + 0x1_0000_0000_0000_0000_0000_0000_0000_0000
        } else {
            number_value(n)
        }),
        value == Value::OptionBool(None) || value == Value::OptionUsize(None) || value
            == Value::OptionIsize(None) || value == Value::OptionNumber(None) ==> wire_number(
            encoded(kind, value),
        ) == 0,
{
    if let Value::OptionNumber(Some(Number::I128(v))) = value {
        assert(v >= 0 ==> v as u128 == v) by (bit_vector);
        assert(v < 0 ==> (v as u128) as int == v + 0x1_0000_0000_0000_0000_0000_0000_0000_0000)
            by (bit_vector);
    }
}

/// The byte beside an optional value is one if there is a value and zero if not.
pub proof fn lemma_has_byte(value: Value)
    ensures
        has_byte(true) == 1 && has_byte(false) == 0,
        value == Value::OptionBool(None) || value == Value::OptionUsize(None) || value
            == Value::OptionIsize(None) || value == Value::OptionNumber(None) <==> !present(value),
{
}

/// A wire value is of a type. What is carried as it is may be of any type.
pub open spec fn of_type(wire: WireValue, ty: WireType) -> bool {
    match ty {
        WireType::Same => true,
        WireType::U8 => wire matches WireValue::Number(n) && n is U8,
        WireType::U32 => wire matches WireValue::Number(n) && n is U32,
        WireType::U64 => wire matches WireValue::Number(n) && n is U64,
        WireType::U128 => wire matches WireValue::Number(n) && n is U128,
        WireType::I64 => wire matches WireValue::Number(n) && n is I64,
    }
}

/// A wire field has room for what is written to it: its type is that of the wire value,
/// and every wire value of that type can be read. What is carried as it is keeps its
/// type, and nothing else does.
pub proof fn lemma_wire_types(kind: FieldKind, value: Value, wire: WireValue)
    requires
        fits(kind, value),
    ensures
        of_type(encoded(kind, value), wire_type_of(kind)),
        carries(kind, wire) <==> of_type(wire, wire_type_of(kind)),
        wire_type_of(kind) is Same <==> kind is Passthrough,
{
}

/// The width of each wire field: a byte for a flag or an enum, 64 bits for an integer or a
/// machine word, signed where it is signed, 128 bits for the wide integers, and as many
/// bits as a floating point number has.
pub proof fn lemma_wire_widths(unsigned: UnsignedInt, signed: SignedInt)
    ensures
        wire_type_of(FieldKind::Passthrough) == WireType::Same,
        wire_type_of(FieldKind::Bool) == WireType::U8,
        wire_type_of(FieldKind::OptionBool) == WireType::U8,
        wire_type_of(FieldKind::Enum) == WireType::U8,
        wire_type_of(FieldKind::Usize) == WireType::U64,
        wire_type_of(FieldKind::OptionUsize) == WireType::U64,
        wire_type_of(FieldKind::OptionUnsignedInt(unsigned)) == WireType::U64,
        wire_type_of(FieldKind::OptionF64) == WireType::U64,
        wire_type_of(FieldKind::Isize) == WireType::I64,
        wire_type_of(FieldKind::OptionIsize) == WireType::I64,
        wire_type_of(FieldKind::OptionSignedInt(signed)) == WireType::I64,
        wire_type_of(FieldKind::OptionU128) == WireType::U128,
        wire_type_of(FieldKind::OptionI128) == WireType::U128,
        wire_type_of(FieldKind::OptionF32) == WireType::U32,
{
}

/// What the first wire field holds is read as the same number, cut to the width of the
/// field's type; any byte but zero says that there is a value.
pub proof fn lemma_read_numbers(kind: FieldKind, wire: WireValue, has: u8)
    requires
        carries(kind, wire),
    ensures
        ({
            let value = decoded(kind, wire, has);
            &&& fits(kind, value)
            &&& kind is Bool ==> value == Value::Bool(wire_number(wire) != 0)
            &&& kind is Enum ==> (value matches Value::Enum(d) && d == wire_number(wire))
            &&& kind.is_option() ==> (present(value) <==> has != 0)
            &&& kind is OptionBool && has != 0 ==> value == Value::OptionBool(
                Some(wire_number(wire) != 0),
            )
            &&& kind is OptionF32 && has != 0 ==> (value matches Value::OptionNumber(Some(n))
                && number_value(n) == wire_number(wire))
            &&& kind is OptionF64 && has != 0 ==> (value matches Value::OptionNumber(Some(n))
                && number_value(n) == wire_number(wire))
            &&& kind is OptionU128 && has != 0 ==> (value matches Value::OptionNumber(Some(n))
                && number_value(n) == wire_number(wire))
            &&& kind is Usize && wire_number(wire) <= usize::MAX ==> (value matches Value::Usize(v)
                && v == wire_number(wire))
            &&& kind is Isize && isize::MIN <= wire_number(wire) <= isize::MAX ==> (
            value matches Value::Isize(v) && v == wire_number(wire))
            &&& kind is OptionUsize && has != 0 && wire_number(wire) <= usize::MAX ==> (
            value matches Value::OptionUsize(Some(v)) && v == wire_number(wire))
            &&& kind is OptionIsize && has != 0 && isize::MIN <= wire_number(wire) <= isize::MAX
                ==> (value matches Value::OptionIsize(Some(v)) && v == wire_number(wire))
            &&& kind is OptionI128 && has != 0 ==> (value matches Value::OptionNumber(Some(n))
                && number_value(n) == (if wire_number(wire) <= i128::MAX {
                wire_number(wire)
            } else {
                wire_number(wire) - 0x1_0000_0000_0000_0000_0000_0000_0000_0000
            }))
            &&& kind is OptionUnsignedInt && has != 0 ==> (value matches Value::OptionNumber(
                Some(n),
            ) && number_value(n) == wire_number(wire) % unsigned_range(kind->OptionUnsignedInt_0))
            &&& kind is OptionSignedInt && has != 0 ==> (value matches Value::OptionNumber(Some(n))
                && (wire_number(wire) - number_value(n)) % signed_range(kind->OptionSignedInt_0)
                == 0)
        }),
{
    if let WireValue::Number(Number::U64(v)) = wire {
        lemma_cut_unsigned(v);
    }
    if let WireValue::Number(Number::I64(v)) = wire {
        lemma_cut_signed(v);
    }
    if let WireValue::Number(Number::U128(v)) = wire {
        assert(v <= 0x7fff_ffff_ffff_ffff_ffff_ffff_ffff_ffffu128 ==> v as i128 == v) by (bit_vector);
        assert(v > 0x7fff_ffff_ffff_ffff_ffff_ffff_ffff_ffffu128 ==> (v as i128) as int == v
            - 0x1_0000_0000_0000_0000_0000_0000_0000_0000) by (bit_vector);
    }
}

/// How many numbers a type has.
pub open spec fn unsigned_range(ty: UnsignedInt) -> int {
    match ty {
        UnsignedInt::U8 => 0x100,
        UnsignedInt::U16 => 0x1_0000,
        UnsignedInt::U32 => 0x1_0000_0000,
        UnsignedInt::U64 => 0x1_0000_0000_0000_0000,
    }
}

/// How many numbers a type has.
pub open spec fn signed_range(ty: SignedInt) -> int {
    match ty {
        SignedInt::I8 => 0x100,
        SignedInt::I16 => 0x1_0000,
        SignedInt::I32 => 0x1_0000_0000,
        SignedInt::I64 => 0x1_0000_0000_0000_0000,
    }
}

proof fn lemma_cut_unsigned(v: u64)
    ensures
        forall|ty: UnsignedInt| number_value(#[trigger] narrow_unsigned(ty, v)) == (v as int)
            % unsigned_range(ty),
{
    assert(v as u8 == v % 0x100) by (bit_vector);
    assert(v as u16 == v % 0x1_0000) by (bit_vector);
    assert(v as u32 == v % 0x1_0000_0000) by (bit_vector);
}

proof fn lemma_cut_signed(v: i64)
    ensures
        forall|ty: SignedInt| (v - number_value(#[trigger] narrow_signed(ty, v))) % signed_range(ty)
            == 0,
{
    assert((v - (v as i8)) % 0x100 == 0) by (bit_vector);
    assert((v - (v as i16)) % 0x1_0000 == 0) by (bit_vector);
    assert((v - (v as i32)) % 0x1_0000_0000 == 0) by (bit_vector);
}

/// Every value of a type can stand in a field of the kind of that type.
pub proof fn lemma_values_fit(n: Number, value: Value)
    ensures
        fits(FieldKind::Passthrough, Value::Number(n)),
        value is Array ==> fits(FieldKind::Passthrough, value),
        value is Bool ==> fits(FieldKind::Bool, value),
        value is Usize ==> fits(FieldKind::Usize, value),
        value is Isize ==> fits(FieldKind::Isize, value),
        value is Enum ==> fits(FieldKind::Enum, value),
        value is OptionBool ==> fits(FieldKind::OptionBool, value),
        value is OptionUsize ==> fits(FieldKind::OptionUsize, value),
        value is OptionIsize ==> fits(FieldKind::OptionIsize, value),
        n is U8 ==> fits(FieldKind::OptionUnsignedInt(UnsignedInt::U8), Value::OptionNumber(Some(n))),
        n is U16 ==> fits(
            FieldKind::OptionUnsignedInt(UnsignedInt::U16),
            Value::OptionNumber(Some(n)),
        ),
        n is U32 ==> fits(
            FieldKind::OptionUnsignedInt(UnsignedInt::U32),
            Value::OptionNumber(Some(n)),
        ),
        n is U64 ==> fits(
            FieldKind::OptionUnsignedInt(UnsignedInt::U64),
            Value::OptionNumber(Some(n)),
        ),
        n is I8 ==> fits(FieldKind::OptionSignedInt(SignedInt::I8), Value::OptionNumber(Some(n))),
        n is I16 ==> fits(FieldKind::OptionSignedInt(SignedInt::I16), Value::OptionNumber(Some(n))),
        n is I32 ==> fits(FieldKind::OptionSignedInt(SignedInt::I32), Value::OptionNumber(Some(n))),
        n is I64 ==> fits(FieldKind::OptionSignedInt(SignedInt::I64), Value::OptionNumber(Some(n))),
        n is U128 ==> fits(FieldKind::OptionU128, Value::OptionNumber(Some(n))),
        n is I128 ==> fits(FieldKind::OptionI128, Value::OptionNumber(Some(n))),
        n is F32 ==> fits(FieldKind::OptionF32, Value::OptionNumber(Some(n))),
        n is F64 ==> fits(FieldKind::OptionF64, Value::OptionNumber(Some(n))),
{
}

/// An optional field may hold nothing, and exactly the kinds that may are carried in
/// two wire fields.
pub proof fn lemma_options_may_be_empty(kind: FieldKind)
    ensures
        kind.is_option() <==> {
            ||| fits(kind, Value::OptionNumber(None))
            ||| fits(kind, Value::OptionBool(None))
            ||| fits(kind, Value::OptionUsize(None))
            ||| fits(kind, Value::OptionIsize(None))
        },
        kind.width() == if kind.is_option() {
            2int
        } else {
            1int
        },
{
}

/// The forms say what they write: an integer is itself, a flag is one or zero, a
/// floating point number is its bits, an enum its discriminant.
pub proof fn lemma_written_numbers(n: Number, value: Value)
    ensures
        written(WriteForm::Same, Value::Number(n)) == WireValue::Number(n),
        value matches Value::Array(a) ==> written(WriteForm::Same, value) == WireValue::Array(a),
        value matches Value::Bool(b) ==> of_type(written(WriteForm::Flag, value), WireType::U8)
            && wire_number(written(WriteForm::Flag, value)) == (if b {
            1int
        } else {
            0int
        }),
        value matches Value::Usize(v) ==> of_type(written(WriteForm::AsU64, value), WireType::U64)
            && wire_number(written(WriteForm::AsU64, value)) == v,
        value matches Value::Isize(v) ==> of_type(written(WriteForm::AsI64, value), WireType::I64)
            && wire_number(written(WriteForm::AsI64, value)) == v,
        n is U8 || n is U16 || n is U32 || n is U64 ==> of_type(
            written(WriteForm::AsU64, Value::Number(n)),
            WireType::U64,
        ) && wire_number(written(WriteForm::AsU64, Value::Number(n))) == number_value(n),
        n is I8 || n is I16 || n is I32 || n is I64 ==> of_type(
            written(WriteForm::AsI64, Value::Number(n)),
            WireType::I64,
        ) && wire_number(written(WriteForm::AsI64, Value::Number(n))) == number_value(n),
        n is I128 && number_value(n) >= 0 ==> wire_number(
            written(WriteForm::AsU128, Value::Number(n)),
        ) == number_value(n),
        n is I128 && number_value(n) < 0 ==> wire_number(
            written(WriteForm::AsU128, Value::Number(n)),
        ) == number_value(n) + 0x1_0000_0000_0000_0000_0000_0000_0000_0000,
        n is F32 ==> of_type(written(WriteForm::Bits, Value::Number(n)), WireType::U32)
            && wire_number(written(WriteForm::Bits, Value::Number(n))) == number_value(n),
        n is F64 ==> of_type(written(WriteForm::Bits, Value::Number(n)), WireType::U64)
            && wire_number(written(WriteForm::Bits, Value::Number(n))) == number_value(n),
        value matches Value::Enum(d) ==> of_type(
            written(WriteForm::Discriminant, value),
            WireType::U8,
        ) && wire_number(written(WriteForm::Discriminant, value)) == d,
{
    if let Number::I128(v) = n {
        assert(v >= 0 ==> v as u128 == v) by (bit_vector);
        assert(v < 0 ==> (v as u128) as int == v + 0x1_0000_0000_0000_0000_0000_0000_0000_0000)
            by (bit_vector);
    }
}

} // verus!
