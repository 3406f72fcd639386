//! Domain records on the wire and back.

use photon_ring::message::codec::{
    from_wire, to_wire, FieldKind, Number, SignedInt, UnsignedInt, Value, WireValue,
};
use photon_ring::message::declaration::{
    read_declaration, repr_c, AttributeInput, FieldInput, Form, StructInput,
};
use photon_ring::message::forms::{read_form, write_form, ReadForm, WriteForm};
use photon_ring::message::plan::{
    derive_message, derive_message_of, derive_pod, derive_pod_of, enum_size_message, MessageError,
    PodError, WirePlan, WireType,
};
use photon_ring::message::types::{
    classify, name_of_type, option_inner, Argument, FieldType, Segment,
};
use photon_ring::{channel, Pod};

fn declared(
    name: &str,
    attributes: Vec<AttributeInput>,
    form: Form,
    fields: Vec<FieldInput>,
) -> StructInput {
    StructInput {
        name: name.to_string(),
        form,
        fields,
        attributes,
    }
}

/// A field of a type that is one name.
fn field(name: &str, ty: &str) -> FieldInput {
    FieldInput {
        name: name.to_string(),
        ty: FieldType::Path(vec![segment(ty)]),
    }
}

fn segment(name: &str) -> Segment {
    Segment {
        name: name.to_string(),
        arguments: Vec::new(),
    }
}

fn attribute(name: &str, words: &[&str]) -> AttributeInput {
    AttributeInput {
        name: Some(name.to_string()),
        words: words.iter().map(|word| Some(word.to_string())).collect(),
    }
}

/// A struct with these fields, as it is read.
fn named(name: &str, list: &[(&str, &str)]) -> StructInput {
    let fields: Vec<String> = list.iter().map(|(name, ty)| format!("{name}: {ty}")).collect();
    let text = format!("struct {name} {{ {} }}", fields.join(", "));
    read_declaration(&text).expect("a declaration")
}

/// A type, as it is read.
fn read_type(text: &str) -> Option<FieldType> {
    let mut input = read_declaration(&format!("struct S {{ x: {text} }}"))?;
    Some(input.fields.remove(0).ty)
}

fn planned(name: &str, fields: &[(&str, &str)]) -> WirePlan {
    derive_message(&named(name, fields)).expect("every field can be carried")
}

/// A record on the wire, its fields found by name.
struct Wire {
    plan: WirePlan,
    values: Vec<WireValue>,
}

impl Wire {
    fn of(plan: WirePlan, values: Vec<Value>) -> Wire {
        let values = to_wire(&plan.kinds(), values);
        Wire { plan, values }
    }

    fn field(&self, name: &str) -> &WireValue {
        let at = self
            .plan
            .wire_fields()
            .iter()
            .position(|field| field.name == name)
            .expect("the wire struct has the field");
        &self.values[at]
    }

    fn number(&self, name: &str) -> Number {
        match self.field(name) {
            WireValue::Number(n) => *n,
            WireValue::Array(_) => panic!("{name} is an array"),
        }
    }

    fn f64(&self, name: &str) -> f64 {
        match self.number(name) {
            Number::F64(bits) => f64::from_bits(bits),
            other => panic!("{name} is {other:?}"),
        }
    }

    fn u8(&self, name: &str) -> u8 {
        match self.number(name) {
            Number::U8(n) => n,
            other => panic!("{name} is {other:?}"),
        }
    }

    fn u32(&self, name: &str) -> u32 {
        match self.number(name) {
            Number::U32(n) => n,
            other => panic!("{name} is {other:?}"),
        }
    }

    fn u64(&self, name: &str) -> u64 {
        match self.number(name) {
            Number::U64(n) => n,
            other => panic!("{name} is {other:?}"),
        }
    }

    fn i64(&self, name: &str) -> i64 {
        match self.number(name) {
            Number::I64(n) => n,
            other => panic!("{name} is {other:?}"),
        }
    }

    fn u128(&self, name: &str) -> u128 {
        match self.number(name) {
            Number::U128(n) => n,
            other => panic!("{name} is {other:?}"),
        }
    }

    fn back(self) -> Vec<Value> {
        from_wire(&self.plan.kinds(), self.values)
    }
}

fn as_f64(value: &Value) -> f64 {
    match value {
        Value::Number(Number::F64(bits)) => f64::from_bits(*bits),
        other => panic!("not an f64: {other:?}"),
    }
}

fn as_u32(value: &Value) -> u32 {
    match value {
        Value::Number(Number::U32(n)) => *n,
        other => panic!("not a u32: {other:?}"),
    }
}

// -------------------------------------------------------------------------
// Order: a float, an integer, an enum, a bool and an option
// -------------------------------------------------------------------------

#[derive(Clone, Copy, Debug, PartialEq)]
enum Side {
    Buy,
    Sell,
}

struct Order {
    price: f64,
    qty: u32,
    side: Side,
    filled: bool,
    tag: Option<u32>,
}

fn order_plan() -> WirePlan {
    planned(
        "Order",
        &[
            ("price", "f64"),
            ("qty", "u32"),
            ("side", "Side"),
            ("filled", "bool"),
            ("tag", "Option<u32>"),
        ],
    )
}

fn order_wire(order: Order) -> Wire {
    let side: u8 = match order.side {
        Side::Buy => 0,
        Side::Sell => 1,
    };
    Wire::of(
        order_plan(),
        vec![
            Value::Number(Number::F64(order.price.to_bits())),
            Value::Number(Number::U32(order.qty)),
            Value::Enum(side),
            Value::Bool(order.filled),
            Value::OptionNumber(order.tag.map(Number::U32)),
        ],
    )
}

fn order_back(wire: Wire) -> Order {
    let values = wire.back();
    Order {
        price: as_f64(&values[0]),
        qty: as_u32(&values[1]),
        side: match values[2] {
            Value::Enum(0) => Side::Buy,
            Value::Enum(1) => Side::Sell,
            ref other => panic!("not a side: {other:?}"),
        },
        filled: match values[3] {
            Value::Bool(filled) => filled,
            ref other => panic!("not a bool: {other:?}"),
        },
        tag: match values[4] {
            Value::OptionNumber(None) => None,
            Value::OptionNumber(Some(Number::U32(n))) => Some(n),
            ref other => panic!("not an option: {other:?}"),
        },
    }
}

#[test]
fn order_to_wire_and_back() {
    let order = Order {
        price: 123.45,
        qty: 100,
        side: Side::Buy,
        filled: true,
        tag: Some(42),
    };

    let wire = order_wire(order);
    assert_eq!(wire.f64("price"), 123.45);
    assert_eq!(wire.u32("qty"), 100);
    assert_eq!(wire.u8("side"), 0); // Buy = 0
    assert_eq!(wire.u8("filled"), 1); // true = 1
    assert_eq!(wire.u64("tag_value"), 42); // the value of Some(42)
    assert_eq!(wire.u8("tag_has"), 1); // Some(_) is there

    let back = order_back(wire);
    assert_eq!(back.price, 123.45);
    assert_eq!(back.qty, 100);
    assert_eq!(back.side, Side::Buy);
    assert!(back.filled);
    assert_eq!(back.tag, Some(42));
}

#[test]
fn bool_false_roundtrip() {
    let order = Order {
        price: 0.0,
        qty: 0,
        side: Side::Sell,
        filled: false,
        tag: None,
    };

    let wire = order_wire(order);
    assert_eq!(wire.u8("filled"), 0);
    assert_eq!(wire.u8("side"), 1); // Sell = 1
    assert_eq!(wire.u8("tag_has"), 0); // None

    let back = order_back(wire);
    assert!(!back.filled);
    assert_eq!(back.side, Side::Sell);
    assert_eq!(back.tag, None);
}

#[test]
fn option_none_is_zero() {
    let order = Order {
        price: 1.0,
        qty: 1,
        side: Side::Buy,
        filled: false,
        tag: None,
    };

    let wire = order_wire(order);
    assert_eq!(wire.u8("tag_has"), 0);

    let back = order_back(wire);
    assert_eq!(back.tag, None);
}

#[test]
fn option_some_zero_roundtrip() {
    // Some(0) is not to be mistaken for None.
    let order = Order {
        price: 1.0,
        qty: 1,
        side: Side::Buy,
        filled: false,
        tag: Some(0),
    };

    let wire = order_wire(order);
    assert_eq!(wire.u64("tag_value"), 0);
    assert_eq!(wire.u8("tag_has"), 1); // tells Some(0) from None

    let back = order_back(wire);
    assert_eq!(back.tag, Some(0));
}

// -------------------------------------------------------------------------
// Through a channel
// -------------------------------------------------------------------------

#[derive(Clone, Copy)]
struct OrderWire {
    price: u64,
    qty: u32,
    side: u8,
    filled: u8,
    tag_value: u64,
    tag_has: u8,
}

impl Pod for OrderWire {}

#[test]
fn wire_struct_through_channel() {
    let (mut pub_, subs, mut ring) = channel::<OrderWire>(4);
    let mut sub = subs.subscribe(&mut ring);

    let order = Order {
        price: 99.99,
        qty: 50,
        side: Side::Sell,
        filled: true,
        tag: Some(7),
    };

    let wire = order_wire(order);
    pub_.publish(
        &mut ring,
        OrderWire {
            price: wire.f64("price").to_bits(),
            qty: wire.u32("qty"),
            side: wire.u8("side"),
            filled: wire.u8("filled"),
            tag_value: wire.u64("tag_value"),
            tag_has: wire.u8("tag_has"),
        },
    );
    let got = sub.try_recv(&mut ring).unwrap();
    let back = order_back(Wire {
        plan: order_plan(),
        values: vec![
            WireValue::Number(Number::F64(got.price)),
            WireValue::Number(Number::U32(got.qty)),
            WireValue::Number(Number::U8(got.side)),
            WireValue::Number(Number::U8(got.filled)),
            WireValue::Number(Number::U64(got.tag_value)),
            WireValue::Number(Number::U8(got.tag_has)),
        ],
    });

    assert_eq!(back.price, 99.99);
    assert_eq!(back.qty, 50);
    assert_eq!(back.side, Side::Sell);
    assert!(back.filled);
    assert_eq!(back.tag, Some(7));
}

// -------------------------------------------------------------------------
// Numbers only
// -------------------------------------------------------------------------

#[test]
fn all_numeric_passthrough() {
    let plan = planned("Tick", &[("bid", "f64"), ("ask", "f64"), ("volume", "u64")]);
    assert!(!plan.has_enum_fields);
    let wire = Wire::of(
        plan,
        vec![
            Value::Number(Number::F64(1.23f64.to_bits())),
            Value::Number(Number::F64(4.56f64.to_bits())),
            Value::Number(Number::U64(1000)),
        ],
    );
    assert_eq!(wire.f64("bid"), 1.23);
    assert_eq!(wire.f64("ask"), 4.56);
    assert_eq!(wire.u64("volume"), 1000);

    let back = wire.back();
    assert_eq!(as_f64(&back[0]), 1.23);
    assert_eq!(as_f64(&back[1]), 4.56);
    assert_eq!(back[2], Value::Number(Number::U64(1000)));
}

// -------------------------------------------------------------------------
// usize and isize
// -------------------------------------------------------------------------

#[test]
fn usize_isize_conversion() {
    let plan = planned(
        "Indexed",
        &[("index", "usize"), ("offset", "isize"), ("value", "u32")],
    );
    assert!(plan.has_usize_isize);
    let wire = Wire::of(
        plan,
        vec![
            Value::Usize(42),
            Value::Isize(-7),
            Value::Number(Number::U32(100)),
        ],
    );
    assert_eq!(wire.u64("index"), 42u64);
    assert_eq!(wire.i64("offset"), -7i64);
    assert_eq!(wire.u32("value"), 100);

    let back = wire.back();
    assert_eq!(back[0], Value::Usize(42usize));
    assert_eq!(back[1], Value::Isize(-7isize));
    assert_eq!(as_u32(&back[2]), 100);
}

// -------------------------------------------------------------------------
// Arrays
// -------------------------------------------------------------------------

fn bytes(data: [u8; 4]) -> Vec<Number> {
    data.iter().map(|byte| Number::U8(*byte)).collect()
}

#[test]
fn array_passthrough() {
    let wire = Wire::of(
        planned("WithArray", &[("data", "[u8; 4]"), ("value", "u32")]),
        vec![
            Value::Array(bytes([1, 2, 3, 4])),
            Value::Number(Number::U32(99)),
        ],
    );
    assert_eq!(*wire.field("data"), WireValue::Array(bytes([1, 2, 3, 4])));
    assert_eq!(wire.u32("value"), 99);

    let back = wire.back();
    assert_eq!(back[0], Value::Array(bytes([1, 2, 3, 4])));
    assert_eq!(as_u32(&back[1]), 99);
}

// -------------------------------------------------------------------------
// Option<f32> and Option<f64>
// -------------------------------------------------------------------------

fn float_options(opt_f32: Option<f32>, opt_f64: Option<f64>, plain: u32) -> Wire {
    Wire::of(
        planned(
            "FloatOptions",
            &[
                ("opt_f32", "Option<f32>"),
                ("opt_f64", "Option<f64>"),
                ("plain", "u32"),
            ],
        ),
        vec![
            Value::OptionNumber(opt_f32.map(|x| Number::F32(x.to_bits()))),
            Value::OptionNumber(opt_f64.map(|x| Number::F64(x.to_bits()))),
            Value::Number(Number::U32(plain)),
        ],
    )
}

fn opt_f32(value: &Value) -> Option<f32> {
    match value {
        Value::OptionNumber(None) => None,
        Value::OptionNumber(Some(Number::F32(bits))) => Some(f32::from_bits(*bits)),
        other => panic!("not an Option<f32>: {other:?}"),
    }
}

fn opt_f64(value: &Value) -> Option<f64> {
    match value {
        Value::OptionNumber(None) => None,
        Value::OptionNumber(Some(Number::F64(bits))) => Some(f64::from_bits(*bits)),
        other => panic!("not an Option<f64>: {other:?}"),
    }
}

#[test]
fn option_f64_preserves_precision() {
    let wire = float_options(Some(1.5f32), Some(1.5f64), 1);
    assert_eq!(wire.u8("opt_f32_has"), 1);
    assert_eq!(wire.u8("opt_f64_has"), 1);

    let back = wire.back();
    assert_eq!(opt_f32(&back[0]), Some(1.5f32));
    assert_eq!(opt_f64(&back[1]), Some(1.5f64));
}

#[test]
fn option_f64_none_roundtrip() {
    let wire = float_options(None, None, 42);
    assert_eq!(wire.u8("opt_f32_has"), 0);
    assert_eq!(wire.u8("opt_f64_has"), 0);

    let back = wire.back();
    assert_eq!(opt_f32(&back[0]), None);
    assert_eq!(opt_f64(&back[1]), None);
    assert_eq!(as_u32(&back[2]), 42);
}

#[test]
fn option_f64_zero_value_roundtrip() {
    // Some(0.0) is not to be mistaken for None.
    let wire = float_options(Some(0.0f32), Some(0.0f64), 0);
    assert_eq!(wire.u8("opt_f32_has"), 1);
    assert_eq!(wire.u8("opt_f64_has"), 1);

    let back = wire.back();
    assert_eq!(opt_f32(&back[0]), Some(0.0f32));
    assert_eq!(opt_f64(&back[1]), Some(0.0f64));
}

#[test]
fn option_f64_fractional_preserved() {
    // Fractions are not cut off.
    let wire = float_options(Some(3.125f32), Some(2.719f64), 0);
    let back = wire.back();
    assert_eq!(opt_f32(&back[0]), Some(3.125f32));
    assert_eq!(opt_f64(&back[1]), Some(2.719f64));
}

// -------------------------------------------------------------------------
// Option<u128>, Option<i128>, Option<usize>, Option<isize>
// -------------------------------------------------------------------------

fn wide_options(
    a: u64,
    big_u: Option<u128>,
    big_i: Option<i128>,
    sz: Option<usize>,
    isz: Option<isize>,
) -> Wire {
    Wire::of(
        planned(
            "WideOptions",
            &[
                ("a", "u64"),
                ("big_u", "Option<u128>"),
                ("big_i", "Option<i128>"),
                ("sz", "Option<usize>"),
                ("isz", "Option<isize>"),
            ],
        ),
        vec![
            Value::Number(Number::U64(a)),
            Value::OptionNumber(big_u.map(Number::U128)),
            Value::OptionNumber(big_i.map(Number::I128)),
            Value::OptionUsize(sz),
            Value::OptionIsize(isz),
        ],
    )
}

#[test]
fn option_u128_max_roundtrip() {
    let wire = wide_options(1, Some(u128::MAX), Some(-1i128), Some(usize::MAX), Some(-1isize));
    assert_eq!(wire.u8("big_u_has"), 1);
    assert_eq!(wire.u128("big_u_value"), u128::MAX);
    let back = wire.back();
    assert_eq!(back[1], Value::OptionNumber(Some(Number::U128(u128::MAX))));
    assert_eq!(back[2], Value::OptionNumber(Some(Number::I128(-1i128))));
    assert_eq!(back[3], Value::OptionUsize(Some(usize::MAX)));
    assert_eq!(back[4], Value::OptionIsize(Some(-1isize)));
}

#[test]
fn option_u128_none_roundtrip() {
    let wire = wide_options(0, None, None, None, None);
    assert_eq!(wire.u8("big_u_has"), 0);
    assert_eq!(wire.u8("big_i_has"), 0);
    assert_eq!(wire.u8("sz_has"), 0);
    assert_eq!(wire.u8("isz_has"), 0);
    let back = wire.back();
    assert_eq!(back[1], Value::OptionNumber(None));
    assert_eq!(back[2], Value::OptionNumber(None));
    assert_eq!(back[3], Value::OptionUsize(None));
    assert_eq!(back[4], Value::OptionIsize(None));
}

#[test]
fn option_u128_zero_roundtrip() {
    let wire = wide_options(0, Some(0u128), Some(0i128), Some(0usize), Some(0isize));
    assert_eq!(wire.u8("big_u_has"), 1);
    assert_eq!(wire.u128("big_u_value"), 0);
    let back = wire.back();
    assert_eq!(back[1], Value::OptionNumber(Some(Number::U128(0u128))));
    assert_eq!(back[2], Value::OptionNumber(Some(Number::I128(0i128))));
    assert_eq!(back[3], Value::OptionUsize(Some(0usize)));
    assert_eq!(back[4], Value::OptionIsize(Some(0isize)));
}

// -------------------------------------------------------------------------
// Small and signed options
// -------------------------------------------------------------------------

#[test]
fn small_options_keep_their_width() {
    let wire = Wire::of(
        planned(
            "Small",
            &[
                ("a", "Option<u8>"),
                ("b", "Option<i8>"),
                ("c", "Option<i64>"),
                ("d", "Option<bool>"),
            ],
        ),
        vec![
            Value::OptionNumber(Some(Number::U8(255))),
            Value::OptionNumber(Some(Number::I8(-128))),
            Value::OptionNumber(Some(Number::I64(i64::MIN))),
            Value::OptionBool(Some(false)),
        ],
    );
    assert_eq!(wire.u64("a_value"), 255);
    assert_eq!(wire.i64("b_value"), -128);
    assert_eq!(wire.u8("d_has"), 1);
    let back = wire.back();
    assert_eq!(back[0], Value::OptionNumber(Some(Number::U8(255))));
    assert_eq!(back[1], Value::OptionNumber(Some(Number::I8(-128))));
    assert_eq!(back[2], Value::OptionNumber(Some(Number::I64(i64::MIN))));
    assert_eq!(back[3], Value::OptionBool(Some(false)));
}

// -------------------------------------------------------------------------
// Reading types
// -------------------------------------------------------------------------

fn kind(text: &str) -> FieldKind {
    classify(&read_type(text).expect("a type"))
}

#[test]
fn types_are_classified() {
    assert_eq!(kind("u8"), FieldKind::Passthrough);
    assert_eq!(kind("f64"), FieldKind::Passthrough);
    assert_eq!(kind("[f32; 16]"), FieldKind::Passthrough);
    assert_eq!(kind("bool"), FieldKind::Bool);
    assert_eq!(kind("usize"), FieldKind::Usize);
    assert_eq!(kind("isize"), FieldKind::Isize);
    assert_eq!(kind("Option<bool>"), FieldKind::OptionBool);
    assert_eq!(kind("std::option::Option<core::primitive::u16>"), FieldKind::OptionUnsignedInt(UnsignedInt::U16));
    assert_eq!(kind("Option<i32>"), FieldKind::OptionSignedInt(SignedInt::I32));
    assert_eq!(kind("Option<f32>"), FieldKind::OptionF32);
    assert_eq!(kind("Option<u128>"), FieldKind::OptionU128);
    assert_eq!(kind("Option<i128>"), FieldKind::OptionI128);
    assert_eq!(kind("Option<usize>"), FieldKind::OptionUsize);
    assert_eq!(kind("Option<isize>"), FieldKind::OptionIsize);
    assert_eq!(kind("Option<String>"), FieldKind::UnsupportedOption);
    assert_eq!(kind("Option<(u8, u8)>"), FieldKind::UnsupportedOption);
    assert_eq!(kind("Option"), FieldKind::UnsupportedOption);
    assert_eq!(kind("my::Side"), FieldKind::Enum);
    assert_eq!(kind("(u8, u8)"), FieldKind::Enum);
}

#[test]
fn types_are_read() {
    assert_eq!(read_type("[u8; 4]"), Some(FieldType::Array));
    assert_eq!(read_type("&u8"), Some(FieldType::Other));
    assert_eq!(read_type("Option<"), None);
    match read_type("a::Option<x::u32, 'static>") {
        Some(FieldType::Path(segments)) => {
            assert_eq!(segments.len(), 2);
            assert_eq!(segments[0].name, "a");
            assert_eq!(segments[1].name, "Option");
            assert_eq!(
                segments[1].arguments,
                vec![
                    Argument::Named(vec!["x".to_string(), "u32".to_string()]),
                    Argument::Unnamed
                ]
            );
            assert_eq!(name_of_type(&segments[1].arguments[0]), Some("u32".to_string()));
            assert_eq!(name_of_type(&segments[1].arguments[1]), None);
            assert_eq!(option_inner(&segments[1]), "u32");
            assert_eq!(option_inner(&segments[0]), "");
        }
        other => panic!("not a path: {other:?}"),
    }
}

// -------------------------------------------------------------------------
// What is refused, and in which words
// -------------------------------------------------------------------------

#[test]
fn only_named_structs_are_messages() {
    for form in [Form::Enum, Form::Union] {
        let not_a_struct = declared("E", Vec::new(), form, Vec::new());
        assert_eq!(derive_message(&not_a_struct).unwrap_err(), MessageError::NotAStruct);
    }
    let tuple = declared("T", Vec::new(), Form::Tuple, vec![field("", "u8")]);
    let refused = derive_message(&tuple).unwrap_err();
    assert_eq!(refused, MessageError::NotNamed);
    assert_eq!(
        refused.message(),
        "Message can only be derived for structs with named fields"
    );
    assert_eq!(
        MessageError::NotAStruct.message(),
        "Message can only be derived for structs"
    );
}

#[test]
fn an_option_of_something_else_is_refused() {
    let input = named("Bad", &[("x", "u8"), ("name", "Option<String>")]);
    let refused = derive_message(&input).unwrap_err();
    assert_eq!(
        refused.message(),
        "Message derive: field `name` has unsupported type `Option<String>`. \
         Only Option<bool>, Option<integer>, Option<f32>, and Option<f64> are supported."
    );
}

#[test]
fn pod_needs_repr_c() {
    let mut input = named("P", &[("a", "u8"), ("b", "[u64; 2]")]);
    let refused = derive_pod(&input).unwrap_err();
    assert_eq!(refused, PodError::NotReprC);
    assert_eq!(refused.message(), "Pod can only be derived for #[repr(C)] structs");
    input.attributes = vec![
        attribute("derive", &["Clone", "C"]),
        attribute("repr", &["align"]),
        attribute("repr", &["packed", "C"]),
    ];
    assert_eq!(derive_pod(&input).unwrap(), vec![0, 1]);
    let repr = || vec![attribute("repr", &["C"])];
    let refused = derive_pod(&declared("E", repr(), Form::Enum, Vec::new())).unwrap_err();
    assert_eq!(refused, PodError::NotAStruct);
    assert_eq!(refused.message(), "Pod can only be derived for structs");
    let unit = declared("U", repr(), Form::Unit, Vec::new());
    assert_eq!(derive_pod(&unit).unwrap(), Vec::<usize>::new());
    // Only `repr` speaks of the layout.
    assert!(!repr_c(&vec![attribute("derive", &["C"]), attribute("repr", &["u8"])]));
    assert!(!repr_c(&vec![AttributeInput {
        name: None,
        words: vec![Some("C".to_string())],
    }]));
}

// -------------------------------------------------------------------------
// Reading declarations
// -------------------------------------------------------------------------

#[test]
fn declarations_are_read() {
    let input = read_declaration(
        "#[repr(C, align(8))] #[derive(Clone, x::Y)] #[a::b] pub struct P { pub a: u8, b: x::Side }",
    )
    .expect("a declaration");
    assert_eq!(
        input,
        declared(
            "P",
            vec![
                attribute("repr", &["C", "align"]),
                AttributeInput {
                    name: Some("derive".to_string()),
                    words: vec![Some("Clone".to_string()), None],
                },
                AttributeInput {
                    name: None,
                    words: Vec::new(),
                },
            ],
            Form::Named,
            vec![
                field("a", "u8"),
                FieldInput {
                    name: "b".to_string(),
                    ty: FieldType::Path(vec![segment("x"), segment("Side")]),
                },
            ],
        )
    );
    // What stands behind an entry that goes on is not seen.
    let late = read_declaration("#[repr(align(8), C)] struct L;").unwrap();
    assert_eq!(late.attributes, vec![attribute("repr", &["align"])]);
    let tuple = read_declaration("struct T(u8, bool);").unwrap();
    assert_eq!(
        tuple,
        declared("T", Vec::new(), Form::Tuple, vec![field("", "u8"), field("", "bool")])
    );
    let unit = read_declaration("struct U;").unwrap();
    assert_eq!(unit, declared("U", Vec::new(), Form::Unit, Vec::new()));
    let empty = read_declaration("struct V {}").unwrap();
    assert_eq!(empty, declared("V", Vec::new(), Form::Named, Vec::new()));
    let choice = read_declaration("enum E { A, B }").unwrap();
    assert_eq!(choice, declared("E", Vec::new(), Form::Enum, Vec::new()));
    let either = read_declaration("union N { a: u8, b: i8 }").unwrap();
    assert_eq!(either, declared("N", Vec::new(), Form::Union, Vec::new()));
    assert_eq!(read_declaration("fn f() {}"), None);
    assert_eq!(read_declaration("struct S {"), None);
    assert_eq!(read_declaration(""), None);
}

#[test]
fn wire_forms_are_derived_from_text() {
    let text = "struct Order { price: f64, qty: u32, side: Side, filled: bool, tag: Option<u32> }";
    assert_eq!(derive_message_of(text), Some(Ok(order_plan())));
    assert_eq!(
        derive_message_of("struct T(u8);"),
        Some(Err(MessageError::NotNamed))
    );
    assert_eq!(derive_message_of("struct U;"), Some(Err(MessageError::NotNamed)));
    assert_eq!(
        derive_message_of("union N { a: u8, b: i8 }"),
        Some(Err(MessageError::NotAStruct))
    );
    assert_eq!(
        derive_message_of("struct Bad { name: Option<String> }"),
        Some(Err(MessageError::UnsupportedOption {
            field: "name".to_string(),
            inner: "String".to_string(),
        }))
    );
    assert_eq!(derive_message_of("struct"), None);
}

#[test]
fn plain_data_is_derived_from_text() {
    assert_eq!(
        derive_pod_of("#[repr(C)] struct P { a: u8, b: u64 }"),
        Some(Ok(vec![0, 1]))
    );
    assert_eq!(
        derive_pod_of("#[repr(C, packed)] struct T(u8, i16, u8);"),
        Some(Ok(vec![0, 1, 2]))
    );
    assert_eq!(derive_pod_of("#[repr(C)] struct U;"), Some(Ok(Vec::new())));
    assert_eq!(
        derive_pod_of("#[repr(u8)] struct P { a: u8 }"),
        Some(Err(PodError::NotReprC))
    );
    assert_eq!(derive_pod_of("struct P { a: u8 }"), Some(Err(PodError::NotReprC)));
    assert_eq!(
        derive_pod_of("#[repr(C)] enum E { A }"),
        Some(Err(PodError::NotAStruct))
    );
    assert_eq!(derive_pod_of("impl P {}"), None);
}

// -------------------------------------------------------------------------
// Conversions
// -------------------------------------------------------------------------

#[test]
fn each_kind_has_its_conversions() {
    let forms = |text: &str| (write_form(kind(text)), read_form(kind(text)));
    assert_eq!(forms("f64"), (WriteForm::Same, ReadForm::Same));
    assert_eq!(forms("[u8; 4]"), (WriteForm::Same, ReadForm::Same));
    assert_eq!(forms("bool"), (WriteForm::Flag, ReadForm::NotZero));
    assert_eq!(forms("usize"), (WriteForm::AsU64, ReadForm::AsUsize));
    assert_eq!(forms("isize"), (WriteForm::AsI64, ReadForm::AsIsize));
    assert_eq!(forms("Option<bool>"), (WriteForm::Flag, ReadForm::NotZero));
    assert_eq!(
        forms("Option<u16>"),
        (WriteForm::AsU64, ReadForm::AsUnsigned(UnsignedInt::U16))
    );
    assert_eq!(
        forms("Option<i32>"),
        (WriteForm::AsI64, ReadForm::AsSigned(SignedInt::I32))
    );
    assert_eq!(forms("Option<u128>"), (WriteForm::Same, ReadForm::Same));
    assert_eq!(forms("Option<i128>"), (WriteForm::AsU128, ReadForm::AsI128));
    assert_eq!(forms("Option<usize>"), (WriteForm::AsU64, ReadForm::AsUsize));
    assert_eq!(forms("Option<isize>"), (WriteForm::AsI64, ReadForm::AsIsize));
    assert_eq!(forms("Option<f32>"), (WriteForm::Bits, ReadForm::F32OfBits));
    assert_eq!(forms("Option<f64>"), (WriteForm::Bits, ReadForm::F64OfBits));
    assert_eq!(forms("Side"), (WriteForm::Discriminant, ReadForm::Variant));
}

#[test]
fn wire_struct_layout() {
    let plan = order_plan();
    assert_eq!(plan.wire_name, "OrderWire");
    assert!(plan.has_enum_fields);
    assert!(!plan.has_usize_isize);
    let fields = plan.wire_fields();
    let names: Vec<&str> = fields.iter().map(|field| field.name.as_str()).collect();
    assert_eq!(names, vec!["price", "qty", "side", "filled", "tag_value", "tag_has"]);
    assert_eq!(fields[0].ty, WireType::Same);
    assert_eq!(fields[2].ty, WireType::U8);
    assert_eq!(fields[4].ty, WireType::U64);
    assert_eq!(fields[5].ty, WireType::U8);
    assert_eq!(fields[5].source, 4);
}

#[test]
fn enum_fields_must_be_one_byte() {
    assert_eq!(
        enum_size_message(&"side".to_string(), &"Side".to_string()),
        "Message derive: field `side` has type `Side` which is not 1 byte. \
         Enum fields must have #[repr(u8)]."
    );
}
