//! Field types as they are written in a struct declaration.

use crate::message::codec::{FieldKind, SignedInt, UnsignedInt};
use vstd::prelude::*;

verus! {

/// One generic argument of a path.
#[derive(Debug, PartialEq, Eq)]
pub enum Argument {
    /// A type that is a path: the names of its segments.
    Named(Vec<String>),
    /// Another type, or what is no type: a lifetime, a constant or a binding.
    Unnamed,
}

/// One segment of a path, such as `Option<u32>`.
#[derive(Debug, PartialEq, Eq)]
pub struct Segment {
    pub name: String,
    /// What stands in angle brackets behind the name.
    pub arguments: Vec<Argument>,
}

/// The type of a field.
#[derive(Debug, PartialEq, Eq)]
pub enum FieldType {
    /// `[T; N]`.
    Array,
    /// A path.
    Path(Vec<Segment>),
    /// Anything else.
    Other,
}

/// A generic argument as contracts see it.
pub enum ArgumentView {
    Named(Seq<Seq<char>>),
    Unnamed,
}

/// A path segment as contracts see it.
pub struct SegmentView {
    pub name: Seq<char>,
    pub arguments: Seq<ArgumentView>,
}

/// The type of a field as contracts see it.
pub enum FieldTypeView {
    Array,
    Path(Seq<SegmentView>),
    Other,
}

impl View for Argument {
    type V = ArgumentView;

    open spec fn view(&self) -> ArgumentView {
        match *self {
            Argument::Named(names) => ArgumentView::Named(names@.map_values(|name: String| name@)),
            Argument::Unnamed => ArgumentView::Unnamed,
        }
    }
}

impl View for Segment {
    type V = SegmentView;

    open spec fn view(&self) -> SegmentView {
        SegmentView {
            name: self.name@,
            arguments: self.arguments@.map_values(|argument: Argument| argument@),
        }
    }
}

impl View for FieldType {
    type V = FieldTypeView;

    open spec fn view(&self) -> FieldTypeView {
        match *self {
            FieldType::Array => FieldTypeView::Array,
            FieldType::Path(segments) => FieldTypeView::Path(
                segments@.map_values(|segment: Segment| segment@),
            ),
            FieldType::Other => FieldTypeView::Other,
        }
    }
}

/// The name under which a type goes: the last segment of its path.
pub open spec fn argument_name(argument: ArgumentView) -> Option<Seq<char>> {
    match argument {
        ArgumentView::Named(names) => if names.len() == 0 {
            None
        } else {
            Some(names.last())
        },
        _ => None,
    }
}

/// The kind of an `Option` of the type that goes under `name`.
pub open spec fn option_kind(name: Seq<char>) -> FieldKind {
    if name == "bool"@ {
        FieldKind::OptionBool
    } else if name == "f32"@ {
        FieldKind::OptionF32
    } else if name == "f64"@ {
        FieldKind::OptionF64
    } else if name == "u128"@ {
        FieldKind::OptionU128
    } else if name == "i128"@ {
        FieldKind::OptionI128
    } else if name == "usize"@ {
        FieldKind::OptionUsize
    } else if name == "isize"@ {
        FieldKind::OptionIsize
    } else if name == "u8"@ {
        FieldKind::OptionUnsignedInt(UnsignedInt::U8)
    } else if name == "u16"@ {
        FieldKind::OptionUnsignedInt(UnsignedInt::U16)
    } else if name == "u32"@ {
        FieldKind::OptionUnsignedInt(UnsignedInt::U32)
    } else if name == "u64"@ {
        FieldKind::OptionUnsignedInt(UnsignedInt::U64)
    } else if name == "i8"@ {
        FieldKind::OptionSignedInt(SignedInt::I8)
    } else if name == "i16"@ {
        FieldKind::OptionSignedInt(SignedInt::I16)
    } else if name == "i32"@ {
        FieldKind::OptionSignedInt(SignedInt::I32)
    } else if name == "i64"@ {
        FieldKind::OptionSignedInt(SignedInt::I64)
    } else {
        FieldKind::UnsupportedOption
    }
}

/// A primitive number type goes under this name.
pub open spec fn names_number(name: Seq<char>) -> bool {
    ||| name == "u8"@
    ||| name == "u16"@
    ||| name == "u32"@
    ||| name == "u64"@
    ||| name == "u128"@
    ||| name == "i8"@
    ||| name == "i16"@
    ||| name == "i32"@
    ||| name == "i64"@
    ||| name == "i128"@
    ||| name == "f32"@
    ||| name == "f64"@
}

/// The name of the type that an `Option` is of: empty if the type is no path,
/// or if there is no type at all.
pub open spec fn option_of(segment: SegmentView) -> Seq<char> {
    if segment.arguments.len() == 0 {
        Seq::empty()
    } else {
        match argument_name(segment.arguments.first()) {
            Some(name) => name,
            None => Seq::empty(),
        }
    }
}

/// The kind of a field of type `ty`.
pub open spec fn kind_of(ty: FieldTypeView) -> FieldKind {
    match ty {
        FieldTypeView::Array => FieldKind::Passthrough,
        FieldTypeView::Path(segments) => if segments.len() == 0 {
            FieldKind::Enum
        } else {
            let segment = segments.last();
            if names_number(segment.name) {
                FieldKind::Passthrough
            } else if segment.name == "bool"@ {
                FieldKind::Bool
            } else if segment.name == "usize"@ {
                FieldKind::Usize
            } else if segment.name == "isize"@ {
                FieldKind::Isize
            } else if segment.name == "Option"@ {
                option_kind(option_of(segment))
            } else {
                FieldKind::Enum
            }
        },
        FieldTypeView::Other => FieldKind::Enum,
    }
}

/// Whether `name` is `word`.
pub(crate) fn same(name: &String, word: &str) -> (r: bool)
    ensures
        r == (name@ == word@),
{
    *name == word.to_owned()
}

/// The name under which a type goes.
pub fn name_of_type(argument: &Argument) -> (name: Option<String>)
    ensures
        match argument_name(argument@) {
            Some(n) => name matches Some(s) && s@ == n,
            None => name is None,
        },
{
    match argument {
        Argument::Named(names) => {
            if names.len() == 0 {
                None
            } else {
                Some(names[names.len() - 1].clone())
            }
        },
        _ => None,
    }
}

/// The name of the type that an `Option` is of, or an empty name.
pub fn option_inner(segment: &Segment) -> (name: String)
    ensures
        name@ == option_of(segment@),
{
    if segment.arguments.len() == 0 {
        return String::new();
    }
    assert(segment@.arguments.first() == segment.arguments@[0]@);
    match name_of_type(&segment.arguments[0]) {
        Some(name) => name,
        None => String::new(),
    }
}

/// The kind of an `Option` of the type that goes under `name`.
fn classify_option(name: &String) -> (kind: FieldKind)
    ensures
        kind == option_kind(name@),
{
    if same(name, "bool") {
        FieldKind::OptionBool
    } else if same(name, "f32") {
        FieldKind::OptionF32
    } else if same(name, "f64") {
        FieldKind::OptionF64
    } else if same(name, "u128") {
        FieldKind::OptionU128
    } else if same(name, "i128") {
        FieldKind::OptionI128
    } else if same(name, "usize") {
        FieldKind::OptionUsize
    } else if same(name, "isize") {
        FieldKind::OptionIsize
    } else if same(name, "u8") {
        FieldKind::OptionUnsignedInt(UnsignedInt::U8)
    } else if same(name, "u16") {
        FieldKind::OptionUnsignedInt(UnsignedInt::U16)
    } else if same(name, "u32") {
        FieldKind::OptionUnsignedInt(UnsignedInt::U32)
    } else if same(name, "u64") {
        FieldKind::OptionUnsignedInt(UnsignedInt::U64)
    } else if same(name, "i8") {
        FieldKind::OptionSignedInt(SignedInt::I8)
    } else if same(name, "i16") {
        FieldKind::OptionSignedInt(SignedInt::I16)
    } else if same(name, "i32") {
        FieldKind::OptionSignedInt(SignedInt::I32)
    } else if same(name, "i64") {
        FieldKind::OptionSignedInt(SignedInt::I64)
    } else {
        FieldKind::UnsupportedOption
    }
}

/// Whether a primitive number type goes under this name.
fn is_number(name: &String) -> (r: bool)
    ensures
        r == names_number(name@),
{
    same(name, "u8") || same(name, "u16") || same(name, "u32") || same(name, "u64") || same(
        name,
        "u128",
    ) || same(name, "i8") || same(name, "i16") || same(name, "i32") || same(name, "i64") || same(
        name,
        "i128",
    ) || same(name, "f32") || same(name, "f64")
}

/// The kind of a field of type `ty`. A type that is not known is taken for an
/// enum.
pub fn classify(ty: &FieldType) -> (kind: FieldKind)
    ensures
        kind == kind_of(ty@),
{
    match ty {
        FieldType::Array => FieldKind::Passthrough,
        FieldType::Path(segments) => {
            if segments.len() == 0 {
                return FieldKind::Enum;
            }
            let segment: &Segment = &segments[segments.len() - 1];
            assert(ty@->Path_0.last() == segment@);
            if is_number(&segment.name) {
                FieldKind::Passthrough
            } else if same(&segment.name, "bool") {
                FieldKind::Bool
            } else if same(&segment.name, "usize") {
                FieldKind::Usize
            } else if same(&segment.name, "isize") {
                FieldKind::Isize
            } else if same(&segment.name, "Option") {
                classify_option(&option_inner(segment))
            } else {
                FieldKind::Enum
            }
        },
        FieldType::Other => FieldKind::Enum,
    }
}

} // verus!
