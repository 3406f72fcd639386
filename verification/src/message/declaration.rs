//! Declarations for which code is derived.

use crate::message::types::Argument::{Named, Unnamed};
use crate::message::types::FieldType::{Array, Other, Path};
use crate::message::types::{same, FieldType, FieldTypeView, Segment};
use syn::Data::{Enum, Struct, Union};
use syn::PathArguments::AngleBracketed;
use syn::{parse_str, DeriveInput, Fields, GenericArgument, Type};
use vstd::prelude::*;

verus! {

/// What is declared.
#[derive(Debug, Clone, Copy, PartialEq, Eq, Structural)]
pub enum Form {
    /// A struct with fields in braces.
    Named,
    /// A tuple struct.
    Tuple,
    /// A struct without fields.
    Unit,
    Enum,
    Union,
}

/// The head of a declaration.
#[derive(Debug, PartialEq, Eq)]
pub struct Head {
    pub name: String,
    pub form: Form,
    /// The names of the fields of a struct, which are empty in a tuple struct.
    pub field_names: Vec<String>,
}

/// A field of a struct.
#[derive(Debug, PartialEq, Eq)]
pub struct FieldInput {
    /// Empty in a tuple struct.
    pub name: String,
    pub ty: FieldType,
}

/// An attribute of a declaration, such as `repr(C, packed)`.
#[derive(Debug, PartialEq, Eq)]
pub struct AttributeInput {
    /// The name, or nothing if it is a longer path.
    pub name: Option<String>,
    /// What is listed in brackets, up to the first entry with something behind it:
    /// its name, or nothing if it is a longer path.
    pub words: Vec<Option<String>>,
}

/// A declaration for which code is derived.
#[derive(Debug, PartialEq, Eq)]
pub struct StructInput {
    pub name: String,
    pub form: Form,
    /// None, if it is no struct.
    pub fields: Vec<FieldInput>,
    pub attributes: Vec<AttributeInput>,
}

/// The head of a declaration as contracts see it.
pub struct HeadView {
    pub name: Seq<char>,
    pub form: Form,
    pub field_names: Seq<Seq<char>>,
}

/// A field as contracts see it.
pub struct FieldView {
    pub name: Seq<char>,
    pub ty: FieldTypeView,
}

/// An attribute as contracts see it.
pub struct AttributeView {
    pub name: Option<Seq<char>>,
    pub words: Seq<Option<Seq<char>>>,
}

/// A declaration as contracts see it.
pub struct InputView {
    pub name: Seq<char>,
    pub form: Form,
    pub fields: Seq<FieldView>,
    pub attributes: Seq<AttributeView>,
}

/// The texts of a list of strings.
pub open spec fn texts(strings: Seq<String>) -> Seq<Seq<char>> {
    strings.map_values(|s: String| s@)
}

impl View for Head {
    type V = HeadView;

    open spec fn view(&self) -> HeadView {
        HeadView { name: self.name@, form: self.form, field_names: texts(self.field_names@) }
    }
}

impl View for FieldInput {
    type V = FieldView;

    open spec fn view(&self) -> FieldView {
        FieldView { name: self.name@, ty: self.ty@ }
    }
}

/// The fields of a list, seen through their views.
pub open spec fn field_views(fields: Seq<FieldInput>) -> Seq<FieldView> {
    fields.map_values(|field: FieldInput| field@)
}

/// The text of a name, if there is one.
pub open spec fn name_text(name: Option<String>) -> Option<Seq<char>> {
    match name {
        Some(text) => Some(text@),
        None => None,
    }
}

impl View for AttributeInput {
    type V = AttributeView;

    open spec fn view(&self) -> AttributeView {
        AttributeView {
            name: name_text(self.name),
            words: self.words@.map_values(|word: Option<String>| name_text(word)),
        }
    }
}

/// The attributes of a list, seen through their views.
pub open spec fn attribute_views(attributes: Seq<AttributeInput>) -> Seq<AttributeView> {
    attributes.map_values(|attribute: AttributeInput| attribute@)
}

impl View for StructInput {
    type V = InputView;

    open spec fn view(&self) -> InputView {
        InputView {
            name: self.name@,
            form: self.form,
            fields: field_views(self.fields@),
            attributes: attribute_views(self.attributes@),
        }
    }
}

/// What `syn` says that a declaration cannot be read for.
#[verifier::external_type_specification]
#[verifier::external_body]
pub struct ExSynError(syn::Error);

/// A decimal digit.
pub open spec fn is_digit(c: char) -> bool {
    '0' <= c <= '9'
}

/// A character of a word: a letter of English, a digit or an underscore.
pub open spec fn is_word_char(c: char) -> bool {
    'a' <= c <= 'z' || 'A' <= c <= 'Z' || is_digit(c) || c == '_'
}

/// The character at `i` belongs to a word that starts with a digit.
pub open spec fn in_number(text: Seq<char>, i: int) -> bool
    decreases i,
{
    if i > 0 && is_word_char(text[i - 1]) {
        in_number(text, i - 1)
    } else {
        is_digit(text[i])
    }
}

/// What stands at `i` reads the same to everybody who takes texts apart: words,
/// numbers in digits only, blanks, brackets, commas, colons and semicolons, and the
/// sign that starts an attribute.
pub open spec fn plain_at(text: Seq<char>, i: int) -> bool {
    let c = text[i];
    if is_word_char(c) {
        in_number(text, i) ==> is_digit(c)
    } else if c == '#' {
        i + 1 < text.len() && text[i + 1] == '[' && (i > 0 ==> !is_word_char(text[i - 1]))
    } else {
        seq![' ', '\n', '(', ')', '[', ']', '{', '}', '<', '>', ',', ':', ';'].contains(c)
    }
}

/// A text without quotes, comments, prefixed or suffixed literals, or letters that
/// have more than one spelling.
pub open spec fn plain(text: Seq<char>) -> bool {
    forall|i: int| 0 <= i < text.len() ==> #[trigger] plain_at(text, i)
}

/// The head of the declaration that a plain text is read as, or nothing if it is
/// none.
pub uninterp spec fn parsed_head(text: Seq<char>) -> Option<HeadView>;

/// Calls `syn::parse_str` for a `syn::DeriveInput`, which reads a text as the
/// declaration of a struct, an enum or a union. The name and the form are kept. For
/// a [`plain`] text they depend on the text alone, and are named [`parsed_head`].
/// For any other text nothing is claimed: inside a procedural macro it is the
/// compiler that takes it apart.
#[verifier::external_body]
fn parse_head(text: &str) -> (r: Result<Head, syn::Error>)
    ensures
        plain(text@) ==> match r {
            Ok(head) => parsed_head(text@) == Some(head@),
            Err(_) => parsed_head(text@) is None,
        },
{
    parse_str(text).map(|read: DeriveInput| Head {
        name: read.ident.to_string(),
        form: match &read.data {
            Struct(s) => match s.fields {
                Fields::Named(_) => Form::Named,
                Fields::Unnamed(_) => Form::Tuple,
                Fields::Unit => Form::Unit,
            },
            Enum(_) => Form::Enum,
            Union(_) => Form::Union,
        },
        field_names: match &read.data {
            Struct(s) => s.fields.iter().map(|f| f.ident.iter().map(|i| i.to_string()).collect()).collect(),
            _ => Vec::new() } })
}

/// The types of a list, seen through their views.
pub open spec fn type_views(types: Seq<FieldType>) -> Seq<FieldTypeView> {
    types.map_values(|ty: FieldType| ty@)
}

/// The types of the fields of the struct that a plain text is read as, or nothing if
/// it is no declaration.
pub uninterp spec fn parsed_types(text: Seq<char>) -> Option<Seq<FieldTypeView>>;

/// Calls `syn::parse_str` for a `syn::DeriveInput`, as [`parse_head`] does, and
/// keeps the types of the fields if it is a struct: of each syntax tree the names of
/// path segments and the form of their arguments. For a [`plain`] text they depend
/// on the text alone, and are named [`parsed_types`]; for any other text nothing is
/// claimed.
#[verifier::external_body]
fn parse_types(text: &str) -> (r: Result<Vec<FieldType>, syn::Error>)
    ensures
        plain(text@) ==> match r {
            Ok(types) => parsed_types(text@) == Some(type_views(types@)),
            Err(_) => parsed_types(text@) is None,
        },
{
    parse_str(text).map(|read: DeriveInput| match read.data {
        Struct(s) => s.fields.into_iter().map(|f| match f.ty {
            Type::Array(_) => Array,
            Type::Path(p) => Path(p.path.segments.iter().map(|s| Segment {
                name: s.ident.to_string(),
                arguments: match &s.arguments {
                    AngleBracketed(a) => a.args.iter().map(|g| match g {
                        GenericArgument::Type(Type::Path(t)) => Named(t.path.segments.iter().map(|s| s.ident.to_string()).collect()),
                        _ => Unnamed
                    }).collect(),
                    _ => vec![]
                } }).collect()),
            _ => Other }).collect(),
        _ => vec![] })
}

/// The attributes of the declaration that a plain text is read as, or nothing if it
/// is none.
pub uninterp spec fn parsed_attributes(text: Seq<char>) -> Option<Seq<AttributeView>>;

/// Calls `syn::Attribute::parse_nested_meta` on each attribute of the declaration
/// that a text is read as, which hands out the paths that are listed in its
/// brackets; where it stops with an error, what was handed out before counts. For a
/// [`plain`] text the result depends on the text alone, and is named
/// [`parsed_attributes`]; for any other text nothing is claimed.
#[verifier::external_body]
fn parse_attributes(text: &str) -> (r: Result<Vec<AttributeInput>, syn::Error>)
    ensures
        plain(text@) ==> match r {
            Ok(attributes) => parsed_attributes(text@) == Some(attribute_views(attributes@)),
            Err(_) => parsed_attributes(text@) is None,
        },
{
    let name = |path: &syn::Path| path.get_ident().map(|ident| ident.to_string());
    parse_str(text).map(|read: DeriveInput| read.attrs.iter().map(|attribute| {
        let mut words = Vec::new();
        let _ = attribute.parse_nested_meta(|entry| Ok(words.push(name(&entry.path))));
        AttributeInput { name: name(attribute.path()), words }
    }).collect())
}

/// Names and types side by side, as far as there are both.
pub open spec fn joined(names: Seq<Seq<char>>, types: Seq<FieldTypeView>) -> Seq<FieldView> {
    Seq::new(
        if names.len() < types.len() {
            names.len()
        } else {
            types.len()
        },
        |i: int| FieldView { name: names[i], ty: types[i] },
    )
}

/// Put names and types side by side.
fn join(names: Vec<String>, types: Vec<FieldType>) -> (fields: Vec<FieldInput>)
    ensures
        field_views(fields@) == joined(texts(names@), type_views(types@)),
{
    let ghost all_names = texts(names@);
    let ghost all_types = type_views(types@);
    let ghost whole = joined(all_names, all_types);
    let mut names = names;
    let mut types = types;
    let mut fields: Vec<FieldInput> = Vec::new();
    assert(all_names.skip(0) =~= all_names);
    assert(all_types.skip(0) =~= all_types);
    while names.len() > 0 && types.len() > 0
        invariant
            fields@.len() <= all_names.len(),
            fields@.len() <= all_types.len(),
            texts(names@) == all_names.skip(fields@.len() as int),
            type_views(types@) == all_types.skip(fields@.len() as int),
            whole == joined(all_names, all_types),
            forall|j: int| 0 <= j < fields@.len() ==> (#[trigger] fields@[j])@ == whole[j],
        decreases names@.len(),
    {
        let ghost at = fields@.len() as int;
        let ghost had_names = texts(names@);
        let ghost had_types = type_views(types@);
        assert(had_names[0] == names@[0]@ && had_types[0] == types@[0]@);
        assert(names@.len() == had_names.len() && types@.len() == had_types.len());
        let name = names.remove(0);
        let ty = types.remove(0);
        fields.push(FieldInput { name, ty });
        assert(texts(names@) =~= had_names.skip(1));
        assert(type_views(types@) =~= had_types.skip(1));
        assert(had_names.skip(1) =~= all_names.skip(at + 1));
        assert(had_types.skip(1) =~= all_types.skip(at + 1));
    }
    assert(texts(names@).len() == names@.len() && type_views(types@).len() == types@.len());
    assert(field_views(fields@) =~= whole);
    fields
}

/// The declaration that a plain text is read as, or nothing if it is none.
pub open spec fn parsed_declaration(text: Seq<char>) -> Option<InputView> {
    match (parsed_head(text), parsed_types(text), parsed_attributes(text)) {
        (Some(head), Some(types), Some(attributes)) => Some(
            InputView {
                name: head.name,
                form: head.form,
                fields: joined(head.field_names, types),
                attributes,
            },
        ),
        _ => None,
    }
}

/// The declaration that a text is read as, if it is one.
pub fn read_declaration(text: &str) -> (input: Option<StructInput>)
    ensures
        plain(text@) ==> match parsed_declaration(text@) {
            Some(d) => input matches Some(x) && x@ == d,
            None => input is None,
        },
{
    match (parse_head(text), parse_types(text), parse_attributes(text)) {
        (Ok(head), Ok(types), Ok(attributes)) => Some(
            StructInput {
                name: head.name,
                form: head.form,
                fields: join(head.field_names, types),
                attributes,
            },
        ),
        _ => None,
    }
}

/// An attribute asks for the layout of C.
pub open spec fn is_repr_c(attribute: AttributeView) -> bool {
    attribute.name == Some("repr"@) && attribute.words.contains(Some("C"@))
}

/// One of the attributes asks for the layout of C.
pub open spec fn says_repr_c(attributes: Seq<AttributeView>) -> bool {
    exists|i: int| 0 <= i < attributes.len() && is_repr_c(#[trigger] attributes[i])
}

/// Whether a name is there and is `word`.
fn named(name: &Option<String>, word: &str) -> (r: bool)
    ensures
        r == (name_text(*name) == Some(word@)),
{
    match name {
        Some(text) => same(text, word),
        None => false,
    }
}

/// Whether a word is in a list.
fn lists(words: &Vec<Option<String>>, word: &str) -> (r: bool)
    ensures
        r == words@.map_values(|word: Option<String>| name_text(word)).contains(Some(word@)),
{
    let ghost list = words@.map_values(|word: Option<String>| name_text(word));
    let mut i: usize = 0;
    while i < words.len()
        invariant
            i <= words@.len(),
            list == words@.map_values(|word: Option<String>| name_text(word)),
            forall|j: int| 0 <= j < i ==> #[trigger] list[j] != Some(word@),
        decreases words@.len() - i,
    {
        assert(list[i as int] == name_text(words@[i as int]));
        if named(&words[i], word) {
            return true;
        }
        i += 1;
    }
    false
}

/// Whether one of the attributes asks for the layout of C.
pub fn repr_c(attributes: &Vec<AttributeInput>) -> (r: bool)
    ensures
        r == says_repr_c(attribute_views(attributes@)),
{
    let ghost views = attribute_views(attributes@);
    let mut i: usize = 0;
    while i < attributes.len()
        invariant
            i <= attributes@.len(),
            views == attribute_views(attributes@),
            forall|j: int| 0 <= j < i ==> !is_repr_c(#[trigger] views[j]),
        decreases attributes@.len() - i,
    {
        let attribute: &AttributeInput = &attributes[i];
        assert(views[i as int] == attribute@);
        if named(&attribute.name, "repr") && lists(&attribute.words, "C") {
            return true;
        }
        i += 1;
    }
    false
}

} // verus!
