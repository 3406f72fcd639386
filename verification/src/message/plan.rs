//! From a struct declaration to its wire form.

use crate::message::codec::FieldKind;
use crate::message::declaration::{
    field_views, parsed_declaration, plain, read_declaration, repr_c, says_repr_c, FieldInput,
    FieldView, Form, InputView, StructInput,
};
use crate::message::types::{classify, kind_of, option_inner, option_of, FieldType, FieldTypeView};
use vstd::prelude::*;

verus! {

/// A field with the way in which it is carried.
#[derive(Debug, PartialEq, Eq)]
pub struct PlannedField {
    pub name: String,
    pub kind: FieldKind,
}

/// The wire form of a struct.
#[derive(Debug, PartialEq, Eq)]
pub struct WirePlan {
    /// Name of the wire struct.
    pub wire_name: String,
    pub fields: Vec<PlannedField>,
    /// A conversion back from the wire is only sound for valid discriminants.
    pub has_enum_fields: bool,
    /// The wire form assumes that a machine word fits in 64 bits.
    pub has_usize_isize: bool,
}

/// A planned field as contracts see it.
pub struct PlannedView {
    pub name: Seq<char>,
    pub kind: FieldKind,
}

/// A wire form as contracts see it.
pub struct PlanView {
    pub wire_name: Seq<char>,
    pub fields: Seq<PlannedView>,
    pub has_enum_fields: bool,
    pub has_usize_isize: bool,
}

impl View for PlannedField {
    type V = PlannedView;

    open spec fn view(&self) -> PlannedView {
        PlannedView { name: self.name@, kind: self.kind }
    }
}

/// The planned fields of a list, seen through their views.
pub open spec fn planned_views(fields: Seq<PlannedField>) -> Seq<PlannedView> {
    fields.map_values(|field: PlannedField| field@)
}

impl View for WirePlan {
    type V = PlanView;

    open spec fn view(&self) -> PlanView {
        PlanView {
            wire_name: self.wire_name@,
            fields: planned_views(self.fields@),
            has_enum_fields: self.has_enum_fields,
            has_usize_isize: self.has_usize_isize,
        }
    }
}

/// Why no wire form can be derived.
#[derive(Debug, PartialEq, Eq)]
pub enum MessageError {
    /// The declaration is no struct.
    NotAStruct,
    /// The fields have no names.
    NotNamed,
    /// A field is an `Option` of a type that has no wire form.
    UnsupportedOption { field: String, inner: String },
}

/// Why no wire form can be derived, as contracts see it.
pub enum MessageErrorView {
    NotAStruct,
    NotNamed,
    UnsupportedOption { field: Seq<char>, inner: Seq<char> },
}

impl View for MessageError {
    type V = MessageErrorView;

    open spec fn view(&self) -> MessageErrorView {
        match *self {
            MessageError::NotAStruct => MessageErrorView::NotAStruct,
            MessageError::NotNamed => MessageErrorView::NotNamed,
            MessageError::UnsupportedOption { field, inner } => MessageErrorView::UnsupportedOption {
                field: field@,
                inner: inner@,
            },
        }
    }
}

/// What is wrong with a field of type `ty`, if anything is.
pub open spec fn type_problem(name: Seq<char>, ty: FieldTypeView) -> Option<MessageErrorView> {
    if kind_of(ty) is UnsupportedOption {
        Some(
            MessageErrorView::UnsupportedOption {
                field: name,
                inner: option_of(ty->Path_0.last()),
            },
        )
    } else {
        None
    }
}

/// What is wrong with the first field that has no wire form.
pub open spec fn first_problem(fields: Seq<FieldView>) -> Option<MessageErrorView>
    decreases fields.len(),
{
    if fields.len() == 0 {
        None
    } else {
        match type_problem(fields.first().name, fields.first().ty) {
            Some(problem) => Some(problem),
            None => first_problem(fields.drop_first()),
        }
    }
}

/// The fields with their kinds.
pub open spec fn plan_fields(fields: Seq<FieldView>) -> Seq<PlannedView> {
    fields.map_values(
        |field: FieldView| PlannedView { name: field.name, kind: kind_of(field.ty) },
    )
}

/// A machine word is carried as 64 bits.
pub open spec fn carries_word(kind: FieldKind) -> bool {
    kind is Usize || kind is Isize || kind is OptionUsize || kind is OptionIsize
}

/// What the wire form of a struct with these fields comes to.
pub open spec fn message_plan(name: Seq<char>, fields: Seq<FieldView>) -> Result<
    PlanView,
    MessageErrorView,
> {
    match first_problem(fields) {
        Some(problem) => Err(problem),
        None => {
            let planned = plan_fields(fields);
            Ok(
                PlanView {
                    wire_name: name + "Wire"@,
                    fields: planned,
                    has_enum_fields: exists|i: int|
                        0 <= i < planned.len() && (#[trigger] planned[i]).kind is Enum,
                    has_usize_isize: exists|i: int|
                        0 <= i < planned.len() && carries_word((#[trigger] planned[i]).kind),
                },
            )
        },
    }
}

/// What deriving a wire form comes to.
pub open spec fn message_outcome(input: InputView) -> Result<PlanView, MessageErrorView> {
    match input.form {
        Form::Named => message_plan(input.name, input.fields),
        Form::Tuple | Form::Unit => Err(MessageErrorView::NotNamed),
        Form::Enum | Form::Union => Err(MessageErrorView::NotAStruct),
    }
}

/// How a result of deriving a wire form looks to contracts.
pub open spec fn outcome_view(r: Result<WirePlan, MessageError>) -> Result<
    PlanView,
    MessageErrorView,
> {
    match r {
        Ok(plan) => Ok(plan@),
        Err(e) => Err(e@),
    }
}

/// A name with a suffix.
fn suffixed(name: &String, suffix: &str) -> (r: String)
    ensures
        r@ == name@ + suffix@,
{
    let mut r = name.clone();
    r.append(suffix);
    r
}

/// The kind of a field, if it has a wire form.
fn plan_field(field: &FieldInput) -> (r: Result<FieldKind, MessageError>)
    ensures
        match r {
            Ok(kind) => type_problem(field@.name, field@.ty) is None && kind == kind_of(field@.ty),
            Err(e) => type_problem(field@.name, field@.ty) == Some(e@),
        },
{
    let kind = classify(&field.ty);
    if let FieldKind::UnsupportedOption = kind {
        let mut inner = String::new();
        if let FieldType::Path(segments) = &field.ty {
            if segments.len() > 0 {
                let last = &segments[segments.len() - 1];
                assert(field@.ty->Path_0.last() == last@);
                inner = option_inner(last);
            }
        }
        return Err(MessageError::UnsupportedOption { field: field.name.clone(), inner });
    }
    Ok(kind)
}

/// Plan the wire form of a struct with these fields.
pub fn plan_message(name: &String, fields: &Vec<FieldInput>) -> (r: Result<WirePlan, MessageError>)
    ensures
        outcome_view(r) == message_plan(name@, field_views(fields@)),
{
    let ghost views = field_views(fields@);
    let mut planned: Vec<PlannedField> = Vec::new();
    let mut has_enum_fields = false;
    let mut has_usize_isize = false;
    let mut i: usize = 0;
    assert(views.skip(0) =~= views);
    while i < fields.len()
        invariant
            i <= fields@.len(),
            views == field_views(fields@),
            first_problem(views) == first_problem(views.skip(i as int)),
            planned@.len() == i,
            forall|j: int| 0 <= j < i ==> (#[trigger] planned@[j])@ == plan_fields(views)[j],
            has_enum_fields <==> exists|j: int|
                0 <= j < i && (#[trigger] plan_fields(views)[j]).kind is Enum,
            has_usize_isize <==> exists|j: int|
                0 <= j < i && carries_word((#[trigger] plan_fields(views)[j]).kind),
        decreases fields@.len() - i,
    {
        let field: &FieldInput = &fields[i];
        proof {
            assert(views[i as int] == field@);
            assert(views.skip(i as int).first() == field@);
            assert(views.skip(i as int).drop_first() =~= views.skip(i as int + 1));
        }
        let kind = match plan_field(field) {
            Ok(kind) => kind,
            Err(e) => {
                return Err(e);
            },
        };
        assert(plan_fields(views)[i as int].kind == kind);
        match kind {
            FieldKind::Enum => {
                has_enum_fields = true;
            },
            FieldKind::Usize | FieldKind::Isize | FieldKind::OptionUsize
            | FieldKind::OptionIsize => {
                has_usize_isize = true;
            },
            _ => {},
        }
        planned.push(PlannedField { name: field.name.clone(), kind });
        i += 1;
    }
    let plan = WirePlan {
        wire_name: suffixed(name, "Wire"),
        fields: planned,
        has_enum_fields,
        has_usize_isize,
    };
    assert(plan@.fields =~= plan_fields(views));
    Ok(plan)
}

/// Derive the wire form of a struct.
pub fn derive_message(input: &StructInput) -> (r: Result<WirePlan, MessageError>)
    ensures
        outcome_view(r) == message_outcome(input@),
{
    match input.form {
        Form::Named => plan_message(&input.name, &input.fields),
        Form::Tuple | Form::Unit => Err(MessageError::NotNamed),
        Form::Enum | Form::Union => Err(MessageError::NotAStruct),
    }
}

/// Derive the wire form of the struct that a text declares. Nothing, if the text
/// is no declaration.
pub fn derive_message_of(text: &str) -> (r: Option<Result<WirePlan, MessageError>>)
    ensures
        plain(text@) ==> match parsed_declaration(text@) {
            Some(input) => r matches Some(derived) && outcome_view(derived) == message_outcome(
                input,
            ),
            None => r is None,
        },
        r matches Some(derived) ==> exists|input: InputView|
            outcome_view(derived) == #[trigger] message_outcome(input),
{
    match read_declaration(text) {
        Some(input) => {
            let derived = derive_message(&input);
            assert(outcome_view(derived) == message_outcome(input@));
            Some(derived)
        },
        None => None,
    }
}

/// Why `Pod` cannot be derived.
#[derive(Debug, Clone, Copy, PartialEq, Eq, Structural)]
pub enum PodError {
    /// The layout is not that of C.
    NotReprC,
    /// The declaration is no struct.
    NotAStruct,
}

/// What deriving `Pod` comes to: the positions of the fields that have to be plain
/// data for the struct to be plain data.
pub open spec fn pod_outcome(input: InputView) -> Result<Seq<usize>, PodError> {
    if !says_repr_c(input.attributes) {
        Err(PodError::NotReprC)
    } else if input.form is Enum || input.form is Union {
        Err(PodError::NotAStruct)
    } else {
        Ok(Seq::new(input.fields.len(), |i: int| i as usize))
    }
}

/// How a result of deriving `Pod` looks to contracts.
pub open spec fn pod_view(r: Result<Vec<usize>, PodError>) -> Result<Seq<usize>, PodError> {
    match r {
        Ok(positions) => Ok(positions@),
        Err(e) => Err(e),
    }
}

/// Derive `Pod` for a struct: the positions of the fields that have to be `Pod` as
/// well, which are all of them.
pub fn derive_pod(input: &StructInput) -> (r: Result<Vec<usize>, PodError>)
    ensures
        pod_view(r) == pod_outcome(input@),
{
    if !repr_c(&input.attributes) {
        return Err(PodError::NotReprC);
    }
    match input.form {
        Form::Enum | Form::Union => {
            return Err(PodError::NotAStruct);
        },
        _ => {},
    }
    let mut positions: Vec<usize> = Vec::new();
    let mut i: usize = 0;
    while i < input.fields.len()
        invariant
            i <= input.fields@.len(),
            positions@.len() == i,
            forall|j: int| 0 <= j < i ==> #[trigger] positions@[j] == j,
        decreases input.fields@.len() - i,
    {
        positions.push(i);
        i += 1;
    }
    assert(positions@ =~= Seq::new(input@.fields.len(), |i: int| i as usize));
    Ok(positions)
}

/// Derive `Pod` for the struct that a text declares. Nothing, if the text is no
/// declaration.
pub fn derive_pod_of(text: &str) -> (r: Option<Result<Vec<usize>, PodError>>)
    ensures
        plain(text@) ==> match parsed_declaration(text@) {
            Some(input) => r matches Some(derived) && pod_view(derived) == pod_outcome(input),
            None => r is None,
        },
        r matches Some(derived) ==> exists|input: InputView|
            pod_view(derived) == #[trigger] pod_outcome(input),
{
    match read_declaration(text) {
        Some(input) => {
            let derived = derive_pod(&input);
            assert(pod_view(derived) == pod_outcome(input@));
            Some(derived)
        },
        None => None,
    }
}

/// The type of a wire field.
#[derive(Debug, Clone, Copy, PartialEq, Eq, Structural)]
pub enum WireType {
    /// The type of the field that it stands for.
    Same,
    U8,
    U32,
    U64,
    U128,
    I64,
}

/// One field of a wire struct.
#[derive(Debug, PartialEq, Eq)]
pub struct WireField {
    pub name: String,
    pub ty: WireType,
    /// Position of the field that it stands for.
    pub source: usize,
}

/// A wire field as contracts see it.
pub struct WireFieldView {
    pub name: Seq<char>,
    pub ty: WireType,
    pub source: int,
}

impl View for WireField {
    type V = WireFieldView;

    open spec fn view(&self) -> WireFieldView {
        WireFieldView { name: self.name@, ty: self.ty, source: self.source as int }
    }
}

/// The type of the first wire field of this kind.
pub open spec fn wire_type_of(kind: FieldKind) -> WireType {
    match kind {
        FieldKind::Passthrough | FieldKind::UnsupportedOption => WireType::Same,
        FieldKind::Bool | FieldKind::OptionBool | FieldKind::Enum => WireType::U8,
        FieldKind::Usize | FieldKind::OptionUnsignedInt(_) | FieldKind::OptionUsize
        | FieldKind::OptionF64 => WireType::U64,
        FieldKind::Isize | FieldKind::OptionSignedInt(_)
        | FieldKind::OptionIsize => WireType::I64,
        FieldKind::OptionU128 | FieldKind::OptionI128 => WireType::U128,
        FieldKind::OptionF32 => WireType::U32,
    }
}

/// The wire fields of one field.
pub open spec fn wire_fields_of(field: PlannedView, source: int) -> Seq<WireFieldView> {
    if field.kind.is_option() {
        seq![
            WireFieldView { name: field.name + "_value"@, ty: wire_type_of(field.kind), source },
            WireFieldView { name: field.name + "_has"@, ty: WireType::U8, source },
        ]
    } else {
        seq![WireFieldView { name: field.name, ty: wire_type_of(field.kind), source }]
    }
}

/// The wire fields of the first `count` fields.
pub open spec fn wire_struct(fields: Seq<PlannedView>, count: int) -> Seq<WireFieldView>
    decreases count,
{
    if count <= 0 {
        Seq::empty()
    } else {
        wire_struct(fields, count - 1) + wire_fields_of(fields[count - 1], count - 1)
    }
}

/// The type of the first wire field of this kind.
fn wire_type(kind: FieldKind) -> (ty: WireType)
    ensures
        ty == wire_type_of(kind),
{
    match kind {
        FieldKind::Passthrough | FieldKind::UnsupportedOption => WireType::Same,
        FieldKind::Bool | FieldKind::OptionBool | FieldKind::Enum => WireType::U8,
        FieldKind::Usize | FieldKind::OptionUnsignedInt(_) | FieldKind::OptionUsize
        | FieldKind::OptionF64 => WireType::U64,
        FieldKind::Isize | FieldKind::OptionSignedInt(_)
        | FieldKind::OptionIsize => WireType::I64,
        FieldKind::OptionU128 | FieldKind::OptionI128 => WireType::U128,
        FieldKind::OptionF32 => WireType::U32,
    }
}

impl WirePlan {
    /// The fields of the wire struct, in order.
    pub fn wire_fields(&self) -> (fields: Vec<WireField>)
        ensures
            fields@.map_values(|field: WireField| field@) == wire_struct(
                self@.fields,
                self@.fields.len() as int,
            ),
    {
        let mut fields: Vec<WireField> = Vec::new();
        let mut i: usize = 0;
        assert(fields@.map_values(|field: WireField| field@) =~= Seq::empty());
        while i < self.fields.len()
            invariant
                i <= self.fields@.len(),
                fields@.map_values(|field: WireField| field@) == wire_struct(
                    self@.fields,
                    i as int,
                ),
            decreases self.fields@.len() - i,
        {
            let field: &PlannedField = &self.fields[i];
            let ghost before = fields@;
            assert(self@.fields[i as int] == field@);
            if field.kind.optional() {
                fields.push(
                    WireField {
                        name: suffixed(&field.name, "_value"),
                        ty: wire_type(field.kind),
                        source: i,
                    },
                );
                fields.push(
                    WireField { name: suffixed(&field.name, "_has"), ty: WireType::U8, source: i },
                );
            } else {
                fields.push(
                    WireField { name: field.name.clone(), ty: wire_type(field.kind), source: i },
                );
            }
            proof {
                let added = wire_fields_of(field@, i as int);
                assert(fields@.map_values(|field: WireField| field@) =~= before.map_values(
                    |field: WireField| field@,
                ) + added);
            }
            i += 1;
        }
        fields
    }

    /// The kinds of the fields, in order.
    pub fn kinds(&self) -> (kinds: Vec<FieldKind>)
        ensures
            kinds@.len() == self@.fields.len(),
            forall|i: int| 0 <= i < kinds@.len() ==> kinds@[i] == (#[trigger] self@.fields[i]).kind,
    {
        let mut kinds: Vec<FieldKind> = Vec::new();
        let mut i: usize = 0;
        while i < self.fields.len()
            invariant
                i <= self.fields@.len(),
                kinds@.len() == i,
                forall|j: int| 0 <= j < i ==> #[trigger] kinds@[j] == self.fields@[j].kind,
            decreases self.fields@.len() - i,
        {
            kinds.push(self.fields[i].kind);
            i += 1;
        }
        kinds
    }
}

/// What is reported when no wire form can be derived.
pub open spec fn message_error_text(e: MessageErrorView) -> Seq<char> {
    match e {
        MessageErrorView::NotAStruct => "Message can only be derived for structs"@,
        MessageErrorView::NotNamed => "Message can only be derived for structs with named fields"@,
        MessageErrorView::UnsupportedOption { field, inner } => "Message derive: field `"@ + field
            + "` has unsupported type `Option<"@ + inner
            + ">`. Only Option<bool>, Option<integer>, Option<f32>, and Option<f64> are supported."@,
    }
}

impl MessageError {
    /// What is reported.
    pub fn message(&self) -> (text: String)
        ensures
            text@ == message_error_text(self@),
            *self is NotAStruct ==> text@ == "Message can only be derived for structs"@,
            *self is NotNamed ==> text@
                == "Message can only be derived for structs with named fields"@,
            *self matches MessageError::UnsupportedOption { field, inner } ==> text@
                == "Message derive: field `"@ + field@ + "` has unsupported type `Option<"@ + inner@
                + ">`. Only Option<bool>, Option<integer>, Option<f32>, and Option<f64> are supported."@,
    {
        match self {
            MessageError::NotAStruct => "Message can only be derived for structs".to_owned(),
            MessageError::NotNamed => {
                "Message can only be derived for structs with named fields".to_owned()
            },
            MessageError::UnsupportedOption { field, inner } => {
                let mut text = "Message derive: field `".to_owned();
                text.append(field.as_str());
                text.append("` has unsupported type `Option<");
                text.append(inner.as_str());
                text.append(
                    ">`. Only Option<bool>, Option<integer>, Option<f32>, and Option<f64> are supported.",
                );
                text
            },
        }
    }
}

/// What a field that is taken for an enum reports when its type is not one byte
/// long.
pub fn enum_size_message(field: &String, ty: &String) -> (text: String)
    ensures
        text@ == "Message derive: field `"@ + field@ + "` has type `"@ + ty@
            + "` which is not 1 byte. Enum fields must have #[repr(u8)]."@,
{
    let mut text = "Message derive: field `".to_owned();
    text.append(field.as_str());
    text.append("` has type `");
    text.append(ty.as_str());
    text.append("` which is not 1 byte. Enum fields must have #[repr(u8)].");
    text
}

impl PodError {
    /// What is reported when `Pod` cannot be derived.
    pub fn message(&self) -> (text: String)
        ensures
            text@ == (match *self {
                PodError::NotReprC => "Pod can only be derived for #[repr(C)] structs"@,
                PodError::NotAStruct => "Pod can only be derived for structs"@,
            }),
    {
        match self {
            PodError::NotReprC => "Pod can only be derived for #[repr(C)] structs".to_owned(),
            PodError::NotAStruct => "Pod can only be derived for structs".to_owned(),
        }
    }
}

/// Every field of a wire form can be carried.
pub proof fn lemma_plan_is_carried(name: Seq<char>, fields: Seq<FieldView>)
    ensures
        message_plan(name, fields) matches Ok(plan) ==> forall|i: int|
            0 <= i < plan.fields.len() ==> !((#[trigger] plan.fields[i]).kind is UnsupportedOption),
{
    if first_problem(fields) is None {
        lemma_no_problem(fields);
    }
}

proof fn lemma_no_problem(fields: Seq<FieldView>)
    requires
        first_problem(fields) is None,
    ensures
        forall|i: int|
            0 <= i < fields.len() ==> type_problem((#[trigger] fields[i]).name, fields[i].ty)
                is None,
    decreases fields.len(),
{
    if fields.len() > 0 {
        lemma_no_problem(fields.drop_first());
        assert forall|i: int| 0 <= i < fields.len() implies type_problem(
            (#[trigger] fields[i]).name,
            fields[i].ty,
        ) is None by {
            if i > 0 {
                assert(fields.drop_first()[i - 1] == fields[i]);
            }
        }
    }
}

} // verus!
