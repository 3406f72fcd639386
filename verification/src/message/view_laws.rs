//! What contracts see of declarations and plans is what they hold.

use crate::message::declaration::{
    attribute_views, field_views, name_text, texts, type_views, AttributeInput, FieldInput, Head,
    StructInput,
};
use crate::message::plan::{
    outcome_view, planned_views, pod_view, MessageError, MessageErrorView, PlannedField, PodError,
    WireField, WirePlan,
};
use crate::message::types::{Argument, ArgumentView, FieldType, FieldTypeView, Segment};
use vstd::prelude::*;

verus! {

/// A type is seen as it is written: the names of the segments of its path, in order, each
/// with its arguments.
pub proof fn lemma_type_view(ty: FieldType, segment: Segment, argument: Argument)
    ensures
        ty is Array <==> ty@ is Array,
        ty is Other <==> ty@ is Other,
        ty matches FieldType::Path(segments) ==> {
            &&& ty@ matches FieldTypeView::Path(views) && views.len() == segments@.len() && forall|
                i: int,
            |
                0 <= i < segments@.len() ==> #[trigger] views[i] == segments@[i]@
        },
        segment@.name == segment.name@,
        segment@.arguments.len() == segment.arguments@.len(),
        forall|i: int|
            0 <= i < segment.arguments@.len() ==> #[trigger] segment@.arguments[i]
                == segment.arguments@[i]@,
        argument is Unnamed <==> argument@ is Unnamed,
        argument matches Argument::Named(names) ==> {
            &&& argument@ matches ArgumentView::Named(views) && views.len() == names@.len()
                && forall|i: int| 0 <= i < names@.len() ==> #[trigger] views[i] == names@[i]@
        },
{
}

/// A declaration is seen with its name, its form, and its fields and attributes in order.
pub proof fn lemma_declaration_view(
    head: Head,
    input: StructInput,
    field: FieldInput,
    attribute: AttributeInput,
)
    ensures
        head@.name == head.name@,
        head@.form == head.form,
        head@.field_names == texts(head.field_names@),
        input@.name == input.name@,
        input@.form == input.form,
        input@.fields == field_views(input.fields@),
        input@.attributes == attribute_views(input.attributes@),
        field@.name == field.name@,
        field@.ty == field.ty@,
        attribute.name is None <==> attribute@.name is None,
        attribute.name matches Some(name) ==> attribute@.name == Some(name@),
        attribute@.words.len() == attribute.words@.len(),
        forall|i: int|
            0 <= i < attribute.words@.len() ==> #[trigger] attribute@.words[i] == (
            match attribute.words@[i] {
                Some(word) => Some(word@),
                None => None,
            }),
{
}

/// A list is seen entry by entry.
pub proof fn lemma_list_views(
    strings: Seq<String>,
    fields: Seq<FieldInput>,
    attributes: Seq<AttributeInput>,
    types: Seq<FieldType>,
    planned: Seq<PlannedField>,
)
    ensures
        texts(strings).len() == strings.len(),
        forall|i: int| 0 <= i < strings.len() ==> #[trigger] texts(strings)[i] == strings[i]@,
        field_views(fields).len() == fields.len(),
        forall|i: int| 0 <= i < fields.len() ==> #[trigger] field_views(fields)[i] == fields[i]@,
        attribute_views(attributes).len() == attributes.len(),
        forall|i: int|
            0 <= i < attributes.len() ==> #[trigger] attribute_views(attributes)[i]
                == attributes[i]@,
        type_views(types).len() == types.len(),
        forall|i: int| 0 <= i < types.len() ==> #[trigger] type_views(types)[i] == types[i]@,
        planned_views(planned).len() == planned.len(),
        forall|i: int|
            0 <= i < planned.len() ==> #[trigger] planned_views(planned)[i] == planned[i]@,
{
}

/// A plan is seen with its name, its fields in order and what it says of them.
pub proof fn lemma_plan_view(plan: WirePlan, planned: PlannedField, wire: WireField)
    ensures
        plan@.wire_name == plan.wire_name@,
        plan@.fields == planned_views(plan.fields@),
        plan@.has_enum_fields == plan.has_enum_fields,
        plan@.has_usize_isize == plan.has_usize_isize,
        planned@.name == planned.name@,
        planned@.kind == planned.kind,
        wire@.name == wire.name@,
        wire@.ty == wire.ty,
        wire@.source == wire.source,
{
}

/// What deriving comes to is seen as it is: a plan as a plan, and an error as that error.
pub proof fn lemma_result_views(
    plan: WirePlan,
    error: MessageError,
    positions: Vec<usize>,
    pod_error: PodError,
)
    ensures
        outcome_view(Ok(plan)) == Ok::<_, MessageErrorView>(plan@),
        outcome_view(Err(error)) matches Err(e) && e == error@,
        error is NotAStruct <==> error@ is NotAStruct,
        error is NotNamed <==> error@ is NotNamed,
        error matches MessageError::UnsupportedOption { field, inner } ==> error@
            == (MessageErrorView::UnsupportedOption { field: field@, inner: inner@ }),
        pod_view(Ok(positions)) == Ok::<Seq<usize>, PodError>(positions@),
        pod_view(Err(pod_error)) == Err::<Seq<usize>, PodError>(pod_error),
{
}

/// A name that is there is seen as its text.
pub proof fn lemma_name_text(name: String)
    ensures
        name_text(Some(name)) == Some(name@),
        name_text(None) is None,
{
}

} // verus!
