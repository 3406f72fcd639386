//! What a declaration comes to.

use crate::message::codec::{
    carries, decoded, encoded, field_wire, present, record_carries, record_decoded, record_width,
    record_wire, FieldKind, Number, Value, WireValue,
};
use crate::message::declaration::{
    in_number, parsed_attributes, parsed_declaration, parsed_head, parsed_types, plain, plain_at,
    says_repr_c, AttributeView, FieldView, Form, InputView,
};
use crate::message::plan::{
    first_problem, message_outcome, message_plan, plan_fields, pod_outcome, type_problem,
    wire_fields_of, wire_struct, wire_type_of, MessageErrorView, PlanView, PlannedView, PodError,
    WireType,
};
use crate::message::types::{kind_of, ArgumentView};
use vstd::prelude::*;

verus! {

/// A field that has no wire form.
pub open spec fn has_no_wire_form(field: FieldView) -> bool {
    kind_of(field.ty) == FieldKind::UnsupportedOption
}

/// A struct has a wire form exactly if all of its fields have one.
pub proof fn lemma_planned_if_carried(name: Seq<char>, fields: Seq<FieldView>)
    ensures
        message_plan(name, fields) is Ok <==> forall|i: int|
            0 <= i < fields.len() ==> !has_no_wire_form(#[trigger] fields[i]),
{
    lemma_first_problem(fields);
    if first_problem(fields) is Some {
        let i = choose|i: int|
            0 <= i < fields.len() && first_problem(fields) == type_problem(
                (#[trigger] fields[i]).name,
                fields[i].ty,
            ) && type_problem(fields[i].name, fields[i].ty) is Some && forall|j: int|
                0 <= j < i ==> !has_no_wire_form(#[trigger] fields[j]);
        assert(has_no_wire_form(fields[i]));
    }
}

/// The wire struct goes by the name of the struct with `Wire` behind it. It carries the
/// fields of the struct, under their names, in their order and by their kinds, and says
/// whether there is an enum and whether there is a machine word among them.
pub proof fn lemma_plan_follows_fields(name: Seq<char>, fields: Seq<FieldView>)
    requires
        message_plan(name, fields) is Ok,
    ensures
        ({
            let plan = message_plan(name, fields)->Ok_0;
            &&& plan.wire_name == name + seq!['W', 'i', 'r', 'e']
            &&& plan.fields.len() == fields.len()
            &&& forall|i: int|
                0 <= i < fields.len() ==> (#[trigger] plan.fields[i]).name == fields[i].name
                    && plan.fields[i].kind == kind_of(fields[i].ty)
            &&& plan.has_enum_fields <==> exists|i: int|
                0 <= i < fields.len() && kind_of((#[trigger] fields[i]).ty) == FieldKind::Enum
            &&& plan.has_usize_isize <==> exists|i: int|
                0 <= i < fields.len() && {
                    ||| kind_of((#[trigger] fields[i]).ty) == FieldKind::Usize
                    ||| kind_of(fields[i].ty) == FieldKind::Isize
                    ||| kind_of(fields[i].ty) == FieldKind::OptionUsize
                    ||| kind_of(fields[i].ty) == FieldKind::OptionIsize
                }
        }),
{
    reveal_strlit("Wire");
    assert("Wire"@ =~= seq!['W', 'i', 'r', 'e']);
    let plan = message_plan(name, fields)->Ok_0;
    assert(plan.fields == plan_fields(fields));
    assert(plan.fields.len() == fields.len());
    assert forall|i: int| 0 <= i < fields.len() implies (#[trigger] plan.fields[i]).name
        == fields[i].name && plan.fields[i].kind == kind_of(fields[i].ty) by {}
    if plan.has_enum_fields {
        let i = choose|i: int| 0 <= i < plan.fields.len() && (#[trigger] plan.fields[i]).kind is Enum;
        assert(kind_of(fields[i].ty) == FieldKind::Enum);
    }
    if exists|i: int|
        0 <= i < fields.len() && kind_of((#[trigger] fields[i]).ty) == FieldKind::Enum {
        let i = choose|i: int|
            0 <= i < fields.len() && kind_of((#[trigger] fields[i]).ty) == FieldKind::Enum;
        assert(plan.fields[i].kind is Enum);
    }
    let word = |kind: FieldKind| kind is Usize || kind is Isize || kind is OptionUsize || kind is OptionIsize;
    if plan.has_usize_isize {
        let i = choose|i: int| 0 <= i < plan.fields.len() && word((#[trigger] plan.fields[i]).kind);
        assert(word(kind_of(fields[i].ty)));
    }
    if exists|i: int| 0 <= i < fields.len() && word(kind_of((#[trigger] fields[i]).ty)) {
        let i = choose|i: int| 0 <= i < fields.len() && word(kind_of((#[trigger] fields[i]).ty));
        assert(word(plan.fields[i].kind));
    }
}

/// What is reported of a struct that has no wire form is its first field that has none,
/// with the type that the `Option` is of, which is left empty if it is not known.
pub proof fn lemma_first_field_is_reported(name: Seq<char>, fields: Seq<FieldView>, at: int)
    requires
        0 <= at < fields.len(),
        has_no_wire_form(fields[at]),
        forall|j: int| 0 <= j < at ==> !has_no_wire_form(#[trigger] fields[j]),
    ensures
        message_plan(name, fields) matches Err(MessageErrorView::UnsupportedOption { field, inner })
            && field == fields[at].name && {
            let arguments = fields[at].ty->Path_0.last().arguments;
            &&& arguments.len() == 0 ==> inner.len() == 0
            &&& arguments.len() > 0 ==> match arguments[0] {
                ArgumentView::Named(names) => if names.len() > 0 {
                    inner == names.last()
                } else {
                    inner.len() == 0
                },
                ArgumentView::Unnamed => inner.len() == 0,
            }
        },
{
    lemma_first_problem(fields);
    if first_problem(fields) is None {
        assert(!has_no_wire_form(fields[at]));
    } else {
        let i = choose|i: int|
            0 <= i < fields.len() && first_problem(fields) == type_problem(
                (#[trigger] fields[i]).name,
                fields[i].ty,
            ) && type_problem(fields[i].name, fields[i].ty) is Some && forall|j: int|
                0 <= j < i ==> !has_no_wire_form(#[trigger] fields[j]);
        assert(has_no_wire_form(fields[i]));
        if at < i {
            assert(!has_no_wire_form(fields[at]));
        }
        assert(i == at);
        let arguments = fields[at].ty->Path_0.last().arguments;
        if arguments.len() > 0 {
            assert(arguments.first() == arguments[0]);
        }
    }
}

proof fn lemma_first_problem(fields: Seq<FieldView>)
    ensures
        match first_problem(fields) {
            None => forall|i: int|
                0 <= i < fields.len() ==> !has_no_wire_form(#[trigger] fields[i]),
            Some(problem) => exists|i: int|
                0 <= i < fields.len() && Some(problem) == type_problem(
                    (#[trigger] fields[i]).name,
                    fields[i].ty,
                ) && forall|j: int| 0 <= j < i ==> !has_no_wire_form(#[trigger] fields[j]),
        },
    decreases fields.len(),
{
    if fields.len() > 0 {
        let rest = fields.drop_first();
        lemma_first_problem(rest);
        assert(forall|i: int| 0 <= i < rest.len() ==> #[trigger] rest[i] == fields[i + 1]);
        if type_problem(fields.first().name, fields.first().ty) is Some {
            assert(first_problem(fields) == type_problem(fields[0].name, fields[0].ty));
        } else {
            assert(!has_no_wire_form(fields[0]));
            if first_problem(rest) is None {
                assert forall|i: int| 0 <= i < fields.len() implies !has_no_wire_form(
                    #[trigger] fields[i],
                ) by {
                    if i > 0 {
                        assert(rest[i - 1] == fields[i]);
                    }
                }
            } else {
                let problem = first_problem(rest)->Some_0;
                let k = choose|k: int|
                    0 <= k < rest.len() && Some(problem) == type_problem(
                        (#[trigger] rest[k]).name,
                        rest[k].ty,
                    ) && forall|j: int| 0 <= j < k ==> !has_no_wire_form(#[trigger] rest[j]);
                assert(rest[k] == fields[k + 1]);
                assert forall|j: int| 0 <= j < k + 1 implies !has_no_wire_form(
                    #[trigger] fields[j],
                ) by {
                    if j > 0 {
                        assert(rest[j - 1] == fields[j]);
                    }
                }
            }
        }
    }
}

/// Only a struct with named fields has a wire form.
pub proof fn lemma_only_named_structs(input: InputView)
    ensures
        input.form == Form::Enum || input.form == Form::Union <==> message_outcome(input) == Err::<
            PlanView,
            MessageErrorView,
        >(MessageErrorView::NotAStruct),
        input.form == Form::Tuple || input.form == Form::Unit <==> message_outcome(input) == Err::<
            PlanView,
            MessageErrorView,
        >(MessageErrorView::NotNamed),
        input.form == Form::Named ==> message_outcome(input) == message_plan(
            input.name,
            input.fields,
        ),
{
    lemma_first_problem(input.fields);
}

/// An attribute `repr` lists `C`.
pub open spec fn repr_lists_c(attributes: Seq<AttributeView>) -> bool {
    exists|i: int, j: int|
        0 <= i < attributes.len() && 0 <= j < attributes[i].words.len() && attributes[i].name
            == Some(seq!['r', 'e', 'p', 'r']) && #[trigger] attributes[i].words[j] == Some(seq!['C'])
}

/// A struct can be plain data exactly if it has the layout of C, and then all of its
/// fields have to be, from the first to the last.
pub proof fn lemma_plain_data(input: InputView)
    ensures
        says_repr_c(input.attributes) <==> repr_lists_c(input.attributes),
        pod_outcome(input) == Err::<Seq<usize>, PodError>(PodError::NotReprC) <==> !repr_lists_c(
            input.attributes,
        ),
        pod_outcome(input) == Err::<Seq<usize>, PodError>(PodError::NotAStruct) <==> repr_lists_c(
            input.attributes,
        ) && (input.form == Form::Enum || input.form == Form::Union),
        pod_outcome(input) matches Ok(positions) ==> positions.len() == input.fields.len()
            && forall|i: int|
            0 <= i < positions.len() && i <= usize::MAX ==> #[trigger] positions[i] == i,
{
    reveal_strlit("repr");
    reveal_strlit("C");
    assert("repr"@ =~= seq!['r', 'e', 'p', 'r']);
    assert("C"@ =~= seq!['C']);
    let attributes = input.attributes;
    if says_repr_c(attributes) {
        let i = choose|i: int|
            0 <= i < attributes.len() && crate::message::declaration::is_repr_c(
                #[trigger] attributes[i],
            );
        let j = choose|j: int|
            0 <= j < attributes[i].words.len() && attributes[i].words[j] == Some("C"@);
        assert(attributes[i].words[j] == Some(seq!['C']));
        assert(repr_lists_c(attributes));
    }
    if repr_lists_c(attributes) {
        let (i, j) = choose|i: int, j: int|
            0 <= i < attributes.len() && 0 <= j < attributes[i].words.len() && attributes[i].name
                == Some(seq!['r', 'e', 'p', 'r']) && #[trigger] attributes[i].words[j] == Some(
                seq!['C'],
            );
        assert(attributes[i].words.contains(Some("C"@)));
        assert(crate::message::declaration::is_repr_c(attributes[i]));
    }
}

/// The kinds of planned fields.
pub open spec fn kinds_of(fields: Seq<PlannedView>) -> Seq<FieldKind> {
    fields.map_values(|field: PlannedView| field.kind)
}

/// Where the wire fields of field `i` start.
pub open spec fn starts_at(kinds: Seq<FieldKind>, i: int) -> int {
    record_width(kinds.take(i)) as int
}

/// A field takes one wire field, an optional one takes two, and they stand in the order
/// of the fields.
pub proof fn lemma_wire_fields_follow(kinds: Seq<FieldKind>, i: int)
    requires
        0 <= i < kinds.len(),
    ensures
        starts_at(kinds, 0) == 0,
        starts_at(kinds, i + 1) == starts_at(kinds, i) + (if kinds[i].is_option() {
            2int
        } else {
            1int
        }),
        starts_at(kinds, kinds.len() as int) == record_width(kinds),
    decreases kinds.len(),
{
    assert(kinds.take(0) =~= Seq::empty());
    assert(kinds.take(kinds.len() as int) =~= kinds);
    let rest = kinds.drop_first();
    assert(kinds.take(i + 1).drop_first() =~= rest.take(i));
    assert(kinds.take(i + 1).first() == kinds[0]);
    if i > 0 {
        assert(kinds.take(i).drop_first() =~= rest.take(i - 1));
        assert(kinds.take(i).first() == kinds[0]);
        lemma_wire_fields_follow(rest, i - 1);
        assert(rest[i - 1] == kinds[i]);
    } else {
        assert(kinds.take(1).drop_first() =~= Seq::empty());
    }
}

/// What stands in a record on the wire: of each field its wire form, and behind an
/// optional one a byte that is one if there is a value and zero if not.
pub proof fn lemma_record_holds_fields(kinds: Seq<FieldKind>, values: Seq<Value>, i: int)
    requires
        kinds.len() == values.len(),
        0 <= i < kinds.len(),
    ensures
        0 <= starts_at(kinds, i),
        starts_at(kinds, i + 1) <= record_wire(kinds, values).len(),
        record_wire(kinds, values)[starts_at(kinds, i)] == encoded(kinds[i], values[i]),
        kinds[i].is_option() ==> record_wire(kinds, values)[starts_at(kinds, i) + 1]
            == WireValue::Number(
            Number::U8(
                if present(values[i]) {
                    1
                } else {
                    0
                },
            ),
        ),
    decreases kinds.len(),
{
    let rest = kinds.drop_first();
    let others = values.drop_first();
    let head = field_wire(kinds.first(), values.first());
    let tail = record_wire(rest, others);
    lemma_wire_fields_follow(kinds, i);
    assert(record_wire(kinds, values) == head + tail);
    if i > 0 {
        lemma_record_holds_fields(rest, others, i - 1);
        lemma_wire_fields_follow(rest, i - 1);
        assert(kinds.take(i).drop_first() =~= rest.take(i - 1));
        assert(kinds.take(i).first() == kinds[0]);
        assert(starts_at(kinds, i) == kinds[0].width() + starts_at(rest, i - 1));
        assert(rest[i - 1] == kinds[i] && others[i - 1] == values[i]);
        assert(head.len() == kinds[0].width());
        let at = starts_at(rest, i - 1);
        assert((head + tail)[head.len() + at] == tail[at]);
        if kinds[i].is_option() {
            assert((head + tail)[head.len() + at + 1] == tail[at + 1]);
        }
    } else {
        assert(starts_at(kinds, 0) == 0);
        assert(kinds.first() == kinds[0] && values.first() == values[0]);
    }
}

/// What can stand on the wire for a record: as many wire fields as it takes, and in
/// each what can be read there.
pub proof fn lemma_record_carries(kinds: Seq<FieldKind>, wire: Seq<WireValue>)
    ensures
        record_carries(kinds, wire) <==> wire.len() == record_width(kinds) && forall|i: int|
            0 <= i < kinds.len() ==> carries(#[trigger] kinds[i], wire[starts_at(kinds, i)]) && (
            kinds[i].is_option() ==> (wire[starts_at(kinds, i) + 1] matches WireValue::Number(n)
                && n is U8)),
    decreases kinds.len(),
{
    if kinds.len() > 0 {
        let rest = kinds.drop_first();
        let width = kinds.first().width() as int;
        let left = wire.skip(width);
        lemma_record_carries(rest, left);
        lemma_wire_fields_follow(kinds, 0);
        assert(kinds[0] == kinds.first());
        assert forall|i: int| 0 <= i < rest.len() implies #[trigger] rest[i] == kinds[i + 1]
            && starts_at(kinds, i + 1) == width + starts_at(rest, i) && 0 <= starts_at(rest, i)
            && starts_at(rest, i) + rest[i].width() <= record_width(rest) by {
            assert(kinds.take(i + 1).drop_first() =~= rest.take(i));
            assert(kinds.take(i + 1).first() == kinds[0]);
            lemma_width_grows(rest, i + 1);
            lemma_wire_fields_follow(rest, i);
        }
        if record_carries(kinds, wire) {
            assert forall|i: int| 0 <= i < kinds.len() implies carries(
                #[trigger] kinds[i],
                wire[starts_at(kinds, i)],
            ) && (kinds[i].is_option() ==> (wire[starts_at(kinds, i) + 1] matches WireValue::Number(
                n,
            ) && n is U8)) by {
                if i > 0 {
                    assert(rest[i - 1] == kinds[i]);
                }
            }
        }
        if wire.len() == record_width(kinds) && forall|i: int|
            0 <= i < kinds.len() ==> carries(#[trigger] kinds[i], wire[starts_at(kinds, i)]) && (
            kinds[i].is_option() ==> (wire[starts_at(kinds, i) + 1] matches WireValue::Number(n)
                && n is U8)) {
            assert forall|i: int| 0 <= i < rest.len() implies carries(
                #[trigger] rest[i],
                left[starts_at(rest, i)],
            ) && (rest[i].is_option() ==> (left[starts_at(rest, i) + 1] matches WireValue::Number(n)
                && n is U8)) by {
                assert(rest[i] == kinds[i + 1]);
            }
        }
    }
}

proof fn lemma_width_grows(kinds: Seq<FieldKind>, i: int)
    requires
        0 <= i <= kinds.len(),
    ensures
        0 <= starts_at(kinds, i) <= record_width(kinds),
    decreases kinds.len() - i,
{
    if i < kinds.len() {
        lemma_wire_fields_follow(kinds, i);
        lemma_width_grows(kinds, i + 1);
    } else {
        assert(kinds.take(i) =~= kinds);
    }
}

/// A record is read field by field from where each stands on the wire.
pub proof fn lemma_record_reads_fields(kinds: Seq<FieldKind>, wire: Seq<WireValue>, i: int)
    requires
        record_carries(kinds, wire),
        0 <= i < kinds.len(),
    ensures
        record_decoded(kinds, wire).len() == kinds.len(),
        !kinds[i].is_option() ==> forall|has: u8|
            record_decoded(kinds, wire)[i] == #[trigger] decoded(
                kinds[i],
                wire[starts_at(kinds, i)],
                has,
            ),
        kinds[i].is_option() ==> (wire[starts_at(kinds, i) + 1] matches WireValue::Number(
            Number::U8(has),
        ) && record_decoded(kinds, wire)[i] == decoded(kinds[i], wire[starts_at(kinds, i)], has)),
    decreases kinds.len(),
{
    let rest = kinds.drop_first();
    let width = kinds.first().width() as int;
    let left = wire.skip(width);
    lemma_wire_fields_follow(kinds, 0);
    if rest.len() > 0 {
        lemma_record_reads_fields(
            rest,
            left,
            if i > 0 {
                i - 1
            } else {
                0
            },
        );
    }
    if i > 0 {
        assert(kinds.take(i).drop_first() =~= rest.take(i - 1));
        assert(kinds.take(i).first() == kinds[0]);
        lemma_record_carries(rest, left);
        lemma_wire_fields_follow(rest, i - 1);
        lemma_width_grows(rest, i);
        assert(rest[i - 1] == kinds[i]);
        assert(left[starts_at(rest, i - 1)] == wire[starts_at(kinds, i)]);
    }
}

/// The wire struct has a field for each thing that a record holds on the wire, at the
/// same place: the field itself under its own name, or its value under its name with
/// `_value` and whether there is one under its name with `_has`.
pub proof fn lemma_wire_struct_holds_fields(fields: Seq<PlannedView>, i: int)
    requires
        0 <= i < fields.len(),
    ensures
        ({
            let wire = wire_struct(fields, fields.len() as int);
            let at = starts_at(kinds_of(fields), i);
            let kind = fields[i].kind;
            &&& wire.len() == record_width(kinds_of(fields))
            &&& wire[at].source == i
            &&& wire[at].ty == wire_type_of(kind)
            &&& !kind.is_option() ==> wire[at].name == fields[i].name
            &&& kind.is_option() ==> wire[at].name == fields[i].name + seq![
                '_',
                'v',
                'a',
                'l',
                'u',
                'e',
            ] && wire[at + 1].source == i && wire[at + 1].ty == WireType::U8 && wire[at + 1].name
                == fields[i].name + seq!['_', 'h', 'a', 's']
        }),
{
    reveal_strlit("_value");
    reveal_strlit("_has");
    assert("_value"@ =~= seq!['_', 'v', 'a', 'l', 'u', 'e']);
    assert("_has"@ =~= seq!['_', 'h', 'a', 's']);
    lemma_wire_prefix(fields, fields.len() as int, i);
    assert(kinds_of(fields).take(fields.len() as int) =~= kinds_of(fields));
}

proof fn lemma_wire_prefix(fields: Seq<PlannedView>, count: int, i: int)
    requires
        0 <= i < count <= fields.len(),
    ensures
        ({
            let wire = wire_struct(fields, count);
            let at = starts_at(kinds_of(fields), i);
            let own = wire_fields_of(fields[i], i);
            &&& wire.len() == starts_at(kinds_of(fields), count)
            &&& 0 <= at
            &&& at + own.len() <= wire.len()
            &&& own.len() >= 1
            &&& own[0] == wire[at]
            &&& fields[i].kind.is_option() ==> own.len() == 2 && own[1] == wire[at + 1]
        }),
    decreases count,
{
    let kinds = kinds_of(fields);
    assert(kinds[i] == fields[i].kind && kinds[count - 1] == fields[count - 1].kind);
    lemma_wire_fields_follow(kinds, count - 1);
    let before = wire_struct(fields, count - 1);
    let own = wire_fields_of(fields[count - 1], count - 1);
    assert(wire_struct(fields, count) == before + own);
    if count > 1 {
        lemma_wire_prefix(fields, count - 1, 0);
    }
    assert(before.len() == starts_at(kinds, count - 1));
    if i < count - 1 {
        lemma_wire_prefix(fields, count - 1, i);
        let at = starts_at(kinds, i);
        assert((before + own)[at] == before[at]);
        if fields[i].kind.is_option() {
            assert((before + own)[at + 1] == before[at + 1]);
        }
    } else {
        let at = starts_at(kinds, i);
        assert((before + own)[at] == own[0]);
        if fields[i].kind.is_option() {
            assert((before + own)[at + 1] == own[1]);
        }
    }
}

/// What a declaration says is what its parts say: its name and form, one field for each
/// name and type, and its attributes. A text is no declaration if one of them cannot be
/// read.
pub proof fn lemma_declaration_parts(text: Seq<char>)
    ensures
        parsed_declaration(text) is Some <==> parsed_head(text) is Some && parsed_types(text) is Some
            && parsed_attributes(text) is Some,
        parsed_declaration(text) matches Some(d) ==> {
            let head = parsed_head(text)->Some_0;
            let types = parsed_types(text)->Some_0;
            &&& d.name == head.name
            &&& d.form == head.form
            &&& d.attributes == parsed_attributes(text)->Some_0
            &&& d.fields.len() <= head.field_names.len() && d.fields.len() <= types.len()
            &&& d.fields.len() == head.field_names.len() || d.fields.len() == types.len()
            &&& forall|i: int|
                0 <= i < d.fields.len() ==> (#[trigger] d.fields[i]).name == head.field_names[i]
                    && d.fields[i].ty == types[i]
        },
{
}

/// A letter of English or an underscore.
pub open spec fn is_letter(c: char) -> bool {
    'a' <= c <= 'z' || 'A' <= c <= 'Z' || c == '_'
}

/// A blank, a line end, a bracket, or what stands between the parts of a declaration.
pub open spec fn is_mark(c: char) -> bool {
    c == ' ' || c == '\n' || c == '(' || c == ')' || c == '[' || c == ']' || c == '{' || c == '}'
        || c == '<' || c == '>' || c == ',' || c == ':' || c == ';'
}

/// A text of words, marks and attributes is plain if no letter follows a digit: names
/// such as `u32`, and numbers such as `16`.
pub proof fn lemma_plain_texts(text: Seq<char>)
    requires
        forall|i: int|
            0 <= i < text.len() ==> {
                ||| is_letter(#[trigger] text[i]) && (i > 0 ==> !('0' <= text[i - 1] <= '9'))
                ||| '0' <= text[i] <= '9'
                ||| is_mark(text[i])
                ||| text[i] == '#' && i + 1 < text.len() && text[i + 1] == '[' && (i > 0 ==> is_mark(
                    text[i - 1],
                ))
            },
    ensures
        plain(text),
{
    let marks = seq![' ', '\n', '(', ')', '[', ']', '{', '}', '<', '>', ',', ':', ';'];
    assert forall|i: int| 0 <= i < text.len() implies #[trigger] plain_at(text, i) by {
        let c = text[i];
        if is_letter(c) {
            lemma_no_number(text, i);
        } else if is_mark(c) {
            assert(marks[0] == ' ' && marks[1] == '\n' && marks[2] == '(' && marks[3] == ')'
                && marks[4] == '[' && marks[5] == ']' && marks[6] == '{' && marks[7] == '}'
                && marks[8] == '<' && marks[9] == '>' && marks[10] == ',' && marks[11] == ':'
                && marks[12] == ';');
            assert(marks.contains(c));
        }
    }
}

/// A text with a quote, an operator, a slash, or a letter of another language is not
/// plain.
pub proof fn lemma_other_texts(text: Seq<char>, i: int)
    requires
        0 <= i < text.len(),
        !is_letter(text[i]) && !('0' <= text[i] <= '9') && !is_mark(text[i]) && text[i] != '#',
    ensures
        !plain(text),
{
    assert(!plain_at(text, i));
}

/// Nor is a text with a number that letters follow, such as `1u8`, or with the sign of an
/// attribute that no attribute follows.
pub proof fn lemma_suffixed_texts(text: Seq<char>, i: int)
    requires
        0 <= i < text.len() - 1,
        ('0' <= text[i] <= '9' && is_letter(text[i + 1]) && (i > 0 ==> !is_letter(text[i - 1]) && !(
        '0' <= text[i - 1] <= '9'))) || (text[i] == '#' && text[i + 1] != '['),
    ensures
        !plain(text),
{
    if text[i] == '#' {
        assert(!plain_at(text, i));
    } else {
        reveal_with_fuel(in_number, 2);
        assert(in_number(text, i));
        assert(in_number(text, i + 1));
        assert(!plain_at(text, i + 1));
    }
}

proof fn lemma_no_number(text: Seq<char>, i: int)
    requires
        0 <= i < text.len(),
        is_letter(text[i]),
        forall|j: int|
            0 < j < text.len() && is_letter(#[trigger] text[j]) ==> !('0' <= text[j - 1] <= '9'),
    ensures
        !in_number(text, i),
    decreases i,
{
    if i > 0 && is_letter(text[i - 1]) {
        lemma_no_number(text, i - 1);
    }
}

} // verus!
