//! What a declaration says of its key is what the shape of the type says of
//! it: the key holder that is declared takes over the fields that the key
//! holder of the shape is made of, in their order, and the rule by which the
//! declaration tells whether the key varies in length is the rule of the
//! shape. The laws of the key hash are stated of the shape; these say that
//! the declaration names the same key.
use crate::dds_derive::{
    gathered_field, gathered_upto, primitive_path, sequence_path, some_varies, varies_in_length, Field, Gathered,
    Type,
};
use crate::key::{any_varies, key_parts, scheme_of, KeyScheme};
use crate::dds_derive::lemma_varying_key_field;
use crate::key_laws::theorem_key_is_of_the_key_members;
use crate::value::{MemberView, ShapeView, ValueView};
use vstd::prelude::*;

verus! {

/// Whether `shape` is a shape that a type as it is written can have: a text
/// for `String`, a sequence for a vector, a number for another primitive,
/// an array of what its element is written as for an array. A type that is
/// written otherwise is declared elsewhere, and has the shape that it was
/// declared with.
pub open spec fn written_as(ty: Type, shape: ShapeView) -> bool
    decreases ty,
{
    match ty {
        Type::Path(path) => if path.names("String"@) {
            shape is Text
        } else if sequence_path(path) {
            shape is List
        } else if primitive_path(path) {
            shape is Scalar
        } else {
            true
        },
        Type::Array(element) => match shape {
            ShapeView::Array(of, _) => written_as(*element, *of),
            _ => false,
        },
        Type::Other => true,
    }
}

/// Of each key field among the first `n` that is a structure declared
/// elsewhere, in order, what the key holder of that structure answers:
/// whether it varies in length.
pub open spec fn nested_answers(fields: Seq<Field>, members: Seq<MemberView>, n: nat) -> Seq<bool>
    decreases n,
{
    if n == 0 || n > fields.len() || n > members.len() {
        Seq::empty()
    } else {
        let front = nested_answers(fields, members, (n - 1) as nat);
        match (gathered_field(fields[n - 1]), members[n - 1].shape.key_part()) {
            (Ok((_, Some(_), _)), Some(part)) => if fields[n - 1].key() {
                front.push(part.varies())
            } else {
                front
            },
            _ => front,
        }
    }
}

/// A key field that the key holder takes over as it is varies in length as
/// written exactly where its shape does.
pub proof fn lemma_written_type_varies(field: Field, shape: ShapeView)
    requires
        written_as(field.ty, shape),
        gathered_field(field) is Ok,
        gathered_field(field)->Ok_0.1 is None,
    ensures
        gathered_field(field)->Ok_0.2 == shape.varies(),
        shape.key_part() is Some ==> shape.key_part() == Some(shape),
{
    match field.ty {
        Type::Path(path) => {},
        Type::Array(element) => {
            let of = *shape->Array_0;
            assert(*element is Path);
            assert(written_as(*element, of));
            assert(varies_in_length(field.ty) == varies_in_length(*element));
            assert(shape.varies() == of.varies());
        },
        Type::Other => {},
    }
}

/// One more answer varies where it does or one before it did.
pub proof fn lemma_some_varies_push(answers: Seq<bool>, answer: bool)
    ensures
        some_varies(answers.push(answer)) == (some_varies(answers) || answer),
{
    let longer = answers.push(answer);
    if some_varies(answers) {
        let i = choose|i: int| 0 <= i < answers.len() && answers[i];
        assert(longer[i]);
    }
    if answer {
        assert(longer[answers.len() as int]);
    }
    if some_varies(longer) {
        let i = choose|i: int| 0 <= i < longer.len() && longer[i];
        if i < answers.len() {
            assert(answers[i]);
        }
    }
}

/// Whether one of the first members varies depends on those members alone.
pub proof fn lemma_any_varies_of_front(a: Seq<MemberView>, b: Seq<MemberView>, n: nat)
    requires
        n <= a.len(),
        n <= b.len(),
        forall|j: int| 0 <= j < n ==> a[j] == b[j],
    ensures
        any_varies(a, n) == any_varies(b, n),
    decreases n,
{
    if n > 0 {
        lemma_any_varies_of_front(a, b, (n - 1) as nat);
    }
}

/// The law below, of the first `n` fields.
proof fn lemma_declared_key_varies(fields: Seq<Field>, members: Seq<MemberView>, n: nat)
    requires
        n <= fields.len(),
        fields.len() == members.len(),
        forall|i: int|
            0 <= i < fields.len() ==> members[i].key == (#[trigger] fields[i]).key() && written_as(
                fields[i].ty,
                members[i].shape,
            ),
        gathered_upto(fields, n) is Ok,
        key_parts(members, n) is Some,
    ensures
        nested_answers(fields, members, n).len() == gathered_upto(fields, n)->Ok_0.contained_types.len(),
        (gathered_upto(fields, n)->Ok_0.variable_length || some_varies(nested_answers(fields, members, n))) == any_varies(
            key_parts(members, n)->Some_0,
            key_parts(members, n)->Some_0.len(),
        ),
    decreases n,
{
    if n == 0 {
        assert(!some_varies(nested_answers(fields, members, 0)));
    } else {
        let k = (n - 1) as nat;
        lemma_declared_key_varies(fields, members, k);
        let field = fields[k as int];
        let shape = members[k as int].shape;
        assert(members[k as int].key == field.key() && written_as(field.ty, shape));
        if field.key() {
            let front = key_parts(members, k)->Some_0;
            let parts = key_parts(members, n)->Some_0;
            let part = shape.key_part()->Some_0;
            assert(parts == front.push(MemberView { key: true, shape: part }));
            lemma_any_varies_of_front(parts, front, front.len());
            assert(any_varies(parts, parts.len()) == (any_varies(front, front.len()) || part.varies()));
            let answers = nested_answers(fields, members, k);
            match gathered_field(field)->Ok_0.1 {
                None => {
                    lemma_written_type_varies(field, shape);
                    assert(nested_answers(fields, members, n) == answers);
                },
                Some(_) => {
                    assert(nested_answers(fields, members, n) == answers.push(part.varies()));
                    lemma_some_varies_push(answers, part.varies());
                },
            }
        }
    }
}

/// The rule of a declaration is the rule of the shape. Take a structure as
/// it is declared and as the shape that it has: each field with the member
/// that it is, a key in both or in neither, the member of a shape that the
/// field's type can have as it is written. Where the structure has a key
/// holder by both, the declaration says that the key varies in length, by
/// its own key fields or by the answers of the structures among them,
/// exactly where the key holder of the shape varies: where the scheme of the
/// type is the reduced one for that reason.
pub proof fn theorem_declared_key_varies(fields: Seq<Field>, members: Seq<MemberView>)
    requires
        fields.len() == members.len(),
        forall|i: int|
            0 <= i < fields.len() ==> members[i].key == (#[trigger] fields[i]).key() && written_as(
                fields[i].ty,
                members[i].shape,
            ),
        gathered_upto(fields, fields.len()) is Ok,
        ShapeView::Struct(members).key_holder() is Some,
    ensures
        nested_answers(fields, members, fields.len()).len() == gathered_upto(
            fields,
            fields.len(),
        )->Ok_0.contained_types.len(),
        (gathered_upto(fields, fields.len())->Ok_0.variable_length || some_varies(
            nested_answers(fields, members, fields.len()),
        )) == ShapeView::Struct(members).key_holder()->Some_0.varies(),
        gathered_upto(fields, fields.len())->Ok_0.variable_length || some_varies(
            nested_answers(fields, members, fields.len()),
        ) ==> scheme_of(ShapeView::Struct(members).key_holder()->Some_0) == KeyScheme::Reduced,
{
    lemma_declared_key_varies(fields, members, fields.len());
}

/// A key that varies in one part varies. Where a key field of a structure
/// varies in length as it is written, or the key of a structure among its
/// key fields does, the key of the structure varies: wherever that field
/// stands, whatever the other fields are, and whatever a value holds.
pub proof fn theorem_key_varies_by_any_part(fields: Seq<Field>, contained: Seq<bool>, i: int)
    requires
        gathered_upto(fields, fields.len()) is Ok,
        (0 <= i < fields.len() && fields[i].key() && varies_in_length(fields[i].ty)) || (0 <= i < contained.len()
            && contained[i]),
    ensures
        gathered_upto(fields, fields.len())->Ok_0.variable_length || some_varies(contained),
{
    if 0 <= i < fields.len() && fields[i].key() && varies_in_length(fields[i].ty) {
        lemma_varying_key_field(fields, i, fields.len());
    }
}

/// The places of the key fields among the first `n` fields, in order.
pub open spec fn key_places(fields: Seq<Field>, n: nat) -> Seq<int>
    decreases n,
{
    if n == 0 || n > fields.len() {
        Seq::empty()
    } else {
        let front = key_places(fields, (n - 1) as nat);
        if fields[n - 1].key() {
            front.push(n - 1)
        } else {
            front
        }
    }
}

/// Whether the declared key holder `holder` and the members `parts` of the
/// key holder of the shape are made of the fields at `places`, one each, in
/// that order: the declared one has the names of those fields, the other
/// what those members are reduced to.
pub open spec fn made_of(
    fields: Seq<Field>,
    members: Seq<MemberView>,
    places: Seq<int>,
    holder: Gathered,
    parts: Seq<MemberView>,
) -> bool {
    &&& holder.fields.len() == places.len()
    &&& parts.len() == places.len()
    &&& forall|j: int|
        0 <= j < places.len() ==> {
            &&& 0 <= #[trigger] places[j] < fields.len()
            &&& fields[places[j]].key()
            &&& fields[places[j]].ident is Some
            &&& holder.fields[j].ident == fields[places[j]].ident->Some_0@
            &&& parts[j].key
            &&& Some(parts[j].shape) == members[places[j]].shape.key_part()
        }
}

/// The law below, of the first `n` fields.
proof fn lemma_declared_key_fields(fields: Seq<Field>, members: Seq<MemberView>, n: nat)
    requires
        n <= fields.len(),
        fields.len() == members.len(),
        forall|i: int| 0 <= i < fields.len() ==> members[i].key == (#[trigger] fields[i]).key(),
        gathered_upto(fields, n) is Ok,
        key_parts(members, n) is Some,
    ensures
        made_of(
            fields,
            members,
            key_places(fields, n),
            gathered_upto(fields, n)->Ok_0,
            key_parts(members, n)->Some_0,
        ),
    decreases n,
{
    if n > 0 {
        let k = (n - 1) as nat;
        lemma_declared_key_fields(fields, members, k);
        assert(members[k as int].key == fields[k as int].key());
        let places = key_places(fields, n);
        let front = key_places(fields, k);
        assert forall|j: int| 0 <= j < places.len() implies 0 <= #[trigger] places[j] < fields.len()
            && fields[places[j]].key() && fields[places[j]].ident is Some && gathered_upto(
            fields,
            n,
        )->Ok_0.fields[j].ident == fields[places[j]].ident->Some_0@ && key_parts(members, n)->Some_0[j].key
            && Some(key_parts(members, n)->Some_0[j].shape) == members[places[j]].shape.key_part() by {
            if j < front.len() {
                assert(places[j] == front[j]);
            }
        }
    }
}

/// The declared key holder is the key holder of the shape, field by field.
/// Take a structure as it is declared and as the shape that it has, each
/// field a key in both or in neither. Where the structure has a key holder
/// by both, the two are made of the same fields in the same order: the key
/// fields of the declaration.
pub proof fn theorem_declared_key_fields(fields: Seq<Field>, members: Seq<MemberView>)
    requires
        fields.len() == members.len(),
        forall|i: int| 0 <= i < fields.len() ==> members[i].key == (#[trigger] fields[i]).key(),
        gathered_upto(fields, fields.len()) is Ok,
        ShapeView::Struct(members).key_holder() is Some,
    ensures
        ShapeView::Struct(members).key_holder()->Some_0 is Struct,
        made_of(
            fields,
            members,
            key_places(fields, fields.len()),
            gathered_upto(fields, fields.len())->Ok_0,
            ShapeView::Struct(members).key_holder()->Some_0->Struct_0,
        ),
{
    lemma_declared_key_fields(fields, members, fields.len());
}

/// Two values of a structure have the same key if and only if they agree on
/// the key of each field that the declaration marks as a key field. What
/// the other fields hold changes nothing.
pub proof fn theorem_declared_key_tells_values_apart(
    fields: Seq<Field>,
    members: Seq<MemberView>,
    a: Seq<ValueView>,
    b: Seq<ValueView>,
)
    requires
        fields.len() == members.len(),
        a.len() == members.len(),
        b.len() == members.len(),
        forall|i: int| 0 <= i < fields.len() ==> members[i].key == (#[trigger] fields[i]).key(),
    ensures
        ValueView::Tuple(a).key_value(ShapeView::Struct(members)) == ValueView::Tuple(b).key_value(
            ShapeView::Struct(members),
        ) <==> forall|i: int|
            0 <= i < fields.len() && (#[trigger] fields[i]).key() ==> a[i].key_of(members[i].shape) == b[i].key_of(
                members[i].shape,
            ),
{
    theorem_key_is_of_the_key_members(members, a, b);
    let by_members = forall|i: int|
        0 <= i < members.len() && (#[trigger] members[i]).key ==> a[i].key_of(members[i].shape) == b[i].key_of(
            members[i].shape,
        );
    let by_fields = forall|i: int|
        0 <= i < fields.len() && (#[trigger] fields[i]).key() ==> a[i].key_of(members[i].shape) == b[i].key_of(
            members[i].shape,
        );
    if by_members {
        assert forall|i: int| 0 <= i < fields.len() && (#[trigger] fields[i]).key() implies a[i].key_of(
            members[i].shape,
        ) == b[i].key_of(members[i].shape) by {
            assert(members[i].key);
        }
    }
    if by_fields {
        assert forall|i: int| 0 <= i < members.len() && (#[trigger] members[i]).key implies a[i].key_of(
            members[i].shape,
        ) == b[i].key_of(members[i].shape) by {
            assert(fields[i].key());
        }
    }
}

} // verus!
