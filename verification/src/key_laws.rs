//! What holds of keys and their hashes for every type and value.

use crate::encode::{
    encoding_of_all, lemma_each_encodable, lemma_encoding_of_all_step, lemma_scalar_encoding_len, HEADER_SIZE,
};
use crate::key::{
    any_varies, key_items, key_parts, lemma_any_varies_grows, members_end, repeat_end, scheme_of, KeyScheme,
};
use crate::key_hash::{body_of, key_token, raw_token, KEY_HASH_SIZE};
use crate::round_trip::lemma_decoding_of_encoding;
use crate::value::{lemma_all_conform, lemma_each_conforms, MemberView, ShapeView, ValueView};
use vstd::prelude::*;

verus! {

/// What the key holder keeps of a value of a shape is a value of the reduced
/// shape.
pub proof fn lemma_key_of_conforms(value: ValueView, shape: ShapeView)
    requires
        value.conforms(shape),
        shape.key_part() is Some,
    ensures
        value.key_of(shape).conforms(shape.key_part()->Some_0),
    decreases value, 0nat,
{
    match (value, shape) {
        (ValueView::Tuple(items), ShapeView::Struct(members)) => {
            lemma_each_conforms(items, members, items.len());
            lemma_key_items_conform(items, members, items.len());
            let kept = key_items(items, members, items.len());
            let parts = key_parts(members, members.len())->Some_0;
            lemma_each_conforms(kept, parts, kept.len());
        },
        _ => {},
    }
}

/// What the key holder keeps of the first `n` members are values of their
/// reduced shapes.
proof fn lemma_key_items_conform(items: Seq<ValueView>, members: Seq<MemberView>, n: nat)
    requires
        n <= items.len(),
        items.len() == members.len(),
        forall|i: int| 0 <= i < items.len() ==> (#[trigger] items[i]).conforms(members[i].shape),
        key_parts(members, n) is Some,
    ensures
        key_items(items, members, n).len() == key_parts(members, n)->Some_0.len(),
        forall|j: int|
            0 <= j < key_items(items, members, n).len() ==> (#[trigger] key_items(items, members, n)[j]).conforms(
                key_parts(members, n)->Some_0[j].shape,
            ),
    decreases items, n + 1,
{
    if n > 0 {
        let k = (n - 1) as nat;
        lemma_key_items_conform(items, members, k);
        if members[k as int].key {
            assert(items[k as int].conforms(members[k as int].shape));
            lemma_key_of_conforms(items[k as int], members[k as int].shape);
        }
    }
}

/// No member of a structure that does not vary varies.
pub proof fn lemma_none_varies(members: Seq<MemberView>, n: nat, i: int)
    requires
        n <= members.len(),
        !any_varies(members, n),
        0 <= i < n,
    ensures
        !members[i].shape.varies(),
    decreases n,
{
    if i < n - 1 {
        lemma_none_varies(members, (n - 1) as nat, i);
    }
}

/// A value of a shape that does not vary is encodable, and its encoding ends
/// where the shape says.
pub proof fn lemma_fixed_length(value: ValueView, shape: ShapeView, pos: nat)
    requires
        value.conforms(shape),
        !shape.varies(),
    ensures
        value.encodable(),
        pos + value.encoding(pos).len() == shape.fixed_end(pos),
    decreases value, 0nat,
{
    match (value, shape) {
        (ValueView::Scalar(kind, bits), ShapeView::Scalar(_)) => {
            lemma_scalar_encoding_len(pos, kind.width(), bits as nat);
        },
        (ValueView::Enum(index), ShapeView::Enum(_)) => {
            lemma_scalar_encoding_len(pos, 4, index as nat);
        },
        (ValueView::Tuple(items), ShapeView::Array(element, count)) => {
            lemma_all_conform(items, *element, items.len());
            lemma_fixed_length_repeat(items, *element, pos, items.len());
            lemma_each_encodable(items, items.len());
            assert(items.take(items.len() as int) == items);
        },
        (ValueView::Tuple(items), ShapeView::Struct(members)) => {
            lemma_each_conforms(items, members, items.len());
            lemma_fixed_length_members(items, members, pos, items.len());
            lemma_each_encodable(items, items.len());
            assert(items.take(items.len() as int) == items);
        },
        _ => {},
    }
}

/// The first `n` values of one shape that does not vary are encodable and
/// end where the shape says.
proof fn lemma_fixed_length_repeat(items: Seq<ValueView>, element: ShapeView, pos: nat, n: nat)
    requires
        n <= items.len(),
        forall|i: int| 0 <= i < items.len() ==> (#[trigger] items[i]).conforms(element),
        !element.varies(),
    ensures
        forall|i: int| 0 <= i < n ==> (#[trigger] items[i]).encodable(),
        pos + encoding_of_all(items.take(n as int), pos).len() == repeat_end(element, pos, n),
    decreases items, n + 1,
{
    if n == 0 {
        assert(items.take(0) == Seq::<ValueView>::empty());
    } else {
        let k = (n - 1) as nat;
        lemma_fixed_length_repeat(items, element, pos, k);
        lemma_encoding_of_all_step(items, pos, k as int);
        let mid = repeat_end(element, pos, k);
        lemma_fixed_length(items[k as int], element, mid);
    }
}

/// The first `n` members of a structure that does not vary are encodable
/// and end where the shapes say.
proof fn lemma_fixed_length_members(items: Seq<ValueView>, members: Seq<MemberView>, pos: nat, n: nat)
    requires
        n <= items.len(),
        items.len() == members.len(),
        forall|i: int| 0 <= i < items.len() ==> (#[trigger] items[i]).conforms(members[i].shape),
        !any_varies(members, members.len()),
    ensures
        forall|i: int| 0 <= i < n ==> (#[trigger] items[i]).encodable(),
        pos + encoding_of_all(items.take(n as int), pos).len() == members_end(members, pos, n),
    decreases items, n + 1,
{
    if n == 0 {
        assert(items.take(0) == Seq::<ValueView>::empty());
    } else {
        let k = (n - 1) as nat;
        lemma_fixed_length_members(items, members, pos, k);
        lemma_encoding_of_all_step(items, pos, k as int);
        let mid = members_end(members, pos, k);
        lemma_none_varies(members, members.len(), k as int);
        assert(items[k as int].conforms(members[k as int].shape));
        lemma_fixed_length(items[k as int], members[k as int].shape, mid);
    }
}

/// Two values of one shape with the same encoding are the same value.
pub proof fn lemma_encoding_tells_apart(shape: ShapeView, a: ValueView, b: ValueView, pos: nat)
    requires
        a.conforms(shape),
        b.conforms(shape),
        a.encodable(),
        b.encodable(),
        a.encoding(pos) == b.encoding(pos),
    ensures
        a == b,
{
    let input = crate::encode::zeros(pos) + a.encoding(pos);
    assert(input.subrange(pos as int, (pos + a.encoding(pos).len()) as int) == a.encoding(pos));
    lemma_decoding_of_encoding(shape, a, input, pos, None);
    lemma_decoding_of_encoding(shape, b, input, pos, None);
}

/// The key of a value of a type with a key holder: what the holder keeps of
/// the value is a value of the holder's shape.
pub proof fn lemma_key_value_conforms(shape: ShapeView, value: ValueView)
    requires
        value.conforms(shape),
        shape.key_holder() is Some,
    ensures
        value.key_value(shape).conforms(shape.key_holder()->Some_0),
{
    match shape {
        ShapeView::Struct(_) => {
            lemma_key_of_conforms(value, shape);
        },
        _ => {
            let none = ValueView::Tuple(Seq::empty());
            let holder = ShapeView::Struct(Seq::empty());
            assert(none.conforms(holder));
        },
    }
}

/// What the key holder keeps of the first members of two values is the
/// same exactly where it is the same of each key member among them.
proof fn lemma_key_items_agree(a: Seq<ValueView>, b: Seq<ValueView>, members: Seq<MemberView>, n: nat)
    requires
        n <= members.len(),
        a.len() == members.len(),
        b.len() == members.len(),
    ensures
        key_items(a, members, n).len() == key_items(b, members, n).len(),
        key_items(a, members, n) == key_items(b, members, n) <==> forall|i: int|
            0 <= i < n && (#[trigger] members[i]).key ==> a[i].key_of(members[i].shape) == b[i].key_of(
                members[i].shape,
            ),
    decreases n,
{
    if n > 0 {
        let k = (n - 1) as nat;
        lemma_key_items_agree(a, b, members, k);
        let fa = key_items(a, members, k);
        let fb = key_items(b, members, k);
        if members[k as int].key {
            let x = a[k as int].key_of(members[k as int].shape);
            let y = b[k as int].key_of(members[k as int].shape);
            if fa.push(x) == fb.push(y) {
                assert(fa.push(x).drop_last() == fa);
                assert(fb.push(y).drop_last() == fb);
                assert(fa.push(x).last() == x);
                assert(fb.push(y).last() == y);
            }
        }
    }
}

/// Two values of a structure have the same key if and only if they agree on
/// the key of each key member, which for a member that is a structure is
/// the key of its own key members in turn. What the other members hold
/// changes nothing.
pub proof fn theorem_key_is_of_the_key_members(members: Seq<MemberView>, a: Seq<ValueView>, b: Seq<ValueView>)
    requires
        a.len() == members.len(),
        b.len() == members.len(),
    ensures
        ValueView::Tuple(a).key_value(ShapeView::Struct(members)) == ValueView::Tuple(b).key_value(
            ShapeView::Struct(members),
        ) <==> forall|i: int|
            0 <= i < members.len() && (#[trigger] members[i]).key ==> a[i].key_of(members[i].shape) == b[i].key_of(
                members[i].shape,
            ),
{
    lemma_key_items_agree(a, b, members, members.len());
}

/// Two values of a type have the same encoded key if and only if they have
/// the same key.
pub proof fn theorem_encoded_key_tells_keys_apart(shape: ShapeView, a: ValueView, b: ValueView)
    requires
        a.conforms(shape),
        b.conforms(shape),
        shape.key_holder() is Some,
        a.key_value(shape).encodable(),
        b.key_value(shape).encodable(),
    ensures
        a.key_value(shape).message() == b.key_value(shape).message() <==> a.key_value(shape) == b.key_value(shape),
{
    let ka = a.key_value(shape);
    let kb = b.key_value(shape);
    if ka.message() == kb.message() {
        lemma_key_value_conforms(shape, a);
        lemma_key_value_conforms(shape, b);
        assert(ka.message().skip(HEADER_SIZE as int) == ka.encoding(0));
        assert(kb.message().skip(HEADER_SIZE as int) == kb.encoding(0));
        lemma_encoding_tells_apart(shape.key_holder()->Some_0, ka, kb, 0);
    }
}

/// Two values with the same key have the same key hash, under either scheme.
pub proof fn theorem_same_key_same_hash(shape: ShapeView, a: ValueView, b: ValueView, scheme: KeyScheme)
    requires
        a.key_value(shape) == b.key_value(shape),
    ensures
        key_token(a.key_value(shape).message(), scheme) == key_token(b.key_value(shape).message(), scheme),
{
}

/// Under the scheme `Raw` two values of a type have the same key hash if and
/// only if they have the same key.
pub proof fn theorem_raw_hash_tells_keys_apart(shape: ShapeView, a: ValueView, b: ValueView)
    requires
        a.conforms(shape),
        b.conforms(shape),
        shape.key_holder() is Some,
        scheme_of(shape.key_holder()->Some_0) == KeyScheme::Raw,
    ensures
        key_token(a.key_value(shape).message(), KeyScheme::Raw) == key_token(
            b.key_value(shape).message(),
            KeyScheme::Raw,
        ) <==> a.key_value(shape) == b.key_value(shape),
{
    let holder = shape.key_holder()->Some_0;
    let ka = a.key_value(shape);
    let kb = b.key_value(shape);
    lemma_key_value_conforms(shape, a);
    lemma_key_value_conforms(shape, b);
    lemma_fixed_length(ka, holder, 0);
    lemma_fixed_length(kb, holder, 0);
    let ea = ka.encoding(0);
    let eb = kb.encoding(0);
    assert(ea.len() == eb.len() && ea.len() <= KEY_HASH_SIZE);
    assert(ka.message().skip(HEADER_SIZE as int) == ea);
    assert(kb.message().skip(HEADER_SIZE as int) == eb);
    if key_token(ka.message(), KeyScheme::Raw) == key_token(kb.message(), KeyScheme::Raw) {
        if ea.len() == 0 {
            assert(ea == eb);
        } else {
            assert(body_of(ka.message()) == ea);
            assert(body_of(kb.message()) == eb);
            assert forall|i: int| 0 <= i < ea.len() implies ea[i] == eb[i] by {
                assert(raw_token(ea)[i] == ea[i]);
                assert(raw_token(eb)[i] == eb[i]);
            }
            assert(ea == eb);
        }
        lemma_encoding_tells_apart(holder, ka, kb, 0);
    }
}

/// The reduced members of a longer list begin with those of a shorter one.
proof fn lemma_key_parts_grow(members: Seq<MemberView>, k: nat, n: nat)
    requires
        k <= n <= members.len(),
        key_parts(members, n) is Some,
    ensures
        key_parts(members, k) is Some,
        key_parts(members, k)->Some_0.len() <= key_parts(members, n)->Some_0.len(),
        forall|j: int|
            0 <= j < key_parts(members, k)->Some_0.len() ==> key_parts(members, k)->Some_0[j] == key_parts(
                members,
                n,
            )->Some_0[j],
    decreases n,
{
    if k < n {
        lemma_key_parts_grow(members, k, (n - 1) as nat);
    }
}

/// A member that varies anywhere in a structure makes it vary.
proof fn lemma_member_varies(parts: Seq<MemberView>, j: int)
    requires
        0 <= j < parts.len(),
        parts[j].shape.varies(),
    ensures
        any_varies(parts, parts.len()),
{
    assert(any_varies(parts, (j + 1) as nat));
    lemma_any_varies_grows(parts, (j + 1) as nat, parts.len());
}

/// A type with a key member that is a text or a sequence, or that holds one,
/// is reduced: whatever a value's length at run time, its key hash is a
/// digest.
pub proof fn theorem_variable_key_is_reduced(shape: ShapeView, i: int)
    requires
        shape is Struct,
        shape.key_holder() is Some,
        0 <= i < shape->Struct_0.len(),
        shape->Struct_0[i].key,
        shape->Struct_0[i].shape.key_part()->Some_0.varies(),
    ensures
        scheme_of(shape.key_holder()->Some_0) == KeyScheme::Reduced,
{
    let members = shape->Struct_0;
    let n = members.len();
    lemma_key_parts_grow(members, (i + 1) as nat, n);
    let upto = key_parts(members, (i + 1) as nat)->Some_0;
    let parts = key_parts(members, n)->Some_0;
    let j = upto.len() - 1;
    assert(upto[j].shape == members[i].shape.key_part()->Some_0);
    assert(parts[j] == upto[j]);
    lemma_member_varies(parts, j);
}

/// A type whose key members are fixed-width and end within sixteen bytes is
/// taken raw.
pub proof fn theorem_short_fixed_key_is_raw(holder: ShapeView)
    requires
        !holder.varies(),
        holder.fixed_end(0) <= 16,
    ensures
        scheme_of(holder) == KeyScheme::Raw,
{
}

} // verus!
