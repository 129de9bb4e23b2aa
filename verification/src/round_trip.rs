//! Decoding gives back what was encoded.
use crate::decode::{
    behind_header, byte_order, consume, membered, repeated, scalar_at, text_body, DecodeError,
};
use crate::encode::{
    be_bytes, encoding_of_all, lemma_be_bytes_len, lemma_be_round_trip, lemma_each_encodable,
    lemma_encoding_of_all_step, lemma_scalar_encoding_len, padding, scalar_encoding, HEADER_SIZE,
};
use crate::value::{
    lemma_all_conform, lemma_each_conforms, lemma_pow256_values, pow256, MemberView, ShapeView, ValueView,
};
use vstd::prelude::*;
use vstd::utf8::{encode_utf8, encode_utf8_decode_utf8, encode_utf8_valid_utf8};

verus! {

/// The `n` bytes of `input` from position `at` on.
pub open spec fn window(input: Seq<u8>, at: nat, n: nat) -> Seq<u8> {
    input.subrange(at as int, (at + n) as int)
}

/// A fixed-width number that stands encoded at position `at` is read back
/// from there.
proof fn lemma_scalar_round_trip(input: Seq<u8>, at: nat, w: nat, bits: nat, limit: Option<nat>)
    requires
        w == 1 || w == 2 || w == 4 || w == 8,
        bits < pow256(w),
        at + padding(at, w) + w <= input.len(),
        window(input, at, padding(at, w) + w) == scalar_encoding(at, w, bits),
        limit is Some ==> at + padding(at, w) + w <= limit->Some_0,
    ensures
        scalar_at(input, at, w, limit, true) == Ok::<(nat, nat), DecodeError>(
            (bits, (at + padding(at, w) + w) as nat),
        ),
{
    let pad = padding(at, w);
    let start = (at + pad) as nat;
    let end = (start + w) as nat;
    lemma_be_bytes_len(bits, w);
    assert(consume(input, at, pad, limit) == Ok::<nat, DecodeError>(start));
    assert(consume(input, start, w, limit) == Ok::<nat, DecodeError>(end));
    let whole = input.subrange(at as int, end as int);
    assert(input.subrange(start as int, end as int) == whole.subrange(pad as int, (pad + w) as int));
    assert(whole.subrange(pad as int, (pad + w) as int) == be_bytes(bits, w));
    lemma_be_round_trip(bits, w);
}

/// The encoding of the first items is the front of the encoding of all.
pub proof fn lemma_encoding_of_all_prefix(items: Seq<ValueView>, pos: nat, n: int)
    requires
        0 <= n <= items.len(),
    ensures
        encoding_of_all(items.take(n), pos).len() <= encoding_of_all(items, pos).len(),
        encoding_of_all(items.take(n), pos) == encoding_of_all(items, pos).take(
            encoding_of_all(items.take(n), pos).len() as int,
        ),
    decreases items.len() - n,
{
    let all = encoding_of_all(items, pos);
    let front = encoding_of_all(items.take(n), pos);
    if n == items.len() {
        assert(items.take(n) == items);
        assert(all.take(all.len() as int) == all);
    } else {
        lemma_encoding_of_all_step(items, pos, n);
        lemma_encoding_of_all_prefix(items, pos, n + 1);
        let longer = encoding_of_all(items.take(n + 1), pos);
        assert(front == longer.take(front.len() as int));
        assert(all.take(longer.len() as int).take(front.len() as int) == all.take(front.len() as int));
    }
}

/// A value that stands encoded at position `at` of `input` is read back
/// from there, whatever follows it.
pub proof fn lemma_decoding_of_encoding(
    shape: ShapeView,
    value: ValueView,
    input: Seq<u8>,
    at: nat,
    limit: Option<nat>,
)
    requires
        value.conforms(shape),
        value.encodable(),
        at + value.encoding(at).len() <= input.len(),
        window(input, at, value.encoding(at).len()) == value.encoding(at),
        limit is Some ==> at + value.encoding(at).len() <= limit->Some_0,
    ensures
        shape.decoding(input, at, limit, true) == Ok::<(ValueView, nat), DecodeError>(
            (value, (at + value.encoding(at).len()) as nat),
        ),
    decreases value, 0nat,
{
    let enc = value.encoding(at);
    lemma_pow256_values();
    match (value, shape) {
        (ValueView::Scalar(kind, bits), ShapeView::Scalar(_)) => {
            lemma_scalar_encoding_len(at, kind.width(), bits as nat);
            lemma_scalar_round_trip(input, at, kind.width(), bits as nat, limit);
        },
        (ValueView::Enum(index), ShapeView::Enum(_)) => {
            lemma_scalar_encoding_len(at, 4, index as nat);
            lemma_scalar_round_trip(input, at, 4, index as nat, limit);
        },
        (ValueView::Text(chars), ShapeView::Text) => {
            let body = encode_utf8(chars);
            let len = (body.len() + 1) as nat;
            let head = scalar_encoding(at, 4, len);
            lemma_scalar_encoding_len(at, 4, len);
            let start = (at + head.len()) as nat;
            let end = (start + len) as nat;
            assert(enc == head + body + seq![0u8]);
            assert(input.subrange(at as int, start as int) == enc.subrange(0, head.len() as int));
            assert(enc.subrange(0, head.len() as int) == head);
            lemma_scalar_round_trip(input, at, 4, len, limit);
            assert(consume(input, start, len, limit) == Ok::<nat, DecodeError>(end));
            let raw = input.subrange(start as int, end as int);
            assert(raw == enc.subrange(head.len() as int, enc.len() as int));
            assert(raw == body + seq![0u8]);
            assert(text_body(raw) == body);
            encode_utf8_valid_utf8(chars);
            encode_utf8_decode_utf8(chars);
        },
        (ValueView::List(items), ShapeView::List(element)) => {
            let head = scalar_encoding(at, 4, items.len());
            lemma_scalar_encoding_len(at, 4, items.len());
            let start = (at + head.len()) as nat;
            let tail = encoding_of_all(items, start);
            assert(enc == head + tail);
            assert(input.subrange(at as int, start as int) == enc.subrange(0, head.len() as int));
            assert(enc.subrange(0, head.len() as int) == head);
            lemma_scalar_round_trip(input, at, 4, items.len(), limit);
            assert(input.subrange(start as int, (start + tail.len()) as int) == enc.subrange(
                head.len() as int,
                enc.len() as int,
            ));
            assert(enc.subrange(head.len() as int, enc.len() as int) == tail);
            lemma_all_conform(items, *element, items.len());
            lemma_each_encodable(items, items.len());
            lemma_repeated_of_encoding(*element, items, input, start, limit, items.len());
            assert(items.take(items.len() as int) == items);
        },
        (ValueView::Tuple(items), ShapeView::Array(element, count)) => {
            lemma_all_conform(items, *element, items.len());
            lemma_each_encodable(items, items.len());
            lemma_repeated_of_encoding(*element, items, input, at, limit, items.len());
            assert(items.take(items.len() as int) == items);
        },
        (ValueView::Tuple(items), ShapeView::Struct(members)) => {
            lemma_each_conforms(items, members, items.len());
            lemma_each_encodable(items, items.len());
            lemma_membered_of_encoding(members, items, input, at, limit, items.len());
            assert(items.take(items.len() as int) == items);
        },
        _ => {},
    }
}

/// Items of one shape that stand encoded at position `at` of `input` are
/// read back from there, the first `n` as well as all.
proof fn lemma_repeated_of_encoding(
    element: ShapeView,
    items: Seq<ValueView>,
    input: Seq<u8>,
    at: nat,
    limit: Option<nat>,
    n: nat,
)
    requires
        n <= items.len(),
        forall|i: int| 0 <= i < items.len() ==> (#[trigger] items[i]).conforms(element),
        forall|i: int| 0 <= i < items.len() ==> (#[trigger] items[i]).encodable(),
        at + encoding_of_all(items, at).len() <= input.len(),
        window(input, at, encoding_of_all(items, at).len()) == encoding_of_all(items, at),
        limit is Some ==> at + encoding_of_all(items, at).len() <= limit->Some_0,
    ensures
        repeated(element, input, at, limit, true, n) == Ok::<(Seq<ValueView>, nat), DecodeError>(
            (items.take(n as int), (at + encoding_of_all(items.take(n as int), at).len()) as nat),
        ),
    decreases items, n + 1,
{
    if n == 0 {
        assert(items.take(0) == Seq::<ValueView>::empty());
    } else {
        let k = (n - 1) as nat;
        lemma_repeated_of_encoding(element, items, input, at, limit, k);
        lemma_item_stands(items, input, at, k as int);
        let mid = (at + encoding_of_all(items.take(k as int), at).len()) as nat;
        lemma_decoding_of_encoding(element, items[k as int], input, mid, limit);
        assert(items.take(n as int) == items.take(k as int).push(items[k as int]));
    }
}

/// The members of a structure that stand encoded at position `at` of `input`
/// are read back from there, the first `n` as well as all.
proof fn lemma_membered_of_encoding(
    members: Seq<MemberView>,
    items: Seq<ValueView>,
    input: Seq<u8>,
    at: nat,
    limit: Option<nat>,
    n: nat,
)
    requires
        n <= items.len(),
        items.len() == members.len(),
        forall|i: int| 0 <= i < items.len() ==> (#[trigger] items[i]).conforms(members[i].shape),
        forall|i: int| 0 <= i < items.len() ==> (#[trigger] items[i]).encodable(),
        at + encoding_of_all(items, at).len() <= input.len(),
        window(input, at, encoding_of_all(items, at).len()) == encoding_of_all(items, at),
        limit is Some ==> at + encoding_of_all(items, at).len() <= limit->Some_0,
    ensures
        membered(members, input, at, limit, true, n) == Ok::<(Seq<ValueView>, nat), DecodeError>(
            (items.take(n as int), (at + encoding_of_all(items.take(n as int), at).len()) as nat),
        ),
    decreases items, n + 1,
{
    if n == 0 {
        assert(items.take(0) == Seq::<ValueView>::empty());
    } else {
        let k = (n - 1) as nat;
        lemma_membered_of_encoding(members, items, input, at, limit, k);
        lemma_item_stands(items, input, at, k as int);
        let mid = (at + encoding_of_all(items.take(k as int), at).len()) as nat;
        lemma_decoding_of_encoding(members[k as int].shape, items[k as int], input, mid, limit);
        assert(items.take(n as int) == items.take(k as int).push(items[k as int]));
    }
}

/// Where items stand encoded one after the other, item `k` stands encoded
/// behind the items before it.
proof fn lemma_item_stands(items: Seq<ValueView>, input: Seq<u8>, at: nat, k: int)
    requires
        0 <= k < items.len(),
        at + encoding_of_all(items, at).len() <= input.len(),
        window(input, at, encoding_of_all(items, at).len()) == encoding_of_all(items, at),
    ensures
        ({
            let mid = (at + encoding_of_all(items.take(k), at).len()) as nat;
            let one = items[k].encoding(mid);
            &&& mid + one.len() == at + encoding_of_all(items.take(k + 1), at).len()
            &&& mid + one.len() <= at + encoding_of_all(items, at).len()
            &&& window(input, mid, one.len()) == one
        }),
{
    let all = encoding_of_all(items, at);
    let front = encoding_of_all(items.take(k), at);
    let longer = encoding_of_all(items.take(k + 1), at);
    let mid = (at + front.len()) as nat;
    let one = items[k].encoding(mid);
    lemma_encoding_of_all_step(items, at, k);
    lemma_encoding_of_all_prefix(items, at, k + 1);
    assert(longer == front + one);
    assert(window(input, mid, one.len()) == all.subrange(front.len() as int, longer.len() as int));
    assert(all.subrange(front.len() as int, longer.len() as int) == all.take(longer.len() as int).subrange(
        front.len() as int,
        longer.len() as int,
    ));
    assert(longer.subrange(front.len() as int, longer.len() as int) == one);
}

/// Decoding what `encode` gave for a value of a shape gives the value back,
/// whatever bytes follow and under every bound that the encoding fits.
pub proof fn theorem_round_trip(shape: ShapeView, value: ValueView, rest: Seq<u8>, limit: Option<nat>)
    requires
        value.conforms(shape),
        value.encodable(),
        limit is Some ==> value.message().len() <= limit->Some_0,
    ensures
        shape.message_decoding(value.message() + rest, limit) == Ok::<ValueView, DecodeError>(value),
{
    let input = value.message() + rest;
    let payload = input.skip(HEADER_SIZE as int);
    let enc = value.encoding(0);
    assert(input[1] == 0);
    assert(byte_order(input, limit) == Ok::<bool, DecodeError>(true));
    assert(payload == enc + rest);
    assert(payload.subrange(0, enc.len() as int) == enc);
    lemma_decoding_of_encoding(shape, value, payload, 0, behind_header(limit));
}

} // verus!
