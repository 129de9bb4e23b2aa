//! The wire encoding: big-endian, each fixed-width part aligned to its
//! width, behind a header of four bytes.
use crate::value::{lemma_views_of, pow256, views_of, Value, ValueView};
use vstd::prelude::*;
use vstd::utf8::encode_utf8;

verus! {

/// The number of bytes in front of every encoded value: the encapsulation
/// header.
pub const HEADER_SIZE: usize = 4;

/// The number of zero bytes that bring position `pos` to a multiple of `w`.
pub open spec fn padding(pos: nat, w: nat) -> nat {
    if w == 0 || pos % w == 0 {
        0
    } else {
        (w - pos % w) as nat
    }
}

/// `n` zero bytes.
pub open spec fn zeros(n: nat) -> Seq<u8> {
    Seq::new(n, |i: int| 0u8)
}

/// The `w` low bytes of `x`, the most significant first.
pub open spec fn be_bytes(x: nat, w: nat) -> Seq<u8>
    decreases w,
{
    if w == 0 {
        Seq::empty()
    } else {
        be_bytes(x / 256, (w - 1) as nat).push((x % 256) as u8)
    }
}

/// The number that `bytes` spell, the most significant byte first.
pub open spec fn be_value(bytes: Seq<u8>) -> nat
    decreases bytes.len(),
{
    if bytes.len() == 0 {
        0
    } else {
        be_value(bytes.drop_last()) * 256 + bytes.last() as nat
    }
}

/// The `w` low bytes of a number are `w` bytes.
pub proof fn lemma_be_bytes_len(x: nat, w: nat)
    ensures
        be_bytes(x, w).len() == w,
    decreases w,
{
    if w > 0 {
        lemma_be_bytes_len(x / 256, (w - 1) as nat);
    }
}

/// Reading back the `w` bytes of a number below 256^`w` gives the number.
pub proof fn lemma_be_round_trip(x: nat, w: nat)
    requires
        x < pow256(w),
    ensures
        be_value(be_bytes(x, w)) == x,
    decreases w,
{
    if w > 0 {
        let front = be_bytes(x / 256, (w - 1) as nat);
        lemma_be_round_trip(x / 256, (w - 1) as nat);
        assert(be_bytes(x, w).drop_last() == front);
        assert(be_bytes(x, w).last() == (x % 256) as u8);
    }
}

/// What a fixed-width value of `w` bytes adds to a stream that stands at
/// position `pos`: zero bytes up to the next multiple of `w`, then the value,
/// the most significant byte first.
pub open spec fn scalar_encoding(pos: nat, w: nat, bits: nat) -> Seq<u8> {
    zeros(padding(pos, w)) + be_bytes(bits, w)
}

/// A fixed-width value takes its width and the zero bytes in front of it.
pub proof fn lemma_scalar_encoding_len(pos: nat, w: nat, bits: nat)
    ensures
        scalar_encoding(pos, w, bits).len() == padding(pos, w) + w,
{
    lemma_be_bytes_len(bits, w);
}

impl ValueView {
    /// What the value adds to a stream that stands at position `pos`, counted
    /// from the end of the header.
    pub open spec fn encoding(self, pos: nat) -> Seq<u8>
        decreases self,
    {
        match self {
            ValueView::Scalar(kind, bits) => scalar_encoding(pos, kind.width(), bits as nat),
            ValueView::Enum(index) => scalar_encoding(pos, 4, index as nat),
            ValueView::Text(chars) => scalar_encoding(pos, 4, encode_utf8(chars).len() + 1) + encode_utf8(
                chars,
            ) + seq![0u8],
            ValueView::List(items) => {
                let head = scalar_encoding(pos, 4, items.len());
                head + encoding_of_all(items, pos + head.len())
            },
            ValueView::Tuple(items) => encoding_of_all(items, pos),
        }
    }

    /// Whether every length in the value fits the 32 bits that the encoding
    /// gives a length.
    pub open spec fn encodable(self) -> bool
        decreases self, 0nat,
    {
        match self {
            ValueView::Text(chars) => encode_utf8(chars).len() + 1 <= u32::MAX,
            ValueView::List(items) => items.len() <= u32::MAX && each_encodable(items, items.len()),
            ValueView::Tuple(items) => each_encodable(items, items.len()),
            _ => true,
        }
    }

    /// The whole encoding of the value: the header of the big-endian
    /// encapsulation, then the value from position 0.
    pub open spec fn message(self) -> Seq<u8> {
        seq![0u8, 0u8, 0u8, 0u8] + self.encoding(0)
    }
}

/// Whether each of the first `n` items is encodable.
pub open spec fn each_encodable(items: Seq<ValueView>, n: nat) -> bool
    decreases items, n + 1,
{
    if n == 0 || n > items.len() {
        true
    } else {
        each_encodable(items, (n - 1) as nat) && items[n - 1].encodable()
    }
}

/// The first `n` items are encodable where each of them is.
pub proof fn lemma_each_encodable(items: Seq<ValueView>, n: nat)
    requires
        n <= items.len(),
    ensures
        each_encodable(items, n) <==> (forall|i: int| 0 <= i < n ==> (#[trigger] items[i]).encodable()),
    decreases n,
{
    if n > 0 {
        lemma_each_encodable(items, (n - 1) as nat);
        if each_encodable(items, n) {
            assert forall|i: int| 0 <= i < n implies (#[trigger] items[i]).encodable() by {
                if i == n - 1 {
                    assert(items[n - 1].encodable());
                }
            }
        }
        if forall|i: int| 0 <= i < n ==> (#[trigger] items[i]).encodable() {
            assert(items[n - 1].encodable());
        }
    }
}

/// What `items` add, one after the other, to a stream that stands at `pos`.
pub open spec fn encoding_of_all(items: Seq<ValueView>, pos: nat) -> Seq<u8>
    decreases items,
{
    if items.len() == 0 {
        Seq::empty()
    } else {
        let front = encoding_of_all(items.drop_last(), pos);
        front + items.last().encoding(pos + front.len())
    }
}

/// One more item adds its own encoding at the position that the items before
/// it have reached.
pub proof fn lemma_encoding_of_all_step(items: Seq<ValueView>, pos: nat, n: int)
    requires
        0 <= n < items.len(),
    ensures
        encoding_of_all(items.take(n + 1), pos) == encoding_of_all(items.take(n), pos) + items[n].encoding(
            pos + encoding_of_all(items.take(n), pos).len(),
        ),
{
    assert(items.take(n + 1).drop_last() == items.take(n));
    assert(items.take(n + 1).last() == items[n]);
}

/// Why an encoding was refused.
#[derive(Debug, PartialEq, Eq, Structural, Clone, Copy)]
pub enum EncodeError {
    /// A text or a sequence is longer than a 32-bit length can say.
    NumberOutOfRange,
    /// The encoding is longer than the bound allows.
    SizeLimit,
}

/// Appends the `w` low bytes of `bits`, the most significant first, behind
/// the zero bytes that align them.
fn push_scalar(out: &mut Vec<u8>, w: usize, bits: u64)
    requires
        w == 1 || w == 2 || w == 4 || w == 8,
        old(out)@.len() >= HEADER_SIZE,
    ensures
        final(out)@ == old(out)@ + scalar_encoding((old(out)@.len() - HEADER_SIZE) as nat, w as nat, bits as nat),
{
    let ghost pos = (out@.len() - HEADER_SIZE) as nat;
    let ghost before = out@;
    let phase = (out.len() - HEADER_SIZE) % w;
    let pad = if phase == 0 {
        0
    } else {
        w - phase
    };
    let mut i: usize = 0;
    while i < pad
        invariant
            i <= pad,
            out@ == before + zeros(i as nat),
        decreases pad - i,
    {
        out.push(0u8);
        assert(out@ == before + zeros((i + 1) as nat));
        i += 1;
    }
    let ghost padded = out@;
    let b0 = (bits % 256) as u8;
    let r1 = bits / 256;
    let b1 = (r1 % 256) as u8;
    let r2 = r1 / 256;
    let b2 = (r2 % 256) as u8;
    let r3 = r2 / 256;
    let b3 = (r3 % 256) as u8;
    let r4 = r3 / 256;
    let b4 = (r4 % 256) as u8;
    let r5 = r4 / 256;
    let b5 = (r5 % 256) as u8;
    let r6 = r5 / 256;
    let b6 = (r6 % 256) as u8;
    let r7 = r6 / 256;
    let b7 = (r7 % 256) as u8;
    proof {
        reveal_with_fuel(be_bytes, 9);
    }
    if w == 8 {
        out.push(b7);
        out.push(b6);
        out.push(b5);
        out.push(b4);
    }
    if w >= 4 {
        out.push(b3);
        out.push(b2);
    }
    if w >= 2 {
        out.push(b1);
    }
    out.push(b0);
    assert(out@ == padded + be_bytes(bits as nat, w as nat));
    assert(out@ == before + (zeros(pad as nat) + be_bytes(bits as nat, w as nat)));
}

/// Appends the encoding of `value` to `out`, whose first four bytes are the
/// header.
fn append(value: &Value, out: &mut Vec<u8>) -> (r: Result<(), EncodeError>)
    requires
        old(out)@.len() >= HEADER_SIZE,
    ensures
        value@.encodable() ==> r is Ok && final(out)@ == old(out)@ + value@.encoding(
            (old(out)@.len() - HEADER_SIZE) as nat
        ),
        !value@.encodable() ==> r == Err::<(), EncodeError>(EncodeError::NumberOutOfRange),
    decreases value,
{
    let ghost pos = (out@.len() - HEADER_SIZE) as nat;
    let ghost before = out@;
    match value {
        Value::Scalar(kind, bits) => {
            push_scalar(out, kind.size(), *bits);
            assert(value@.encoding(pos) == scalar_encoding(pos, kind.width(), *bits as nat));
            return Ok(());
        },
        Value::Enum(index) => {
            push_scalar(out, 4, *index as u64);
            assert(value@.encoding(pos) == scalar_encoding(pos, 4, *index as nat));
            return Ok(());
        },
        Value::Text(text) => {
            let bytes = text.as_str().as_bytes();
            if bytes.len() >= 0xFFFF_FFFF {
                return Err(EncodeError::NumberOutOfRange);
            }
            push_scalar(out, 4, (bytes.len() + 1) as u64);
            out.extend_from_slice(bytes);
            out.push(0u8);
            assert(out@ == before + (scalar_encoding(pos, 4, (bytes@.len() + 1) as nat) + bytes@ + seq![0u8]));
            return Ok(());
        },
        Value::List(items) => {
            proof {
                lemma_views_of(items@);
                lemma_all_encodable(items@);
            }
            if items.len() > 0xFFFF_FFFF {
                return Err(EncodeError::NumberOutOfRange);
            }
            push_scalar(out, 4, items.len() as u64);
            let ghost head = scalar_encoding(pos, 4, items@.len());
            let r = append_all(items, out);
            if r.is_ok() {
                assert(out@ == before + (head + encoding_of_all(views_of(items@), pos + head.len())));
            }
            return r;
        },
        Value::Tuple(items) => {
            proof {
                lemma_views_of(items@);
                lemma_all_encodable(items@);
            }
            let r = append_all(items, out);
            return r;
        },
    }
}

/// Whether each of `items` is encodable.
pub open spec fn all_encodable(items: Seq<Value>) -> bool {
    forall|i: int| 0 <= i < items.len() ==> (#[trigger] items[i])@.encodable()
}

/// Values are encodable where their views are.
proof fn lemma_all_encodable(items: Seq<Value>)
    ensures
        all_encodable(items) <==> each_encodable(views_of(items), items.len()),
{
    lemma_views_of(items);
    let views = views_of(items);
    lemma_each_encodable(views, items.len());
    if all_encodable(items) {
        assert forall|i: int| 0 <= i < views.len() implies (#[trigger] views[i]).encodable() by {
            assert(items[i]@.encodable());
        }
    }
    if forall|i: int| 0 <= i < views.len() ==> (#[trigger] views[i]).encodable() {
        assert forall|i: int| 0 <= i < items.len() implies (#[trigger] items[i])@.encodable() by {
            assert(views[i].encodable());
        }
    }
}

/// Appends the encodings of `items`, one after the other.
fn append_all(items: &Vec<Value>, out: &mut Vec<u8>) -> (r: Result<(), EncodeError>)
    requires
        old(out)@.len() >= HEADER_SIZE,
    ensures
        all_encodable(items@) ==> r is Ok && final(out)@ == old(out)@ + encoding_of_all(
            views_of(items@),
            (old(out)@.len() - HEADER_SIZE) as nat,
        ),
        !all_encodable(items@) ==> r == Err::<(), EncodeError>(EncodeError::NumberOutOfRange),
    decreases items,
{
    let ghost pos = (out@.len() - HEADER_SIZE) as nat;
    let ghost before = out@;
    let ghost views = views_of(items@);
    proof {
        lemma_views_of(items@);
        assert(views.take(0) == Seq::<ValueView>::empty());
    }
    let mut i: usize = 0;
    while i < items.len()
        invariant
            i <= items@.len(),
            views == views_of(items@),
            views.len() == items@.len(),
            forall|j: int| 0 <= j < items@.len() ==> (#[trigger] views[j]) == items@[j]@,
            forall|j: int| 0 <= j < i ==> (#[trigger] items@[j])@.encodable(),
            out@.len() >= HEADER_SIZE,
            before.len() >= HEADER_SIZE,
            pos == (before.len() - HEADER_SIZE) as nat,
            out@ == before + encoding_of_all(views.take(i as int), pos),
        decreases items@.len() - i,
    {
        let ghost sofar = out@;
        match append(&items[i], out) {
            Ok(()) => {},
            Err(e) => {
                assert(!items@[i as int]@.encodable());
                return Err(e);
            },
        }
        proof {
            lemma_encoding_of_all_step(views, pos, i as int);
            assert(views[i as int] == items@[i as int]@);
            assert(out@ == before + (encoding_of_all(views.take(i as int), pos) + views[i as int].encoding(
                pos + encoding_of_all(views.take(i as int), pos).len(),
            )));
        }
        i += 1;
    }
    assert(views.take(items@.len() as int) == views);
    Ok(())
}

/// Encodes a value: the header of the big-endian encapsulation, then the
/// value.
pub fn encode(value: &Value) -> (r: Result<Vec<u8>, EncodeError>)
    ensures
        value@.encodable() ==> r is Ok && r->Ok_0@ == value@.message(),
        !value@.encodable() ==> r == Err::<Vec<u8>, EncodeError>(EncodeError::NumberOutOfRange),
{
    let mut out: Vec<u8> = Vec::new();
    out.push(0u8);
    out.push(0u8);
    out.push(0u8);
    out.push(0u8);
    assert(out@ == seq![0u8, 0u8, 0u8, 0u8]);
    match append(value, &mut out) {
        Ok(()) => Ok(out),
        Err(e) => Err(e),
    }
}

/// Whether every length in `value` fits a 32-bit length field.
pub fn is_encodable(value: &Value) -> (r: bool)
    ensures
        r == value@.encodable(),
    decreases value,
{
    match value {
        Value::Scalar(_, _) => true,
        Value::Enum(_) => true,
        Value::Text(text) => text.as_str().as_bytes().len() < 0xFFFF_FFFF,
        Value::List(items) => {
            proof {
                lemma_all_encodable(items@);
                lemma_views_of(items@);
            }
            items.len() <= 0xFFFF_FFFF && are_encodable(items)
        },
        Value::Tuple(items) => {
            proof {
                lemma_all_encodable(items@);
                lemma_views_of(items@);
            }
            are_encodable(items)
        },
    }
}

/// Whether each of `items` is encodable.
fn are_encodable(items: &Vec<Value>) -> (r: bool)
    ensures
        r == all_encodable(items@),
    decreases items,
{
    let mut i: usize = 0;
    while i < items.len()
        invariant
            i <= items@.len(),
            forall|j: int| 0 <= j < i ==> (#[trigger] items@[j])@.encodable(),
        decreases items@.len() - i,
    {
        if !is_encodable(&items[i]) {
            return false;
        }
        i += 1;
    }
    true
}

/// The position behind a fixed-width value of `w` bytes that is written at
/// position `pos`, if a `u64` can hold it.
fn end_of_scalar(pos: u64, w: u64) -> (r: Option<u64>)
    requires
        w == 1 || w == 2 || w == 4 || w == 8,
    ensures
        pos + padding(pos as nat, w as nat) + w <= u64::MAX ==> r == Some(
            (pos + padding(pos as nat, w as nat) + w) as u64,
        ),
        pos + padding(pos as nat, w as nat) + w > u64::MAX ==> r is None,
{
    let phase = pos % w;
    let pad = if phase == 0 {
        0
    } else {
        w - phase
    };
    match pos.checked_add(pad) {
        None => None,
        Some(aligned) => aligned.checked_add(w),
    }
}

/// The position behind `value` when it is written at position `pos`, if a
/// `u64` can hold it.
fn end_of(value: &Value, pos: u64) -> (r: Option<u64>)
    requires
        value@.encodable(),
    ensures
        pos + value@.encoding(pos as nat).len() <= u64::MAX ==> r == Some(
            (pos + value@.encoding(pos as nat).len()) as u64,
        ),
        pos + value@.encoding(pos as nat).len() > u64::MAX ==> r is None,
    decreases value,
{
    match value {
        Value::Scalar(kind, bits) => {
            proof {
                lemma_scalar_encoding_len(pos as nat, kind.width(), *bits as nat);
                assert(value@.encoding(pos as nat) == scalar_encoding(pos as nat, kind.width(), *bits as nat));
            }
            end_of_scalar(pos, kind.size() as u64)
        },
        Value::Enum(index) => {
            proof {
                lemma_scalar_encoding_len(pos as nat, 4, *index as nat);
                assert(value@.encoding(pos as nat) == scalar_encoding(pos as nat, 4, *index as nat));
            }
            end_of_scalar(pos, 4)
        },
        Value::Text(text) => {
            let bytes = text.as_str().as_bytes();
            proof {
                lemma_scalar_encoding_len(pos as nat, 4, (bytes@.len() + 1) as nat);
                assert(value@.encoding(pos as nat) == scalar_encoding(pos as nat, 4, (bytes@.len() + 1) as nat)
                    + bytes@ + seq![0u8]);
            }
            match end_of_scalar(pos, 4) {
                None => None,
                Some(start) => start.checked_add(bytes.len() as u64 + 1),
            }
        },
        Value::List(items) => {
            proof {
                lemma_scalar_encoding_len(pos as nat, 4, items@.len());
                lemma_all_encodable(items@);
                lemma_views_of(items@);
                let head = scalar_encoding(pos as nat, 4, items@.len());
                assert(value@.encoding(pos as nat) == head + encoding_of_all(
                    views_of(items@),
                    pos as nat + head.len(),
                ));
            }
            match end_of_scalar(pos, 4) {
                None => None,
                Some(start) => end_of_all(items, start),
            }
        },
        Value::Tuple(items) => {
            proof {
                lemma_all_encodable(items@);
                lemma_views_of(items@);
                assert(value@.encoding(pos as nat) == encoding_of_all(views_of(items@), pos as nat));
            }
            end_of_all(items, pos)
        },
    }
}

/// The position behind `items` when they are written from position `pos`
/// on, if a `u64` can hold it.
fn end_of_all(items: &Vec<Value>, pos: u64) -> (r: Option<u64>)
    requires
        all_encodable(items@),
    ensures
        pos + encoding_of_all(views_of(items@), pos as nat).len() <= u64::MAX ==> r == Some(
            (pos + encoding_of_all(views_of(items@), pos as nat).len()) as u64,
        ),
        pos + encoding_of_all(views_of(items@), pos as nat).len() > u64::MAX ==> r is None,
    decreases items,
{
    let ghost views = views_of(items@);
    proof {
        lemma_views_of(items@);
        assert(views.take(0) == Seq::<ValueView>::empty());
    }
    let mut at: u64 = pos;
    let mut i: usize = 0;
    while i < items.len()
        invariant
            i <= items@.len(),
            all_encodable(items@),
            views == views_of(items@),
            views.len() == items@.len(),
            forall|j: int| 0 <= j < items@.len() ==> (#[trigger] views[j]) == items@[j]@,
            at == pos + encoding_of_all(views.take(i as int), pos as nat).len(),
        decreases items@.len() - i,
    {
        proof {
            lemma_encoding_of_all_step(views, pos as nat, i as int);
            lemma_encoding_of_all_grows(views, pos as nat, i as int + 1);
            assert(views[i as int] == items@[i as int]@);
        }
        match end_of(&items[i], at) {
            None => {
                return None;
            },
            Some(next) => {
                at = next;
            },
        }
        i += 1;
    }
    assert(views.take(items@.len() as int) == views);
    Some(at)
}

/// A prefix of the items is no longer than all of them.
pub proof fn lemma_encoding_of_all_grows(items: Seq<ValueView>, pos: nat, n: int)
    requires
        0 <= n <= items.len(),
    ensures
        encoding_of_all(items.take(n), pos).len() <= encoding_of_all(items, pos).len(),
    decreases items.len() - n,
{
    if n == items.len() {
        assert(items.take(n) == items);
    } else {
        lemma_encoding_of_all_step(items, pos, n);
        lemma_encoding_of_all_grows(items, pos, n + 1);
    }
}

/// The number of bytes of the whole encoding of `value`, header included.
/// It is the length of what `encode` gives for the same value.
pub fn serialized_size(value: &Value) -> (r: Result<u64, EncodeError>)
    ensures
        !value@.encodable() ==> r == Err::<u64, EncodeError>(EncodeError::NumberOutOfRange),
        value@.encodable() && value@.message().len() <= u64::MAX ==> r == Ok::<u64, EncodeError>(
            value@.message().len() as u64,
        ),
        value@.encodable() && value@.message().len() > u64::MAX ==> r == Err::<u64, EncodeError>(
            EncodeError::SizeLimit,
        ),
{
    if !is_encodable(value) {
        return Err(EncodeError::NumberOutOfRange);
    }
    match end_of(value, 0) {
        None => Err(EncodeError::SizeLimit),
        Some(end) => match end.checked_add(HEADER_SIZE as u64) {
            None => Err(EncodeError::SizeLimit),
            Some(total) => Ok(total),
        },
    }
}

/// Encodes a value whose whole encoding may take `size` bytes at most.
pub fn encode_into(value: &Value, size: u64) -> (r: Result<Vec<u8>, EncodeError>)
    ensures
        !value@.encodable() ==> r == Err::<Vec<u8>, EncodeError>(EncodeError::NumberOutOfRange),
        value@.encodable() && value@.message().len() <= size ==> r is Ok && r->Ok_0@ == value@.message(),
        value@.encodable() && value@.message().len() > size ==> r == Err::<Vec<u8>, EncodeError>(
            EncodeError::SizeLimit,
        ),
{
    match serialized_size(value) {
        Err(e) => Err(e),
        Ok(total) => if total > size {
            Err(EncodeError::SizeLimit)
        } else {
            encode(value)
        },
    }
}

} // verus!
