//! Decoding of the wire encoding, from a reader of fragments or from bytes,
//! with or without a bound.
use crate::encode::{be_value, padding, HEADER_SIZE};
use crate::sg_reader::{ReaderState, SGReader};
use crate::value::{
    lemma_member_views, lemma_pow256_values, member_views, pow256, views_of, Member, MemberView, Prim, Shape,
    ShapeView, Value, ValueView,
};
use vstd::prelude::*;
use vstd::utf8::{decode_utf8, encode_utf8, valid_utf8};

verus! {

/// Why a decoding was refused.
#[derive(Debug, PartialEq, Eq, Structural, Clone, Copy)]
pub enum DecodeError {
    /// The value reaches beyond the bound.
    SizeLimit,
    /// The value reaches beyond the bytes at hand.
    UnexpectedEof,
    /// A boolean is neither 0 nor 1.
    InvalidBool,
    /// An enumeration has no variant of that index.
    InvalidVariant,
    /// A text is not UTF-8.
    InvalidUtf8,
    /// The header names no known encapsulation.
    InvalidEncapsulation,
}

#[verifier::external_type_specification]
#[verifier::external_body]
pub struct ExFromUtf8Error(std::string::FromUtf8Error);

/// `String::from_utf8` of std: it succeeds on the byte vectors that are
/// UTF-8 and on no others, and the text it gives has the bytes it was given.
pub assume_specification[ String::from_utf8 ](vec: Vec<u8>) -> (r: Result<String, std::string::FromUtf8Error>)
    ensures
        r is Ok <==> valid_utf8(vec@),
        r is Ok ==> encode_utf8(r->Ok_0@) == vec@,
;

/// The number that `bytes` spell in the byte order at hand.
pub open spec fn uint_of(bytes: Seq<u8>, big: bool) -> nat {
    if big {
        be_value(bytes)
    } else {
        be_value(bytes.reverse())
    }
}

/// The position behind `n` more bytes, where the bound and the input allow
/// them. The bound is asked first.
pub open spec fn consume(input: Seq<u8>, at: nat, n: nat, limit: Option<nat>) -> Result<nat, DecodeError> {
    if n == 0 {
        Ok(at)
    } else if limit is Some && at + n > limit->Some_0 {
        Err(DecodeError::SizeLimit)
    } else if at + n > input.len() {
        Err(DecodeError::UnexpectedEof)
    } else {
        Ok(at + n)
    }
}

/// The fixed-width number of `w` bytes at position `at`, behind its
/// alignment, and the position behind it.
pub open spec fn scalar_at(input: Seq<u8>, at: nat, w: nat, limit: Option<nat>, big: bool) -> Result<
    (nat, nat),
    DecodeError,
> {
    match consume(input, at, padding(at, w), limit) {
        Err(e) => Err(e),
        Ok(start) => match consume(input, start, w, limit) {
            Err(e) => Err(e),
            Ok(end) => Ok((uint_of(input.subrange(start as int, end as int), big), end)),
        },
    }
}

impl ShapeView {
    /// The value of this shape that `input` holds at position `at`, and the
    /// position behind it. Positions count from the end of the header.
    pub open spec fn decoding(self, input: Seq<u8>, at: nat, limit: Option<nat>, big: bool) -> Result<
        (ValueView, nat),
        DecodeError,
    >
        decreases self, 0nat,
    {
        match self {
            ShapeView::Scalar(kind) => match scalar_at(input, at, kind.width(), limit, big) {
                Err(e) => Err(e),
                Ok((x, end)) => if kind == Prim::Bool && x > 1 {
                    Err(DecodeError::InvalidBool)
                } else {
                    Ok((ValueView::Scalar(kind, x as u64), end))
                },
            },
            ShapeView::Enum(variants) => match scalar_at(input, at, 4, limit, big) {
                Err(e) => Err(e),
                Ok((x, end)) => if x >= variants {
                    Err(DecodeError::InvalidVariant)
                } else {
                    Ok((ValueView::Enum(x as u32), end))
                },
            },
            ShapeView::Text => match scalar_at(input, at, 4, limit, big) {
                Err(e) => Err(e),
                Ok((len, start)) => match consume(input, start, len, limit) {
                    Err(e) => Err(e),
                    Ok(end) => {
                        let body = text_body(input.subrange(start as int, end as int));
                        if valid_utf8(body) {
                            Ok((ValueView::Text(decode_utf8(body)), end))
                        } else {
                            Err(DecodeError::InvalidUtf8)
                        }
                    },
                },
            },
            ShapeView::List(element) => match scalar_at(input, at, 4, limit, big) {
                Err(e) => Err(e),
                Ok((count, start)) => match repeated(*element, input, start, limit, big, count) {
                    Err(e) => Err(e),
                    Ok((items, end)) => Ok((ValueView::List(items), end)),
                },
            },
            ShapeView::Array(element, count) => match repeated(*element, input, at, limit, big, count) {
                Err(e) => Err(e),
                Ok((items, end)) => Ok((ValueView::Tuple(items), end)),
            },
            ShapeView::Struct(members) => match membered(members, input, at, limit, big, members.len()) {
                Err(e) => Err(e),
                Ok((items, end)) => Ok((ValueView::Tuple(items), end)),
            },
        }
    }

    /// The value of this shape that a whole encoding holds: behind the
    /// header, in the byte order that the header names, within `limit` bytes
    /// where a limit is given. Bytes behind the value are not looked at.
    pub open spec fn message_decoding(self, input: Seq<u8>, limit: Option<nat>) -> Result<
        ValueView,
        DecodeError,
    > {
        match byte_order(input, limit) {
            Err(e) => Err(e),
            Ok(big) => match self.decoding(input.skip(HEADER_SIZE as int), 0, behind_header(limit), big) {
                Err(e) => Err(e),
                Ok((value, _)) => Ok(value),
            },
        }
    }
}

impl ShapeView {
    /// The number of bytes of a whole encoding that hold the value: the
    /// header, and the value with the zero bytes in front of its parts.
    pub open spec fn message_length(self, input: Seq<u8>, limit: Option<nat>) -> nat {
        match byte_order(input, limit) {
            Err(_) => 0,
            Ok(big) => match self.decoding(input.skip(HEADER_SIZE as int), 0, behind_header(limit), big) {
                Err(_) => 0,
                Ok((_, end)) => HEADER_SIZE as nat + end,
            },
        }
    }
}

/// A text as it travels, without the byte that ends it.
pub open spec fn text_body(bytes: Seq<u8>) -> Seq<u8> {
    if bytes.len() == 0 {
        bytes
    } else {
        bytes.drop_last()
    }
}

/// The first `n` of a run of values of one shape, and the position behind
/// them.
pub open spec fn repeated(
    element: ShapeView,
    input: Seq<u8>,
    at: nat,
    limit: Option<nat>,
    big: bool,
    n: nat,
) -> Result<(Seq<ValueView>, nat), DecodeError>
    decreases element, n + 1,
{
    if n == 0 {
        Ok((Seq::empty(), at))
    } else {
        match repeated(element, input, at, limit, big, (n - 1) as nat) {
            Err(e) => Err(e),
            Ok((front, mid)) => match element.decoding(input, mid, limit, big) {
                Err(e) => Err(e),
                Ok((value, end)) => Ok((front.push(value), end)),
            },
        }
    }
}

/// The first `n` members of a structure, and the position behind them.
pub open spec fn membered(
    members: Seq<MemberView>,
    input: Seq<u8>,
    at: nat,
    limit: Option<nat>,
    big: bool,
    n: nat,
) -> Result<(Seq<ValueView>, nat), DecodeError>
    decreases members, n + 1,
{
    if n == 0 || n > members.len() {
        Ok((Seq::empty(), at))
    } else {
        match membered(members, input, at, limit, big, (n - 1) as nat) {
            Err(e) => Err(e),
            Ok((front, mid)) => match members[n - 1].shape.decoding(input, mid, limit, big) {
                Err(e) => Err(e),
                Ok((value, end)) => Ok((front.push(value), end)),
            },
        }
    }
}

/// What is left of a bound behind the header.
pub open spec fn behind_header(limit: Option<nat>) -> Option<nat> {
    match limit {
        None => None,
        Some(l) => Some((l - HEADER_SIZE) as nat),
    }
}

/// Whether the header names a big-endian encapsulation. Its four bytes are
/// taken one by one, each against the bound first.
pub open spec fn byte_order(input: Seq<u8>, limit: Option<nat>) -> Result<bool, DecodeError> {
    let have = if limit is Some && limit->Some_0 < input.len() {
        limit->Some_0
    } else {
        input.len()
    };
    if have < HEADER_SIZE {
        if limit is Some && limit->Some_0 <= input.len() {
            Err(DecodeError::SizeLimit)
        } else {
            Err(DecodeError::UnexpectedEof)
        }
    } else if input[1] == 0 || input[1] == 2 {
        Ok(true)
    } else if input[1] == 1 || input[1] == 3 {
        Ok(false)
    } else {
        Err(DecodeError::InvalidEncapsulation)
    }
}

/// Fewer than nine bytes spell a number that a `u64` holds.
pub proof fn lemma_be_value_bound(bytes: Seq<u8>)
    ensures
        be_value(bytes) < pow256(bytes.len()),
    decreases bytes.len(),
{
    if bytes.len() > 0 {
        lemma_be_value_bound(bytes.drop_last());
    }
}

/// An error among the first values of a run is the error of the whole run.
pub proof fn lemma_repeated_fails(
    element: ShapeView,
    input: Seq<u8>,
    at: nat,
    limit: Option<nat>,
    big: bool,
    k: nat,
    n: nat,
)
    requires
        k <= n,
        repeated(element, input, at, limit, big, k) is Err,
    ensures
        repeated(element, input, at, limit, big, n) == Err::<(Seq<ValueView>, nat), DecodeError>(
            repeated(element, input, at, limit, big, k)->Err_0,
        ),
    decreases n,
{
    if k < n {
        lemma_repeated_fails(element, input, at, limit, big, k, (n - 1) as nat);
    }
}

/// An error among the first members of a structure is the error of the whole
/// structure.
pub proof fn lemma_membered_fails(
    members: Seq<MemberView>,
    input: Seq<u8>,
    at: nat,
    limit: Option<nat>,
    big: bool,
    k: nat,
    n: nat,
)
    requires
        k <= n <= members.len(),
        membered(members, input, at, limit, big, k) is Err,
    ensures
        membered(members, input, at, limit, big, n) == Err::<(Seq<ValueView>, nat), DecodeError>(
            membered(members, input, at, limit, big, k)->Err_0,
        ),
    decreases n,
{
    if k < n {
        lemma_membered_fails(members, input, at, limit, big, k, (n - 1) as nat);
    }
}

/// Where a decoding stands in its input.
struct Cursor {
    /// The position, modulo 8.
    phase: usize,
    /// What is left of the bound.
    budget: Option<u64>,
    /// Whether numbers come with the most significant byte first.
    big: bool,
    at: Ghost<nat>,
    limit: Ghost<Option<nat>>,
}

impl Cursor {
    /// The cursor stands at position `at` of `input`, and the reader has the
    /// rest of `input` ahead.
    spec fn agrees(self, reader: ReaderState, input: Seq<u8>) -> bool {
        &&& reader.wf()
        &&& self.at@ <= input.len()
        &&& reader.readable() == input.skip(self.at@ as int)
        &&& self.phase == self.at@ % 8
        &&& match self.budget {
            None => self.limit@ is None,
            Some(left) => self.limit@ == Some((self.at@ + left) as nat),
        }
    }

    /// The cursor has moved from `from` to position `end`, is otherwise the
    /// same, and agrees with the reader.
    spec fn stands(self, from: Cursor, end: nat, reader: ReaderState, input: Seq<u8>) -> bool {
        self.at@ == end && self.limit@ == from.limit@ && self.big == from.big && self.agrees(reader, input)
    }
}

/// Takes the next `n` bytes.
fn take(reader: &mut SGReader, cur: &mut Cursor, n: usize, Ghost(input): Ghost<Seq<u8>>) -> (r: Result<
    Vec<u8>,
    DecodeError,
>)
    requires
        old(cur).agrees(old(reader)@, input),
    ensures
        match consume(input, old(cur).at@, n as nat, old(cur).limit@) {
            Ok(end) => r is Ok && r->Ok_0@ == input.subrange(old(cur).at@ as int, end as int)
                && final(cur).stands(*old(cur), end, final(reader)@, input),
            Err(e) => r == Err::<Vec<u8>, DecodeError>(e),
        },
{
    if n == 0 {
        assert(input.subrange(cur.at@ as int, cur.at@ as int) == Seq::<u8>::empty());
        return Ok(Vec::new());
    }
    let left = match cur.budget {
        None => None,
        Some(left) => {
            if n as u64 > left {
                return Err(DecodeError::SizeLimit);
            }
            Some(left - n as u64)
        },
    };
    let ghost at = cur.at@;
    match reader.read_exactly(n) {
        None => {
            return Err(DecodeError::UnexpectedEof);
        },
        Some(bytes) => {
            cur.budget = left;
            cur.phase = (cur.phase + n % 8) % 8;
            cur.at = Ghost((at + n) as nat);
            proof {
                assert(input.skip(at as int).take(n as int) == input.subrange(at as int, at + n));
                assert(input.skip(at as int).skip(n as int) == input.skip(at + n));
            }
            return Ok(bytes);
        },
    }
}

/// The number that at most eight bytes spell.
fn number(bytes: &Vec<u8>, big: bool) -> (x: u64)
    requires
        bytes@.len() <= 8,
    ensures
        x == uint_of(bytes@, big),
{
    let n = bytes.len();
    let ghost digits = if big {
        bytes@
    } else {
        bytes@.reverse()
    };
    let mut acc: u64 = 0;
    let mut i: usize = 0;
    proof {
        reveal_with_fuel(pow256, 9);
        assert(digits.take(0) == Seq::<u8>::empty());
    }
    while i < n
        invariant
            i <= n,
            n == bytes@.len(),
            n <= 8,
            digits.len() == n,
            digits == if big {
                bytes@
            } else {
                bytes@.reverse()
            },
            acc == be_value(digits.take(i as int)),
            acc < pow256(i as nat),
        decreases n - i,
    {
        let digit = if big {
            bytes[i]
        } else {
            bytes[n - 1 - i]
        };
        proof {
            assert(digit == digits[i as int]);
            assert(digits.take(i + 1).drop_last() == digits.take(i as int));
            assert(digits.take(i + 1).last() == digits[i as int]);
            assert(pow256((i + 1) as nat) == 256 * pow256(i as nat));
            lemma_pow256_grows((i + 1) as nat, 8);
            lemma_pow256_values();
        }
        acc = acc * 256 + digit as u64;
        i += 1;
    }
    assert(digits.take(n as int) == digits);
    acc
}

/// 256^`a` is at most 256^`b` where `a` is at most `b`.
pub proof fn lemma_pow256_grows(a: nat, b: nat)
    requires
        a <= b,
    ensures
        pow256(a) <= pow256(b),
        pow256(a) > 0,
    decreases b,
{
    if a < b {
        lemma_pow256_grows(a, (b - 1) as nat);
    } else if a > 0 {
        lemma_pow256_grows((a - 1) as nat, (a - 1) as nat);
    }
}

/// The position modulo 8 tells the position modulo 1, 2, 4 and 8.
proof fn lemma_phase(at: nat, w: nat)
    requires
        w == 1 || w == 2 || w == 4 || w == 8,
    ensures
        (at % 8) % w == at % w,
{
    if w == 1 {
        vstd::arithmetic::div_mod::lemma_mod_mod(at as int, 1, 8);
    } else if w == 2 {
        vstd::arithmetic::div_mod::lemma_mod_mod(at as int, 2, 4);
    } else if w == 4 {
        vstd::arithmetic::div_mod::lemma_mod_mod(at as int, 4, 2);
    } else {
        vstd::arithmetic::div_mod::lemma_mod_mod(at as int, 8, 1);
    }
}

/// Takes the fixed-width number of `w` bytes behind its alignment.
fn scalar(reader: &mut SGReader, cur: &mut Cursor, w: usize, Ghost(input): Ghost<Seq<u8>>) -> (r: Result<
    u64,
    DecodeError,
>)
    requires
        old(cur).agrees(old(reader)@, input),
        w == 1 || w == 2 || w == 4 || w == 8,
    ensures
        match scalar_at(input, old(cur).at@, w as nat, old(cur).limit@, old(cur).big) {
            Ok((x, end)) => r is Ok && r->Ok_0 == x && x < pow256(w as nat)
                && final(cur).stands(*old(cur), end, final(reader)@, input),
            Err(e) => r == Err::<u64, DecodeError>(e),
        },
{
    let phase = cur.phase % w;
    let pad = if phase == 0 {
        0
    } else {
        w - phase
    };
    proof {
        lemma_phase(cur.at@, w as nat);
    }
    match take(reader, cur, pad, Ghost(input)) {
        Err(e) => {
            return Err(e);
        },
        Ok(_) => {},
    }
    match take(reader, cur, w, Ghost(input)) {
        Err(e) => {
            return Err(e);
        },
        Ok(bytes) => {
            let x = number(&bytes, cur.big);
            proof {
                lemma_be_value_bound(bytes@);
                lemma_be_value_bound(bytes@.reverse());
            }
            return Ok(x);
        },
    }
}

/// Takes a value of shape `shape`.
fn value_of(shape: &Shape, reader: &mut SGReader, cur: &mut Cursor, Ghost(input): Ghost<Seq<u8>>) -> (r:
    Result<Value, DecodeError>)
    requires
        old(cur).agrees(old(reader)@, input),
    ensures
        match shape@.decoding(input, old(cur).at@, old(cur).limit@, old(cur).big) {
            Ok((value, end)) => r is Ok && r->Ok_0@ == value
                && final(cur).stands(*old(cur), end, final(reader)@, input),
            Err(e) => r == Err::<Value, DecodeError>(e),
        },
    decreases shape, 0nat,
{
    let ghost at = cur.at@;
    let ghost limit = cur.limit@;
    let ghost big = cur.big;
    match shape {
        Shape::Scalar(kind) => {
            let x = match scalar(reader, cur, kind.size(), Ghost(input)) {
                Err(e) => {
                    return Err(e);
                },
                Ok(x) => x,
            };
            if matches!(kind, Prim::Bool) && x > 1 {
                return Err(DecodeError::InvalidBool);
            }
            return Ok(Value::Scalar(*kind, x));
        },
        Shape::Enum(variants) => {
            let x = match scalar(reader, cur, 4, Ghost(input)) {
                Err(e) => {
                    return Err(e);
                },
                Ok(x) => x,
            };
            if x >= *variants as u64 {
                return Err(DecodeError::InvalidVariant);
            }
            return Ok(Value::Enum(x as u32));
        },
        Shape::Text => {
            let len = match scalar(reader, cur, 4, Ghost(input)) {
                Err(e) => {
                    return Err(e);
                },
                Ok(x) => x,
            };
            proof {
                lemma_pow256_values();
            }
            let mut bytes = match take(reader, cur, len as usize, Ghost(input)) {
                Err(e) => {
                    return Err(e);
                },
                Ok(bytes) => bytes,
            };
            let ghost raw = bytes@;
            if bytes.len() > 0 {
                bytes.pop();
            }
            assert(bytes@ == text_body(raw));
            match String::from_utf8(bytes) {
                Err(_) => {
                    return Err(DecodeError::InvalidUtf8);
                },
                Ok(text) => {
                    proof {
                        vstd::utf8::encode_utf8_decode_utf8(text@);
                    }
                    return Ok(Value::Text(text));
                },
            }
        },
        Shape::List(element) => {
            let count = match scalar(reader, cur, 4, Ghost(input)) {
                Err(e) => {
                    return Err(e);
                },
                Ok(x) => x,
            };
            proof {
                lemma_pow256_values();
            }
            match values_of(element, reader, cur, count as usize, Ghost(input)) {
                Err(e) => {
                    return Err(e);
                },
                Ok(items) => {
                    return Ok(Value::List(items));
                },
            }
        },
        Shape::Array(element, count) => {
            match values_of(element, reader, cur, *count, Ghost(input)) {
                Err(e) => {
                    return Err(e);
                },
                Ok(items) => {
                    return Ok(Value::Tuple(items));
                },
            }
        },
        Shape::Struct(members) => {
            proof {
                lemma_member_views(members@);
            }
            match members_of(members, reader, cur, Ghost(input)) {
                Err(e) => {
                    return Err(e);
                },
                Ok(items) => {
                    return Ok(Value::Tuple(items));
                },
            }
        },
    }
}

/// Takes `n` values of shape `element`, one after the other.
fn values_of(
    element: &Shape,
    reader: &mut SGReader,
    cur: &mut Cursor,
    n: usize,
    Ghost(input): Ghost<Seq<u8>>,
) -> (r: Result<Vec<Value>, DecodeError>)
    requires
        old(cur).agrees(old(reader)@, input),
    ensures
        match repeated(element@, input, old(cur).at@, old(cur).limit@, old(cur).big, n as nat) {
            Ok((items, end)) => r is Ok && views_of(r->Ok_0@) == items
                && final(cur).stands(*old(cur), end, final(reader)@, input),
            Err(e) => r == Err::<Vec<Value>, DecodeError>(e),
        },
    decreases element, 1nat,
{
    let ghost at = cur.at@;
    let ghost limit = cur.limit@;
    let ghost big = cur.big;
    let mut out: Vec<Value> = Vec::new();
    let mut i: usize = 0;
    while i < n
        invariant
            i <= n,
            out@.len() == i,
            cur.stands(*old(cur), cur.at@, reader@, input),
            at == old(cur).at@,
            limit == old(cur).limit@,
            big == old(cur).big,
            repeated(element@, input, at, limit, big, i as nat) == Ok::<(Seq<ValueView>, nat), DecodeError>(
                (views_of(out@), cur.at@),
            ),
        decreases n - i,
    {
        let ghost before = out@;
        match value_of(element, reader, cur, Ghost(input)) {
            Err(e) => {
                proof {
                    assert(repeated(element@, input, at, limit, big, (i + 1) as nat) is Err);
                    lemma_repeated_fails(element@, input, at, limit, big, (i + 1) as nat, n as nat);
                }
                return Err(e);
            },
            Ok(value) => {
                out.push(value);
                proof {
                    assert(out@.drop_last() == before);
                    assert(views_of(out@) == views_of(before).push(value@));
                }
            },
        }
        i += 1;
    }
    return Ok(out);
}

/// Takes the members of a structure, one after the other.
fn members_of(members: &Vec<Member>, reader: &mut SGReader, cur: &mut Cursor, Ghost(input): Ghost<Seq<u8>>) -> (r:
    Result<Vec<Value>, DecodeError>)
    requires
        old(cur).agrees(old(reader)@, input),
    ensures
        match membered(
            member_views(members@),
            input,
            old(cur).at@,
            old(cur).limit@,
            old(cur).big,
            members@.len(),
        ) {
            Ok((items, end)) => r is Ok && views_of(r->Ok_0@) == items
                && final(cur).stands(*old(cur), end, final(reader)@, input),
            Err(e) => r == Err::<Vec<Value>, DecodeError>(e),
        },
    decreases members, 1nat,
{
    let ghost at = cur.at@;
    let ghost limit = cur.limit@;
    let ghost big = cur.big;
    let ghost shapes = member_views(members@);
    proof {
        lemma_member_views(members@);
    }
    let n = members.len();
    let mut out: Vec<Value> = Vec::new();
    let mut i: usize = 0;
    while i < n
        invariant
            i <= n,
            n == members@.len(),
            out@.len() == i,
            shapes == member_views(members@),
            shapes.len() == n,
            forall|j: int| 0 <= j < n ==> (#[trigger] shapes[j]) == members@[j]@,
            cur.stands(*old(cur), cur.at@, reader@, input),
            at == old(cur).at@,
            limit == old(cur).limit@,
            big == old(cur).big,
            membered(shapes, input, at, limit, big, i as nat) == Ok::<(Seq<ValueView>, nat), DecodeError>(
                (views_of(out@), cur.at@),
            ),
        decreases n - i,
    {
        let ghost before = out@;
        proof {
            assert(shapes[i as int].shape == members@[i as int].shape@);
        }
        match value_of(&members[i].shape, reader, cur, Ghost(input)) {
            Err(e) => {
                proof {
                    assert(membered(shapes, input, at, limit, big, (i + 1) as nat) is Err);
                    lemma_membered_fails(shapes, input, at, limit, big, (i + 1) as nat, n as nat);
                }
                return Err(e);
            },
            Ok(value) => {
                out.push(value);
                proof {
                    assert(out@.drop_last() == before);
                    assert(views_of(out@) == views_of(before).push(value@));
                }
            },
        }
        i += 1;
    }
    return Ok(out);
}

/// The bound of a decoding as a number of bytes.
pub open spec fn bound_of(bound: Option<u64>) -> Option<nat> {
    match bound {
        None => None,
        Some(b) => Some(b as nat),
    }
}

/// Decodes a value of shape `shape` from what `reader` has ahead: behind the
/// four bytes of the header, in the byte order that the header names. With
/// a bound, no byte behind the first `bound` bytes is taken. Bytes behind
/// the value stay unread.
pub fn decode(shape: &Shape, reader: &mut SGReader, bound: Option<u64>) -> (r: Result<Value, DecodeError>)
    ensures
        match shape@.message_decoding(old(reader)@.readable(), bound_of(bound)) {
            Ok(value) => r is Ok && r->Ok_0@ == value,
            Err(e) => r == Err::<Value, DecodeError>(e),
        },
        r is Ok ==> final(reader)@.readable() == old(reader)@.readable().skip(
            shape@.message_length(old(reader)@.readable(), bound_of(bound)) as int,
        ),
{
    let ghost all = reader@.readable();
    let mut head = Cursor { phase: 0, budget: bound, big: true, at: Ghost(0), limit: Ghost(bound_of(bound)) };
    reader.state_is_wf();
    proof {
        assert(all.skip(0) == all);
    }
    let mut id: u8 = 0;
    let mut i: usize = 0;
    while i < HEADER_SIZE
        invariant
            i <= HEADER_SIZE,
            head.agrees(reader@, all),
            head.at@ == i,
            head.limit@ == bound_of(bound),
            i >= 2 ==> id == all[1],
            all == old(reader)@.readable(),
        decreases HEADER_SIZE - i,
    {
        match take(reader, &mut head, 1, Ghost(all)) {
            Err(e) => {
                return Err(e);
            },
            Ok(byte) => {
                if i == 1 {
                    id = byte[0];
                }
            },
        }
        i += 1;
    }
    let big = if id == 0 || id == 2 {
        true
    } else if id == 1 || id == 3 {
        false
    } else {
        return Err(DecodeError::InvalidEncapsulation);
    };
    let ghost payload = all.skip(HEADER_SIZE as int);
    let mut cur = Cursor {
        phase: 0,
        budget: head.budget,
        big,
        at: Ghost(0),
        limit: Ghost(behind_header(bound_of(bound))),
    };
    proof {
        assert(payload.skip(0) == payload);
    }
    match value_of(shape, reader, &mut cur, Ghost(payload)) {
        Err(e) => {
            return Err(e);
        },
        Ok(value) => {
            proof {
                assert(payload.skip(cur.at@ as int) == all.skip(HEADER_SIZE + cur.at@));
            }
            return Ok(value);
        },
    }
}

/// Decodes a value of shape `shape` from the front of `bytes`, without a
/// bound.
pub fn decode_bytes(shape: &Shape, bytes: &[u8]) -> (r: Result<Value, DecodeError>)
    ensures
        match shape@.message_decoding(bytes@, None) {
            Ok(value) => r is Ok && r->Ok_0@ == value,
            Err(e) => r == Err::<Value, DecodeError>(e),
        },
{
    let list: [&[u8]; 1] = [bytes];
    let mut reader = SGReader::new(list.as_slice());
    proof {
        let frags = crate::sg_reader::fragment_views(list@);
        assert(frags.len() == 1 && frags[0] == bytes@);
        reveal_with_fuel(crate::sg_reader::flatten_until_gap, 2);
        assert(bytes@.skip(0) == bytes@);
        assert(reader@.readable() == bytes@);
    }
    decode(shape, &mut reader, None)
}

} // verus!
