//! The key of a type: its key holder, the key of a value, and the scheme of
//! the key hash, which is decided by the type alone.
use crate::encode::{encode, padding, EncodeError};
use crate::value::{
    lemma_member_views, lemma_views_of, member_views, views_of, Member, MemberView, Shape, ShapeView, Value, ValueView,
};
use vstd::prelude::*;

verus! {

/// Why a type has no key holder.
#[derive(Debug, PartialEq, Eq, Structural, Clone, Copy)]
pub enum KeyError {
    /// A key member is an array or a sequence of something else than numbers,
    /// texts and enumerations.
    UnsupportedKey,
}

/// Whether a shape is a number, a text or an enumeration.
pub open spec fn is_leaf(shape: ShapeView) -> bool {
    shape is Scalar || shape is Text || shape is Enum
}

impl ShapeView {
    /// What a key member of this shape is in the key holder: itself, but a
    /// structure is reduced to its own key members.
    pub open spec fn key_part(self) -> Option<ShapeView>
        decreases self, 0nat,
    {
        match self {
            ShapeView::Scalar(_) | ShapeView::Text | ShapeView::Enum(_) => Some(self),
            ShapeView::Array(element, _) => if is_leaf(*element) {
                Some(self)
            } else {
                None
            },
            ShapeView::List(element) => if is_leaf(*element) {
                Some(self)
            } else {
                None
            },
            ShapeView::Struct(members) => match key_parts(members, members.len()) {
                None => None,
                Some(parts) => Some(ShapeView::Struct(parts)),
            },
        }
    }

    /// The key holder of a type: the structure of its key members, each
    /// reduced in turn. A type that is no structure has an empty one.
    pub open spec fn key_holder(self) -> Option<ShapeView> {
        match self {
            ShapeView::Struct(_) => self.key_part(),
            _ => Some(ShapeView::Struct(Seq::empty())),
        }
    }

    /// Whether the length of the encoding can differ between two values of
    /// this shape: it holds a text or a sequence.
    pub open spec fn varies(self) -> bool
        decreases self, 0nat,
    {
        match self {
            ShapeView::Text | ShapeView::List(_) => true,
            ShapeView::Array(element, _) => element.varies(),
            ShapeView::Struct(members) => any_varies(members, members.len()),
            _ => false,
        }
    }

    /// Whether a value of this shape takes room in memory.
    pub open spec fn holds_data(self) -> bool
        decreases self, 0nat,
    {
        match self {
            ShapeView::Scalar(_) | ShapeView::Text | ShapeView::List(_) => true,
            ShapeView::Enum(variants) => variants >= 2,
            ShapeView::Array(element, count) => count > 0 && element.holds_data(),
            ShapeView::Struct(members) => any_holds_data(members, members.len()),
        }
    }

    /// The position behind a value of this shape that is written at position
    /// `pos`, for a shape that does not vary.
    pub open spec fn fixed_end(self, pos: nat) -> nat
        decreases self, 0nat,
    {
        match self {
            ShapeView::Scalar(kind) => pos + padding(pos, kind.width()) + kind.width(),
            ShapeView::Enum(_) => pos + padding(pos, 4) + 4,
            ShapeView::Array(element, count) => repeat_end(*element, pos, count),
            ShapeView::Struct(members) => members_end(members, pos, members.len()),
            _ => pos,
        }
    }
}

/// The key members among the first `n` members, each reduced.
pub open spec fn key_parts(members: Seq<MemberView>, n: nat) -> Option<Seq<MemberView>>
    decreases members, n + 1,
{
    if n == 0 || n > members.len() {
        Some(Seq::empty())
    } else {
        match key_parts(members, (n - 1) as nat) {
            None => None,
            Some(front) => if !members[n - 1].key {
                Some(front)
            } else {
                match members[n - 1].shape.key_part() {
                    None => None,
                    Some(part) => Some(front.push(MemberView { key: true, shape: part })),
                }
            },
        }
    }
}

/// Whether one of the first `n` members varies.
pub open spec fn any_varies(members: Seq<MemberView>, n: nat) -> bool
    decreases members, n + 1,
{
    if n == 0 || n > members.len() {
        false
    } else {
        any_varies(members, (n - 1) as nat) || members[n - 1].shape.varies()
    }
}

/// Whether one of the first `n` members takes room in memory.
pub open spec fn any_holds_data(members: Seq<MemberView>, n: nat) -> bool
    decreases members, n + 1,
{
    if n == 0 || n > members.len() {
        false
    } else {
        any_holds_data(members, (n - 1) as nat) || members[n - 1].shape.holds_data()
    }
}

/// The position behind `n` values of one shape that are written from
/// position `pos` on.
pub open spec fn repeat_end(element: ShapeView, pos: nat, n: nat) -> nat
    decreases element, n + 1,
{
    if n == 0 {
        pos
    } else {
        element.fixed_end(repeat_end(element, pos, (n - 1) as nat))
    }
}

/// The position behind the first `n` members of a structure that is written
/// from position `pos` on.
pub open spec fn members_end(members: Seq<MemberView>, pos: nat, n: nat) -> nat
    decreases members, n + 1,
{
    if n == 0 || n > members.len() {
        pos
    } else {
        members[n - 1].shape.fixed_end(members_end(members, pos, (n - 1) as nat))
    }
}

impl ValueView {
    /// What the key holder keeps of a value of shape `shape`.
    pub open spec fn key_of(self, shape: ShapeView) -> ValueView
        decreases self, 0nat,
    {
        match (self, shape) {
            (ValueView::Tuple(items), ShapeView::Struct(members)) => ValueView::Tuple(
                key_items(items, members, items.len()),
            ),
            _ => self,
        }
    }

    /// The key of a value of the type `shape`: the value of its key holder.
    pub open spec fn key_value(self, shape: ShapeView) -> ValueView {
        match shape {
            ShapeView::Struct(_) => self.key_of(shape),
            _ => ValueView::Tuple(Seq::empty()),
        }
    }
}

/// What the key holder keeps of the first `n` members.
pub open spec fn key_items(items: Seq<ValueView>, members: Seq<MemberView>, n: nat) -> Seq<ValueView>
    decreases items, n + 1,
{
    if n == 0 || n > items.len() || n > members.len() {
        Seq::empty()
    } else {
        let front = key_items(items, members, (n - 1) as nat);
        if members[n - 1].key {
            front.push(items[n - 1].key_of(members[n - 1].shape))
        } else {
            front
        }
    }
}

/// The two ways from a key to its hash.
#[derive(Debug, PartialEq, Eq, Structural, Clone, Copy)]
pub enum KeyScheme {
    /// The key itself, filled up with zero bytes.
    Raw,
    /// The MD5 digest of the key.
    Reduced,
}

/// The scheme of a type with key holder `holder`: the key itself only where
/// its encoding cannot vary in length and takes 16 bytes at most.
pub open spec fn scheme_of(holder: ShapeView) -> KeyScheme {
    if holder.varies() || holder.fixed_end(0) > 16 {
        KeyScheme::Reduced
    } else {
        KeyScheme::Raw
    }
}

/// Whether a shape is a number, a text or an enumeration.
fn leaf(shape: &Shape) -> (r: bool)
    ensures
        r == is_leaf(shape@),
{
    match shape {
        Shape::Scalar(_) | Shape::Text | Shape::Enum(_) => true,
        _ => false,
    }
}

/// What a key member of shape `shape` is in the key holder.
fn key_part_of(shape: &Shape) -> (r: Result<Shape, KeyError>)
    ensures
        match shape@.key_part() {
            Some(part) => r is Ok && r->Ok_0@ == part,
            None => r == Err::<Shape, KeyError>(KeyError::UnsupportedKey),
        },
    decreases shape, 0nat,
{
    match shape {
        Shape::Scalar(_) | Shape::Text | Shape::Enum(_) => Ok(shape.clone()),
        Shape::Array(element, _) => {
            if leaf(element) {
                Ok(shape.clone())
            } else {
                Err(KeyError::UnsupportedKey)
            }
        },
        Shape::List(element) => {
            if leaf(element) {
                Ok(shape.clone())
            } else {
                Err(KeyError::UnsupportedKey)
            }
        },
        Shape::Struct(members) => {
            proof {
                lemma_member_views(members@);
            }
            match key_parts_of(members) {
                Err(e) => Err(e),
                Ok(parts) => Ok(Shape::Struct(parts)),
            }
        },
    }
}

/// The key members of a structure, each reduced.
fn key_parts_of(members: &Vec<Member>) -> (r: Result<Vec<Member>, KeyError>)
    ensures
        match key_parts(member_views(members@), members@.len()) {
            Some(parts) => r is Ok && member_views(r->Ok_0@) == parts,
            None => r == Err::<Vec<Member>, KeyError>(KeyError::UnsupportedKey),
        },
    decreases members, 1nat,
{
    let ghost views = member_views(members@);
    proof {
        lemma_member_views(members@);
    }
    let mut parts: Vec<Member> = Vec::new();
    let mut i: usize = 0;
    while i < members.len()
        invariant
            i <= members@.len(),
            views == member_views(members@),
            views.len() == members@.len(),
            forall|j: int| 0 <= j < members@.len() ==> (#[trigger] views[j]) == members@[j]@,
            key_parts(views, i as nat) == Some(member_views(parts@)),
        decreases members@.len() - i,
    {
        let ghost before = parts@;
        proof {
            assert(views[i as int] == members@[i as int]@);
        }
        if members[i].key {
            match key_part_of(&members[i].shape) {
                Err(e) => {
                    proof {
                        assert(key_parts(views, (i + 1) as nat) is None);
                        lemma_key_parts_fail(views, (i + 1) as nat, members@.len());
                    }
                    return Err(e);
                },
                Ok(part) => {
                    parts.push(Member { key: true, shape: part });
                    proof {
                        assert(parts@.drop_last() == before);
                        assert(member_views(parts@) == member_views(before).push(parts@.last()@));
                    }
                },
            }
        }
        i += 1;
    }
    Ok(parts)
}

/// Where the first members have no key holder, the structure has none.
pub proof fn lemma_key_parts_fail(members: Seq<MemberView>, k: nat, n: nat)
    requires
        k <= n <= members.len(),
        key_parts(members, k) is None,
    ensures
        key_parts(members, n) is None,
    decreases n,
{
    if k < n {
        lemma_key_parts_fail(members, k, (n - 1) as nat);
    }
}

/// Builds the key holder of a type: the structure that keeps its key members
/// and nothing else, a member that is a structure reduced to its own key
/// holder. It is empty where the type has no key member.
pub fn key_holder_of(item: &Shape) -> (r: Result<Shape, KeyError>)
    ensures
        match item@.key_holder() {
            Some(holder) => r is Ok && r->Ok_0@ == holder,
            None => r == Err::<Shape, KeyError>(KeyError::UnsupportedKey),
        },
{
    match item {
        Shape::Struct(_) => key_part_of(item),
        _ => {
            let none: Vec<Member> = Vec::new();
            assert(member_views(none@) == Seq::<MemberView>::empty());
            Ok(Shape::Struct(none))
        },
    }
}

/// Whether the length of the encoding can differ between two values of shape
/// `shape`.
pub fn is_variable_length(shape: &Shape) -> (r: bool)
    ensures
        r == shape@.varies(),
    decreases shape, 0nat,
{
    match shape {
        Shape::Text | Shape::List(_) => true,
        Shape::Array(element, _) => is_variable_length(element),
        Shape::Struct(members) => {
            proof {
                lemma_member_views(members@);
            }
            members_vary(members)
        },
        _ => false,
    }
}

/// Whether one of `members` varies.
fn members_vary(members: &Vec<Member>) -> (r: bool)
    ensures
        r == any_varies(member_views(members@), members@.len()),
    decreases members, 1nat,
{
    let ghost views = member_views(members@);
    proof {
        lemma_member_views(members@);
    }
    let mut i: usize = 0;
    while i < members.len()
        invariant
            i <= members@.len(),
            views == member_views(members@),
            views.len() == members@.len(),
            forall|j: int| 0 <= j < members@.len() ==> (#[trigger] views[j]) == members@[j]@,
            !any_varies(views, i as nat),
        decreases members@.len() - i,
    {
        proof {
            assert(views[i as int] == members@[i as int]@);
        }
        if is_variable_length(&members[i].shape) {
            proof {
                assert(any_varies(views, (i + 1) as nat));
                lemma_any_varies_grows(views, (i + 1) as nat, members@.len());
            }
            return true;
        }
        i += 1;
    }
    false
}

/// A member that varies among the first makes the structure vary.
pub proof fn lemma_any_varies_grows(members: Seq<MemberView>, k: nat, n: nat)
    requires
        k <= n <= members.len(),
        any_varies(members, k),
    ensures
        any_varies(members, n),
    decreases n,
{
    if k < n {
        lemma_any_varies_grows(members, k, (n - 1) as nat);
    }
}

/// Whether a value of shape `shape` takes room in memory.
pub fn holds_data(shape: &Shape) -> (r: bool)
    ensures
        r == shape@.holds_data(),
    decreases shape, 0nat,
{
    match shape {
        Shape::Scalar(_) | Shape::Text | Shape::List(_) => true,
        Shape::Enum(variants) => *variants >= 2,
        Shape::Array(element, count) => *count > 0 && holds_data(element),
        Shape::Struct(members) => {
            proof {
                lemma_member_views(members@);
            }
            members_hold_data(members)
        },
    }
}

/// Whether one of `members` takes room in memory.
fn members_hold_data(members: &Vec<Member>) -> (r: bool)
    ensures
        r == any_holds_data(member_views(members@), members@.len()),
    decreases members, 1nat,
{
    let ghost views = member_views(members@);
    proof {
        lemma_member_views(members@);
    }
    let mut i: usize = 0;
    while i < members.len()
        invariant
            i <= members@.len(),
            views == member_views(members@),
            views.len() == members@.len(),
            forall|j: int| 0 <= j < members@.len() ==> (#[trigger] views[j]) == members@[j]@,
            !any_holds_data(views, i as nat),
        decreases members@.len() - i,
    {
        proof {
            assert(views[i as int] == members@[i as int]@);
        }
        if holds_data(&members[i].shape) {
            proof {
                assert(any_holds_data(views, (i + 1) as nat));
                lemma_any_holds_data_grows(views, (i + 1) as nat, members@.len());
            }
            return true;
        }
        i += 1;
    }
    false
}

/// A member with data among the first gives the structure data.
pub proof fn lemma_any_holds_data_grows(members: Seq<MemberView>, k: nat, n: nat)
    requires
        k <= n <= members.len(),
        any_holds_data(members, k),
    ensures
        any_holds_data(members, n),
    decreases n,
{
    if k < n {
        lemma_any_holds_data_grows(members, k, (n - 1) as nat);
    }
}

/// Whether a type with key holder `holder` has a key: its holder is no
/// empty shell.
pub fn has_key(holder: &Shape) -> (r: bool)
    ensures
        r == holder@.holds_data(),
{
    holds_data(holder)
}

/// What the key holder keeps of `value`, a value of shape `shape`.
fn key_of(value: &Value, shape: &Shape) -> (r: Value)
    ensures
        r@ == value@.key_of(shape@),
    decreases value, 0nat,
{
    match (value, shape) {
        (Value::Tuple(items), Shape::Struct(members)) => {
            proof {
                lemma_views_of(items@);
                lemma_member_views(members@);
            }
            Value::Tuple(key_items_of(items, members))
        },
        _ => value.clone(),
    }
}

/// What the key holder keeps of the members of a structure.
fn key_items_of(items: &Vec<Value>, members: &Vec<Member>) -> (r: Vec<Value>)
    ensures
        views_of(r@) == key_items(views_of(items@), member_views(members@), items@.len()),
    decreases items, 1nat,
{
    let ghost views = views_of(items@);
    let ghost shapes = member_views(members@);
    proof {
        lemma_views_of(items@);
        lemma_member_views(members@);
    }
    let mut out: Vec<Value> = Vec::new();
    if items.len() > members.len() {
        assert(views_of(out@) == Seq::<ValueView>::empty());
        return out;
    }
    let mut i: usize = 0;
    while i < items.len()
        invariant
            i <= items@.len(),
            items@.len() <= members@.len(),
            views == views_of(items@),
            views.len() == items@.len(),
            shapes == member_views(members@),
            shapes.len() == members@.len(),
            forall|j: int| 0 <= j < items@.len() ==> (#[trigger] views[j]) == items@[j]@,
            forall|j: int| 0 <= j < members@.len() ==> (#[trigger] shapes[j]) == members@[j]@,
            views_of(out@) == key_items(views, shapes, i as nat),
        decreases items@.len() - i,
    {
        let ghost before = out@;
        proof {
            assert(shapes[i as int] == members@[i as int]@);
        }
        if members[i].key {
            let part = key_of(&items[i], &members[i].shape);
            out.push(part);
            proof {
                assert(out@.drop_last() == before);
                assert(views_of(out@) == views_of(before).push(part@));
            }
        }
        i += 1;
    }
    out
}

/// The key of `value`, a value of the type `shape`: what the key holder
/// keeps of it.
pub fn key_value(shape: &Shape, value: &Value) -> (r: Value)
    ensures
        r@ == value@.key_value(shape@),
{
    match shape {
        Shape::Struct(_) => key_of(value, shape),
        _ => {
            let none: Vec<Value> = Vec::new();
            assert(views_of(none@) == Seq::<ValueView>::empty());
            Value::Tuple(none)
        },
    }
}

/// The encoding of the key of `value`, a value of the type `shape`: the
/// header, then the key members in order.
pub fn key_cdr(shape: &Shape, value: &Value) -> (r: Result<Vec<u8>, EncodeError>)
    ensures
        value@.key_value(shape@).encodable() ==> r is Ok && r->Ok_0@ == value@.key_value(shape@).message(),
        !value@.key_value(shape@).encodable() ==> r == Err::<Vec<u8>, EncodeError>(
            EncodeError::NumberOutOfRange,
        ),
{
    let key = key_value(shape, value);
    encode(&key)
}

/// A value ends no earlier than it starts.
pub proof fn lemma_fixed_end_grows(shape: ShapeView, pos: nat)
    ensures
        shape.fixed_end(pos) >= pos,
    decreases shape, 0nat,
{
    match shape {
        ShapeView::Array(element, count) => {
            lemma_repeat_end_grows(*element, pos, 0, count);
        },
        ShapeView::Struct(members) => {
            lemma_members_end_grows(members, pos, 0, members.len());
        },
        _ => {},
    }
}

/// More values end no earlier than fewer.
pub proof fn lemma_repeat_end_grows(element: ShapeView, pos: nat, k: nat, n: nat)
    requires
        k <= n,
    ensures
        repeat_end(element, pos, k) <= repeat_end(element, pos, n),
    decreases element, n + 1,
{
    if k < n {
        lemma_repeat_end_grows(element, pos, k, (n - 1) as nat);
        lemma_fixed_end_grows(element, repeat_end(element, pos, (n - 1) as nat));
    }
}

/// More members end no earlier than fewer.
pub proof fn lemma_members_end_grows(members: Seq<MemberView>, pos: nat, k: nat, n: nat)
    requires
        k <= n <= members.len(),
    ensures
        members_end(members, pos, k) <= members_end(members, pos, n),
    decreases members, n + 1,
{
    if k < n {
        lemma_members_end_grows(members, pos, k, (n - 1) as nat);
        lemma_fixed_end_grows(members[n - 1].shape, members_end(members, pos, (n - 1) as nat));
    }
}

/// Where one more value ends where it starts, so do all that follow.
pub proof fn lemma_repeat_end_stalls(element: ShapeView, pos: nat, k: nat, n: nat)
    requires
        k <= n,
        element.fixed_end(repeat_end(element, pos, k)) == repeat_end(element, pos, k),
    ensures
        repeat_end(element, pos, n) == repeat_end(element, pos, k),
    decreases n,
{
    if k < n {
        lemma_repeat_end_stalls(element, pos, k, (n - 1) as nat);
    }
}

/// The position behind a value of shape `shape` that is written at `pos`,
/// where it is `cap` at most.
fn fixed_end_within(shape: &Shape, pos: u64, cap: u64) -> (r: Option<u64>)
    requires
        pos <= cap,
        cap < u64::MAX - 16,
    ensures
        shape@.fixed_end(pos as nat) <= cap ==> r == Some(shape@.fixed_end(pos as nat) as u64),
        shape@.fixed_end(pos as nat) > cap ==> r is None,
    decreases shape, 0nat,
{
    match shape {
        Shape::Scalar(kind) => within(pos, kind.size() as u64, cap),
        Shape::Enum(_) => within(pos, 4, cap),
        Shape::Array(element, count) => repeat_end_within(element, *count, pos, cap),
        Shape::Struct(members) => {
            proof {
                lemma_member_views(members@);
            }
            members_end_within(members, pos, cap)
        },
        _ => Some(pos),
    }
}

/// The position behind a fixed-width value of `w` bytes that is written at
/// `pos`, where it is `cap` at most.
fn within(pos: u64, w: u64, cap: u64) -> (r: Option<u64>)
    requires
        w == 1 || w == 2 || w == 4 || w == 8,
        pos <= cap,
        cap < u64::MAX - 16,
    ensures
        pos + padding(pos as nat, w as nat) + w <= cap ==> r == Some(
            (pos + padding(pos as nat, w as nat) + w) as u64,
        ),
        pos + padding(pos as nat, w as nat) + w > cap ==> r is None,
{
    let phase = pos % w;
    let pad = if phase == 0 {
        0
    } else {
        w - phase
    };
    let end = pos + pad + w;
    if end <= cap {
        Some(end)
    } else {
        None
    }
}

/// The position behind `count` values of one shape that are written from
/// `pos` on, where it is `cap` at most.
fn repeat_end_within(element: &Shape, count: usize, pos: u64, cap: u64) -> (r: Option<u64>)
    requires
        pos <= cap,
        cap < u64::MAX - 16,
    ensures
        repeat_end(element@, pos as nat, count as nat) <= cap ==> r == Some(
            repeat_end(element@, pos as nat, count as nat) as u64,
        ),
        repeat_end(element@, pos as nat, count as nat) > cap ==> r is None,
    decreases element, 1nat,
{
    let mut at: u64 = pos;
    let mut i: usize = 0;
    while i < count
        invariant
            i <= count,
            at <= cap,
            cap < u64::MAX - 16,
            at == repeat_end(element@, pos as nat, i as nat),
        decreases count - i,
    {
        match fixed_end_within(element, at, cap) {
            None => {
                proof {
                    lemma_repeat_end_grows(element@, pos as nat, (i + 1) as nat, count as nat);
                }
                return None;
            },
            Some(next) => {
                if next == at {
                    proof {
                        lemma_repeat_end_stalls(element@, pos as nat, i as nat, count as nat);
                    }
                    return Some(at);
                }
                at = next;
            },
        }
        i += 1;
    }
    Some(at)
}

/// The position behind the members of a structure that is written from
/// `pos` on, where it is `cap` at most.
fn members_end_within(members: &Vec<Member>, pos: u64, cap: u64) -> (r: Option<u64>)
    requires
        pos <= cap,
        cap < u64::MAX - 16,
    ensures
        members_end(member_views(members@), pos as nat, members@.len()) <= cap ==> r == Some(
            members_end(member_views(members@), pos as nat, members@.len()) as u64,
        ),
        members_end(member_views(members@), pos as nat, members@.len()) > cap ==> r is None,
    decreases members, 1nat,
{
    let ghost views = member_views(members@);
    proof {
        lemma_member_views(members@);
    }
    let mut at: u64 = pos;
    let mut i: usize = 0;
    while i < members.len()
        invariant
            i <= members@.len(),
            at <= cap,
            cap < u64::MAX - 16,
            views == member_views(members@),
            views.len() == members@.len(),
            forall|j: int| 0 <= j < members@.len() ==> (#[trigger] views[j]) == members@[j]@,
            at == members_end(views, pos as nat, i as nat),
        decreases members@.len() - i,
    {
        proof {
            assert(views[i as int] == members@[i as int]@);
        }
        match fixed_end_within(&members[i].shape, at, cap) {
            None => {
                proof {
                    lemma_members_end_grows(views, pos as nat, (i + 1) as nat, members@.len());
                }
                return None;
            },
            Some(next) => {
                at = next;
            },
        }
        i += 1;
    }
    Some(at)
}

/// The scheme of a type with key holder `holder`. It depends on the type
/// alone, never on a value: a key that holds a text or a sequence is
/// reduced however short it is, and a key of fixed-width members is taken
/// as it is where they fill 16 bytes at most.
pub fn classify(holder: &Shape) -> (r: KeyScheme)
    ensures
        r == scheme_of(holder@),
        holder@.varies() ==> r == KeyScheme::Reduced,
        !holder@.varies() && holder@.fixed_end(0) <= 16 ==> r == KeyScheme::Raw,
{
    if is_variable_length(holder) {
        KeyScheme::Reduced
    } else {
        match fixed_end_within(holder, 0, 16) {
            Some(_) => KeyScheme::Raw,
            None => KeyScheme::Reduced,
        }
    }
}

/// Whether the key hash of a type with key holder `holder` is a digest: its
/// scheme is `Reduced`, because its key can vary in length or takes more than
/// 16 bytes.
pub fn force_md5_keyhash(holder: &Shape) -> (r: bool)
    ensures
        r == (scheme_of(holder@) == KeyScheme::Reduced),
        holder@.varies() ==> r,
{
    match classify(holder) {
        KeyScheme::Reduced => true,
        KeyScheme::Raw => false,
    }
}

} // verus!
