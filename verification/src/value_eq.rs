//! Equality of values and of shapes.
use crate::value::{lemma_member_views, lemma_views_of, member_views, views_of, Member, Shape, Value};
use vstd::prelude::*;
use vstd::std_specs::cmp::PartialEqSpecImpl;

verus! {

/// Two lists of values have the same views where they have the same length
/// and the same view at each place.
proof fn lemma_views_equal(a: Seq<Value>, b: Seq<Value>)
    ensures
        views_of(a) == views_of(b) <==> (a.len() == b.len() && forall|i: int|
            0 <= i < a.len() ==> (#[trigger] a[i])@ == b[i]@),
{
    lemma_views_of(a);
    lemma_views_of(b);
    if a.len() == b.len() && (forall|i: int| 0 <= i < a.len() ==> (#[trigger] a[i])@ == b[i]@) {
        assert(views_of(a) =~= views_of(b));
    }
    if views_of(a) == views_of(b) {
        assert forall|i: int| 0 <= i < a.len() implies (#[trigger] a[i])@ == b[i]@ by {
            assert(views_of(a)[i] == views_of(b)[i]);
        }
    }
}

/// Whether two values are the same.
fn same_value(a: &Value, b: &Value) -> (r: bool)
    ensures
        r == (a@ == b@),
    decreases a, 0nat,
{
    match (a, b) {
        (Value::Scalar(k1, x1), Value::Scalar(k2, x2)) => {
            return *k1 == *k2 && *x1 == *x2;
        },
        (Value::Text(t1), Value::Text(t2)) => {
            return *t1 == *t2;
        },
        (Value::List(i1), Value::List(i2)) => {
            proof {
                lemma_views_equal(i1@, i2@);
            }
            return same_values(i1, i2);
        },
        (Value::Tuple(i1), Value::Tuple(i2)) => {
            proof {
                lemma_views_equal(i1@, i2@);
            }
            return same_values(i1, i2);
        },
        (Value::Enum(x1), Value::Enum(x2)) => {
            return *x1 == *x2;
        },
        _ => {
            return false;
        },
    }
}

/// Whether two lists of values are the same.
fn same_values(a: &Vec<Value>, b: &Vec<Value>) -> (r: bool)
    ensures
        r == (a@.len() == b@.len() && forall|i: int| 0 <= i < a@.len() ==> (#[trigger] a@[i])@ == b@[i]@),
    decreases a, 1nat,
{
    if a.len() != b.len() {
        return false;
    }
    let mut i: usize = 0;
    while i < a.len()
        invariant
            i <= a@.len(),
            a@.len() == b@.len(),
            forall|j: int| 0 <= j < i ==> (#[trigger] a@[j])@ == b@[j]@,
        decreases a@.len() - i,
    {
        if !same_value(&a[i], &b[i]) {
            return false;
        }
        i += 1;
    }
    true
}

impl PartialEq for Value {
    fn eq(&self, other: &Self) -> (r: bool) {
        same_value(self, other)
    }
}

impl PartialEqSpecImpl for Value {
    open spec fn obeys_eq_spec() -> bool {
        true
    }

    open spec fn eq_spec(&self, other: &Self) -> bool {
        self@ == other@
    }
}

/// Two lists of members have the same views where they have the same
/// length and the same view at each place.
proof fn lemma_member_views_equal(a: Seq<Member>, b: Seq<Member>)
    ensures
        member_views(a) == member_views(b) <==> (a.len() == b.len() && forall|i: int|
            0 <= i < a.len() ==> (#[trigger] a[i])@ == b[i]@),
{
    lemma_member_views(a);
    lemma_member_views(b);
    if a.len() == b.len() && (forall|i: int| 0 <= i < a.len() ==> (#[trigger] a[i])@ == b[i]@) {
        assert(member_views(a) =~= member_views(b));
    }
    if member_views(a) == member_views(b) {
        assert forall|i: int| 0 <= i < a.len() implies (#[trigger] a[i])@ == b[i]@ by {
            assert(member_views(a)[i] == member_views(b)[i]);
        }
    }
}

/// Whether two shapes are the same.
fn same_shape(a: &Shape, b: &Shape) -> (r: bool)
    ensures
        r == (a@ == b@),
    decreases a, 0nat,
{
    match (a, b) {
        (Shape::Scalar(k1), Shape::Scalar(k2)) => {
            return *k1 == *k2;
        },
        (Shape::Text, Shape::Text) => {
            return true;
        },
        (Shape::List(e1), Shape::List(e2)) => {
            return same_shape(e1, e2);
        },
        (Shape::Array(e1, n1), Shape::Array(e2, n2)) => {
            return *n1 == *n2 && same_shape(e1, e2);
        },
        (Shape::Struct(m1), Shape::Struct(m2)) => {
            proof {
                lemma_member_views_equal(m1@, m2@);
            }
            return same_members(m1, m2);
        },
        (Shape::Enum(n1), Shape::Enum(n2)) => {
            return *n1 == *n2;
        },
        _ => {
            return false;
        },
    }
}

/// Whether two lists of members are the same.
fn same_members(a: &Vec<Member>, b: &Vec<Member>) -> (r: bool)
    ensures
        r == (a@.len() == b@.len() && forall|i: int| 0 <= i < a@.len() ==> (#[trigger] a@[i])@ == b@[i]@),
    decreases a, 1nat,
{
    if a.len() != b.len() {
        return false;
    }
    let mut i: usize = 0;
    while i < a.len()
        invariant
            i <= a@.len(),
            a@.len() == b@.len(),
            forall|j: int| 0 <= j < i ==> (#[trigger] a@[j])@ == b@[j]@,
        decreases a@.len() - i,
    {
        if a[i].key != b[i].key || !same_shape(&a[i].shape, &b[i].shape) {
            return false;
        }
        i += 1;
    }
    true
}

impl PartialEq for Shape {
    fn eq(&self, other: &Self) -> (r: bool) {
        same_shape(self, other)
    }
}

impl PartialEqSpecImpl for Shape {
    open spec fn obeys_eq_spec() -> bool {
        true
    }

    open spec fn eq_spec(&self, other: &Self) -> bool {
        self@ == other@
    }
}

} // verus!
