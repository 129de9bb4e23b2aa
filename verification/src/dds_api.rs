//! Sets of statuses of the transport.
use vstd::prelude::*;

verus! {

/// The ids of the statuses of the transport, each the number of a bit of a
/// status mask.
pub const DDS_INCONSISTENT_TOPIC_STATUS_ID: u32 = 0;

pub const DDS_OFFERED_DEADLINE_MISSED_STATUS_ID: u32 = 1;

pub const DDS_REQUESTED_DEADLINE_MISSED_STATUS_ID: u32 = 2;

pub const DDS_OFFERED_INCOMPATIBLE_QOS_STATUS_ID: u32 = 3;

pub const DDS_REQUESTED_INCOMPATIBLE_QOS_STATUS_ID: u32 = 4;

pub const DDS_SAMPLE_LOST_STATUS_ID: u32 = 5;

pub const DDS_SAMPLE_REJECTED_STATUS_ID: u32 = 6;

pub const DDS_DATA_ON_READERS_STATUS_ID: u32 = 7;

pub const DDS_DATA_AVAILABLE_STATUS_ID: u32 = 8;

pub const DDS_LIVELINESS_LOST_STATUS_ID: u32 = 9;

pub const DDS_LIVELINESS_CHANGED_STATUS_ID: u32 = 10;

pub const DDS_PUBLICATION_MATCHED_STATUS_ID: u32 = 11;

pub const DDS_SUBSCRIPTION_MATCHED_STATUS_ID: u32 = 12;

/// Whether bit `bit` of `mask` is one.
pub open spec fn bit_is_set(mask: u32, bit: u32) -> bool {
    (mask & (1u32 << bit)) != 0
}

/// `BitField::set_bit` of the crate bit_field, on a `u32` and with the value
/// `true`: the result is the input with bit `bit` switched on. The crate
/// panics on an index of 32 or more, which `requires` leaves out.
#[verifier::external_body]
fn set_bit(mask: u32, bit: u32) -> (r: u32)
    requires
        bit < 32,
    ensures
        r == mask | (1u32 << bit),
{
    let mut word = mask;
    bit_field::BitField::set_bit(&mut word, bit as usize, true);
    word
}

/// `BitField::get_bit` of the crate bit_field, on a `u32`: whether bit `bit`
/// is one. The crate panics on an index of 32 or more, which `requires`
/// leaves out.
#[verifier::external_body]
fn get_bit(mask: u32, bit: u32) -> (r: bool)
    requires
        bit < 32,
    ensures
        r == bit_is_set(mask, bit),
{
    bit_field::BitField::get_bit(&mask, bit as usize)
}

/// A set of status ids, one bit each.
pub struct DdsStatus(pub u32);

impl DdsStatus {
    /// Whether status `id` belongs to the set.
    pub open spec fn contains(self, id: u32) -> bool {
        bit_is_set(self.0, id)
    }

    /// Adds status `id` to the set and leaves every other status as it was.
    pub fn set(self, id: u32) -> (r: Self)
        requires
            id < 32,
        ensures
            r.0 == self.0 | (1u32 << id),
            forall|other: u32| other < 32 ==> (#[trigger] r.contains(other) <==> (other == id || self.contains(other))),
    {
        let mask: u32 = self.0;
        let word = set_bit(mask, id);
        assert forall|other: u32| other < 32 implies (#[trigger] bit_is_set(word, other) <==> (other == id
            || bit_is_set(mask, other))) by {
            assert(other < 32 && id < 32 && word == mask | (1u32 << id) ==> (((word & (1u32 << other)) != 0)
                <==> (other == id || (mask & (1u32 << other)) != 0))) by (bit_vector);
        }
        DdsStatus(word)
    }

    /// Whether status `id` belongs to the set.
    pub fn is_set(&self, id: u32) -> (r: bool)
        requires
            id < 32,
        ensures
            r == self.contains(id),
    {
        get_bit(self.0, id)
    }
}

impl Default for DdsStatus {
    fn default() -> (r: Self)
        ensures
            r.0 == 0,
            forall|id: u32| id < 32 ==> !#[trigger] r.contains(id),
    {
        assert forall|id: u32| id < 32 implies !#[trigger] bit_is_set(0u32, id) by {
            assert(id < 32 ==> (0u32 & (1u32 << id)) == 0) by (bit_vector);
        }
        DdsStatus(0)
    }
}

impl From<DdsStatus> for u32 {
    fn from(status: DdsStatus) -> (r: u32) {
        status.0
    }
}

impl vstd::std_specs::convert::FromSpecImpl<DdsStatus> for u32 {
    open spec fn obeys_from_spec() -> bool {
        true
    }

    open spec fn from_spec(status: DdsStatus) -> u32 {
        status.0
    }
}

} // verus!
