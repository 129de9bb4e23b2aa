//! The slots that the application reads from and writes with, and their
//! arrays.
use crate::value::{Value, ValueView};
use std::sync::Arc;
use vstd::prelude::*;

verus! {

/// A piece of memory that the transport lent, by its handle.
#[derive(Debug, PartialEq, Eq, Structural, Clone, Copy)]
pub struct ChunkId(pub u64);

/// `Arc::clone` of std: one more owner of the same value.
#[verifier::external_body]
pub(crate) fn share<T>(value: &Arc<T>) -> (r: Arc<T>)
    ensures
        r == *value,
{
    Arc::clone(value)
}

/// What a cell holds of its sample.
pub enum SampleData {
    Uninitialized,
    /// Nothing but the key hash.
    SDKKey,
    /// A decoded value, shared with the application.
    SDKData(Arc<Value>),
    /// A value in memory that the transport lent, which the cell does not
    /// own.
    SHMData(ChunkId),
}

/// What a cell holds of its sample.
pub enum SampleDataView {
    Uninitialized,
    SDKKey,
    SDKData(ValueView),
    SHMData(ChunkId),
}

impl View for SampleData {
    type V = SampleDataView;

    open spec fn view(&self) -> SampleDataView {
        match self {
            SampleData::Uninitialized => SampleDataView::Uninitialized,
            SampleData::SDKKey => SampleDataView::SDKKey,
            SampleData::SDKData(value) => SampleDataView::SDKData((**value)@),
            SampleData::SHMData(chunk) => SampleDataView::SHMData(*chunk),
        }
    }
}

impl Default for SampleData {
    fn default() -> (r: Self)
        ensures
            r@ == SampleDataView::Uninitialized,
    {
        SampleData::Uninitialized
    }
}

impl Clone for SampleData {
    fn clone(&self) -> (r: Self)
        ensures
            r@ == self@,
    {
        match self {
            SampleData::Uninitialized => SampleData::Uninitialized,
            SampleData::SDKKey => SampleData::SDKKey,
            SampleData::SDKData(d) => SampleData::SDKData(share(d)),
            SampleData::SHMData(d) => SampleData::SHMData(*d),
        }
    }
}

/// A value that a sample holds for writing: the application's own, or one
/// in memory that the transport lent.
pub enum SampleStorage {
    Owned(Arc<Value>),
    Loaned(ChunkId),
}

/// A value that a sample holds for writing.
pub enum SampleStorageView {
    Owned(ValueView),
    Loaned(ChunkId),
}

impl View for SampleStorage {
    type V = SampleStorageView;

    open spec fn view(&self) -> SampleStorageView {
        match self {
            SampleStorage::Owned(value) => SampleStorageView::Owned((**value)@),
            SampleStorage::Loaned(chunk) => SampleStorageView::Loaned(*chunk),
        }
    }
}

impl Clone for SampleStorage {
    fn clone(&self) -> (r: Self)
        ensures
            r@ == self@,
    {
        match self {
            SampleStorage::Owned(s) => SampleStorage::Owned(share(s)),
            SampleStorage::Loaned(s) => SampleStorage::Loaned(*s),
        }
    }
}

/// One slot of the arrays that the application reads from and writes with.
pub struct Sample {
    // What the cell of an incoming sample holds. The sample shares it with
    // the cell.
    serdata: Option<SampleData>,
    // The value of an outgoing sample.
    sample: Option<SampleStorage>,
}

/// One slot of the arrays that the application reads from and writes with.
pub struct SampleView {
    pub serdata: Option<SampleDataView>,
    pub sample: Option<SampleStorageView>,
}

impl View for Sample {
    type V = SampleView;

    closed spec fn view(&self) -> SampleView {
        SampleView {
            serdata: match self.serdata {
                Some(data) => Some(data@),
                None => None,
            },
            sample: match self.sample {
                Some(storage) => Some(storage@),
                None => None,
            },
        }
    }
}

impl SampleView {
    /// The slot as it is made: it holds nothing.
    pub open spec fn empty() -> SampleView {
        SampleView { serdata: None, sample: None }
    }

    /// The decoded value that the slot refers to, if it refers to one.
    pub open spec fn decoded(self) -> Option<ValueView> {
        match self.serdata {
            Some(SampleDataView::SDKData(value)) => Some(value),
            _ => None,
        }
    }
}

impl Sample {
    /// The decoded value of an incoming sample. A value in lent memory is
    /// not reached this way: see `loaned_chunk`.
    pub fn try_deref(&self) -> (r: Option<&Value>)
        ensures
            match self@.decoded() {
                Some(value) => r is Some && r->Some_0@ == value,
                None => r is None,
            },
    {
        match &self.serdata {
            Some(serdata) => match serdata {
                SampleData::Uninitialized => None,
                SampleData::SDKKey => None,
                SampleData::SDKData(it) => Some(&**it),
                SampleData::SHMData(_) => None,
            },
            None => None,
        }
    }

    /// The lent memory that an incoming sample lies in, if it lies in any.
    pub fn loaned_chunk(&self) -> (r: Option<ChunkId>)
        ensures
            r == match self@.serdata {
                Some(SampleDataView::SHMData(chunk)) => Some(chunk),
                _ => None,
            },
    {
        match &self.serdata {
            Some(SampleData::SHMData(chunk)) => Some(*chunk),
            _ => None,
        }
    }

    /// The value of an outgoing sample, shared with the slot.
    pub fn get_sample(&self) -> (r: Option<SampleStorage>)
        ensures
            match self@.sample {
                Some(storage) => r is Some && r->Some_0@ == storage,
                None => r is None,
            },
    {
        match &self.sample {
            Some(s) => Some(s.clone()),
            None => None,
        }
    }

    /// The value of an outgoing sample where it is the application's own.
    pub fn get(&self) -> (r: Option<Arc<Value>>)
        ensures
            match self@.sample {
                Some(SampleStorageView::Owned(value)) => r is Some && (*r->Some_0)@ == value,
                _ => r is None,
            },
    {
        match &self.sample {
            Some(SampleStorage::Owned(t)) => Some(share(t)),
            Some(SampleStorage::Loaned(_)) => None,
            None => None,
        }
    }

    /// Whether the slot refers to a cell, of which it is then an owner.
    pub fn has_serdata(&self) -> (r: bool)
        ensures
            r == (self@.serdata is Some),
    {
        self.serdata.is_some()
    }

    /// Lets the slot refer to what a cell holds. The owner that the slot
    /// becomes is counted where the cell is at hand.
    pub(crate) fn set_serdata(&mut self, serdata: &SampleData)
        ensures
            final(self)@ == (SampleView { serdata: Some(serdata@), sample: old(self)@.sample }),
    {
        self.serdata = Some(serdata.clone());
    }

    /// Lets the slot refer to no cell any more.
    pub(crate) fn drop_serdata(&mut self)
        ensures
            final(self)@ == (SampleView { serdata: None, sample: old(self)@.sample }),
    {
        self.serdata = None;
    }

    /// Gives the slot a value of the application's own to write.
    pub fn set(&mut self, t: Arc<Value>)
        ensures
            final(self)@ == (SampleView {
                serdata: old(self)@.serdata,
                sample: Some(SampleStorageView::Owned((*t)@)),
            }),
    {
        self.sample = Some(SampleStorage::Owned(t));
    }

    /// Gives the slot a value in lent memory to write.
    pub fn set_loaned(&mut self, t: ChunkId)
        ensures
            final(self)@ == (SampleView {
                serdata: old(self)@.serdata,
                sample: Some(SampleStorageView::Loaned(t)),
            }),
    {
        self.sample = Some(SampleStorage::Loaned(t));
    }

    /// Takes from the slot the value that it holds to write. A cell that
    /// the slot refers to stays referred to, and the slot stays its owner.
    pub fn clear(&mut self)
        ensures
            final(self)@ == (SampleView { serdata: old(self)@.serdata, sample: None }),
    {
        self.sample = None;
    }

    /// A slot that holds `it` to write.
    pub fn from(it: Arc<Value>) -> (r: Self)
        ensures
            r@ == (SampleView { serdata: None, sample: Some(SampleStorageView::Owned((*it)@)) }),
    {
        Sample { serdata: None, sample: Some(SampleStorage::Owned(it)) }
    }
}

impl Default for Sample {
    fn default() -> (r: Self)
        ensures
            r@ == SampleView::empty(),
    {
        Sample { serdata: None, sample: None }
    }
}

/// The bit of a free operation that frees the slots themselves.
pub const DDS_FREE_ALL_BIT: u32 = 0x04;

/// The bit of a free operation that frees what the slots hold.
pub const DDS_FREE_CONTENTS_BIT: u32 = 0x02;

/// The bit of a free operation that frees the key.
pub const DDS_FREE_KEY_BIT: u32 = 0x01;

/// Whether `slot` is a slot as `S::default()` makes it.
pub open spec fn is_fresh<S: Default>(slot: S) -> bool {
    call_ensures(S::default, (), slot)
}

/// Gives an array of slots a new length. The slots that it keeps stay as
/// they are and stay in place, new slots are made by default, and the slots
/// that it no longer has room for are handed back, for the caller to end
/// them.
pub fn realloc_samples<S: Default>(old: Vec<S>, new_count: usize) -> (r: (Vec<S>, Vec<S>))
    ensures
        r.0@.len() == new_count,
        forall|i: int| 0 <= i < new_count && i < old@.len() ==> r.0@[i] == old@[i],
        forall|i: int| old@.len() <= i < new_count ==> is_fresh(#[trigger] r.0@[i]),
        new_count < old@.len() ==> r.1@ == old@.skip(new_count as int),
        new_count >= old@.len() ==> r.1@.len() == 0,
{
    let mut new = old;
    let old_count = new.len();
    if new_count >= old_count {
        let mut i: usize = old_count;
        while i < new_count
            invariant
                old_count <= i <= new_count,
                old_count == old@.len(),
                new@.len() == i,
                forall|j: int| 0 <= j < old_count ==> new@[j] == old@[j],
                forall|j: int| old_count <= j < i ==> is_fresh(#[trigger] new@[j]),
            decreases new_count - i,
        {
            new.push(S::default());
            i += 1;
        }
        (new, Vec::new())
    } else {
        let rest = new.split_off(new_count);
        (new, rest)
    }
}

/// A slot of the library as it is made by default is empty.
pub proof fn lemma_fresh_sample_is_empty(slot: Sample)
    requires
        is_fresh(slot),
    ensures
        slot@ == SampleView::empty(),
{
}

/// Frees an array of slots, as far as `op` says: with the bit for all, the
/// slots themselves, so that none is left; else, with the bit for the
/// contents, what they hold, so that each is left in place as it is made by
/// default. It answers `false`, and frees nothing, where `op` has neither
/// bit.
pub fn free_samples<S: Default>(samples: &mut Vec<S>, op: u32) -> (r: bool)
    ensures
        r == ((op & DDS_FREE_ALL_BIT) != 0 || (op & DDS_FREE_CONTENTS_BIT) != 0),
        (op & DDS_FREE_ALL_BIT) != 0 ==> final(samples)@.len() == 0,
        (op & DDS_FREE_ALL_BIT) == 0 && (op & DDS_FREE_CONTENTS_BIT) != 0 ==> final(samples)@.len()
            == old(samples)@.len() && forall|i: int|
            0 <= i < final(samples)@.len() ==> is_fresh(#[trigger] final(samples)@[i]),
        !r ==> final(samples)@ == old(samples)@,
{
    if (op & DDS_FREE_ALL_BIT) != 0 {
        samples.clear();
        // all samples are freed as they leave the array
        return true;
    } else if (op & DDS_FREE_CONTENTS_BIT) != 0 {
        let n = samples.len();
        let mut i: usize = 0;
        while i < n
            invariant
                i <= n,
                n == samples@.len(),
                n == old(samples)@.len(),
                forall|j: int| 0 <= j < i ==> is_fresh(#[trigger] samples@[j]),
            decreases n - i,
        {
            samples[i] = S::default();
            i += 1;
        }
        return true;
    } else {
        return false;
    }
}

/// What the transport says of one sample that it handed over.
#[derive(Debug, PartialEq, Eq, Structural, Clone, Copy)]
pub struct SampleInfo {
    /// Whether the slot holds data, and not a notice alone.
    pub valid_data: bool,
}

/// The arrays that a read fills: one slot and one notice for each sample.
pub struct SampleBuffer {
    buffer: Vec<Sample>,
    sample_info: Vec<SampleInfo>,
}

impl SampleBuffer {
    #[verifier::type_invariant]
    closed spec fn inv(self) -> bool {
        self.buffer@.len() == self.sample_info@.len()
    }

    /// The slots.
    pub closed spec fn slots(self) -> Seq<Sample> {
        self.buffer@
    }

    /// The notices, one for each slot.
    pub closed spec fn infos(self) -> Seq<SampleInfo> {
        self.sample_info@
    }

    /// The decoded values of the slots that refer to one, in order.
    pub open spec fn decoded(slots: Seq<Sample>) -> Seq<ValueView>
        decreases slots.len(),
    {
        if slots.len() == 0 {
            Seq::empty()
        } else {
            match slots.last()@.decoded() {
                Some(value) => SampleBuffer::decoded(slots.drop_last()).push(value),
                None => SampleBuffer::decoded(slots.drop_last()),
            }
        }
    }

    /// Arrays of `len` empty slots, none of them with data.
    pub fn new(len: usize) -> (r: Self)
        ensures
            r.slots().len() == len,
            r.infos().len() == len,
            forall|i: int| 0 <= i < len ==> (#[trigger] r.slots()[i])@ == SampleView::empty(),
            forall|i: int| 0 <= i < len ==> !(#[trigger] r.infos()[i]).valid_data,
    {
        let mut buffer: Vec<Sample> = Vec::new();
        let mut sample_info: Vec<SampleInfo> = Vec::new();
        let mut i: usize = 0;
        while i < len
            invariant
                i <= len,
                buffer@.len() == i,
                sample_info@.len() == i,
                forall|j: int| 0 <= j < i ==> (#[trigger] buffer@[j])@ == SampleView::empty(),
                forall|j: int| 0 <= j < i ==> !(#[trigger] sample_info@[j]).valid_data,
            decreases len - i,
        {
            buffer.push(Sample::default());
            sample_info.push(SampleInfo { valid_data: false });
            i += 1;
        }
        SampleBuffer { buffer, sample_info }
    }

    /// Whether slot `index` holds data.
    pub fn is_valid_sample(&self, index: usize) -> (r: bool)
        requires
            index < self.slots().len(),
        ensures
            r == self.infos()[index as int].valid_data,
    {
        proof {
            use_type_invariant(self);
        }
        self.sample_info[index].valid_data
    }

    /// The number of slots.
    pub fn len(&self) -> (r: usize)
        ensures
            r == self.slots().len(),
            r == self.infos().len(),
    {
        proof {
            use_type_invariant(self);
        }
        self.buffer.len()
    }

    /// The decoded values of the slots that refer to one, in order.
    pub fn iter(&self) -> (r: Vec<&Value>)
        ensures
            r@.len() == SampleBuffer::decoded(self.slots()).len(),
            forall|i: int| 0 <= i < r@.len() ==> (#[trigger] r@[i])@ == SampleBuffer::decoded(self.slots())[i],
    {
        let mut out: Vec<&Value> = Vec::new();
        let mut i: usize = 0;
        assert(self.buffer@.take(0) == Seq::<Sample>::empty());
        while i < self.buffer.len()
            invariant
                i <= self.buffer@.len(),
                out@.len() == SampleBuffer::decoded(self.buffer@.take(i as int)).len(),
                forall|j: int|
                    0 <= j < out@.len() ==> (#[trigger] out@[j])@ == SampleBuffer::decoded(
                        self.buffer@.take(i as int),
                    )[j],
            decreases self.buffer@.len() - i,
        {
            proof {
                assert(self.buffer@.take(i + 1).drop_last() == self.buffer@.take(i as int));
                assert(self.buffer@.take(i + 1).last() == self.buffer@[i as int]);
            }
            match self.buffer[i].try_deref() {
                Some(value) => {
                    out.push(value);
                },
                None => {},
            }
            i += 1;
        }
        assert(self.buffer@.take(self.buffer@.len() as int) == self.buffer@);
        out
    }

    /// Slot `index`.
    pub fn get(&self, index: usize) -> (r: &Sample)
        requires
            index < self.slots().len(),
        ensures
            *r == self.slots()[index as int],
    {
        &self.buffer[index]
    }

    /// Fills slot `index` with what the transport handed over.
    pub fn put(&mut self, index: usize, sample: Sample, info: SampleInfo)
        requires
            index < old(self).slots().len(),
        ensures
            final(self).slots() == old(self).slots().update(index as int, sample),
            final(self).infos() == old(self).infos().update(index as int, info),
    {
        proof {
            use_type_invariant(&*self);
        }
        self.buffer[index] = sample;
        self.sample_info[index] = info;
    }
}

} // verus!
