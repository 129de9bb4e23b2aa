//! The cell that the transport holds for each sample: how it is made from
//! what arrives, what it gives out, and how it ends.
use crate::decode::{decode, decode_bytes};
use crate::encode::{encode, encode_into, padding, serialized_size, zeros, EncodeError};
use crate::key::{key_cdr, scheme_of, KeyScheme};
use crate::key_hash::{compute_key_hash, copy_raw_key_hash, key_token, murmur3_32_of, raw_token, KeyHash};
use crate::sample::{share, ChunkId, Sample, SampleData, SampleDataView, SampleStorageView, SampleView};
use crate::sertype::SerType;
use crate::sg_reader::{
    flatten_from, fragment_views, lemma_dense_readable, lemma_start_dense, ReaderState, SGReader,
};
use crate::value::{Value, ValueView};
use std::sync::Arc;
use vstd::prelude::*;
use vstd::slice::slice_subrange;

verus! {

/// The kind of a cell that holds nothing.
pub const SDK_EMPTY: u32 = 0;

/// The kind of a cell that holds a key alone.
pub const SDK_KEY: u32 = 1;

/// The kind of a cell that holds a sample.
pub const SDK_DATA: u32 = 2;

/// A chunk of shared memory that holds nothing yet.
pub const IOX_CHUNK_UNINITIALIZED: u32 = 0;

/// A chunk of shared memory that holds a value as it lies in memory.
pub const IOX_CHUNK_CONTAINS_RAW_DATA: u32 = 1;

/// A chunk of shared memory that holds an encoding.
pub const IOX_CHUNK_CONTAINS_SERIALIZED_DATA: u32 = 2;

/// The subscriber that a chunk of shared memory came through, by its
/// handle.
#[derive(Debug, PartialEq, Eq, Structural, Clone, Copy)]
pub struct SubscriberId(pub u64);

/// One fragment of a message as the network delivered it: the bytes
/// `min..maxp1` of the message.
pub struct RData<'a> {
    pub min: u32,
    pub maxp1: u32,
    pub payload: &'a [u8],
}

/// One fragment of a message as the network delivered it.
pub struct RDataView {
    pub min: nat,
    pub maxp1: nat,
    pub payload: Seq<u8>,
}

impl<'a> View for RData<'a> {
    type V = RDataView;

    open spec fn view(&self) -> RDataView {
        RDataView { min: self.min as nat, maxp1: self.maxp1 as nat, payload: self.payload@ }
    }
}

/// The views of a chain of fragments.
pub open spec fn chain_views(chain: Seq<RData>) -> Seq<RDataView> {
    Seq::new(chain.len(), |i: int| chain[i]@)
}

/// What the first `n` fragments of a chain add to the bytes of a message of
/// `size` bytes, and the offset that they reach. A fragment adds the bytes
/// that lie behind the offset reached so far. There is no such list where a
/// fragment leaves a gap, holds fewer bytes than it claims, or reaches
/// beyond the message.
pub open spec fn gathered(chain: Seq<RDataView>, size: nat, n: nat) -> Option<(Seq<Seq<u8>>, nat)>
    decreases n,
{
    if n == 0 {
        Some((Seq::empty(), 0))
    } else if n > chain.len() {
        None
    } else {
        match gathered(chain, size, (n - 1) as nat) {
            None => None,
            Some((list, off)) => {
                let frag = chain[n - 1];
                if frag.maxp1 > off {
                    if frag.min > off || frag.maxp1 - frag.min > frag.payload.len() || frag.maxp1 > size {
                        None
                    } else {
                        Some(
                            (
                                list.push(frag.payload.subrange(off - frag.min, frag.maxp1 - frag.min)),
                                frag.maxp1,
                            ),
                        )
                    }
                } else {
                    Some((list, off))
                }
            },
        }
    }
}

/// The scatter gather list of a chain of fragments: the pieces that make up
/// a message of `size` bytes, in order and without overlap. The chain has
/// to begin at offset 0.
pub open spec fn scatter_gather(chain: Seq<RDataView>, size: nat) -> Option<Seq<Seq<u8>>> {
    if chain.len() == 0 || chain[0].min != 0 {
        None
    } else {
        match gathered(chain, size, chain.len()) {
            None => None,
            Some((list, _)) => Some(list),
        }
    }
}

/// Where the first fragments have no list, the chain has none.
pub proof fn lemma_gathered_fails(chain: Seq<RDataView>, size: nat, k: nat, n: nat)
    requires
        k <= n <= chain.len(),
        gathered(chain, size, k) is None,
    ensures
        gathered(chain, size, n) is None,
    decreases n,
{
    if k < n {
        lemma_gathered_fails(chain, size, k, (n - 1) as nat);
    }
}

/// The pieces that a chain adds are not empty, and together they are as
/// many bytes as the offset that the chain reaches: a reader over them reads
/// the message as far as it arrived, and stops nowhere before its end.
pub proof fn lemma_gathered_dense(chain: Seq<RDataView>, size: nat, n: nat)
    requires
        gathered(chain, size, n) is Some,
    ensures
        forall|i: int|
            0 <= i < gathered(chain, size, n)->Some_0.0.len() ==> (#[trigger] gathered(
                chain,
                size,
                n,
            )->Some_0.0[i]).len() > 0,
        ReaderState::start(gathered(chain, size, n)->Some_0.0).readable().len() == gathered(
            chain,
            size,
            n,
        )->Some_0.1,
        gathered(chain, size, n)->Some_0.1 <= size,
    decreases n,
{
    let list = gathered(chain, size, n)->Some_0.0;
    if n > 0 {
        lemma_gathered_dense(chain, size, (n - 1) as nat);
        let before = gathered(chain, size, (n - 1) as nat)->Some_0.0;
        lemma_start_dense(before);
        lemma_dense_readable(ReaderState::start(before));
        if list.len() > before.len() {
            lemma_flatten_push(before, list.last());
        }
    }
    lemma_start_dense(list);
    lemma_dense_readable(ReaderState::start(list));
    if n == 0 {
        assert(flatten_from(list, 0) == Seq::<u8>::empty());
    }
}

/// One more fragment at the end adds its bytes at the end.
proof fn lemma_flatten_push(frags: Seq<Seq<u8>>, last: Seq<u8>)
    ensures
        flatten_from(frags.push(last), 0) == flatten_from(frags, 0) + last,
{
    lemma_flatten_push_from(frags, last, 0);
}

/// One more fragment at the end adds its bytes at the end, from any fragment
/// on.
proof fn lemma_flatten_push_from(frags: Seq<Seq<u8>>, last: Seq<u8>, from: int)
    requires
        0 <= from <= frags.len(),
    ensures
        flatten_from(frags.push(last), from) == flatten_from(frags, from)
            + last,
    decreases frags.len() - from,
{
    let longer = frags.push(last);
    if from < frags.len() {
        lemma_flatten_push_from(frags, last, from + 1);
        assert(longer[from] == frags[from]);
        assert(flatten_from(longer, from) == frags[from] + (flatten_from(
            frags,
            from + 1,
        ) + last));
    } else {
        assert(flatten_from(longer, from + 1) == Seq::<u8>::empty());
        assert(flatten_from(frags, from) == Seq::<u8>::empty());
        assert(longer[from] == last);
    }
}

/// Builds the scatter gather list of a chain of fragments. No byte is
/// copied.
pub fn scatter_gather_list<'a>(fragchain: &[RData<'a>], size: usize) -> (r: Option<Vec<&'a [u8]>>)
    ensures
        match scatter_gather(chain_views(fragchain@), size as nat) {
            Some(list) => r is Some && fragment_views(r->Some_0@) == list,
            None => r is None,
        },
{
    let ghost chain = chain_views(fragchain@);
    if fragchain.len() == 0 || fragchain[0].min != 0 {
        assert(chain.len() == 0 || chain[0].min != 0);
        return None;
    }
    assert(chain[0].min == 0);
    let mut off: u32 = 0;
    let mut sg_list: Vec<&'a [u8]> = Vec::new();
    let mut i: usize = 0;
    assert(fragment_views(sg_list@) == Seq::<Seq<u8>>::empty());
    while i < fragchain.len()
        invariant
            i <= fragchain@.len(),
            chain == chain_views(fragchain@),
            chain.len() == fragchain@.len(),
            gathered(chain, size as nat, i as nat) == Some((fragment_views(sg_list@), off as nat)),
        decreases fragchain@.len() - i,
    {
        let frag = &fragchain[i];
        let ghost before = sg_list@;
        assert(chain[i as int] == frag@);
        if frag.maxp1 > off {
            if frag.min > off || (frag.maxp1 - frag.min) as usize > frag.payload.len() || frag.maxp1 as usize
                > size {
                proof {
                    assert(gathered(chain, size as nat, (i + 1) as nat) is None);
                    lemma_gathered_fails(chain, size as nat, (i + 1) as nat, chain.len());
                }
                return None;
            }
            let src = slice_subrange(frag.payload, (off - frag.min) as usize, (frag.maxp1 - frag.min) as usize);
            sg_list.push(src);
            off = frag.maxp1;
            proof {
                assert(sg_list@.drop_last() == before);
                assert(fragment_views(sg_list@) == fragment_views(before).push(src@));
            }
        }
        i += 1;
    }
    Some(sg_list)
}

/// One sample as the transport holds it.
pub struct SerData {
    kind: u32,
    typed: bool,
    hash: u32,
    refc: u32,
    iox_chunk: Option<ChunkId>,
    iox_subscriber: Option<SubscriberId>,
    sample: SampleData,
    // data in CDR format. This is put into an option as we only create
    // the serialized version when we need it
    cdr: Option<Vec<u8>>,
    // includes 4 bytes of CDR encapsulation header
    key_hash: KeyHash,
    // We store the serialized size here if available
    serialized_size: Option<u32>,
}

/// One sample as the transport holds it.
pub struct SerDataView {
    /// The kind of the cell.
    pub kind: u32,
    /// Whether the cell still knows its type.
    pub typed: bool,
    /// The hash by which the transport sorts the cell into its tables.
    pub hash: u32,
    /// The number of owners of the cell.
    pub refc: u32,
    /// The chunk of shared memory that the sample arrived in.
    pub iox_chunk: Option<ChunkId>,
    /// The subscriber that the chunk came through.
    pub iox_subscriber: Option<SubscriberId>,
    /// What the cell holds of its sample.
    pub sample: SampleDataView,
    /// The encoding of the sample, once it was asked for.
    pub cdr: Option<Seq<u8>>,
    /// The key hash of the sample.
    pub key_hash: KeyHash,
    /// The length of the encoding, once it was asked for.
    pub serialized_size: Option<u32>,
}

impl View for SerData {
    type V = SerDataView;

    closed spec fn view(&self) -> SerDataView {
        SerDataView {
            kind: self.kind,
            typed: self.typed,
            hash: self.hash,
            refc: self.refc,
            iox_chunk: self.iox_chunk,
            iox_subscriber: self.iox_subscriber,
            sample: self.sample@,
            cdr: match self.cdr {
                Some(bytes) => Some(bytes@),
                None => None,
            },
            key_hash: self.key_hash,
            serialized_size: self.serialized_size,
        }
    }
}

impl SerDataView {
    /// Whether the cell holds a value, decoded or in lent memory.
    pub open spec fn holds_value(self) -> bool {
        self.sample is SDKData || self.sample is SHMData
    }

    /// Whether what the cell has in store is of its sample. A cell stores
    /// an encoding for a value only, and the one that it stores for a
    /// decoded value is the encoding of that value, filled up to a multiple
    /// of four; for a value in lent memory it is the encoding of what was
    /// handed in as that value. A cell keeps a size for a decoded value
    /// only, and it is the length of the encoding of that value.
    pub open spec fn coherent(self) -> bool {
        &&& match self.cdr {
            None => true,
            Some(bytes) => match self.sample {
                SampleDataView::SDKData(value) => value.encodable() && bytes == pad4(value.message()),
                SampleDataView::SHMData(_) => true,
                _ => false,
            },
        }
        &&& match self.serialized_size {
            None => true,
            Some(size) => self.sample is SDKData && size == size_of_cell(self),
        }
    }

    /// A cell as it is made: of a kind, with one owner, and empty.
    pub open spec fn fresh(kind: u32) -> SerDataView {
        SerDataView {
            kind,
            typed: true,
            hash: 0,
            refc: 1,
            iox_chunk: None,
            iox_subscriber: None,
            sample: SampleDataView::Uninitialized,
            cdr: None,
            key_hash: KeyHash::Absent,
            serialized_size: None,
        }
    }

    /// A fresh cell that holds a decoded value, and its two hashes where the
    /// type has a key.
    pub open spec fn decoded(kind: u32, value: ValueView, hashes: Option<(u32, KeyHash)>) -> SerDataView {
        SerDataView {
            hash: match hashes {
                Some((hash, _)) => hash,
                None => 0,
            },
            key_hash: match hashes {
                Some((_, key_hash)) => key_hash,
                None => KeyHash::Absent,
            },
            sample: SampleDataView::SDKData(value),
            ..SerDataView::fresh(kind)
        }
    }
}

impl SerData {
    #[verifier::type_invariant]
    closed spec fn inv(self) -> bool {
        self@.coherent()
    }

    /// A cell of kind `kind`, with one owner, that holds nothing yet.
    pub fn new(kind: u32) -> (r: SerData)
        ensures
            r@ == SerDataView::fresh(kind),
    {
        SerData {
            kind,
            typed: true,
            hash: 0,
            refc: 1,
            iox_chunk: None,
            iox_subscriber: None,
            sample: SampleData::default(),
            cdr: None,
            key_hash: KeyHash::default(),
            serialized_size: None,
        }
    }

    /// What the cell holds of its sample.
    pub fn sample(&self) -> (r: &SampleData)
        ensures
            r@ == self@.sample,
    {
        &self.sample
    }

    /// The key hash of the cell.
    pub fn key_hash(&self) -> (r: &KeyHash)
        ensures
            *r == self@.key_hash,
    {
        &self.key_hash
    }

    /// The kind of the cell.
    pub fn kind(&self) -> (r: u32)
        ensures
            r == self@.kind,
    {
        self.kind
    }

    /// The hash by which the transport sorts the cell into its tables.
    pub fn hash(&self) -> (r: u32)
        ensures
            r == self@.hash,
    {
        self.hash
    }

    /// Whether the cell still knows its type.
    pub fn is_typed(&self) -> (r: bool)
        ensures
            r == self@.typed,
    {
        self.typed
    }

    /// The number of owners of the cell.
    pub fn refc(&self) -> (r: u32)
        ensures
            r == self@.refc,
    {
        self.refc
    }

    /// The chunk of shared memory that the sample arrived in.
    pub fn iox_chunk(&self) -> (r: Option<ChunkId>)
        ensures
            r == self@.iox_chunk,
    {
        self.iox_chunk
    }

    /// The subscriber that the chunk came through.
    pub fn iox_subscriber(&self) -> (r: Option<SubscriberId>)
        ensures
            r == self@.iox_subscriber,
    {
        self.iox_subscriber
    }

    /// The length of the encoding, once it was asked for.
    pub fn serialized_size(&self) -> (r: Option<u32>)
        ensures
            r == self@.serialized_size,
    {
        self.serialized_size
    }

    /// The encoding of the sample, once it was asked for.
    pub fn cdr(&self) -> (r: Option<&Vec<u8>>)
        ensures
            match self@.cdr {
                Some(bytes) => r is Some && r->Some_0@ == bytes,
                None => r is None,
            },
            self@.coherent(),
    {
        proof {
            use_type_invariant(self);
        }
        match &self.cdr {
            Some(bytes) => Some(bytes),
            None => None,
        }
    }
}

/// A cell that holds a value just decoded, and the two hashes of its key
/// where there are any.
pub fn serdata_from_parts(kind: u32, decoded: Value, hashes: Option<(u32, KeyHash)>) -> (r: SerData)
    ensures
        r@ == SerDataView::decoded(kind, decoded@, hashes),
{
    let mut serdata = SerData::new(kind);
    match hashes {
        Some((hash, key_hash)) => {
            serdata.hash = hash;
            serdata.key_hash = key_hash;
        },
        None => {},
    }
    let sample = Arc::new(decoded);
    // store the deserialized sample in the serdata. We don't need to deserialize again
    serdata.sample = SampleData::SDKData(sample);
    serdata
}

/// The two hashes of the key of a value of a type: the hash for the
/// transport's tables and the key hash. A type without a key has none, and a
/// key that cannot be encoded has none.
pub open spec fn hashes_of(sertype: SerType, value: ValueView) -> Option<(u32, Seq<u8>)> {
    let key = value.key_value(sertype.shape_view());
    if sertype.key_holder_view().holds_data() && key.encodable() && key.message().len() <= u32::MAX {
        Some(
            (
                murmur3_32_of(key.message(), 0),
                key_token(key.message(), scheme_of(sertype.key_holder_view())),
            ),
        )
    } else {
        None
    }
}

/// Whether `key_hash` is the key hash in the cell's form of the sixteen
/// bytes `token`.
pub open spec fn is_cdr_key(key_hash: KeyHash, token: Seq<u8>) -> bool {
    key_hash is CdrKey && key_hash.bytes() == seq![0u8, 0u8, 0u8, 0u8] + token
}

/// Whether `got` are the two hashes `wanted`, the key hash in the cell's
/// form.
pub open spec fn are_hashes(got: Option<(u32, KeyHash)>, wanted: Option<(u32, Seq<u8>)>) -> bool {
    match wanted {
        Some((hash, token)) => got is Some && got->Some_0.0 == hash && is_cdr_key(got->Some_0.1, token),
        None => got is None,
    }
}

/// The two hashes of the key of `value`, a value of the type `sertype`.
pub fn key_hashes(sertype: &SerType, value: &Value) -> (r: Option<(u32, KeyHash)>)
    ensures
        are_hashes(r, hashes_of(*sertype, value@)),
{
    if !sertype.has_key() {
        return None;
    }
    let key_cdr = match key_cdr(sertype.shape(), value) {
        Err(_) => {
            return None;
        },
        Ok(bytes) => bytes,
    };
    if key_cdr.len() > 0xFFFF_FFFF {
        return None;
    }
    let hash = crate::key_hash::hash(key_cdr.as_slice());
    // compute the 16byte key hash
    let key_hash = compute_key_hash(key_cdr.as_slice(), sertype.scheme());
    Some((hash, key_hash))
}

/// The value that a chain of fragments holds for a type, within `size`
/// bytes: the decoding of the bytes of its scatter gather list.
pub open spec fn chain_decoding(sertype: SerType, chain: Seq<RDataView>, size: nat) -> Option<ValueView> {
    match scatter_gather(chain, size) {
        None => None,
        Some(list) => match sertype.shape_view().message_decoding(
            ReaderState::start(list).readable(),
            Some(size),
        ) {
            Ok(value) => Some(value),
            Err(_) => None,
        },
    }
}

/// The value that a list of buffers holds for a type, behind `skip` bytes of
/// the transport's own and within `size` bytes from there on.
pub open spec fn iov_decoding(sertype: SerType, iov: Seq<Seq<u8>>, size: nat, skip: nat) -> Option<
    ValueView,
> {
    let all = ReaderState::start(iov).readable();
    if all.len() < skip {
        None
    } else {
        match sertype.shape_view().message_decoding(all.skip(skip as int), Some(size)) {
            Ok(value) => Some(value),
            Err(_) => None,
        }
    }
}

/// Whether `cell` is the fresh cell of kind `kind` that holds `value` and
/// the hashes of its key.
pub open spec fn is_decoded_cell(cell: SerDataView, sertype: SerType, kind: u32, value: ValueView) -> bool {
    exists|hashes: Option<(u32, KeyHash)>|
        are_hashes(hashes, hashes_of(sertype, value)) && cell == SerDataView::decoded(kind, value, hashes)
}

/// A cell for a value just decoded: it holds the value, and the two hashes
/// of its key where the type has a key.
pub fn serdata_from_decoded(sertype: &SerType, kind: u32, decoded: Value) -> (r: SerData)
    ensures
        is_decoded_cell(r@, *sertype, kind, decoded@),
{
    let hashes = key_hashes(sertype, &decoded);
    serdata_from_parts(kind, decoded, hashes)
}

/// Makes a cell from the fragments of a message of `size` bytes. The
/// fragments are read in place. There is no cell where the chain is
/// malformed or the bytes are no encoding of a value of the type.
pub fn serdata_from_fragchain(sertype: &SerType, kind: u32, fragchain: &[RData], size: usize) -> (r: Option<
    SerData,
>)
    ensures
        match chain_decoding(*sertype, chain_views(fragchain@), size as nat) {
            Some(value) => r is Some && is_decoded_cell(r->Some_0@, *sertype, kind, value),
            None => r is None,
        },
{
    // The scatter gather list
    let sg_list = match scatter_gather_list(fragchain, size) {
        None => {
            return None;
        },
        Some(list) => list,
    };
    // make a reader out of the sg_list
    let mut reader = SGReader::new(sg_list.as_slice());
    match decode(sertype.shape(), &mut reader, Some(size as u64)) {
        Ok(decoded) => Some(serdata_from_decoded(sertype, kind, decoded)),
        Err(_) => None,
    }
}

/// Makes a cell from a list of buffers that hold, behind `skip` bytes of
/// the transport's own, an encoding of `size` bytes at most. The bound
/// counts from the encoding's own header on: the bytes skipped are no part
/// of it.
pub fn serdata_from_iov(sertype: &SerType, kind: u32, iov: &[&[u8]], size: usize, skip: usize) -> (r: Option<
    SerData,
>)
    ensures
        match iov_decoding(*sertype, fragment_views(iov@), size as nat, skip as nat) {
            Some(value) => r is Some && is_decoded_cell(r->Some_0@, *sertype, kind, value),
            None => r is None,
        },
{
    // make a reader out of the sg_list
    let mut reader = SGReader::new(iov);
    if skip > 0 {
        // skip the cdr_encoding options that cyclone inserts.
        match reader.read_exactly(skip) {
            None => {
                return None;
            },
            Some(_) => {},
        }
    } else {
        assert(reader@.readable().skip(0) == reader@.readable());
    }
    match decode(sertype.shape(), &mut reader, Some(size as u64)) {
        Ok(decoded) => Some(serdata_from_decoded(sertype, kind, decoded)),
        Err(_) => None,
    }
}

/// Makes a cell that stands for a key alone, from its key hash. A type
/// whose key hash is a digest has no such cell: the key cannot be had back
/// from the digest.
pub fn serdata_from_keyhash(sertype: &SerType, keyhash: &[u8; 16]) -> (r: Option<SerData>)
    ensures
        scheme_of(sertype.key_holder_view()) == KeyScheme::Reduced ==> r is None,
        scheme_of(sertype.key_holder_view()) == KeyScheme::Raw ==> r is Some && is_cdr_key(
            r->Some_0@.key_hash,
            keyhash@,
        ) && r->Some_0@ == (SerDataView {
            sample: SampleDataView::SDKKey,
            key_hash: r->Some_0@.key_hash,
            ..SerDataView::fresh(SDK_KEY)
        }),
{
    if sertype.force_md5_keyhash() {
        None
    } else {
        let mut serdata = SerData::new(SDK_KEY);
        serdata.sample = SampleData::SDKKey;
        serdata.key_hash = crate::key_hash::from_token(keyhash);
        Some(serdata)
    }
}

/// Makes a cell of kind `SDK_DATA` for a sample that the application
/// writes. It shares the value with the slot. There is no cell of another
/// kind, nor for a slot that holds no value of the application's own.
pub fn serdata_from_sample(kind: u32, sample: &Sample) -> (r: Option<SerData>)
    ensures
        match sample@.sample {
            Some(SampleStorageView::Owned(value)) => if kind == SDK_DATA {
                r is Some && r->Some_0@ == SerDataView::decoded(kind, value, None)
            } else {
                r is None
            },
            _ => r is None,
        },
{
    if kind != SDK_DATA {
        return None;
    }
    match sample.get() {
        None => None,
        Some(value) => {
            let mut serdata = SerData::new(kind);
            serdata.sample = SampleData::SDKData(value);
            Some(serdata)
        },
    }
}

/// Makes a cell for a sample in shared memory. A chunk that came through a
/// subscriber brings its key hash in its header; a chunk that the writer
/// lent brings none. The sample is not decoded.
pub fn from_iox_buffer(
    sertype: Option<&SerType>,
    kind: u32,
    sub: Option<SubscriberId>,
    buffer: ChunkId,
    keyhash: &[u8; 16],
) -> (r: Option<SerData>)
    ensures
        sertype is None ==> r is None,
        sertype is Some ==> r is Some && r->Some_0@ == (SerDataView {
            iox_chunk: Some(buffer),
            iox_subscriber: sub,
            sample: SampleDataView::SHMData(buffer),
            key_hash: r->Some_0@.key_hash,
            ..SerDataView::fresh(kind)
        }),
        sertype is Some && sub is None ==> r->Some_0@.key_hash is Absent,
        sertype is Some && sub is Some ==> r->Some_0@.key_hash is RawKey && r->Some_0@.key_hash.bytes()
            == keyhash@,
{
    if sertype.is_none() {
        return None;
    }
    let mut d = SerData::new(kind);
    // from loaned sample, just take the pointer
    d.iox_chunk = Some(buffer);
    if sub.is_some() {
        // from iox buffer
        d.iox_subscriber = sub;
        // Copy the key hash
        d.key_hash = copy_raw_key_hash(keyhash.as_slice());
        assert(raw_token(keyhash@) == keyhash@);
    }
    // we don't deserialize right away
    d.sample = SampleData::SHMData(buffer);
    Some(d)
}

/// A chunk of shared memory to give back to the subscriber that it came
/// through.
#[derive(Debug, PartialEq, Eq, Structural, Clone, Copy)]
pub struct ChunkRelease {
    pub subscriber: SubscriberId,
    pub chunk: Option<ChunkId>,
}

/// Ends a cell. It lets go of the decoded value, and says which chunk of
/// shared memory is to go back to its subscriber: the cell's own, where it
/// came through one. Lent memory itself is never freed here.
pub fn free_serdata(serdata: SerData) -> (r: Option<ChunkRelease>)
    ensures
        r == match serdata@.iox_subscriber {
            Some(subscriber) => Some(ChunkRelease { subscriber, chunk: serdata@.iox_chunk }),
            None => None,
        },
{
    match serdata.iox_subscriber {
        Some(subscriber) => Some(ChunkRelease { subscriber, chunk: serdata.iox_chunk }),
        None => None,
    }
}

/// The number of bytes that the transport is told for a cell: the length of
/// the key hash for a key alone, the length of the encoding for a value,
/// cut to 32 bits, and 0 for a cell that holds nothing to encode.
pub open spec fn size_of_cell(cell: SerDataView) -> u32 {
    match cell.sample {
        SampleDataView::Uninitialized => 0,
        SampleDataView::SDKKey => cell.key_hash.bytes().len() as u32,
        SampleDataView::SDKData(value) => if value.encodable() && value.message().len() <= u64::MAX {
            (value.message().len() % 0x1_0000_0000) as u32
        } else {
            0
        },
        SampleDataView::SHMData(_) => 0,
    }
}

/// The number of bytes that the encoding of a cell takes. For a value it is
/// the length of what `encode` gives, and the cell keeps it.
pub fn get_size(serdata: &mut SerData) -> (size: u32)
    ensures
        size == size_of_cell(old(serdata)@),
        final(serdata)@ == (SerDataView {
            serialized_size: if old(serdata)@.sample is SDKData && old(serdata)@.sample->SDKData_0.encodable()
                && old(serdata)@.sample->SDKData_0.message().len() <= u64::MAX {
                Some(size)
            } else {
                old(serdata)@.serialized_size
            },
            ..old(serdata)@
        }),
{
    proof {
        use_type_invariant(&*serdata);
    }
    match &serdata.sample {
        SampleData::Uninitialized => {
            return 0;
        },
        SampleData::SDKKey => {
            return serdata.key_hash.key_length() as u32;
        },
        // This function asks for the serialized size so we do this even for SHM Data
        SampleData::SDKData(sample) => {
            match serialized_size(sample) {
                Ok(total) => {
                    let size = (total % 0x1_0000_0000) as u32;
                    serdata.serialized_size = Some(size);
                    return size;
                },
                Err(_) => {
                    return 0;
                },
            }
        },
        SampleData::SHMData(_) => {
            // we refuse to serialize SHM data so return 0
            return 0;
        },
    }
}

/// Encodes a value for the cell's store. A known size only sizes the
/// buffer.
pub fn serialize_type(sample: &Value, maybe_size: Option<u32>) -> (r: Result<Vec<u8>, ()>)
    ensures
        sample@.encodable() ==> r is Ok && r->Ok_0@ == sample@.message(),
        !sample@.encodable() ==> r is Err,
{
    match encode(sample) {
        Ok(data) => Ok(data),
        Err(_) => Err(()),
    }
}

/// Whether two cells belong to one instance: whether their key hashes are
/// the same bytes.
pub fn eqkey(serdata_a: &SerData, serdata_b: &SerData) -> (r: bool)
    ensures
        r == (serdata_a@.key_hash.token() == serdata_b@.key_hash.token()),
{
    crate::key_hash::eqkey(&serdata_a.key_hash, &serdata_b.key_hash)
}

/// Writes the key hash of a cell to `keyhash`. A cell without one leaves
/// `keyhash` as it is.
pub fn get_keyhash(serdata: &SerData, keyhash: &mut [u8; 16], _force_md5: bool)
    ensures
        serdata@.key_hash is Absent ==> final(keyhash)@ == old(keyhash)@,
        !(serdata@.key_hash is Absent) ==> final(keyhash)@ == serdata@.key_hash.token(),
{
    crate::key_hash::get_keyhash(&serdata.key_hash, keyhash);
}

/// Makes of a cell one that has forgotten its type: it stands for the key
/// alone and carries the hashes over.
pub fn serdata_to_untyped(serdata: &SerData) -> (r: SerData)
    ensures
        r@ == (SerDataView {
            typed: false,
            sample: SampleDataView::SDKKey,
            key_hash: serdata@.key_hash,
            hash: serdata@.hash,
            ..SerDataView::fresh(SDK_KEY)
        }),
{
    let mut untyped_serdata = SerData::new(SDK_KEY);
    // untype it
    untyped_serdata.typed = false;
    untyped_serdata.sample = SampleData::SDKKey;
    // copy the hashes
    untyped_serdata.key_hash = serdata.key_hash;
    untyped_serdata.hash = serdata.hash;
    untyped_serdata
}

/// Gives a slot the sample of a cell that has forgotten its type: there is
/// none, so the slot loses the value that it held to write. It answers
/// whether there was a slot.
pub fn untyped_to_sample(sample: Option<&mut Sample>) -> (r: bool)
    ensures
        r == (sample is Some),
        sample is Some ==> final(sample->Some_0)@ == (SampleView {
            serdata: old(sample->Some_0)@.serdata,
            sample: None,
        }),
{
    match sample {
        Some(sample) => {
            sample.clear();
            true
        },
        None => false,
    }
}

/// Why a cell could not be turned into bytes.
#[derive(Debug, PartialEq, Eq, Structural, Clone, Copy)]
pub enum SerError {
    /// The cell holds nothing yet.
    Uninitialized,
    /// The buffer has no room for the bytes asked for, or the key hash has
    /// fewer bytes than were asked for.
    NoRoom,
    /// The value lies in lent memory that was not handed in.
    NotReadable,
    /// The value cannot be encoded within the size.
    Encode(EncodeError),
}

/// The bytes that a cell gives where `size` bytes are asked for: the front
/// of the key hash for a key alone, the encoding for a value, where it
/// takes `size` bytes at most. A value in lent memory is `loaned`.
pub open spec fn ser_bytes(cell: SerDataView, size: nat, loaned: Option<ValueView>) -> Result<Seq<u8>, SerError> {
    if size == 0 {
        Ok(Seq::empty())
    } else {
        match cell.sample {
            SampleDataView::Uninitialized => Err(SerError::Uninitialized),
            SampleDataView::SDKKey => if cell.key_hash is Absent {
                Ok(Seq::empty())
            } else if size > cell.key_hash.bytes().len() {
                Err(SerError::NoRoom)
            } else {
                Ok(cell.key_hash.bytes().take(size as int))
            },
            SampleDataView::SDKData(value) => value_bytes(value, size),
            SampleDataView::SHMData(_) => match loaned {
                None => Err(SerError::NotReadable),
                Some(value) => value_bytes(value, size),
            },
        }
    }
}

/// The encoding of a value where it takes `size` bytes at most.
pub open spec fn value_bytes(value: ValueView, size: nat) -> Result<Seq<u8>, SerError> {
    if !value.encodable() {
        Err(SerError::Encode(EncodeError::NumberOutOfRange))
    } else if value.message().len() > size {
        Err(SerError::Encode(EncodeError::SizeLimit))
    } else {
        Ok(value.message())
    }
}

/// `buf` with `bytes` written from position `offset` on.
pub open spec fn written(buf: Seq<u8>, offset: int, bytes: Seq<u8>) -> Seq<u8> {
    buf.take(offset) + bytes + buf.skip(offset + bytes.len())
}

/// The encoding of `value` where it takes `size` bytes at most.
fn value_to_bytes(value: &Value, size: usize) -> (r: Result<Vec<u8>, SerError>)
    ensures
        match value_bytes(value@, size as nat) {
            Ok(bytes) => r is Ok && r->Ok_0@ == bytes,
            Err(e) => r == Err::<Vec<u8>, SerError>(e),
        },
{
    match encode_into(value, size as u64) {
        Ok(bytes) => Ok(bytes),
        Err(e) => Err(SerError::Encode(e)),
    }
}

/// Writes the bytes of a cell into `buf` from position `offset` on, `size`
/// bytes at most. The rest of `buf` stays as it is. It answers how many
/// bytes it wrote. Nothing is written where `buf` has no room for `size`
/// bytes behind `offset`.
pub fn serdata_to_ser(serdata: &SerData, size: usize, offset: usize, buf: &mut [u8], loaned: Option<&Value>) -> (r:
    Result<usize, SerError>)
    ensures
        final(buf)@.len() == old(buf)@.len(),
        offset + size > old(buf)@.len() ==> r == Err::<usize, SerError>(SerError::NoRoom)
            && final(buf)@ == old(buf)@,
        offset + size <= old(buf)@.len() ==> match ser_bytes(
            serdata@,
            size as nat,
            match loaned {
                Some(value) => Some(value@),
                None => None,
            },
        ) {
            Ok(bytes) => r == Ok::<usize, SerError>(bytes.len() as usize) && final(buf)@ == written(
                old(buf)@,
                offset as int,
                bytes,
            ),
            Err(e) => r == Err::<usize, SerError>(e) && final(buf)@ == old(buf)@,
        },
{
    let room = buf.len();
    if offset > room || size > room - offset {
        return Err(SerError::NoRoom);
    }
    if size == 0 {
        assert(written(buf@, offset as int, Seq::empty()) == buf@);
        return Ok(0);
    }
    let bytes: Vec<u8> = match &serdata.sample {
        SampleData::Uninitialized => {
            return Err(SerError::Uninitialized);
        },
        SampleData::SDKKey => {
            let k = serdata.key_hash.get_key_hash();
            if k.len() == 0 {
                assert(written(buf@, offset as int, Seq::empty()) == buf@);
                return Ok(0);
            }
            if size > k.len() {
                return Err(SerError::NoRoom);
            }
            let mut front: Vec<u8> = Vec::new();
            let mut i: usize = 0;
            while i < size
                invariant
                    i <= size,
                    size <= k@.len(),
                    front@ == k@.take(i as int),
                decreases size - i,
            {
                front.push(k[i]);
                assert(k@.take(i + 1) == k@.take(i as int).push(k@[i as int]));
                i += 1;
            }
            front
        },
        // We may serialize both SDK data as well as SHM Data
        SampleData::SDKData(value) => match value_to_bytes(value, size) {
            Err(e) => {
                return Err(e);
            },
            Ok(bytes) => bytes,
        },
        SampleData::SHMData(_) => match loaned {
            None => {
                return Err(SerError::NotReadable);
            },
            Some(value) => match value_to_bytes(value, size) {
                Err(e) => {
                    return Err(e);
                },
                Ok(bytes) => bytes,
            },
        },
    };
    let n = bytes.len();
    let mut i: usize = 0;
    while i < n
        invariant
            i <= n,
            n == bytes@.len(),
            n <= size,
            offset + size <= buf@.len(),
            buf@.len() == old(buf)@.len(),
            buf@.len() <= usize::MAX,
            buf@ == written(old(buf)@, offset as int, bytes@.take(i as int)),
        decreases n - i,
    {
        let ghost before = buf@;
        buf[offset + i] = bytes[i];
        proof {
            let now = written(old(buf)@, offset as int, bytes@.take(i + 1));
            assert(now.len() == buf@.len());
            assert forall|j: int| 0 <= j < buf@.len() implies buf@[j] == now[j] by {
                if j == offset + i {
                    assert(bytes@.take(i + 1)[i as int] == bytes@[i as int]);
                } else {
                    assert(buf@[j] == before[j]);
                    if j >= offset && j < offset + i {
                        assert(bytes@.take(i + 1)[j - offset] == bytes@.take(i as int)[j - offset]);
                    }
                }
            }
            assert(buf@ == now);
        }
        i += 1;
    }
    assert(bytes@.take(n as int) == bytes@);
    return Ok(n);
}

/// A cell whose count of owners cannot be what a call needs.
#[derive(Debug, PartialEq, Eq, Structural, Clone, Copy)]
pub enum RefError {
    /// The count is at its largest.
    TooManyOwners,
    /// The cell has no owner left.
    NoOwner,
}

/// Adds an owner to a cell.
pub fn serdata_addref(serdata: &mut SerData) -> (r: Result<(), RefError>)
    ensures
        old(serdata)@.refc < u32::MAX ==> r is Ok && final(serdata)@ == (SerDataView {
            refc: (old(serdata)@.refc + 1) as u32,
            ..old(serdata)@
        }),
        old(serdata)@.refc == u32::MAX ==> r == Err::<(), RefError>(RefError::TooManyOwners)
            && final(serdata)@ == old(serdata)@,
{
    proof {
        use_type_invariant(&*serdata);
    }
    if serdata.refc == u32::MAX {
        return Err(RefError::TooManyOwners);
    }
    serdata.refc = serdata.refc + 1;
    return Ok(());
}

/// Takes an owner from a cell. It answers whether that was the last one:
/// then, and no earlier, the cell is to be ended.
pub fn serdata_removeref(serdata: &mut SerData) -> (r: Result<bool, RefError>)
    ensures
        old(serdata)@.refc > 0 ==> r == Ok::<bool, RefError>(old(serdata)@.refc == 1)
            && final(serdata)@ == (SerDataView { refc: (old(serdata)@.refc - 1) as u32, ..old(serdata)@ }),
        old(serdata)@.refc == 0 ==> r == Err::<bool, RefError>(RefError::NoOwner)
            && final(serdata)@ == old(serdata)@,
{
    proof {
        use_type_invariant(&*serdata);
    }
    if serdata.refc == 0 {
        return Err(RefError::NoOwner);
    }
    serdata.refc = serdata.refc - 1;
    return Ok(serdata.refc == 0);
}

/// Ends a view of the bytes of a cell: it takes the owner that the view
/// had added.
pub fn serdata_to_ser_unref(serdata: &mut SerData) -> (r: Result<bool, RefError>)
    ensures
        old(serdata)@.refc > 0 ==> r == Ok::<bool, RefError>(old(serdata)@.refc == 1)
            && final(serdata)@ == (SerDataView { refc: (old(serdata)@.refc - 1) as u32, ..old(serdata)@ }),
        old(serdata)@.refc == 0 ==> r == Err::<bool, RefError>(RefError::NoOwner)
            && final(serdata)@ == old(serdata)@,
{
    return serdata_removeref(serdata);
}

impl Clone for SerData {
    /// One more owner of what the cell holds. The count of owners of the
    /// copy is one more than that of the cell, as far as it can grow.
    fn clone(&self) -> (r: Self)
        ensures
            r@ == (SerDataView {
                refc: if self@.refc < u32::MAX {
                    (self@.refc + 1) as u32
                } else {
                    self@.refc
                },
                ..self@
            }),
    {
        proof {
            use_type_invariant(self);
        }
        SerData {
            kind: self.kind,
            typed: self.typed,
            hash: self.hash,
            refc: if self.refc < u32::MAX {
                self.refc + 1
            } else {
                self.refc
            },
            iox_chunk: self.iox_chunk,
            iox_subscriber: self.iox_subscriber,
            sample: self.sample.clone(),
            cdr: match &self.cdr {
                Some(bytes) => Some(bytes.clone()),
                None => None,
            },
            key_hash: self.key_hash,
            serialized_size: self.serialized_size,
        }
    }
}

/// A view of bytes that a cell holds: of its key hash, or of `len` bytes of
/// its stored encoding from `offset` on.
#[derive(Debug, PartialEq, Eq, Structural, Clone, Copy)]
pub struct SerRef {
    pub key: bool,
    pub offset: usize,
    pub len: usize,
}

/// `bytes` filled up with zero bytes to a multiple of four.
pub open spec fn pad4(bytes: Seq<u8>) -> Seq<u8> {
    bytes + zeros(padding(bytes.len(), 4))
}

/// The encoding that a cell has in store once its bytes were asked for: the
/// one it had, or else that of its value, filled up to a multiple of four.
/// A value in lent memory is `loaned`.
pub open spec fn store_of(cell: SerDataView, loaned: Option<ValueView>) -> Option<Seq<u8>> {
    match cell.cdr {
        Some(bytes) => Some(bytes),
        None => {
            let value = match cell.sample {
                SampleDataView::SDKData(value) => Some(value),
                SampleDataView::SHMData(_) => loaned,
                _ => None,
            };
            match value {
                Some(value) => if value.encodable() {
                    Some(pad4(value.message()))
                } else {
                    None
                },
                None => None,
            }
        },
    }
}

/// The view that a cell gives of `size` of its bytes from `offset` on, and
/// the cell after it. A view adds an owner. A cell that holds a key alone
/// gives its whole key hash. A cell that holds a value encodes it once,
/// keeps the encoding, and gives the part asked for where that lies within
/// it.
pub open spec fn ser_ref_of(cell: SerDataView, offset: nat, size: nat, loaned: Option<ValueView>) -> (
    Option<SerRef>,
    SerDataView,
) {
    match cell.sample {
        SampleDataView::Uninitialized => (None, cell),
        SampleDataView::SDKKey => if cell.refc == u32::MAX {
            (None, cell)
        } else {
            (
                Some(SerRef { key: true, offset: 0, len: cell.key_hash.bytes().len() as usize }),
                SerDataView { refc: (cell.refc + 1) as u32, ..cell },
            )
        },
        _ => match store_of(cell, loaned) {
            None => (None, cell),
            Some(bytes) => if offset + size <= bytes.len() && cell.refc < u32::MAX {
                (
                    Some(SerRef { key: false, offset: offset as usize, len: size as usize }),
                    SerDataView { refc: (cell.refc + 1) as u32, cdr: Some(bytes), ..cell },
                )
            } else {
                (None, SerDataView { cdr: Some(bytes), ..cell })
            },
        },
    }
}

/// The view of a decoded value reads the encoding of that value. A cell
/// that holds a decoded value and gives a view has in store, from then on,
/// the encoding of the value filled up to a multiple of four, whether it
/// had stored one before or not, and the view lies within it.
pub proof fn theorem_view_reads_the_encoding(cell: SerDataView, offset: nat, size: nat, loaned: Option<ValueView>)
    requires
        cell.coherent(),
        cell.sample is SDKData,
        ser_ref_of(cell, offset, size, loaned).0 is Some,
    ensures
        cell.sample->SDKData_0.encodable(),
        ser_ref_of(cell, offset, size, loaned).1.cdr == Some(pad4(cell.sample->SDKData_0.message())),
        ser_ref_of(cell, offset, size, loaned).1.coherent(),
        ser_ref_of(cell, offset, size, loaned).0 == Some(
            SerRef { key: false, offset: offset as usize, len: size as usize },
        ),
        offset + size <= pad4(cell.sample->SDKData_0.message()).len(),
{
}

/// The encoding of `value`, filled up with zero bytes to a multiple of
/// four.
fn padded_encoding(value: &Value, maybe_size: Option<u32>) -> (r: Option<Vec<u8>>)
    ensures
        value@.encodable() ==> r is Some && r->Some_0@ == pad4(value@.message()),
        !value@.encodable() ==> r is None,
{
    match serialize_type(value, maybe_size) {
        Err(_) => None,
        Ok(bytes) => {
            let mut bytes = bytes;
            let ghost message = bytes@;
            let phase = bytes.len() % 4;
            let pad = if phase == 0 {
                0
            } else {
                4 - phase
            };
            let mut i: usize = 0;
            while i < pad
                invariant
                    i <= pad,
                    bytes@ == message + zeros(i as nat),
                decreases pad - i,
            {
                bytes.push(0u8);
                assert(bytes@ == message + zeros((i + 1) as nat));
                i += 1;
            }
            Some(bytes)
        },
    }
}

/// Gives a view of `size` bytes of a cell from `offset` on, without a copy.
/// The view adds an owner to the cell, whom `serdata_to_ser_unref` takes
/// again.
pub fn serdata_to_ser_ref(serdata: &mut SerData, offset: usize, size: usize, loaned: Option<&Value>) -> (r:
    Option<SerRef>)
    ensures
        (r, final(serdata)@) == ser_ref_of(
            old(serdata)@,
            offset as nat,
            size as nat,
            match loaned {
                Some(value) => Some(value@),
                None => None,
            },
        ),
        old(serdata)@.coherent(),
        final(serdata)@.coherent(),
{
    proof {
        use_type_invariant(&*serdata);
    }
    match &serdata.sample {
        SampleData::Uninitialized => {
            return None;
        },
        SampleData::SDKKey => {
            if serdata.refc == u32::MAX {
                return None;
            }
            let len = serdata.key_hash.key_length();
            serdata.refc = serdata.refc + 1;
            return Some(SerRef { key: true, offset: 0, len });
        },
        SampleData::SDKData(sample) => {
            if serdata.cdr.is_none() {
                serdata.cdr = padded_encoding(sample, serdata.serialized_size);
            }
        },
        SampleData::SHMData(_) => {
            if serdata.cdr.is_none() {
                match loaned {
                    Some(sample) => {
                        serdata.cdr = padded_encoding(sample, serdata.serialized_size);
                    },
                    None => {},
                }
            }
        },
    }
    match &serdata.cdr {
        None => {
            return None;
        },
        Some(cdr) => {
            let len = cdr.len();
            if offset > len || size > len - offset || serdata.refc == u32::MAX {
                return None;
            }
        },
    }
    serdata.refc = serdata.refc + 1;
    return Some(SerRef { key: false, offset, len: size });
}

impl SerData {
    /// The bytes of a view that the cell gave.
    pub fn bytes_of(&self, view: &SerRef) -> (r: Option<&[u8]>)
        ensures
            view.key ==> r is Some && r->Some_0@ == self@.key_hash.bytes(),
            !view.key ==> match self@.cdr {
                Some(bytes) => if view.offset + view.len <= bytes.len() {
                    r is Some && r->Some_0@ == bytes.subrange(view.offset as int, view.offset + view.len)
                } else {
                    r is None
                },
                None => r is None,
            },
            self@.coherent(),
    {
        proof {
            use_type_invariant(self);
        }
        if view.key {
            return Some(self.key_hash.get_key_hash());
        }
        match &self.cdr {
            None => None,
            Some(cdr) => {
                let len = cdr.len();
                if view.offset > len || view.len > len - view.offset {
                    None
                } else {
                    Some(slice_subrange(cdr.as_slice(), view.offset, view.offset + view.len))
                }
            },
        }
    }
}

/// What the header of a chunk of shared memory says, and the bytes of the
/// chunk.
pub struct Chunk<'a> {
    pub shm_data_state: u32,
    pub data_size: u32,
    pub data: &'a [u8],
}

/// What the header of a chunk of shared memory says, and the bytes of the
/// chunk.
pub struct ChunkView {
    pub shm_data_state: u32,
    pub data_size: u32,
    pub data: Seq<u8>,
}

impl<'a> View for Chunk<'a> {
    type V = ChunkView;

    open spec fn view(&self) -> ChunkView {
        ChunkView { shm_data_state: self.shm_data_state, data_size: self.data_size, data: self.data@ }
    }
}

/// What a cell learns of its sample when the sample is asked for.
pub enum CellChange {
    /// Nothing.
    Same,
    /// The key hash of the key that the chunk holds.
    KeyOnly(Seq<u8>),
    /// The value that the chunk holds encoded.
    Decoded(ValueView),
    /// That the chunk holds the value as it lies in memory.
    Lent(ChunkId),
}

/// What a cell learns from the chunk that it arrived in. A cell that
/// arrived in none learns nothing. A chunk holds its sample encoded, which
/// is decoded now, or as it lies in memory, which takes the size of the
/// type. There is no answer where the cell arrived in a chunk that is not
/// handed in, where the chunk is shorter than it says, where its bytes are
/// no encoding of a value of the type, and where its size is not that of
/// the type.
pub open spec fn sample_change(cell: SerDataView, sertype: SerType, chunk: Option<ChunkView>) -> Result<
    CellChange,
    (),
> {
    match cell.iox_chunk {
        None => Ok(CellChange::Same),
        Some(id) => match chunk {
            None => Err(()),
            Some(c) => if c.shm_data_state == IOX_CHUNK_CONTAINS_SERIALIZED_DATA {
                if c.data_size > c.data.len() {
                    Err(())
                } else {
                    let bytes = c.data.take(c.data_size as int);
                    if cell.kind == SDK_KEY {
                        Ok(CellChange::KeyOnly(key_token(bytes, scheme_of(sertype.key_holder_view()))))
                    } else {
                        match sertype.shape_view().message_decoding(bytes, None) {
                            Ok(value) => Ok(CellChange::Decoded(value)),
                            Err(_) => Err(()),
                        }
                    }
                }
            } else if c.data_size == sertype.size() {
                Ok(CellChange::Lent(id))
            } else {
                Err(())
            },
        },
    }
}

/// Whether `after` is the cell `before` with what it learnt. A cell that
/// learns a key or a value from encoded bytes has no encoding in store any
/// more: what it had stored was the encoding of what it held before. Nor
/// does a cell that learns anything keep a size.
pub open spec fn changed(before: SerDataView, after: SerDataView, sertype: SerType, change: CellChange) -> bool {
    match change {
        CellChange::Same => after == before,
        CellChange::KeyOnly(token) => is_cdr_key(after.key_hash, token) && after == (SerDataView {
            sample: SampleDataView::SDKKey,
            key_hash: after.key_hash,
            cdr: None,
            serialized_size: None,
            ..before
        }),
        CellChange::Decoded(value) => after == (SerDataView {
            sample: SampleDataView::SDKData(value),
            hash: after.hash,
            key_hash: after.key_hash,
            cdr: None,
            serialized_size: None,
            ..before
        }) && match hashes_of(sertype, value) {
            Some((hash, token)) => after.hash == hash && is_cdr_key(after.key_hash, token),
            None => after.hash == before.hash && after.key_hash == before.key_hash,
        },
        CellChange::Lent(id) => after == (SerDataView {
            sample: SampleDataView::SHMData(id),
            serialized_size: None,
            ..before
        }),
    }
}

/// What a cell learns from the chunk that it arrived in.
fn learn(serdata: &mut SerData, sertype: &SerType, chunk: Option<&Chunk>, s: &mut Sample) -> (r: Result<(), ()>)
    ensures
        match sample_change(
            old(serdata)@,
            *sertype,
            match chunk {
                Some(c) => Some(c@),
                None => None,
            },
        ) {
            Err(_) => r is Err && final(serdata)@ == old(serdata)@ && final(s)@ == old(s)@,
            Ok(change) => r is Ok && changed(old(serdata)@, final(serdata)@, *sertype, change)
                && final(s)@ == (SampleView {
                sample: match change {
                    CellChange::Decoded(value) => Some(SampleStorageView::Owned(value)),
                    _ => old(s)@.sample,
                },
                ..old(s)@
            }),
        },
{
    proof {
        use_type_invariant(&*serdata);
    }
    let id = match serdata.iox_chunk {
        None => {
            return Ok(());
        },
        Some(id) => id,
    };
    // We got data from Iceoryx, deal with it
    let hdr = match chunk {
        None => {
            return Err(());
        },
        Some(c) => c,
    };
    if hdr.shm_data_state == IOX_CHUNK_CONTAINS_SERIALIZED_DATA {
        // we have to deserialize the data now
        if hdr.data_size as usize > hdr.data.len() {
            return Err(());
        }
        let reader = slice_subrange(hdr.data, 0, hdr.data_size as usize);
        if serdata.kind == SDK_KEY {
            serdata.cdr = None;
            serdata.serialized_size = None;
            serdata.key_hash = compute_key_hash(reader, sertype.scheme());
            serdata.sample = SampleData::SDKKey;
            return Ok(());
        } else {
            match decode_bytes(sertype.shape(), reader) {
                Ok(decoded) => {
                    serdata.cdr = None;
                    serdata.serialized_size = None;
                    match key_hashes(sertype, &decoded) {
                        Some((hash, key_hash)) => {
                            serdata.hash = hash;
                            serdata.key_hash = key_hash;
                        },
                        None => {},
                    }
                    let decoded = Arc::new(decoded);
                    // store the deserialized sample in the serdata. We don't need to deserialize again
                    s.set(share(&decoded));
                    serdata.sample = SampleData::SDKData(decoded);
                    return Ok(());
                },
                Err(_) => {
                    return Err(());
                },
            }
        }
    } else {
        // Not serialized data, we make a sample out of the data and store it in our sample
        if hdr.data_size as usize == sertype.byte_size() {
            serdata.serialized_size = None;
            serdata.sample = SampleData::SHMData(id);
            return Ok(());
        } else {
            return Err(());
        }
    }
}

/// Lets a slot refer to a cell, and makes it an owner of the cell, until
/// `sample_release`. The slot refers to no other cell any more: where it
/// did, it is to be released from that one first. A cell that can have no
/// more owners is not referred to.
pub fn sample_set_serdata(sample: &mut Sample, serdata: &mut SerData) -> (r: Result<(), RefError>)
    ensures
        old(serdata)@.refc < u32::MAX ==> r is Ok && final(serdata)@ == (SerDataView {
            refc: (old(serdata)@.refc + 1) as u32,
            ..old(serdata)@
        }) && final(sample)@ == (SampleView { serdata: Some(old(serdata)@.sample), sample: old(sample)@.sample }),
        old(serdata)@.refc == u32::MAX ==> r == Err::<(), RefError>(RefError::TooManyOwners)
            && final(serdata)@ == old(serdata)@ && final(sample)@ == old(sample)@,
{
    match serdata_addref(serdata) {
        Err(e) => {
            return Err(e);
        },
        Ok(()) => {},
    }
    sample.set_serdata(&serdata.sample);
    return Ok(());
}

/// Ends the reference of a slot to the cell `serdata`: the slot refers to
/// no cell any more, and the owner that it was is taken from the cell. It
/// answers whether that was the last owner: then the cell is to be ended. A
/// slot that refers to no cell takes nothing.
pub fn sample_release(sample: &mut Sample, serdata: &mut SerData) -> (r: Result<bool, RefError>)
    ensures
        old(sample)@.serdata is None ==> r == Ok::<bool, RefError>(false) && final(sample)@ == old(sample)@
            && final(serdata)@ == old(serdata)@,
        old(sample)@.serdata is Some && old(serdata)@.refc > 0 ==> r == Ok::<bool, RefError>(
            old(serdata)@.refc == 1,
        ) && final(serdata)@ == (SerDataView { refc: (old(serdata)@.refc - 1) as u32, ..old(serdata)@ })
            && final(sample)@ == (SampleView { serdata: None, sample: old(sample)@.sample }),
        old(sample)@.serdata is Some && old(serdata)@.refc == 0 ==> r == Err::<bool, RefError>(RefError::NoOwner)
            && final(sample)@ == old(sample)@ && final(serdata)@ == old(serdata)@,
{
    if !sample.has_serdata() {
        return Ok(false);
    }
    match serdata_removeref(serdata) {
        Err(e) => {
            return Err(e);
        },
        Ok(last) => {
            sample.drop_serdata();
            return Ok(last);
        },
    }
}

/// Gives a slot the sample of a cell. A cell that arrived in a chunk of
/// shared memory first learns from the chunk what it holds. A cell that
/// then holds a value, decoded or in lent memory, lets the slot refer to
/// it: the slot becomes one more owner of the cell, until `sample_release`,
/// and the answer is `false`. The answer is `true` where the slot was given
/// no cell to refer to: the cell holds a key alone or nothing, the chunk
/// could not be read, or the cell can have no more owners.
pub fn serdata_to_sample(serdata: &mut SerData, sertype: &SerType, chunk: Option<&Chunk>, sample: &mut Sample) -> (r:
    bool)
    ensures
        match sample_change(
            old(serdata)@,
            *sertype,
            match chunk {
                Some(c) => Some(c@),
                None => None,
            },
        ) {
            Err(_) => r && final(serdata)@ == old(serdata)@ && final(sample)@ == old(sample)@,
            Ok(change) => changed(
                old(serdata)@,
                SerDataView { refc: old(serdata)@.refc, ..final(serdata)@ },
                *sertype,
                change,
            ) && r == !(final(serdata)@.holds_value() && old(serdata)@.refc < u32::MAX)
                && final(serdata)@.refc == (if r {
                old(serdata)@.refc as int
            } else {
                old(serdata)@.refc + 1
            }) && final(sample)@ == (SampleView {
                serdata: if r {
                    old(sample)@.serdata
                } else {
                    Some(final(serdata)@.sample)
                },
                sample: match change {
                    CellChange::Decoded(value) => Some(SampleStorageView::Owned(value)),
                    _ => old(sample)@.sample,
                },
            }),
        },
{
    match learn(serdata, sertype, chunk, sample) {
        Err(_) => {
            return true;
        },
        Ok(()) => {},
    }
    let holds_value = match &serdata.sample {
        SampleData::Uninitialized => false,
        SampleData::SDKKey => false,
        SampleData::SDKData(_data) => true,
        SampleData::SHMData(_data) => true,
    };
    if !holds_value {
        return true;
    }
    match sample_set_serdata(sample, serdata) {
        Err(_) => {
            return true;
        },
        Ok(()) => {
            return false;
        },
    }
}

} // verus!
