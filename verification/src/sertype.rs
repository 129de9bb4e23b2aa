//! The identity of an application type towards the transport.
use crate::key::{classify, force_md5_keyhash, has_key, key_holder_of, scheme_of, KeyError, KeyScheme};
use crate::key_hash::murmur3_32_of;
use crate::sg_reader::{fragment_views, SGReader};
use crate::value::{Shape, ShapeView};
use vstd::prelude::*;
use vstd::utf8::encode_utf8;

verus! {

/// The eight bytes of `x`, the least significant first.
pub open spec fn le_bytes(x: nat, w: nat) -> Seq<u8>
    decreases w,
{
    if w == 0 {
        Seq::empty()
    } else {
        seq![(x % 256) as u8] + le_bytes(x / 256, (w - 1) as nat)
    }
}

/// What the per-type hash runs over: the name of the type, then the eight
/// bytes of the size of its values in memory, the least significant first.
pub open spec fn hash_input(name: Seq<char>, type_size: nat) -> Seq<u8> {
    encode_utf8(name) + le_bytes(type_size, 8)
}

/// The eight bytes of `x`, the least significant first.
fn size_bytes(x: u64) -> (r: Vec<u8>)
    ensures
        r@ == le_bytes(x as nat, 8),
{
    let mut out: Vec<u8> = Vec::new();
    let mut rest = x;
    let mut i: usize = 0;
    proof {
        reveal_with_fuel(le_bytes, 9);
    }
    while i < 8
        invariant
            i <= 8,
            out@ + le_bytes(rest as nat, (8 - i) as nat) == le_bytes(x as nat, 8),
        decreases 8 - i,
    {
        let ghost before = out@;
        out.push((rest % 256) as u8);
        proof {
            assert(le_bytes(rest as nat, (8 - i) as nat) == seq![(rest % 256) as u8] + le_bytes(
                (rest / 256) as nat,
                (8 - i - 1) as nat,
            ));
            assert(out@ + le_bytes((rest / 256) as nat, (8 - i - 1) as nat) == before + (seq![
                (rest % 256) as u8,
            ] + le_bytes((rest / 256) as nat, (8 - i - 1) as nat)));
        }
        rest = rest / 256;
        i += 1;
    }
    assert(le_bytes(rest as nat, 0) == Seq::<u8>::empty());
    assert(out@ + Seq::<u8>::empty() == out@);
    out
}

/// The identity of an application type towards the transport, fixed when
/// the type is registered.
pub struct SerType {
    name: String,
    shape: Shape,
    key_holder: Shape,
    has_key: bool,
    force_md5: bool,
    scheme: KeyScheme,
    fixed_size: bool,
    type_size: usize,
    iox_size: u32,
}

impl SerType {
    #[verifier::type_invariant]
    closed spec fn inv(self) -> bool {
        &&& self.shape@.key_holder() == Some(self.key_holder@)
        &&& self.has_key == self.key_holder@.holds_data()
        &&& self.force_md5 == (scheme_of(self.key_holder@) == KeyScheme::Reduced)
        &&& self.scheme == scheme_of(self.key_holder@)
        &&& self.iox_size == (self.type_size as int) % 0x1_0000_0000
    }

    /// The name of the type.
    pub closed spec fn name(self) -> Seq<char> {
        self.name@
    }

    /// The shape of the values of the type.
    pub closed spec fn shape_view(self) -> ShapeView {
        self.shape@
    }

    /// Whether the encoding of the type has one length for all values.
    pub closed spec fn fixed(self) -> bool {
        self.fixed_size
    }

    /// The number of bytes of a value of the type in memory.
    pub closed spec fn size(self) -> nat {
        self.type_size as nat
    }

    /// Every type has a key holder, and what it holds of the type follows
    /// from the holder.
    pub open spec fn key_holder_view(self) -> ShapeView {
        self.shape_view().key_holder()->Some_0
    }

    /// Registers a type: its name, the shape of its values, whether its
    /// encoding has one length for all values, and the number of bytes of a
    /// value in memory. A type with a key member that no key holder can keep
    /// is refused, and nothing of it is registered.
    pub fn new(name: String, shape: Shape, is_fixed_size: bool, type_size: usize) -> (r: Result<
        SerType,
        KeyError,
    >)
        ensures
            shape@.key_holder() is None ==> r == Err::<SerType, KeyError>(KeyError::UnsupportedKey),
            shape@.key_holder() is Some ==> r is Ok && r->Ok_0.name() == name@ && r->Ok_0.shape_view()
                == shape@ && r->Ok_0.fixed() == is_fixed_size && r->Ok_0.size() == type_size,
    {
        let key_holder = match key_holder_of(&shape) {
            Err(e) => {
                return Err(e);
            },
            Ok(holder) => holder,
        };
        let has_key = has_key(&key_holder);
        let force_md5 = force_md5_keyhash(&key_holder);
        let scheme = classify(&key_holder);
        let iox_size = (type_size as u64 % 0x1_0000_0000) as u32;
        Ok(
            SerType {
                name,
                shape,
                key_holder,
                has_key,
                force_md5,
                scheme,
                fixed_size: is_fixed_size,
                type_size,
                iox_size,
            },
        )
    }

    /// The name of the type.
    pub fn typename(&self) -> (r: &String)
        ensures
            r@ == self.name(),
    {
        &self.name
    }

    /// The shape of the values of the type.
    pub fn shape(&self) -> (r: &Shape)
        ensures
            r@ == self.shape_view(),
    {
        &self.shape
    }

    /// The key holder of the type.
    pub fn key_holder(&self) -> (r: &Shape)
        ensures
            r@ == self.key_holder_view(),
    {
        proof {
            use_type_invariant(self);
        }
        &self.key_holder
    }

    /// Whether the type has a key.
    pub fn has_key(&self) -> (r: bool)
        ensures
            r == self.key_holder_view().holds_data(),
    {
        proof {
            use_type_invariant(self);
        }
        self.has_key
    }

    /// Whether the key hash of the type is a digest: whether its scheme is
    /// `Reduced`.
    pub fn force_md5_keyhash(&self) -> (r: bool)
        ensures
            r == (scheme_of(self.key_holder_view()) == KeyScheme::Reduced),
            self.key_holder_view().varies() ==> r,
    {
        proof {
            use_type_invariant(self);
        }
        self.force_md5
    }

    /// The scheme of the key hash of the type, decided when the type was
    /// registered.
    pub fn scheme(&self) -> (r: KeyScheme)
        ensures
            r == scheme_of(self.key_holder_view()),
    {
        proof {
            use_type_invariant(self);
        }
        self.scheme
    }

    /// The number of bytes of a value of the type in memory.
    pub fn byte_size(&self) -> (r: usize)
        ensures
            r == self.size(),
    {
        self.type_size
    }

    /// Whether the encoding of the type has one length for all values.
    pub fn is_fixed_size(&self) -> (r: bool)
        ensures
            r == self.fixed(),
    {
        self.fixed_size
    }

    /// The number of bytes of a loaned sample of the type: the size of a
    /// value in memory, cut to 32 bits.
    pub fn iox_size(&self) -> (r: u32)
        ensures
            r == (self.size() as int) % 0x1_0000_0000,
    {
        proof {
            use_type_invariant(self);
        }
        self.iox_size
    }

    /// Whether two types are the same to the transport: whether they have
    /// the same name. Their shapes are not looked at.
    pub fn equal(a: &SerType, b: &SerType) -> (r: bool)
        ensures
            r == (a.name() == b.name()),
    {
        a.name == b.name
    }

    /// The hash by which the transport sorts the type into its tables: the
    /// MurmurHash3, under seed 0, of the name and the size read through a
    /// reader of the two fragments. It is the same for the whole life of the
    /// type. A name that the hasher cannot count hashes to 0.
    pub fn hash(&self) -> (r: u32)
        ensures
            hash_input(self.name(), self.size()).len() <= u32::MAX ==> r == murmur3_32_of(
                hash_input(self.name(), self.size()),
                0,
            ),
            hash_input(self.name(), self.size()).len() > u32::MAX ==> r == 0,
    {
        let name_bytes = self.name.as_str().as_bytes();
        let type_size = size_bytes(self.type_size as u64);
        let sg_list: [&[u8]; 2] = [name_bytes, type_size.as_slice()];
        let mut sg_buffer = SGReader::new(sg_list.as_slice());
        let mut all: Vec<u8> = Vec::new();
        proof {
            let frags = fragment_views(sg_list@);
            assert(frags.len() == 2 && frags[0] == name_bytes@ && frags[1] == type_size@);
            reveal_with_fuel(crate::sg_reader::flatten_from, 3);
            assert(frags[0].skip(0) == frags[0]);
            assert(sg_buffer@.remaining() == name_bytes@ + type_size@);
        }
        sg_buffer.read_to_end(&mut all);
        assert(all@ == hash_input(self.name(), self.size()));
        crate::key_hash::hash(all.as_slice())
    }
}

} // verus!
