//! The names of a type and of its topic, from the path of the type.
use vstd::prelude::*;
use vstd::utf8::encode_utf8;

verus! {

/// The colon as a byte.
pub const COLON: u8 = 0x3a;

/// The slash as a byte.
pub const SLASH: u8 = 0x2f;

/// Whether `path` has a double colon at position `i`.
pub open spec fn separator_at(path: Seq<u8>, i: int) -> bool {
    0 <= i && i + 1 < path.len() && path[i] == COLON && path[i + 1] == COLON
}

/// What is written behind the first double colon from position `from` on,
/// and nothing where there is none.
pub open spec fn behind_first_separator(path: Seq<u8>, from: int) -> Seq<u8>
    decreases path.len() - from,
{
    if from < 0 || from + 1 >= path.len() {
        Seq::empty()
    } else if separator_at(path, from) {
        path.skip(from + 2)
    } else {
        behind_first_separator(path, from + 1)
    }
}

/// `path` from position `from` on, with a slash for each double colon.
pub open spec fn slashed(path: Seq<u8>, from: int) -> Seq<u8>
    decreases path.len() - from,
{
    if from < 0 || from >= path.len() {
        Seq::empty()
    } else if separator_at(path, from) {
        seq![SLASH] + slashed(path, from + 2)
    } else {
        seq![path[from]] + slashed(path, from + 1)
    }
}

/// The name of a type for the transport: its path without the first
/// segment, which names the crate.
pub open spec fn typename_of(path: Seq<u8>) -> Seq<u8> {
    behind_first_separator(path, 0)
}

/// The name of the topic of a type: a slash and the name of the type with
/// slashes for double colons, behind the prefix where one is given.
pub open spec fn topic_name_of(path: Seq<u8>, prefix: Option<Seq<u8>>) -> Seq<u8> {
    let name = seq![SLASH] + slashed(typename_of(path), 0);
    match prefix {
        Some(prefix) => prefix + name,
        None => name,
    }
}

/// The type name for a topic of the type whose path is `path`.
pub fn typename(path: &str) -> (r: Vec<u8>)
    ensures
        r@ == typename_of(encode_utf8(path@)),
{
    let bytes = path.as_bytes();
    let mut out: Vec<u8> = Vec::new();
    let n = bytes.len();
    let mut i: usize = 0;
    while i < n && i + 1 < n
        invariant
            n == bytes@.len(),
            i <= n,
            bytes@ == encode_utf8(path@),
            out@.len() == 0,
            behind_first_separator(bytes@, 0) == behind_first_separator(bytes@, i as int),
        decreases n - i,
    {
        if bytes[i] == COLON && bytes[i + 1] == COLON {
            let mut j: usize = i + 2;
            assert(bytes@.subrange(i + 2, i + 2) == Seq::<u8>::empty());
            while j < n
                invariant
                    n == bytes@.len(),
                    i + 2 <= j <= n,
                    out@ == bytes@.subrange(i + 2, j as int),
                decreases n - j,
            {
                out.push(bytes[j]);
                assert(bytes@.subrange(i + 2, j + 1) == bytes@.subrange(i + 2, j as int).push(bytes@[j as int]));
                j += 1;
            }
            assert(bytes@.subrange(i + 2, n as int) == bytes@.skip(i + 2));
            assert(behind_first_separator(bytes@, i as int) == bytes@.skip(i + 2));
            return out;
        }
        i += 1;
    }
    assert(behind_first_separator(bytes@, i as int) == Seq::<u8>::empty());
    assert(out@ == Seq::<u8>::empty());
    out
}

/// `path` with a slash for each double colon.
fn with_slashes(path: &Vec<u8>, out: &mut Vec<u8>)
    ensures
        final(out)@ == old(out)@ + slashed(path@, 0),
{
    let n = path.len();
    let mut i: usize = 0;
    while i < n
        invariant
            n == path@.len(),
            i <= n,
            out@ + slashed(path@, i as int) == old(out)@ + slashed(path@, 0),
        decreases n - i,
    {
        let ghost before = out@;
        if i + 1 < n && path[i] == COLON && path[i + 1] == COLON {
            out.push(SLASH);
            assert(out@ + slashed(path@, i + 2) == before + (seq![SLASH] + slashed(path@, i + 2)));
            i += 2;
        } else {
            out.push(path[i]);
            assert(out@ + slashed(path@, i + 1) == before + (seq![path@[i as int]] + slashed(path@, i + 1)));
            i += 1;
        }
    }
    assert(slashed(path@, n as int) == Seq::<u8>::empty());
    assert(out@ + Seq::<u8>::empty() == out@);
}

/// The default topic name to use when creating a topic of the type whose
/// path is `path`. It uses '/' instead of '::' to form a unix like path. A
/// prefix can optionally be added.
pub fn topic_name(path: &str, maybe_prefix: Option<&str>) -> (r: Vec<u8>)
    ensures
        r@ == topic_name_of(
            encode_utf8(path@),
            match maybe_prefix {
                Some(prefix) => Some(encode_utf8(prefix@)),
                None => None,
            },
        ),
{
    let name = typename(path);
    let mut out: Vec<u8> = Vec::new();
    match maybe_prefix {
        Some(prefix) => {
            out.extend_from_slice(prefix.as_bytes());
            assert(out@ == encode_utf8(prefix@));
        },
        None => {},
    }
    let ghost front = out@;
    out.push(SLASH);
    with_slashes(&name, &mut out);
    assert(out@ == front + (seq![SLASH] + slashed(name@, 0)));
    out
}

} // verus!
