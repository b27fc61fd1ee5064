//! The metadata block: found after the last sentinel, read as a map.
use vstd::prelude::*;
use vstd::slice::slice_subrange;
use vstd::utf8::encode_utf8;

use crate::decoder::Decoder;
use crate::format::{ctrl_at, lemma_map_uints_skips, map_uints, skip_values, Type};
use crate::value::Error;

verus! {

/// The bytes `AB CD EF` followed by `MaxMind.com`, which introduce the
/// metadata map.
pub open spec fn sentinel() -> Seq<u8> {
    seq![0xABu8, 0xCDu8, 0xEFu8, 0x4Du8, 0x61u8, 0x78u8, 0x4Du8, 0x69u8, 0x6Eu8, 0x64u8, 0x2Eu8, 0x63u8, 0x6Fu8, 0x6Du8]
}

/// The sentinel starts at `i` in `b`.
pub open spec fn sentinel_at(b: Seq<u8>, i: int) -> bool {
    0 <= i && i + 14 <= b.len() && b.subrange(i, i + 14) == sentinel()
}

/// The last sentinel in `b` starts at `i`.
pub open spec fn is_last_sentinel(b: Seq<u8>, i: int) -> bool {
    sentinel_at(b, i) && forall|j: int| i < j ==> !#[trigger] sentinel_at(b, j)
}

/// The keys of the metadata map that a reader needs, as UTF-8 bytes.
pub open spec fn metadata_keys() -> Seq<Seq<u8>> {
    seq![encode_utf8("node_count"@), encode_utf8("record_size"@), encode_utf8("ip_version"@)]
}

/// The trie parameters that the metadata map gives.
#[derive(Clone, Copy, Debug, PartialEq, Eq, Structural)]
pub struct Metadata {
    /// The number of trie nodes; also the record value that means "no data".
    pub node_count: u64,
    /// The width of one trie record in bits: 24, 28 or 32.
    pub record_size: u64,
    /// 4 or 6.
    pub ip_version: u64,
}

/// Parameters that a reader can work with.
pub open spec fn valid_parameters(m: Metadata) -> bool {
    &&& (m.record_size == 24 || m.record_size == 28 || m.record_size == 32)
    &&& (m.ip_version == 4 || m.ip_version == 6)
}

/// The metadata that a map at the start of `t` gives, with the three keys
/// present and valid parameters.
pub open spec fn metadata_from_map(t: Seq<u8>) -> Option<Metadata> {
    match map_uints(t, 0, metadata_keys()) {
        Some(v) => if v.len() == 3 && v[0] is Some && v[1] is Some && v[2] is Some {
            let m = Metadata { node_count: v[0]->0, record_size: v[1]->0, ip_version: v[2]->0 };
            if valid_parameters(m) {
                Some(m)
            } else {
                None
            }
        } else {
            None
        },
        None => None,
    }
}

/// The metadata that `b` holds: that of the map after its last sentinel.
pub open spec fn decoded_metadata(b: Seq<u8>) -> Option<Metadata> {
    if exists|i: int| is_last_sentinel(b, i) {
        let i = choose|i: int| is_last_sentinel(b, i);
        metadata_from_map(b.subrange(i + 14, b.len() as int))
    } else {
        None
    }
}

/// The metadata of `prefix ++ sentinel ++ tail`, where no sentinel starts
/// after `prefix`, is read from `tail` alone: whatever the prefix holds and
/// however long the tail is, the metadata block starts right after the
/// sentinel.
pub proof fn lemma_metadata_after_last_sentinel(prefix: Seq<u8>, tail: Seq<u8>)
    requires
        forall|j: int| prefix.len() < j ==> !#[trigger] sentinel_at(prefix + sentinel() + tail, j),
    ensures
        is_last_sentinel(prefix + sentinel() + tail, prefix.len() as int),
        decoded_metadata(prefix + sentinel() + tail) == metadata_from_map(tail),
{
    let b = prefix + sentinel() + tail;
    let n = prefix.len() as int;
    assert(b.subrange(n, n + 14) =~= sentinel());
    assert(is_last_sentinel(b, n));
    let i = choose|i: int| is_last_sentinel(b, i);
    assert(i == n) by {
        if i < n {
            assert(!sentinel_at(b, n));
        }
    }
    assert(b.subrange(n + 14, b.len() as int) =~= tail);
}

/// In an image whose metadata reads, the block after the last sentinel
/// starts with a map, and the whole map decodes as one value.
pub proof fn lemma_metadata_block_is_map(b: Seq<u8>)
    requires
        decoded_metadata(b) is Some,
    ensures
        exists|i: int| is_last_sentinel(b, i),
        ({
            let i = choose|i: int| is_last_sentinel(b, i);
            let t = b.subrange(i + 14, b.len() as int);
            &&& ctrl_at(t, 0) matches Some(c) && c.ty == Type::Dict
            &&& skip_values(t, 0, 1) is Some
        }),
{
    let i = choose|i: int| is_last_sentinel(b, i);
    lemma_map_uints_skips(b.subrange(i + 14, b.len() as int), 0, metadata_keys());
}

/// Whether the sentinel starts at `i`.
fn is_sentinel_at(b: &[u8], i: usize) -> (r: bool)
    requires
        i + 14 <= b@.len(),
    ensures
        r == sentinel_at(b@, i as int),
{
    let r = b[i] == 0xAB && b[i + 1] == 0xCD && b[i + 2] == 0xEF && b[i + 3] == 0x4D && b[i + 4]
        == 0x61 && b[i + 5] == 0x78 && b[i + 6] == 0x4D && b[i + 7] == 0x69 && b[i + 8] == 0x6E
        && b[i + 9] == 0x64 && b[i + 10] == 0x2E && b[i + 11] == 0x63 && b[i + 12] == 0x6F && b[i
        + 13] == 0x6D;
    assert(r ==> b@.subrange(i as int, i + 14) =~= sentinel());
    proof {
        if sentinel_at(b@, i as int) {
            assert forall|k: int| 0 <= k < 14 implies b@[i + k] == #[trigger] sentinel()[k] by {
                assert(b@.subrange(i as int, i + 14)[k] == sentinel()[k]);
            }
        }
    }
    r
}

impl Metadata {
    /// The offset at which the metadata map starts: just after the last
    /// sentinel in `buffer`, scanning from its end; `None` without one.
    pub fn get_metadata_block_offset(buffer: &[u8]) -> (r: Option<usize>)
        ensures
            match r {
                Some(offset) => offset >= 14 && is_last_sentinel(buffer@, offset - 14),
                None => forall|i: int| !#[trigger] sentinel_at(buffer@, i),
            },
    {
        let len = buffer.len();
        if len < 14 {
            return None;
        }
        let mut i: usize = len - 14 + 1;
        while i > 0
            invariant
                i <= len - 13,
                len == buffer@.len(),
                forall|j: int| i <= j ==> !#[trigger] sentinel_at(buffer@, j),
            decreases i,
        {
            i = i - 1;
            if is_sentinel_at(buffer, i) {
                return Some(i + 14);
            }
        }
        None
    }

    /// Reads the metadata of a database image.
    pub fn parse_metadata(buffer: &[u8]) -> (r: Result<Metadata, Error>)
        ensures
            match decoded_metadata(buffer@) {
                Some(m) => r == Ok::<Metadata, Error>(m),
                None => r == Err::<Metadata, Error>(Error::MalformedMetadata),
            },
    {
        let offset = match Metadata::get_metadata_block_offset(buffer) {
            None => return Err(Error::MalformedMetadata),
            Some(o) => o,
        };
        proof {
            let i = choose|i: int| is_last_sentinel(buffer@, i);
            assert(i == offset - 14) by {
                if i < offset - 14 {
                    assert(!sentinel_at(buffer@, offset - 14));
                } else if i > offset - 14 {
                    assert(!sentinel_at(buffer@, i));
                }
            }
        }
        let tail = slice_subrange(buffer, offset, buffer.len());
        let mut decoder = Decoder::new(tail, 0);
        let mut fields: Vec<&str> = Vec::new();
        fields.push("node_count");
        fields.push("record_size");
        fields.push("ip_version");
        assert(fields@.map_values(|s: &str| encode_utf8(s@)) =~= metadata_keys());
        let values = match decoder.decode_map(fields.as_slice()) {
            Err(_) => return Err(Error::MalformedMetadata),
            Ok(v) => v,
        };
        if values.len() != 3 {
            return Err(Error::MalformedMetadata);
        }
        let (node_count, record_size, ip_version) = match (values[0], values[1], values[2]) {
            (Some(n), Some(r), Some(v)) => (n, r, v),
            _ => return Err(Error::MalformedMetadata),
        };
        if record_size != 24 && record_size != 28 && record_size != 32 {
            return Err(Error::MalformedMetadata);
        }
        if ip_version != 4 && ip_version != 6 {
            return Err(Error::MalformedMetadata);
        }
        Ok(Metadata { node_count, record_size, ip_version })
    }
}

} // verus!
