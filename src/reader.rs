//! The reader: a database image, its trie walk, and field lookups.
use vstd::prelude::*;
use vstd::slice::slice_subrange;

use crate::decoder::Decoder;
use crate::format::{
    be_value, field, is_map_at, lemma_absent_path, lemma_be_value_bound, lemma_no_paths,
    lemma_projection_concat, pow256,
    projected, projection_found, FieldValue,
};
use crate::metadata::{decoded_metadata, valid_parameters, Metadata};
use crate::record::Record;
use crate::value::Error;

verus! {

/// An IP address: the four octets of a version 4 address, or the sixteen of
/// a version 6 one, most significant first.
#[derive(Clone, Copy, Debug, PartialEq, Eq)]
pub enum IpAddress {
    V4([u8; 4]),
    V6([u8; 16]),
}

/// The octets of an address.
pub open spec fn octets(ip: IpAddress) -> Seq<u8> {
    match ip {
        IpAddress::V4(o) => o@,
        IpAddress::V6(o) => o@,
    }
}

/// The address as one big-endian number.
pub open spec fn ip_key(ip: IpAddress) -> u128 {
    be_value(octets(ip)) as u128
}

/// The number of bits in the address: 32 or 128.
pub open spec fn ip_bits(ip: IpAddress) -> nat {
    8 * octets(ip).len()
}

/// Bit `i` of `key`, counting from the least significant.
pub open spec fn key_bit(key: u128, i: nat) -> bool {
    (key >> i) & 1 == 1
}

/// The size of a trie node in bytes.
pub open spec fn node_bytes(m: Metadata) -> int {
    (m.record_size / 4) as int
}

/// The size of the search trie in bytes.
pub open spec fn tree_bytes(m: Metadata) -> int {
    m.node_count * node_bytes(m)
}

/// The left (`right == false`) or right record of a node. A 24- or 32-bit
/// record is its bytes; a 28-bit record takes its most significant nibble
/// from the middle byte of the node: the high nibble for the left record,
/// the low one for the right.
pub open spec fn record_value(b: Seq<u8>, m: Metadata, node: int, right: bool) -> int {
    let w = node_bytes(m);
    let off = node * w;
    if m.record_size == 28 {
        let mid = b[off + 3];
        if right {
            (mid % 16) * 16777216 + be_value(b.subrange(off + 4, off + 7))
        } else {
            (mid / 16) * 16777216 + be_value(b.subrange(off, off + 3))
        }
    } else {
        let h = w / 2;
        if right {
            be_value(b.subrange(off + h, off + w)) as int
        } else {
            be_value(b.subrange(off, off + h)) as int
        }
    }
}

/// Node `node` exists and its bytes lie within the image.
pub open spec fn node_readable(b: Seq<u8>, m: Metadata, node: int) -> bool {
    0 <= node < m.node_count && node * node_bytes(m) + node_bytes(m) <= b.len()
}

/// The trie walk from `node` over the `bits` low bits of `key`, most
/// significant first: a record below the node count is the next node, one
/// equal to it means no data, and one above it is the answer. A node that
/// does not exist or lies beyond the end of the image is malformed data.
pub open spec fn descend(b: Seq<u8>, m: Metadata, node: int, key: u128, bits: nat) -> Result<
    Option<u64>,
    (),
>
    decreases bits,
{
    if bits == 0 {
        Ok(None)
    } else if !node_readable(b, m, node) {
        Err(())
    } else {
        let v = record_value(b, m, node, key_bit(key, (bits - 1) as nat));
        if v < m.node_count {
            descend(b, m, v, key, (bits - 1) as nat)
        } else if v == m.node_count {
            Ok(None)
        } else {
            Ok(Some(v as u64))
        }
    }
}

/// The node where a walk starts: 96 for a version 4 address in a version 6
/// database, where such addresses sit below `::/96`; else the root.
pub open spec fn start_node(m: Metadata, ip: IpAddress) -> int {
    if ip is V4 && m.ip_version == 6 {
        96
    } else {
        0
    }
}

/// The record value that the trie holds for `ip`: `Ok(None)` where it holds
/// none, `Err` where the walk leaves the image.
pub open spec fn ip_record(b: Seq<u8>, m: Metadata, ip: IpAddress) -> Result<Option<u64>, ()> {
    descend(b, m, start_node(m, ip), ip_key(ip), ip_bits(ip))
}

/// The data section: what follows the trie and its 16-byte separator.
pub open spec fn data_section(b: Seq<u8>, m: Metadata) -> Seq<u8> {
    b.subrange(tree_bytes(m) + 16, b.len() as int)
}

/// Where the record for `ip` starts in the data section: `Ok(None)` where
/// there is no record, `Err` where the walk leaves the image, the record
/// points into the separator, or the image has no room for a data section.
pub open spec fn record_position(b: Seq<u8>, m: Metadata, ip: IpAddress) -> Result<Option<int>, ()> {
    match ip_record(b, m, ip) {
        Err(()) => Err(()),
        Ok(None) => Ok(None),
        Ok(Some(v)) => if v < m.node_count + 16 || tree_bytes(m) + 16 > b.len() {
            Err(())
        } else {
            Ok(Some(v - m.node_count - 16))
        },
    }
}

/// The outcome of a lookup of `paths` for `ip`: `Ok(false)` where the trie
/// holds no record, `Err` on malformed data.
pub open spec fn lookup_outcome(b: Seq<u8>, m: Metadata, ip: IpAddress, paths: Seq<Seq<char>>) -> Result<
    bool,
    (),
> {
    match record_position(b, m, ip) {
        Err(()) => Err(()),
        Ok(None) => Ok(false),
        Ok(Some(pos)) => projection_found(data_section(b, m), pos, paths),
    }
}

/// The entries that a lookup of `paths` for `ip` records.
pub open spec fn lookup_entries(b: Seq<u8>, m: Metadata, ip: IpAddress, paths: Seq<Seq<char>>) -> Seq<
    (Seq<char>, FieldValue),
> {
    match record_position(b, m, ip) {
        Ok(Some(pos)) => projected(data_section(b, m), pos, paths),
        _ => Seq::empty(),
    }
}

/// What `path` resolves to in the record that the trie holds for `ip`:
/// `Ok(None)` where there is no record, `Err` on malformed data.
pub open spec fn lookup_field(b: Seq<u8>, m: Metadata, ip: IpAddress, path: Seq<char>) -> Result<
    Option<FieldValue>,
    (),
> {
    match record_position(b, m, ip) {
        Err(()) => Err(()),
        Ok(None) => Ok(None),
        Ok(Some(pos)) => field(data_section(b, m), pos, path),
    }
}

/// `k` is the index of the first of `paths` whose lookup meets malformed
/// data, or the number of paths where none does.
pub open spec fn is_first_failure(
    b: Seq<u8>,
    m: Metadata,
    ip: IpAddress,
    paths: Seq<Seq<char>>,
    k: int,
) -> bool {
    &&& 0 <= k <= paths.len()
    &&& k < paths.len() ==> lookup_field(b, m, ip, paths[k]) is Err
    &&& forall|j: int| 0 <= j < k ==> !(#[trigger] lookup_field(b, m, ip, paths[j]) is Err)
}

/// A lookup whose trie walk found `v` resolves its paths in the data
/// section from `v - node_count - 16`.
proof fn lemma_lookup_parts(
    b: Seq<u8>,
    m: Metadata,
    ip: IpAddress,
    paths: Seq<Seq<char>>,
    d: Seq<u8>,
    pos: int,
)
    requires
        record_position(b, m, ip) == Ok::<Option<int>, ()>(Some(pos)),
        d == data_section(b, m),
    ensures
        lookup_outcome(b, m, ip, paths) == projection_found(d, pos, paths),
        lookup_entries(b, m, ip, paths) == projected(d, pos, paths),
        forall|path: Seq<char>| #[trigger] lookup_field(b, m, ip, path) == field(d, pos, path),
{
}

/// The first failing path of a lookup is the first failing path of its
/// projection.
proof fn lemma_first_failure_unique(
    b: Seq<u8>,
    m: Metadata,
    ip: IpAddress,
    paths: Seq<Seq<char>>,
    d: Seq<u8>,
    pos: int,
    k: int,
)
    requires
        record_position(b, m, ip) == Ok::<Option<int>, ()>(Some(pos)),
        d == data_section(b, m),
        0 <= k < paths.len(),
        field(d, pos, paths[k]) is Err,
        forall|j: int| 0 <= j < k ==> !(#[trigger] field(d, pos, paths[j]) is Err),
    ensures
        forall|k2: int| #[trigger] is_first_failure(b, m, ip, paths, k2) ==> k2 == k,
{
    lemma_lookup_parts(b, m, ip, paths, d, pos);
    assert forall|k2: int| #[trigger] is_first_failure(b, m, ip, paths, k2) implies k2 == k by {
        if k2 < k {
            assert(lookup_field(b, m, ip, paths[k2]) == field(d, pos, paths[k2]));
        } else if k2 > k {
            assert(lookup_field(b, m, ip, paths[k]) == field(d, pos, paths[k]));
        }
    }
}

/// A lookup of two path lists together records what the lookups of each
/// record, one after the other; where both lists are non-empty, it finds
/// something where either does, and meets malformed data where either does.
pub proof fn lemma_lookup_union(
    b: Seq<u8>,
    m: Metadata,
    ip: IpAddress,
    p: Seq<Seq<char>>,
    q: Seq<Seq<char>>,
)
    requires
        p.len() > 0,
        q.len() > 0,
    ensures
        lookup_entries(b, m, ip, p + q) == lookup_entries(b, m, ip, p) + lookup_entries(b, m, ip, q),
        lookup_outcome(b, m, ip, p + q) is Err <==> (lookup_outcome(b, m, ip, p) is Err
            || lookup_outcome(b, m, ip, q) is Err),
        lookup_outcome(b, m, ip, p + q) matches Ok(found) ==> found == (lookup_outcome(b, m, ip, p)
            == Ok::<bool, ()>(true) || lookup_outcome(b, m, ip, q) == Ok::<bool, ()>(true)),
{
    match record_position(b, m, ip) {
        Ok(Some(pos)) => {
            lemma_projection_concat(data_section(b, m), pos, p, q);
        },
        _ => {
            assert(Seq::<(Seq<char>, FieldValue)>::empty() + Seq::<(Seq<char>, FieldValue)>::empty()
                =~= Seq::<(Seq<char>, FieldValue)>::empty());
        },
    }
}

/// A lookup with no paths records nothing; it finds something exactly where
/// the trie holds a record and a map stands there.
pub proof fn lemma_lookup_no_paths(b: Seq<u8>, m: Metadata, ip: IpAddress)
    ensures
        lookup_entries(b, m, ip, Seq::empty()) == Seq::<(Seq<char>, FieldValue)>::empty(),
        is_first_failure(b, m, ip, Seq::empty(), 0),
        lookup_outcome(b, m, ip, Seq::empty()) == match record_position(b, m, ip) {
            Err(()) => Err(()),
            Ok(None) => Ok(false),
            Ok(Some(pos)) => Ok::<bool, ()>(is_map_at(data_section(b, m), pos)),
        },
{
    if let Ok(Some(pos)) = record_position(b, m, ip) {
        lemma_no_paths(data_section(b, m), pos);
    }
}

/// A path that leads nowhere in the record for `ip` changes nothing that a
/// lookup records or finds, on malformed data too: leaving it out keeps the
/// entries, the outcome where other paths remain, and the entries recorded
/// before the first failing path.
pub proof fn lemma_lookup_absent_path(
    b: Seq<u8>,
    m: Metadata,
    ip: IpAddress,
    p: Seq<Seq<char>>,
    x: Seq<char>,
    q: Seq<Seq<char>>,
    k: int,
)
    requires
        lookup_field(b, m, ip, x) == Ok::<Option<FieldValue>, ()>(None),
        is_first_failure(b, m, ip, p + q, k),
    ensures
        lookup_entries(b, m, ip, p + seq![x] + q) == lookup_entries(b, m, ip, p + q),
        (p + q).len() > 0 ==> lookup_outcome(b, m, ip, p + seq![x] + q) == lookup_outcome(
            b,
            m,
            ip,
            p + q,
        ),
        ({
            let k2 = if k < p.len() {
                k
            } else {
                k + 1
            };
            &&& is_first_failure(b, m, ip, p + seq![x] + q, k2)
            &&& lookup_entries(b, m, ip, (p + seq![x] + q).take(k2)) == lookup_entries(
                b,
                m,
                ip,
                (p + q).take(k),
            )
        }),
{
    let all = p + seq![x] + q;
    let pq = p + q;
    let k2 = if k < p.len() {
        k
    } else {
        k + 1
    };
    assert(all.len() == pq.len() + 1);
    assert(all[p.len() as int] == x);
    assert forall|j: int| 0 <= j < k2 implies !(#[trigger] lookup_field(b, m, ip, all[j]) is Err) by {
        if j != p.len() {
            let i = if j < p.len() {
                j
            } else {
                j - 1
            };
            lemma_insert_index(p, x, q, i);
            assert(!(lookup_field(b, m, ip, pq[i]) is Err));
        }
    }
    if k < pq.len() {
        lemma_insert_index(p, x, q, k);
    }
    assert(is_first_failure(b, m, ip, all, k2));
    assert(pq.len() == p.len() + q.len());
    lemma_lookup_absent_entries(b, m, ip, p, x, q, k);
}

/// Where `x` is inserted after `p` in `p + q`, the element at `i` of `p + q`
/// moves to `i` or `i + 1`.
proof fn lemma_insert_index(p: Seq<Seq<char>>, x: Seq<char>, q: Seq<Seq<char>>, i: int)
    requires
        0 <= i < p.len() + q.len(),
    ensures
        (p + seq![x] + q)[if i < p.len() {
            i
        } else {
            i + 1
        }] == (p + q)[i],
{
}

/// The entries part of the law above.
proof fn lemma_lookup_absent_entries(
    b: Seq<u8>,
    m: Metadata,
    ip: IpAddress,
    p: Seq<Seq<char>>,
    x: Seq<char>,
    q: Seq<Seq<char>>,
    k: int,
)
    requires
        lookup_field(b, m, ip, x) == Ok::<Option<FieldValue>, ()>(None),
        0 <= k <= p.len() + q.len(),
    ensures
        lookup_entries(b, m, ip, p + seq![x] + q) == lookup_entries(b, m, ip, p + q),
        (p + q).len() > 0 ==> lookup_outcome(b, m, ip, p + seq![x] + q) == lookup_outcome(
            b,
            m,
            ip,
            p + q,
        ),
        lookup_entries(b, m, ip, (p + seq![x] + q).take(
            if k < p.len() {
                k
            } else {
                k + 1
            },
        )) == lookup_entries(b, m, ip, (p + q).take(k)),
{
    let all = p + seq![x] + q;
    let pq = p + q;
    if let Ok(Some(pos)) = record_position(b, m, ip) {
        let d = data_section(b, m);
        lemma_absent_path(d, pos, p, x, q);
        if k < p.len() {
            assert(all.take(k) =~= pq.take(k));
        } else {
            let qk = q.take(k - p.len());
            assert(all.take(k + 1) =~= p + seq![x] + qk);
            assert(pq.take(k) =~= p + qk);
            lemma_absent_path(d, pos, p, x, qk);
        }
    }
}

/// A record is below `2^32`.
proof fn lemma_record_value_bound(b: Seq<u8>, m: Metadata, node: int, right: bool)
    requires
        valid_parameters(m),
        node_readable(b, m, node),
    ensures
        0 <= record_value(b, m, node, right) < 0x1_0000_0000,
{
    let w = node_bytes(m);
    let off = node * w;
    assert(0 <= off) by (nonlinear_arith)
        requires
            node >= 0,
            w >= 0,
            off == node * w,
    ;
    reveal_with_fuel(pow256, 5);
    if m.record_size == 28 {
        lemma_be_value_bound(b.subrange(off + 4, off + 7));
        lemma_be_value_bound(b.subrange(off, off + 3));
    } else {
        let h = w / 2;
        lemma_be_value_bound(b.subrange(off + h, off + w));
        lemma_be_value_bound(b.subrange(off, off + h));
    }
}

/// A record that the trie walk returns lies above the node count and below
/// `2^32`. (The walk itself reads a record only of a node that exists and
/// lies within the image, one node for each bit of the address.)
pub proof fn lemma_walk_result(b: Seq<u8>, m: Metadata, node: int, key: u128, bits: nat)
    requires
        valid_parameters(m),
    ensures
        descend(b, m, node, key, bits) matches Ok(Some(v)) ==> m.node_count < v < 0x1_0000_0000,
    decreases bits,
{
    if bits > 0 && node_readable(b, m, node) {
        let right = key_bit(key, (bits - 1) as nat);
        let v = record_value(b, m, node, right);
        lemma_record_value_bound(b, m, node, right);
        if v < m.node_count {
            lemma_walk_result(b, m, v, key, (bits - 1) as nat);
        }
    }
}

/// A version 4 address in a version 6 database starts its walk at node 96.
pub proof fn lemma_ipv4_in_ipv6_start(b: Seq<u8>, m: Metadata, octets: [u8; 4])
    requires
        m.ip_version == 6,
    ensures
        ip_record(b, m, IpAddress::V4(octets)) == descend(b, m, 96, ip_key(IpAddress::V4(octets)), 32),
        m.node_count <= 96 ==> ip_record(b, m, IpAddress::V4(octets)) is Err,
{
}

/// An open database.
pub struct Reader {
    metadata: Metadata,
    buffer: Vec<u8>,
}

impl Reader {
    #[verifier::type_invariant]
    spec fn inv(&self) -> bool {
        decoded_metadata(self.buffer@) == Some(self.metadata)
    }

    /// The database image.
    pub closed spec fn image(&self) -> Seq<u8> {
        self.buffer@
    }

    /// The parameters read from the image's metadata.
    pub closed spec fn params(&self) -> Metadata {
        self.metadata
    }

    /// Opens a database image by reading its metadata. An image shorter
    /// than the sentinel is an I/O error. Whether the trie fits in the image
    /// is left to each lookup, which meets malformed data where it does not.
    pub fn from_bytes(buffer: Vec<u8>) -> (r: Result<Reader, Error>)
        ensures
            buffer@.len() < 14 ==> r == Err::<Reader, Error>(Error::Io),
            buffer@.len() >= 14 ==> match decoded_metadata(buffer@) {
                Some(m) => r matches Ok(reader) && reader.image() == buffer@ && reader.params() == m,
                None => r == Err::<Reader, Error>(Error::MalformedMetadata),
            },
    {
        if buffer.len() < 14 {
            return Err(Error::Io);
        }
        let metadata = match Metadata::parse_metadata(buffer.as_slice()) {
            Err(e) => return Err(e),
            Ok(m) => m,
        };
        Ok(Reader { metadata, buffer })
    }

    /// The address as a big-endian number, with its width in bits.
    pub fn ip_to_bitmask(ip: &IpAddress) -> (r: (u128, usize))
        ensures
            r.0 == ip_key(*ip),
            r.1 == ip_bits(*ip),
    {
        let (bytes, size): (&[u8], usize) = match ip {
            IpAddress::V4(o) => (o.as_slice(), 32),
            IpAddress::V6(o) => (o.as_slice(), 128),
        };
        let mut acc: u128 = 0;
        let mut i: usize = 0;
        while i < bytes.len()
            invariant
                i <= bytes@.len() <= 16,
                bytes@ == octets(*ip),
                acc == be_value(bytes@.subrange(0, i as int)),
            decreases bytes@.len() - i,
        {
            proof {
                lemma_be_value_bound(bytes@.subrange(0, i as int));
                reveal_with_fuel(pow256, 17);
                assert(bytes@.subrange(0, i + 1).drop_last() =~= bytes@.subrange(0, i as int));
            }
            acc = acc * 256 + bytes[i] as u128;
            i = i + 1;
        }
        assert(bytes@.subrange(0, i as int) =~= bytes@);
        (acc, size)
    }

    /// Whether node `node` exists and lies within the image.
    fn node_readable(&self, node: u64) -> (r: bool)
        ensures
            r == node_readable(self.image(), self.params(), node as int),
    {
        proof {
            use_type_invariant(self);
        }
        let w = self.metadata.record_size / 4;
        proof {
            assert((node as u128) * (w as u128) <= 0xFFFF_FFFF_FFFF_FFFFu128 * 8) by (nonlinear_arith)
                requires
                    w <= 8,
            ;
        }
        node < self.metadata.node_count && (node as u128) * (w as u128) + (w as u128)
            <= self.buffer.len() as u128
    }

    /// The left or right record of `node`.
    fn read_record(&self, node: u64, right: bool) -> (r: u64)
        requires
            node_readable(self.image(), self.params(), node as int),
        ensures
            r == record_value(self.image(), self.params(), node as int, right),
            r < 0x1_0000_0000,
    {
        proof {
            use_type_invariant(self);
        }
        let m = &self.metadata;
        let w = (m.record_size / 4) as usize;
        let bytes = self.buffer.as_slice();
        let len = bytes.len();
        assert(bytes@ == self.image());
        assert(w as int == node_bytes(*m));
        proof {
            assert(node <= node * w) by (nonlinear_arith)
                requires
                    w >= 6,
            ;
        }
        let off = node as usize * w;
        assert(off + w <= bytes@.len());
        if m.record_size == 28 {
            let mid = bytes[off + 3] as u64;
            let (high, start) = if right {
                (mid % 16, off + 4)
            } else {
                (mid / 16, off)
            };
            let mut d = Decoder::new(bytes, start);
            let low = d.decode_n_bytes_as_uint(3);
            proof {
                lemma_be_value_bound(bytes@.subrange(start as int, start + 3));
                reveal_with_fuel(pow256, 4);
            }
            high * 16777216 + low
        } else {
            let h = w / 2;
            let start = if right {
                off + h
            } else {
                off
            };
            let mut d = Decoder::new(bytes, start);
            let v = d.decode_n_bytes_as_uint(h);
            proof {
                lemma_be_value_bound(bytes@.subrange(start as int, start + h));
                reveal_with_fuel(pow256, 5);
            }
            v
        }
    }

    /// The record value that the trie holds for `ip`: `Ok(None)` where the
    /// walk ends on the no-data record or runs out of bits, and
    /// `Err(MalformedData)` where it would read a node that does not exist
    /// or lies beyond the end of the image.
    pub fn find_ip_offset(&self, ip: &IpAddress) -> (r: Result<Option<u64>, Error>)
        ensures
            match ip_record(self.image(), self.params(), *ip) {
                Err(()) => r == Err::<Option<u64>, Error>(Error::MalformedData),
                Ok(v) => r == Ok::<Option<u64>, Error>(v),
            },
            r matches Ok(Some(v)) ==> self.params().node_count < v < 0x1_0000_0000,
    {
        let (key, size) = Reader::ip_to_bitmask(ip);
        let mut node: u64 = match ip {
            IpAddress::V4(_) => if self.metadata.ip_version == 6 {
                96
            } else {
                0
            },
            IpAddress::V6(_) => 0,
        };
        let mut i: usize = size;
        while i > 0
            invariant
                i <= 128,
                descend(self.image(), self.params(), node as int, key, i as nat) == ip_record(
                    self.image(),
                    self.params(),
                    *ip,
                ),
            decreases i,
        {
            if !self.node_readable(node) {
                return Err(Error::MalformedData);
            }
            i = i - 1;
            let right = (key >> i as u128) & 1 == 1;
            let v = self.read_record(node, right);
            if v == self.metadata.node_count {
                return Ok(None);
            } else if v > self.metadata.node_count {
                return Ok(Some(v));
            }
            node = v;
        }
        Ok(None)
    }

    /// Looks `ip` up, resolves each of `fields` (dotted paths) in the record
    /// found, and records each one that resolves under its path in `result`.
    /// `Ok(None)`: the address has no record, or (with fields) none of them
    /// resolved, or (with no fields) the record is not a map. On malformed
    /// data `result` keeps what the fields before the first failing one
    /// recorded.
    pub fn lookup(&self, ip: &IpAddress, fields: &[&str], result: &mut Record) -> (r: Result<
        Option<()>,
        Error,
    >)
        ensures
            ({
                let paths = fields@.map_values(|s: &str| s@);
                let (b, m) = (self.image(), self.params());
                match r {
                    Ok(found) => lookup_outcome(b, m, *ip, paths) == Ok::<bool, ()>(found is Some)
                        && final(result)@ == old(result)@ + lookup_entries(b, m, *ip, paths),
                    Err(e) => e == Error::MalformedData && lookup_outcome(b, m, *ip, paths) is Err
                        && forall|k: int|
                        #[trigger] is_first_failure(b, m, *ip, paths, k) ==> final(result)@ == old(
                            result,
                        )@ + lookup_entries(b, m, *ip, paths.take(k)),
                }
            }),
    {
        proof {
            use_type_invariant(self);
        }
        let ghost paths = fields@.map_values(|s: &str| s@);
        let ghost (b, m) = (self.image(), self.params());
        let offset = match self.find_ip_offset(ip) {
            Err(e) => {
                assert(old(result)@ =~= old(result)@ + Seq::<(Seq<char>, FieldValue)>::empty());
                return Err(e);
            },
            Ok(None) => return Ok(None),
            Ok(Some(v)) => v,
        };
        let node_count = self.metadata.node_count;
        let w = (self.metadata.record_size / 4) as u64;
        let len = self.buffer.len();
        assert(self.buffer@.len() == len);
        proof {
            assert((node_count as u128) * (w as u128) <= 0xFFFF_FFFF_FFFF_FFFFu128 * 8) by (nonlinear_arith)
                requires
                    w <= 8,
            ;
        }
        if offset - node_count < 16 || (node_count as u128) * (w as u128) + 16 > len as u128 {
            assert(old(result)@ =~= old(result)@ + Seq::<(Seq<char>, FieldValue)>::empty());
            return Err(Error::MalformedData);
        }
        assert(node_count * w == tree_bytes(m));
        let tree = (node_count * w) as usize;
        let data = slice_subrange(self.buffer.as_slice(), tree + 16, len);
        let pos = (offset - node_count - 16) as usize;
        assert(data@ == data_section(b, m));
        assert(record_position(b, m, *ip) == Ok::<Option<int>, ()>(Some(pos as int)));
        let mut decoder = Decoder::new(data, pos);
        let outcome = decoder.decode_map_recursively(fields, result);
        proof {
            lemma_lookup_parts(b, m, *ip, paths, data@, pos as int);
        }
        match outcome {
            Ok(true) => Ok(Some(())),
            Ok(false) => Ok(None),
            Err(e) => {
                proof {
                    let k = choose|k: int|
                        0 <= k < paths.len() && field(data@, pos as int, paths[k]) is Err && (forall|
                            j: int,
                        |
                            0 <= j < k ==> !(#[trigger] field(data@, pos as int, paths[j]) is Err))
                            && final(result)@ == old(result)@ + projected(
                            data@,
                            pos as int,
                            paths.take(k),
                        );
                    lemma_lookup_parts(b, m, *ip, paths.take(k), data@, pos as int);
                    lemma_first_failure_unique(b, m, *ip, paths, data@, pos as int, k);
                }
                Err(e)
            },
        }
    }

    /// The parameters read from the metadata.
    pub fn metadata(&self) -> (r: &Metadata)
        ensures
            *r == self.params(),
    {
        &self.metadata
    }
}

} // verus!
