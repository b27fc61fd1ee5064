//! The mathematical model of the on-disk format.
use vstd::prelude::*;
use vstd::relations::injective_on;
use vstd::set_lib::{lemma_int_range, lemma_len_subset, lemma_map_size, set_int_range};
use vstd::utf8::{decode_utf8, encode_utf8, valid_utf8};

verus! {

/// The big-endian unsigned value of a byte sequence.
pub open spec fn be_value(s: Seq<u8>) -> nat
    decreases s.len(),
{
    if s.len() == 0 {
        0
    } else {
        (be_value(s.drop_last()) * 256 + s.last()) as nat
    }
}

/// `256` to the power `n`.
pub open spec fn pow256(n: nat) -> nat
    decreases n,
{
    if n == 0 {
        1
    } else {
        256 * pow256((n - 1) as nat)
    }
}

/// A big-endian value of `n` bytes is below `256^n`.
pub proof fn lemma_be_value_bound(s: Seq<u8>)
    ensures
        be_value(s) < pow256(s.len()),
    decreases s.len(),
{
    if s.len() > 0 {
        lemma_be_value_bound(s.drop_last());
    }
}

/// The kinds of value that a control byte announces.
#[derive(Clone, Copy, Debug, PartialEq, Eq, Structural)]
pub enum Type {
    Pointer,
    String,
    Double,
    Bytes,
    Uint16,
    Uint32,
    /// A map of string keys to values.
    Dict,
    Int32,
    Uint64,
    Uint128,
    Array,
    Container,
    EndMarker,
    Boolean,
    Float,
}

/// The type that a tag number stands for; tags run from 1 to 15.
pub open spec fn type_of_tag(tag: int) -> Option<Type> {
    if tag == 1 {
        Some(Type::Pointer)
    } else if tag == 2 {
        Some(Type::String)
    } else if tag == 3 {
        Some(Type::Double)
    } else if tag == 4 {
        Some(Type::Bytes)
    } else if tag == 5 {
        Some(Type::Uint16)
    } else if tag == 6 {
        Some(Type::Uint32)
    } else if tag == 7 {
        Some(Type::Dict)
    } else if tag == 8 {
        Some(Type::Int32)
    } else if tag == 9 {
        Some(Type::Uint64)
    } else if tag == 10 {
        Some(Type::Uint128)
    } else if tag == 11 {
        Some(Type::Array)
    } else if tag == 12 {
        Some(Type::Container)
    } else if tag == 13 {
        Some(Type::EndMarker)
    } else if tag == 14 {
        Some(Type::Boolean)
    } else if tag == 15 {
        Some(Type::Float)
    } else {
        None
    }
}

/// A decoded control byte: the type, the size (for a pointer: the raw five
/// low bits of the control byte), and the position just past the control
/// byte and its extension bytes.
pub struct Ctrl {
    pub ty: Type,
    pub size: int,
    pub next: int,
}

/// The size announced by the five low bits `field` of a control byte whose
/// extension bytes start at `p`, with the position after them.
pub open spec fn size_at(d: Seq<u8>, field: int, p: int) -> Option<(int, int)> {
    if field < 29 {
        Some((field, p))
    } else {
        let n = field - 28;
        let base: int = if field == 29 {
            29
        } else if field == 30 {
            285
        } else {
            65821
        };
        if p + n <= d.len() {
            Some((base + be_value(d.subrange(p, p + n)), p + n))
        } else {
            None
        }
    }
}

/// The control byte at `pos`, if it is within `d` and names a known type.
/// A zero type field means that the next byte, plus 7, is the tag.
pub open spec fn ctrl_at(d: Seq<u8>, pos: int) -> Option<Ctrl> {
    if !(0 <= pos < d.len()) {
        None
    } else {
        let b = d[pos];
        let extended = b / 32 == 0;
        if extended && pos + 1 >= d.len() {
            None
        } else {
            let tag: int = if extended {
                7 + d[pos + 1]
            } else {
                (b / 32) as int
            };
            let p1: int = if extended {
                pos + 2
            } else {
                pos + 1
            };
            match type_of_tag(tag) {
                None => None,
                Some(ty) => if ty == Type::Pointer {
                    Some(Ctrl { ty, size: (b % 32) as int, next: p1 })
                } else {
                    match size_at(d, (b % 32) as int, p1) {
                        None => None,
                        Some((size, next)) => Some(Ctrl { ty, size, next }),
                    }
                },
            }
        }
    }
}

/// The target of the pointer whose control byte `c` has been read, with the
/// position after the pointer's payload. Targets count from the start of `d`.
pub open spec fn pointer_at(d: Seq<u8>, c: Ctrl) -> Option<(int, int)> {
    let ps = c.size / 8;
    let pp = c.size % 8;
    let n = ps + 1;
    if c.next + n > d.len() {
        None
    } else {
        let v = be_value(d.subrange(c.next, c.next + n)) as int;
        let target = if ps == 0 {
            pp * 256 + v
        } else if ps == 1 {
            2048 + pp * 65536 + v
        } else if ps == 2 {
            526336 + pp * 16777216 + v
        } else {
            v
        };
        Some((target, c.next + n))
    }
}

/// A control byte lies within `d` and ends after it starts; a pointer's
/// payload ends within `d`, and its target is below `2^32`.
pub proof fn lemma_ctrl_bounds(d: Seq<u8>, pos: int)
    ensures
        ctrl_at(d, pos) matches Some(c) ==> {
            &&& 0 <= pos < c.next <= d.len()
            &&& 0 <= c.size < 65821 + 16777216
            &&& c.ty == Type::Pointer ==> c.size < 32
        },
{
    if let Some(c) = ctrl_at(d, pos) {
        let b = d[pos];
        let field = (b % 32) as int;
        let p1: int = if b / 32 == 0 { pos + 2 } else { pos + 1 };
        if c.ty != Type::Pointer && field >= 29 {
            lemma_be_value_bound(d.subrange(p1, p1 + field - 28));
            reveal_with_fuel(pow256, 4);
        }
    }
}

/// A pointer's payload ends within `d`, and its target is below `2^32`.
pub proof fn lemma_pointer_bounds(d: Seq<u8>, c: Ctrl)
    requires
        0 <= c.size < 32,
        0 <= c.next,
    ensures
        pointer_at(d, c) matches Some((t, e)) ==> c.next < e <= d.len() && 0 <= t < 0x1_0000_0000,
{
    let n = c.size / 8 + 1;
    if c.next + n <= d.len() {
        lemma_be_value_bound(d.subrange(c.next, c.next + n));
        reveal_with_fuel(pow256, 5);
    }
}

/// Types whose payload is `size` bytes that a skip steps over.
pub open spec fn is_sized_scalar(ty: Type) -> bool {
    ||| ty == Type::String
    ||| ty == Type::Double
    ||| ty == Type::Bytes
    ||| ty == Type::Int32
    ||| ty == Type::Uint16
    ||| ty == Type::Uint32
    ||| ty == Type::Uint64
    ||| ty == Type::Uint128
    ||| ty == Type::Float
}

/// The position after `n` consecutive values starting at `pos`, or `None`
/// when they do not decode. A pointer is stepped over, not followed; an
/// array adds its elements, and a map its keys and values, to the count.
pub open spec fn skip_values(d: Seq<u8>, pos: int, n: nat) -> Option<int>
    decreases d.len() - pos, n,
{
    if n == 0 {
        Some(pos)
    } else {
        match ctrl_at(d, pos) {
            None => None,
            Some(c) => {
                if c.ty == Type::Pointer {
                    match pointer_at(d, c) {
                        None => None,
                        Some((_, e)) => skip_values(d, e, (n - 1) as nat),
                    }
                } else if c.ty == Type::Array {
                    skip_values(d, c.next, (n - 1 + c.size) as nat)
                } else if c.ty == Type::Dict {
                    skip_values(d, c.next, (n - 1 + 2 * c.size) as nat)
                } else if c.ty == Type::Boolean {
                    skip_values(d, c.next, (n - 1) as nat)
                } else if is_sized_scalar(c.ty) && c.next + c.size <= d.len() {
                    skip_values(d, c.next + c.size, (n - 1) as nat)
                } else {
                    None
                }
            }
        }
    }
}

/// Skipping `n` values consumes at least one byte for each of them.
pub proof fn lemma_skip_consumes(d: Seq<u8>, pos: int, n: nat)
    ensures
        skip_values(d, pos, n) matches Some(e) ==> pos + n <= e <= d.len() || (n == 0 && e == pos),
    decreases d.len() - pos, n,
{
    if n > 0 {
        lemma_ctrl_bounds(d, pos);
        if let Some(c) = ctrl_at(d, pos) {
            if c.ty == Type::Pointer {
                lemma_pointer_bounds(d, c);
                if let Some((_, e)) = pointer_at(d, c) {
                    lemma_skip_consumes(d, e, (n - 1) as nat);
                }
            } else if c.ty == Type::Array {
                lemma_skip_consumes(d, c.next, (n - 1 + c.size) as nat);
            } else if c.ty == Type::Dict {
                lemma_skip_consumes(d, c.next, (n - 1 + 2 * c.size) as nat);
            } else if c.ty == Type::Boolean {
                lemma_skip_consumes(d, c.next, (n - 1) as nat);
            } else if is_sized_scalar(c.ty) && c.next + c.size <= d.len() {
                lemma_skip_consumes(d, c.next + c.size, (n - 1) as nat);
            }
        }
    }
}

/// Skipping `a + b` values is skipping `a` values, then `b` more.
pub proof fn lemma_skip_split(d: Seq<u8>, pos: int, a: nat, b: nat)
    ensures
        skip_values(d, pos, a + b) == match skip_values(d, pos, a) {
            Some(e) => skip_values(d, e, b),
            None => None::<int>,
        },
    decreases d.len() - pos, a,
{
    if a > 0 {
        lemma_ctrl_bounds(d, pos);
        if let Some(c) = ctrl_at(d, pos) {
            if c.ty == Type::Pointer {
                lemma_pointer_bounds(d, c);
                if let Some((_, e)) = pointer_at(d, c) {
                    lemma_skip_split(d, e, (a - 1) as nat, b);
                }
            } else if c.ty == Type::Array {
                lemma_skip_split(d, c.next, (a - 1 + c.size) as nat, b);
            } else if c.ty == Type::Dict {
                lemma_skip_split(d, c.next, (a - 1 + 2 * c.size) as nat, b);
            } else if c.ty == Type::Boolean {
                lemma_skip_split(d, c.next, (a - 1) as nat, b);
            } else if is_sized_scalar(c.ty) && c.next + c.size <= d.len() {
                lemma_skip_split(d, c.next + c.size, (a - 1) as nat, b);
            }
        }
    }
}

/// A map key, and an unsigned integer, each skip as one value.
pub proof fn lemma_key_and_uint_skip(d: Seq<u8>, p: int)
    ensures
        key_at(d, p) matches Some((_, after)) ==> skip_values(d, p, 1) == Some(after),
        uint_at(d, p) matches Some((_, e)) ==> skip_values(d, p, 1) == Some(e),
{
    lemma_ctrl_bounds(d, p);
    if let Some(c) = ctrl_at(d, p) {
        if c.ty == Type::Pointer {
            lemma_pointer_bounds(d, c);
            if let Some((_, e)) = pointer_at(d, c) {
                assert(skip_values(d, e, 0) == Some(e));
            }
        } else if c.next + c.size <= d.len() {
            assert(skip_values(d, c.next + c.size, 0) == Some(c.next + c.size));
        }
    }
}

/// What a field resolves to. Floating-point values are kept as their
/// IEEE-754 bit patterns.
pub enum FieldValue {
    Text(Seq<char>),
    Uint(u64),
    Boolean(bool),
    Double(u64),
    Float(u32),
}

/// The unsigned integer types.
pub open spec fn is_uint(ty: Type) -> bool {
    ty == Type::Uint16 || ty == Type::Uint32 || ty == Type::Uint64 || ty == Type::Uint128
}

/// The value that the bytes at `pos` hold, after at most `fuel` pointer
/// hops: `Err` when they are malformed, `Ok(None)` for a map, an array, or a
/// type that is not materialised (bytes, signed and 128-bit integers).
pub open spec fn value_at(d: Seq<u8>, pos: int, fuel: nat) -> Result<Option<FieldValue>, ()>
    decreases fuel,
{
    match ctrl_at(d, pos) {
        None => Err(()),
        Some(c) => {
            let payload = d.subrange(c.next, c.next + c.size);
            let fits = c.next + c.size <= d.len();
            if c.ty == Type::Pointer {
                match pointer_at(d, c) {
                    None => Err(()),
                    Some((target, _)) => if fuel == 0 {
                        Err(())
                    } else {
                        value_at(d, target, (fuel - 1) as nat)
                    },
                }
            } else if c.ty == Type::String {
                if fits && valid_utf8(payload) {
                    Ok(Some(FieldValue::Text(decode_utf8(payload))))
                } else {
                    Err(())
                }
            } else if c.ty == Type::Double {
                if fits && c.size == 8 {
                    Ok(Some(FieldValue::Double(be_value(payload) as u64)))
                } else {
                    Err(())
                }
            } else if c.ty == Type::Float {
                if fits && c.size == 4 {
                    Ok(Some(FieldValue::Float(be_value(payload) as u32)))
                } else {
                    Err(())
                }
            } else if c.ty == Type::Boolean {
                if c.size <= 1 {
                    Ok(Some(FieldValue::Boolean(c.size == 1)))
                } else {
                    Err(())
                }
            } else if c.ty == Type::Uint16 || c.ty == Type::Uint32 || c.ty == Type::Uint64 {
                if fits && c.size <= 8 {
                    Ok(Some(FieldValue::Uint(be_value(payload) as u64)))
                } else {
                    Err(())
                }
            } else if c.ty == Type::Container || c.ty == Type::EndMarker {
                Err(())
            } else {
                Ok(None)
            }
        }
    }
}

/// Where reading the value at `pos` leaves the cursor, after at most
/// `fuel` pointer hops: one past the payload of a value read in place (past
/// the control byte for a boolean, a map or an array), at the pointee's end
/// after a pointer.
pub open spec fn value_end(d: Seq<u8>, pos: int, fuel: nat) -> int
    decreases fuel,
{
    match ctrl_at(d, pos) {
        None => pos,
        Some(c) => if c.ty == Type::Pointer {
            match pointer_at(d, c) {
                Some((target, _)) => if fuel == 0 {
                    pos
                } else {
                    value_end(d, target, (fuel - 1) as nat)
                },
                None => pos,
            }
        } else if c.ty == Type::String || c.ty == Type::Double || c.ty == Type::Float || c.ty
            == Type::Uint16 || c.ty == Type::Uint32 || c.ty == Type::Uint64 {
            c.next + c.size
        } else {
            c.next
        },
    }
}

/// Where reading the value at `pos` leaves the cursor.
pub open spec fn decoded_end(d: Seq<u8>, pos: int) -> int {
    value_end(d, pos, d.len())
}

/// The value at `pos`, with as many pointer hops as `d` has bytes: more than
/// any chain of pointers that does not run in a circle.
pub open spec fn decoded_value(d: Seq<u8>, pos: int) -> Result<Option<FieldValue>, ()> {
    value_at(d, pos, d.len())
}

/// The bytes of the string that `c`, read at some position, announces.
pub open spec fn string_payload(d: Seq<u8>, c: Ctrl) -> Option<Seq<u8>> {
    if c.ty == Type::String && c.next + c.size <= d.len() && valid_utf8(
        d.subrange(c.next, c.next + c.size),
    ) {
        Some(d.subrange(c.next, c.next + c.size))
    } else {
        None
    }
}

/// The map key at `p`: a UTF-8 string, given in place or through one
/// pointer, with the position after it.
pub open spec fn key_at(d: Seq<u8>, p: int) -> Option<(Seq<u8>, int)> {
    match ctrl_at(d, p) {
        None => None,
        Some(c) => if c.ty == Type::Pointer {
            match pointer_at(d, c) {
                None => None,
                Some((target, e)) => match ctrl_at(d, target) {
                    None => None,
                    Some(k) => match string_payload(d, k) {
                        None => None,
                        Some(bytes) => Some((bytes, e)),
                    },
                },
            }
        } else {
            match string_payload(d, c) {
                None => None,
                Some(bytes) => Some((bytes, c.next + c.size)),
            }
        },
    }
}

/// The control byte at `pos`, or where `pos` holds a pointer, the control
/// byte at its target.
pub open spec fn resolved_ctrl_at(d: Seq<u8>, pos: int) -> Option<Ctrl> {
    match ctrl_at(d, pos) {
        None => None,
        Some(c) => if c.ty == Type::Pointer {
            match pointer_at(d, c) {
                None => None,
                Some((target, _)) => ctrl_at(d, target),
            }
        } else {
            Some(c)
        },
    }
}

/// The position of the value under `key` in the map whose `n` entries
/// start at `p`: the first entry with that key wins.
pub open spec fn map_value_pos(d: Seq<u8>, p: int, n: nat, key: Seq<u8>) -> Result<Option<int>, ()>
    decreases n,
{
    if n == 0 {
        Ok(None)
    } else {
        match key_at(d, p) {
            None => Err(()),
            Some((k, after)) => if k == key {
                Ok(Some(after))
            } else {
                match skip_values(d, after, 1) {
                    None => Err(()),
                    Some(e) => map_value_pos(d, e, (n - 1) as nat, key),
                }
            },
        }
    }
}

/// The byte `.` that separates the segments of a path.
pub open spec fn is_dot(b: u8) -> bool {
    b == 46
}

/// The index of the first `.` in `path` at or after `i`, or its length.
pub open spec fn dot_from(path: Seq<u8>, i: int) -> int
    decreases path.len() - i,
{
    if i >= path.len() {
        path.len() as int
    } else if is_dot(path[i]) {
        i
    } else {
        dot_from(path, i + 1)
    }
}

pub proof fn lemma_dot_from_range(path: Seq<u8>, i: int)
    requires
        0 <= i <= path.len(),
    ensures
        i <= dot_from(path, i) <= path.len(),
        dot_from(path, i) < path.len() ==> is_dot(path[dot_from(path, i)]),
        forall|j: int| i <= j < dot_from(path, i) ==> !is_dot(#[trigger] path[j]),
    decreases path.len() - i,
{
    if i < path.len() && !is_dot(path[i]) {
        lemma_dot_from_range(path, i + 1);
    }
}

/// The first segment of a path.
pub open spec fn path_head(path: Seq<u8>) -> Seq<u8> {
    path.subrange(0, dot_from(path, 0))
}

/// What follows the first `.` of a path; empty where it has none.
pub open spec fn path_tail(path: Seq<u8>) -> Seq<u8> {
    let e = dot_from(path, 0);
    if e < path.len() {
        path.subrange(e + 1, path.len() as int)
    } else {
        Seq::empty()
    }
}

/// An ASCII decimal digit.
pub open spec fn is_digit(b: u8) -> bool {
    48 <= b <= 57
}

/// The value of a string of decimal digits.
pub open spec fn decimal_value(s: Seq<u8>) -> nat
    decreases s.len(),
{
    if s.len() == 0 {
        0
    } else {
        (decimal_value(s.drop_last()) * 10 + (s.last() - 48)) as nat
    }
}

/// The array index that a segment names: one or more decimal digits.
pub open spec fn index_of(segment: Seq<u8>) -> Option<nat> {
    if segment.len() > 0 && forall|i: int| 0 <= i < segment.len() ==> is_digit(#[trigger] segment[i]) {
        Some(decimal_value(segment))
    } else {
        None
    }
}

/// What `path` (UTF-8 bytes, segments joined by `.`) resolves to from the
/// value at `pos`: `Err` on malformed data, `Ok(None)` where the path leads
/// nowhere. A segment of decimal digits is an index `i`: in a map or an
/// array it selects the value that follows the first `i` values (in a map,
/// keys and values count alike), and nothing where `i` is at or beyond the
/// size. Any other segment selects from a map by key.
pub open spec fn find(d: Seq<u8>, pos: int, path: Seq<u8>) -> Result<Option<FieldValue>, ()>
    decreases path.len(),
{
    if path.len() == 0 {
        decoded_value(d, pos)
    } else {
        let head = path_head(path);
        let tail = path_tail(path);
        proof {
            lemma_dot_from_range(path, 0);
        }
        match resolved_ctrl_at(d, pos) {
            None => Err(()),
            Some(c) => if c.ty == Type::Dict || c.ty == Type::Array {
                match index_of(head) {
                    Some(i) => if i < c.size {
                        match skip_values(d, c.next, i) {
                            None => Err(()),
                            Some(vp) => find(d, vp, tail),
                        }
                    } else {
                        Ok(None)
                    },
                    None => if c.ty == Type::Dict {
                        match map_value_pos(d, c.next, c.size as nat, head) {
                            Err(()) => Err(()),
                            Ok(None) => Ok(None),
                            Ok(Some(vp)) => find(d, vp, tail),
                        }
                    } else {
                        Ok(None)
                    },
                }
            } else {
                Ok(None)
            },
        }
    }
}

/// What the path with characters `path` resolves to from `pos`.
pub open spec fn field(d: Seq<u8>, pos: int, path: Seq<char>) -> Result<Option<FieldValue>, ()> {
    find(d, pos, encode_utf8(path))
}

/// The entries that resolving each of `paths` from `pos` records, in order:
/// one for each path that resolves to a value.
pub open spec fn projected(d: Seq<u8>, pos: int, paths: Seq<Seq<char>>) -> Seq<(Seq<char>, FieldValue)>
    decreases paths.len(),
{
    if paths.len() == 0 {
        Seq::empty()
    } else {
        let prev = projected(d, pos, paths.drop_last());
        match field(d, pos, paths.last()) {
            Ok(Some(v)) => prev.push((paths.last(), v)),
            _ => prev,
        }
    }
}

/// Whether some path of `paths` resolves to a value from `pos`.
pub open spec fn any_resolves(d: Seq<u8>, pos: int, paths: Seq<Seq<char>>) -> bool {
    exists|i: int| 0 <= i < paths.len() && #[trigger] field(d, pos, paths[i]) matches Ok(Some(_))
}

/// Whether some path of `paths` meets malformed data from `pos`.
pub open spec fn any_fails(d: Seq<u8>, pos: int, paths: Seq<Seq<char>>) -> bool {
    exists|i: int| 0 <= i < paths.len() && #[trigger] field(d, pos, paths[i]) is Err
}

/// Whether `pos` holds a map, in place or behind one pointer.
pub open spec fn is_map_at(d: Seq<u8>, pos: int) -> bool {
    resolved_ctrl_at(d, pos) matches Some(c) && c.ty == Type::Dict
}

/// The outcome of resolving `paths` from `pos`: `Err` where one of them meets
/// malformed data; else whether the lookup found something. With no paths,
/// that is whether a map stands at `pos`; with some, whether one resolved.
pub open spec fn projection_found(d: Seq<u8>, pos: int, paths: Seq<Seq<char>>) -> Result<bool, ()> {
    if any_fails(d, pos, paths) {
        Err(())
    } else if paths.len() == 0 {
        Ok(is_map_at(d, pos))
    } else {
        Ok(any_resolves(d, pos, paths))
    }
}

/// The unsigned integer of at most eight bytes at `pos`, with the position
/// after it.
pub open spec fn uint_at(d: Seq<u8>, pos: int) -> Option<(u64, int)> {
    match ctrl_at(d, pos) {
        None => None,
        Some(c) => if is_uint(c.ty) && c.size <= 8 && c.next + c.size <= d.len() {
            Some((be_value(d.subrange(c.next, c.next + c.size)) as u64, c.next + c.size))
        } else {
            None
        },
    }
}

/// `acc` with the integer `v` recorded for each wanted key equal to `k`.
pub open spec fn record_uint(wanted: Seq<Seq<u8>>, acc: Seq<Option<u64>>, k: Seq<u8>, v: u64) -> Seq<
    Option<u64>,
> {
    Seq::new(acc.len(), |j: int| if wanted[j] == k { Some(v) } else { acc[j] })
}

/// Reads the `n` map entries that start at `p` into `acc`, which holds one
/// slot for each wanted key: the value of a wanted key must be an unsigned
/// integer, and a later entry overwrites an earlier one; other values are
/// skipped.
pub open spec fn scan_entries(
    d: Seq<u8>,
    p: int,
    n: nat,
    wanted: Seq<Seq<u8>>,
    acc: Seq<Option<u64>>,
) -> Option<Seq<Option<u64>>>
    decreases n,
{
    if n == 0 {
        Some(acc)
    } else {
        match key_at(d, p) {
            None => None,
            Some((k, after)) => if wanted.contains(k) {
                match uint_at(d, after) {
                    None => None,
                    Some((v, e)) => scan_entries(
                        d,
                        e,
                        (n - 1) as nat,
                        wanted,
                        record_uint(wanted, acc, k, v),
                    ),
                }
            } else {
                match skip_values(d, after, 1) {
                    None => None,
                    Some(e) => scan_entries(d, e, (n - 1) as nat, wanted, acc),
                }
            },
        }
    }
}

/// The unsigned integers that the map at `pos` holds under each of the
/// wanted keys (`None` for a key it lacks), or `None` where `pos` holds no
/// map or the map is malformed.
pub open spec fn map_uints(d: Seq<u8>, pos: int, wanted: Seq<Seq<u8>>) -> Option<Seq<Option<u64>>> {
    match ctrl_at(d, pos) {
        Some(c) => if c.ty == Type::Dict {
            scan_entries(d, c.next, c.size as nat, wanted, Seq::new(wanted.len(), |j: int| None))
        } else {
            None
        },
        None => None,
    }
}

/// Where `pos` holds a pointer, its target.
pub open spec fn pointer_target(d: Seq<u8>, pos: int) -> Option<int> {
    match ctrl_at(d, pos) {
        Some(c) => if c.ty == Type::Pointer {
            match pointer_at(d, c) {
                Some((t, _)) => Some(t),
                None => None,
            }
        } else {
            None
        },
        None => None,
    }
}

/// Decoding through a pointer gives what decoding its target gives, with
/// one hop fewer.
pub proof fn lemma_pointer_hop(d: Seq<u8>, pos: int, target: int, fuel: nat)
    requires
        pointer_target(d, pos) == Some(target),
    ensures
        value_at(d, pos, fuel + 1) == value_at(d, target, fuel),
{
}

/// Once a value decodes within some number of hops, more hops change nothing.
pub proof fn lemma_value_fuel(d: Seq<u8>, pos: int, fuel: nat, more: nat)
    requires
        fuel <= more,
        value_at(d, pos, fuel) is Ok,
    ensures
        value_at(d, pos, more) == value_at(d, pos, fuel),
    decreases fuel,
{
    if let Some(c) = ctrl_at(d, pos) {
        if c.ty == Type::Pointer {
            if let Some((t, _)) = pointer_at(d, c) {
                if fuel > 0 {
                    lemma_value_fuel(d, t, (fuel - 1) as nat, (more - 1) as nat);
                }
            }
        }
    }
}

/// The position reached from `p` after `k` pointer hops; a position that
/// holds no pointer is where the walk stays.
pub open spec fn hops_from(d: Seq<u8>, p: int, k: nat) -> int
    decreases k,
{
    if k == 0 {
        p
    } else {
        match pointer_target(d, p) {
            Some(t) => hops_from(d, t, (k - 1) as nat),
            None => p,
        }
    }
}

/// Hopping `a` times and then `b` times is hopping `a + b` times.
proof fn lemma_hops_add(d: Seq<u8>, p: int, a: nat, b: nat)
    ensures
        hops_from(d, p, a + b) == hops_from(d, hops_from(d, p, a), b),
    decreases a,
{
    if a > 0 {
        if let Some(t) = pointer_target(d, p) {
            lemma_hops_add(d, t, (a - 1) as nat, b);
        } else {
            lemma_hops_stay(d, p, b);
            lemma_hops_stay(d, p, a + b);
        }
    }
}

/// A walk from a position without a pointer goes nowhere.
proof fn lemma_hops_stay(d: Seq<u8>, p: int, k: nat)
    requires
        pointer_target(d, p) is None,
    ensures
        hops_from(d, p, k) == p,
{
}

/// Where decoding fails within `fuel` hops but succeeds within one more,
/// the first `fuel + 1` positions of the walk all hold pointers.
proof fn lemma_exhausted(d: Seq<u8>, q: int, fuel: nat, i: nat)
    requires
        value_at(d, q, fuel) is Err,
        value_at(d, q, fuel + 1) is Ok,
        i <= fuel,
    ensures
        pointer_target(d, hops_from(d, q, i)) is Some,
    decreases fuel,
{
    let c = ctrl_at(d, q).unwrap();
    let t = pointer_at(d, c).unwrap().0;
    if i > 0 {
        lemma_exhausted(d, t, (fuel - 1) as nat, (i - 1) as nat);
    }
}

/// A walk whose first `fuel + 1` positions all hold pointers does not
/// decode within `fuel` hops.
proof fn lemma_all_pointers(d: Seq<u8>, q: int, fuel: nat)
    requires
        forall|m: nat| m <= fuel ==> (#[trigger] pointer_target(d, hops_from(d, q, m))) is Some,
    ensures
        value_at(d, q, fuel) is Err,
    decreases fuel,
{
    assert(pointer_target(d, hops_from(d, q, 0)) is Some);
    let t = pointer_target(d, q).unwrap();
    if fuel > 0 {
        assert forall|m: nat| m <= fuel - 1 implies (#[trigger] pointer_target(d, hops_from(d, t, m)))
            is Some by {
            assert(hops_from(d, q, m + 1) == hops_from(d, t, m));
            assert(pointer_target(d, hops_from(d, q, m + 1)) is Some);
        }
        lemma_all_pointers(d, t, (fuel - 1) as nat);
    }
}

/// A walk that comes back to a position it visited, all of whose positions
/// before the return hold pointers, holds pointers forever.
proof fn lemma_cycle(d: Seq<u8>, q: int, i: nat, j: nat, m: nat)
    requires
        i < j,
        hops_from(d, q, i) == hops_from(d, q, j),
        forall|k: nat| k < j ==> (#[trigger] pointer_target(d, hops_from(d, q, k))) is Some,
    ensures
        pointer_target(d, hops_from(d, q, m)) is Some,
    decreases m,
{
    if m >= j {
        let back = (m - (j - i)) as nat;
        lemma_hops_add(d, q, j, (m - j) as nat);
        lemma_hops_add(d, q, i, (m - j) as nat);
        assert(i + (m - j) == back);
        lemma_cycle(d, q, i, j, back);
    }
}

/// Of `n + 1` values in `[0, n)`, two are equal.
proof fn lemma_pigeonhole(f: spec_fn(int) -> int, n: int)
    requires
        n >= 0,
        forall|k: int| 0 <= k <= n ==> 0 <= #[trigger] f(k) < n,
    ensures
        exists|a: int, b: int| 0 <= a < b <= n && #[trigger] f(a) == #[trigger] f(b),
{
    let x = set_int_range(0, n + 1);
    let y = x.map(f);
    lemma_int_range(0, n + 1);
    lemma_int_range(0, n);
    if !(exists|a: int, b: int| 0 <= a < b <= n && #[trigger] f(a) == #[trigger] f(b)) {
        assert(injective_on(f, x)) by {
            assert forall|a: int, b: int|
                x.contains(a) && x.contains(b) && #[trigger] f(a) == #[trigger] f(b) implies a == b by {
                if a < b {
                    assert(0 <= a < b <= n && f(a) == f(b));
                } else if b < a {
                    assert(0 <= b < a <= n && f(b) == f(a));
                }
            }
        }
        lemma_map_size(x, y, f);
        assert(y.subset_of(set_int_range(0, n))) by {
            assert forall|v: int| y.contains(v) implies set_int_range(0, n).contains(v) by {
                let k = choose|k: int| x.contains(k) && f(k) == v;
            }
        }
        lemma_len_subset(y, set_int_range(0, n));
    }
}

/// Re-decoding a value through a pointer yields what decoding the pointee
/// directly yields: a pointer chain that decodes at all never needs as
/// many hops as the data has bytes.
pub proof fn lemma_pointer_resolution(d: Seq<u8>, pos: int, target: int)
    requires
        pointer_target(d, pos) == Some(target),
    ensures
        decoded_value(d, pos) == decoded_value(d, target),
{
    lemma_ctrl_bounds(d, pos);
    let n = d.len() as int;
    let fuel = (n - 1) as nat;
    assert(fuel + 1 == d.len());
    lemma_pointer_hop(d, pos, target, fuel);
    assert(decoded_value(d, pos) == value_at(d, target, fuel));
    if value_at(d, target, fuel) is Ok {
        lemma_value_fuel(d, target, fuel, d.len());
    } else if value_at(d, target, d.len()) is Ok {
        // Decoding from the target needs all `n` hops: then `pos` and the
        // first `n` positions of the target's walk are `n + 1` pointers
        // within `n` bytes, and two of them coincide, which makes a cycle.
        assert forall|i: nat| i <= fuel implies (#[trigger] pointer_target(d, hops_from(d, target, i)))
            is Some by {
            lemma_exhausted(d, target, fuel, i);
        }
        let f = |k: int| if k == 0 { pos } else { hops_from(d, target, (k - 1) as nat) };
        assert forall|k: int| 0 <= k <= n implies 0 <= #[trigger] f(k) < n by {
            if k > 0 {
                let h = hops_from(d, target, (k - 1) as nat);
                assert(f(k) == h);
                assert(pointer_target(d, h) is Some);
                lemma_ctrl_bounds(d, h);
            }
        }
        lemma_pigeonhole(f, n);
        let (a, b) = choose|a: int, b: int| 0 <= a < b <= n && #[trigger] f(a) == #[trigger] f(b);
        assert forall|k: nat| k <= n implies (#[trigger] pointer_target(d, hops_from(d, pos, k))) is Some by {
            if k > 0 {
                assert(hops_from(d, pos, k) == hops_from(d, target, (k - 1) as nat));
            }
        }
        assert(hops_from(d, pos, b as nat) == f(b));
        assert(hops_from(d, pos, a as nat) == f(a));
        assert forall|m: nat| m <= n implies (#[trigger] pointer_target(d, hops_from(d, target, m))) is Some by {
            lemma_cycle(d, pos, a as nat, b as nat, m + 1);
            assert(hops_from(d, pos, m + 1) == hops_from(d, target, m));
        }
        assert(hops_from(d, pos, a as nat) == hops_from(d, pos, b as nat));
        lemma_all_pointers(d, target, d.len());
    } else {
        lemma_value_err(d, target, fuel);
        lemma_value_err(d, target, d.len());
    }
}

/// The model's only failure is `Err(())`.
proof fn lemma_value_err(d: Seq<u8>, pos: int, fuel: nat)
    ensures
        value_at(d, pos, fuel) is Err ==> value_at(d, pos, fuel) == Err::<Option<FieldValue>, ()>(()),
    decreases fuel,
{
    if let Some(c) = ctrl_at(d, pos) {
        if let Some((t, _)) = pointer_at(d, c) {
            if c.ty == Type::Pointer && fuel > 0 {
                lemma_value_err(d, t, (fuel - 1) as nat);
            }
        }
    }
}

/// A string value is the text whose UTF-8 encoding is exactly the payload
/// of some string in the data: decoding keeps the bytes.
pub proof fn lemma_string_round_trip(d: Seq<u8>, pos: int, fuel: nat, text: Seq<char>)
    requires
        value_at(d, pos, fuel) == Ok::<Option<FieldValue>, ()>(Some(FieldValue::Text(text))),
    ensures
        exists|q: int|
            #![trigger ctrl_at(d, q)]
            ctrl_at(d, q) matches Some(c) && c.ty == Type::String && c.next + c.size <= d.len()
                && encode_utf8(text) == d.subrange(c.next, c.next + c.size),
    decreases fuel,
{
    let c = ctrl_at(d, pos).unwrap();
    if c.ty == Type::Pointer {
        let (t, _) = pointer_at(d, c).unwrap();
        lemma_string_round_trip(d, t, (fuel - 1) as nat, text);
    } else {
        vstd::utf8::decode_utf8_encode_utf8(d.subrange(c.next, c.next + c.size));
        assert(ctrl_at(d, pos) matches Some(c) && c.ty == Type::String);
    }
}

/// An index at or beyond the size of the map or array it addresses
/// selects nothing: the path is absent.
pub proof fn lemma_index_beyond_size(d: Seq<u8>, pos: int, path: Seq<u8>)
    requires
        path.len() > 0,
        resolved_ctrl_at(d, pos) matches Some(c) && (c.ty == Type::Array || c.ty == Type::Dict) && (index_of(
            path_head(path),
        ) matches Some(i) && i >= c.size),
    ensures
        find(d, pos, path) == Ok::<Option<FieldValue>, ()>(None),
{
}

/// Resolving the concatenation of two path lists records the entries of
/// the first list, then those of the second; it finds something, or meets
/// malformed data, where either list does.
pub proof fn lemma_projection_concat(d: Seq<u8>, pos: int, p: Seq<Seq<char>>, q: Seq<Seq<char>>)
    ensures
        projected(d, pos, p + q) == projected(d, pos, p) + projected(d, pos, q),
        any_resolves(d, pos, p + q) == (any_resolves(d, pos, p) || any_resolves(d, pos, q)),
        any_fails(d, pos, p + q) == (any_fails(d, pos, p) || any_fails(d, pos, q)),
    decreases q.len(),
{
    if q.len() == 0 {
        assert(p + q =~= p);
        assert(projected(d, pos, p) + projected(d, pos, q) =~= projected(d, pos, p));
    } else {
        let q0 = q.drop_last();
        lemma_projection_concat(d, pos, p, q0);
        assert((p + q).drop_last() =~= p + q0);
        assert((p + q).last() == q.last());
        assert(projected(d, pos, p + q) =~= projected(d, pos, p) + projected(d, pos, q));
        if any_resolves(d, pos, p + q) {
            let i = choose|i: int| 0 <= i < (p + q).len() && #[trigger] field(d, pos, (p + q)[i]) matches Ok(Some(_));
            if i < p.len() {
                assert((p + q)[i] == p[i]);
            } else {
                assert((p + q)[i] == q[i - p.len()]);
            }
        }
        if any_resolves(d, pos, p) {
            let i = choose|i: int| 0 <= i < p.len() && #[trigger] field(d, pos, p[i]) matches Ok(Some(_));
            assert((p + q)[i] == p[i]);
        }
        if any_resolves(d, pos, q) {
            let i = choose|i: int| 0 <= i < q.len() && #[trigger] field(d, pos, q[i]) matches Ok(Some(_));
            assert((p + q)[p.len() + i] == q[i]);
        }
        if any_fails(d, pos, p + q) {
            let i = choose|i: int| 0 <= i < (p + q).len() && #[trigger] field(d, pos, (p + q)[i]) is Err;
            if i < p.len() {
                assert((p + q)[i] == p[i]);
            } else {
                assert((p + q)[i] == q[i - p.len()]);
            }
        }
        if any_fails(d, pos, p) {
            let i = choose|i: int| 0 <= i < p.len() && #[trigger] field(d, pos, p[i]) is Err;
            assert((p + q)[i] == p[i]);
        }
        if any_fails(d, pos, q) {
            let i = choose|i: int| 0 <= i < q.len() && #[trigger] field(d, pos, q[i]) is Err;
            assert((p + q)[p.len() + i] == q[i]);
        }
    }
}

/// A path that leads nowhere records nothing and changes nothing that the
/// other paths record or find.
pub proof fn lemma_absent_path(d: Seq<u8>, pos: int, p: Seq<Seq<char>>, x: Seq<char>, q: Seq<Seq<char>>)
    requires
        field(d, pos, x) == Ok::<Option<FieldValue>, ()>(None),
    ensures
        projected(d, pos, p + seq![x] + q) == projected(d, pos, p + q),
        any_resolves(d, pos, p + seq![x] + q) == any_resolves(d, pos, p + q),
        any_fails(d, pos, p + seq![x] + q) == any_fails(d, pos, p + q),
{
    let one = seq![x];
    lemma_projection_concat(d, pos, p + one, q);
    lemma_projection_concat(d, pos, p, one);
    lemma_projection_concat(d, pos, p, q);
    assert(one.drop_last() =~= Seq::<Seq<char>>::empty());
    assert(one.last() == x);
    assert(projected(d, pos, one.drop_last()) =~= Seq::<(Seq<char>, FieldValue)>::empty());
    assert(projected(d, pos, one) =~= Seq::<(Seq<char>, FieldValue)>::empty());
    assert(projected(d, pos, p) + projected(d, pos, one) =~= projected(d, pos, p));
    if any_resolves(d, pos, one) {
        let i = choose|i: int| 0 <= i < one.len() && #[trigger] field(d, pos, one[i]) matches Ok(Some(_));
        assert(one[i] == x);
    }
    if any_fails(d, pos, one) {
        let i = choose|i: int| 0 <= i < one.len() && #[trigger] field(d, pos, one[i]) is Err;
        assert(one[i] == x);
    }
}

/// With no paths, a lookup records nothing, and finds something exactly
/// where a map stands at the record.
pub proof fn lemma_no_paths(d: Seq<u8>, pos: int)
    ensures
        projected(d, pos, Seq::empty()) == Seq::<(Seq<char>, FieldValue)>::empty(),
        projection_found(d, pos, Seq::empty()) == Ok::<bool, ()>(is_map_at(d, pos)),
{
}


/// Entries that scan without error also skip without error.
proof fn lemma_scan_skips(d: Seq<u8>, p: int, n: nat, wanted: Seq<Seq<u8>>, acc: Seq<Option<u64>>)
    requires
        scan_entries(d, p, n, wanted, acc) is Some,
    ensures
        skip_values(d, p, 2 * n) is Some,
    decreases n,
{
    if n > 0 {
        let (k, after) = key_at(d, p).unwrap();
        lemma_key_and_uint_skip(d, p);
        lemma_key_and_uint_skip(d, after);
        lemma_skip_split(d, p, 1, (2 * n - 1) as nat);
        lemma_skip_split(d, after, 1, (2 * n - 2) as nat);
        if wanted.contains(k) {
            let (v, e) = uint_at(d, after).unwrap();
            lemma_scan_skips(d, e, (n - 1) as nat, wanted, record_uint(wanted, acc, k, v));
        } else {
            let e = skip_values(d, after, 1).unwrap();
            lemma_scan_skips(d, e, (n - 1) as nat, wanted, acc);
        }
    }
}

/// A map whose wanted integers read without error is a map that can be
/// skipped as a whole.
pub proof fn lemma_map_uints_skips(d: Seq<u8>, pos: int, wanted: Seq<Seq<u8>>)
    requires
        map_uints(d, pos, wanted) is Some,
    ensures
        ctrl_at(d, pos) matches Some(c) && c.ty == Type::Dict,
        skip_values(d, pos, 1) is Some,
{
    let c = ctrl_at(d, pos).unwrap();
    lemma_scan_skips(d, c.next, c.size as nat, wanted, Seq::new(wanted.len(), |j: int| None));
}

} // verus!
