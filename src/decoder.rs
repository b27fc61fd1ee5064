//! A cursor over a byte slice that reads the self-describing data format.
use vstd::prelude::*;
use vstd::slice::slice_subrange;
use vstd::utf8::{decode_utf8, decode_utf8_encode_utf8, encode_utf8, valid_utf8};

use crate::format::{
    be_value, ctrl_at, decoded_end, decoded_value, field, find, index_of, is_map_at, key_at, lemma_be_value_bound,
    lemma_ctrl_bounds, lemma_dot_from_range, lemma_key_and_uint_skip, lemma_skip_split, lemma_pointer_bounds, lemma_skip_consumes,
    map_uints, map_value_pos, path_head, path_tail, pointer_at, pow256, projected,
    projection_found, record_uint, resolved_ctrl_at, scan_entries, skip_values, type_of_tag,
    uint_at, value_at, value_end, Ctrl, Type,
};
use crate::path::{bytes_eq, is_index, parse_index, segment_end};
use crate::record::Record;
use crate::value::{agrees, Error, ResultValue};

verus! {

/// A read cursor: a borrowed byte slice and an offset into it.
pub struct Decoder<'a> {
    pub buffer: &'a [u8],
    pub offset: usize,
}

impl<'a> Decoder<'a> {
    /// A cursor over `buffer` at `offset`.
    pub fn new(buffer: &'a [u8], offset: usize) -> (r: Decoder<'a>)
        ensures
            r.buffer@ == buffer@,
            r.offset == offset,
    {
        Decoder { buffer, offset }
    }

    /// Reads the byte under the cursor and steps past it.
    pub fn current_byte(&mut self) -> (r: u8)
        requires
            old(self).offset < old(self).buffer@.len(),
        ensures
            r == old(self).buffer@[old(self).offset as int],
            final(self).buffer == old(self).buffer,
            final(self).offset == old(self).offset + 1,
    {
        let b = self.buffer[self.offset];
        self.offset = self.offset + 1;
        b
    }

    /// Hands out the next `size` bytes and steps past them.
    pub fn next_bytes(&mut self, size: usize) -> (r: &'a [u8])
        requires
            old(self).offset + size <= old(self).buffer@.len(),
        ensures
            r@ == old(self).buffer@.subrange(old(self).offset as int, old(self).offset + size),
            final(self).buffer == old(self).buffer,
            final(self).offset == old(self).offset + size,
    {
        let start = self.offset;
        assert(self.buffer@.len() == self.buffer.len());
        self.offset = self.offset + size;
        &self.buffer[start..start + size]
    }

    /// Reads `n` bytes (at most eight) as a big-endian unsigned integer.
    pub fn decode_n_bytes_as_uint(&mut self, n: usize) -> (r: u64)
        requires
            n <= 8,
            old(self).offset + n <= old(self).buffer@.len(),
        ensures
            r == be_value(old(self).buffer@.subrange(old(self).offset as int, old(self).offset + n)),
            final(self).buffer == old(self).buffer,
            final(self).offset == old(self).offset + n,
    {
        let bytes = self.next_bytes(n);
        let mut acc: u64 = 0;
        let mut i: usize = 0;
        while i < n
            invariant
                i <= n <= 8,
                bytes@.len() == n,
                acc == be_value(bytes@.subrange(0, i as int)),
            decreases n - i,
        {
            proof {
                lemma_be_value_bound(bytes@.subrange(0, i as int));
                reveal_with_fuel(pow256, 9);
                assert(bytes@.subrange(0, i + 1).drop_last() =~= bytes@.subrange(0, i as int));
            }
            acc = acc * 256 + bytes[i] as u64;
            i = i + 1;
        }
        assert(bytes@.subrange(0, n as int) =~= bytes@);
        acc
    }

    /// Reads a control byte: its type and size, with any extension bytes.
    /// For a pointer the size is the five low bits, and nothing more is read.
    pub fn decode_ctrl_byte(&mut self) -> (r: Option<(Type, usize)>)
        ensures
            final(self).buffer == old(self).buffer,
            match ctrl_at(old(self).buffer@, old(self).offset as int) {
                None => r is None,
                Some(c) => r == Some((c.ty, c.size as usize)) && final(self).offset == c.next,
            },
    {
        proof {
            lemma_ctrl_bounds(self.buffer@, self.offset as int);
        }
        let len = self.buffer.len();
        if self.offset >= len {
            return None;
        }
        let byte = self.current_byte();
        let mut tag: u16 = (byte / 32) as u16;
        if tag == 0 {
            if self.offset >= len {
                return None;
            }
            tag = 7 + self.current_byte() as u16;
        }
        let ty = match type_from_tag(tag) {
            None => return None,
            Some(t) => t,
        };
        let field = byte % 32;
        if let Type::Pointer = ty {
            return Some((ty, field as usize));
        }
        if field < 29 {
            return Some((ty, field as usize));
        }
        let n = (field - 28) as usize;
        if n > len - self.offset {
            return None;
        }
        let base: usize = if field == 29 {
            29
        } else if field == 30 {
            285
        } else {
            65821
        };
        let ghost p1 = self.offset as int;
        let v = self.decode_n_bytes_as_uint(n);
        proof {
            lemma_be_value_bound(self.buffer@.subrange(p1, p1 + n));
            reveal_with_fuel(pow256, 4);
        }
        Some((ty, base + v as usize))
    }

    /// Reads the payload of a pointer whose control byte had the five low
    /// bits `field`, and returns its target.
    pub fn get_pointer_address(&mut self, field: usize) -> (r: Option<usize>)
        requires
            field < 32,
        ensures
            final(self).buffer == old(self).buffer,
            match pointer_at(
                old(self).buffer@,
                Ctrl { ty: Type::Pointer, size: field as int, next: old(self).offset as int },
            ) {
                None => r is None,
                Some((t, e)) => r == Some(t as usize) && t == r.unwrap() && final(self).offset == e,
            },
    {
        let ghost c = Ctrl { ty: Type::Pointer, size: field as int, next: self.offset as int };
        let ps = field / 8;
        let pp = (field % 8) as u64;
        let n = ps + 1;
        let len = self.buffer.len();
        if self.offset > len || n > len - self.offset {
            return None;
        }
        let ghost p1 = self.offset as int;
        let v = self.decode_n_bytes_as_uint(n);
        proof {
            lemma_be_value_bound(self.buffer@.subrange(p1, p1 + n));
            reveal_with_fuel(pow256, 5);
        }
        let target: u64 = if ps == 0 {
            pp * 256 + v
        } else if ps == 1 {
            2048 + pp * 65536 + v
        } else if ps == 2 {
            526336 + pp * 16777216 + v
        } else {
            v
        };
        Some(target as usize)
    }

    /// Decodes the value under the cursor, following pointers. Maps, arrays,
    /// bytes and signed or 128-bit integers come back as `Ok(None)`.
    pub fn decode_value(&mut self) -> (r: Result<Option<ResultValue>, Error>)
        ensures
            final(self).buffer == old(self).buffer,
            agrees(r, decoded_value(old(self).buffer@, old(self).offset as int)),
            r is Ok ==> final(self).offset == decoded_end(old(self).buffer@, old(self).offset as int),
    {
        let ghost d = self.buffer@;
        let ghost start = self.offset as int;
        let len = self.buffer.len();
        let mut hops: usize = 0;
        loop
            invariant
                self.buffer@ == d,
                self.buffer == old(self).buffer,
                d == old(self).buffer@,
                start == old(self).offset,
                len == d.len(),
                hops <= len,
                value_at(d, self.offset as int, (len - hops) as nat) == decoded_value(d, start),
                value_end(d, self.offset as int, (len - hops) as nat) == decoded_end(d, start),
            decreases len - hops,
        {
            let ghost pos = self.offset as int;
            proof {
                lemma_ctrl_bounds(d, pos);
            }
            let (ty, size) = match self.decode_ctrl_byte() {
                None => return Err(Error::MalformedData),
                Some(c) => c,
            };
            let fits = size <= len - self.offset;
            proof {
                if fits {
                    lemma_be_value_bound(d.subrange(self.offset as int, self.offset + size));
                    reveal_with_fuel(pow256, 9);
                }
            }
            match ty {
                Type::Pointer => {
                    proof {
                        lemma_pointer_bounds(d, Ctrl { ty, size: size as int, next: self.offset as int });
                    }
                    let target = match self.get_pointer_address(size) {
                        None => return Err(Error::MalformedData),
                        Some(t) => t,
                    };
                    if hops == len {
                        return Err(Error::MalformedData);
                    }
                    hops = hops + 1;
                    self.offset = target;
                },
                Type::String => {
                    if !fits {
                        return Err(Error::MalformedData);
                    }
                    let bytes = self.next_bytes(size);
                    return match utf8_str(bytes) {
                        None => Err(Error::MalformedData),
                        Some(text) => Ok(Some(ResultValue::String(text.to_owned()))),
                    };
                },
                Type::Double => {
                    if !fits || size != 8 {
                        return Err(Error::MalformedData);
                    }
                    let bits = self.decode_n_bytes_as_uint(8);
                    return Ok(Some(ResultValue::Double(bits)));
                },
                Type::Float => {
                    if !fits || size != 4 {
                        return Err(Error::MalformedData);
                    }
                    let bits = self.decode_n_bytes_as_uint(4);
                    return Ok(Some(ResultValue::Float(bits as u32)));
                },
                Type::Boolean => {
                    if size > 1 {
                        return Err(Error::MalformedData);
                    }
                    return Ok(Some(ResultValue::Boolean(size == 1)));
                },
                Type::Uint16 | Type::Uint32 | Type::Uint64 => {
                    if !fits || size > 8 {
                        return Err(Error::MalformedData);
                    }
                    let v = self.decode_n_bytes_as_uint(size);
                    return Ok(Some(ResultValue::Uint(v)));
                },
                Type::Container | Type::EndMarker => {
                    return Err(Error::MalformedData);
                },
                _ => {
                    return Ok(None);
                },
            }
        }
    }

    /// Decodes a map key: a UTF-8 string, in place or behind one pointer.
    /// The cursor ends after the key (after the pointer, where there is one).
    pub fn decode_string(&mut self) -> (r: Result<&'a str, Error>)
        ensures
            final(self).buffer == old(self).buffer,
            match key_at(old(self).buffer@, old(self).offset as int) {
                None => r == Err::<&str, Error>(Error::MalformedData),
                Some((k, after)) => r matches Ok(s) && s@ == decode_utf8(k) && valid_utf8(k)
                    && final(self).offset == after,
            },
    {
        let ghost d = self.buffer@;
        let len = self.buffer.len();
        proof {
            lemma_ctrl_bounds(d, self.offset as int);
        }
        let (ty, size) = match self.decode_ctrl_byte() {
            None => return Err(Error::MalformedData),
            Some(c) => c,
        };
        match ty {
            Type::Pointer => {
                proof {
                    lemma_pointer_bounds(d, Ctrl { ty, size: size as int, next: self.offset as int });
                }
                let target = match self.get_pointer_address(size) {
                    None => return Err(Error::MalformedData),
                    Some(t) => t,
                };
                let after = self.offset;
                self.offset = target;
                proof {
                    lemma_ctrl_bounds(d, target as int);
                }
                let (kty, ksize) = match self.decode_ctrl_byte() {
                    None => return Err(Error::MalformedData),
                    Some(c) => c,
                };
                if let Type::String = kty {
                    if ksize > len - self.offset {
                        return Err(Error::MalformedData);
                    }
                    let bytes = self.next_bytes(ksize);
                    self.offset = after;
                    match utf8_str(bytes) {
                        None => Err(Error::MalformedData),
                        Some(text) => Ok(text),
                    }
                } else {
                    Err(Error::MalformedData)
                }
            },
            Type::String => {
                if size > len - self.offset {
                    return Err(Error::MalformedData);
                }
                let bytes = self.next_bytes(size);
                match utf8_str(bytes) {
                    None => Err(Error::MalformedData),
                    Some(text) => Ok(text),
                }
            },
            _ => Err(Error::MalformedData),
        }
    }

    /// Reads an unsigned integer of at most eight bytes.
    pub fn decode_uint(&mut self) -> (r: Result<u64, Error>)
        ensures
            final(self).buffer == old(self).buffer,
            match uint_at(old(self).buffer@, old(self).offset as int) {
                None => r == Err::<u64, Error>(Error::MalformedData),
                Some((v, e)) => r == Ok::<u64, Error>(v) && final(self).offset == e,
            },
    {
        let len = self.buffer.len();
        proof {
            lemma_ctrl_bounds(self.buffer@, self.offset as int);
        }
        let (ty, size) = match self.decode_ctrl_byte() {
            None => return Err(Error::MalformedData),
            Some(c) => c,
        };
        match ty {
            Type::Uint16 | Type::Uint32 | Type::Uint64 | Type::Uint128 => {
                if size > 8 || size > len - self.offset {
                    return Err(Error::MalformedData);
                }
                let ghost p = self.offset as int;
                let v = self.decode_n_bytes_as_uint(size);
                proof {
                    lemma_be_value_bound(self.buffer@.subrange(p, p + size));
                    reveal_with_fuel(pow256, 9);
                }
                Ok(v)
            },
            _ => Err(Error::MalformedData),
        }
    }

    /// Reads the map under the cursor and returns, for each of `fields`, the
    /// unsigned integer stored under that key (the last one, where the key
    /// repeats), or `None` where the map lacks it. Other entries are skipped.
    pub fn decode_map(&mut self, fields: &[&str]) -> (r: Result<Vec<Option<u64>>, Error>)
        ensures
            final(self).buffer == old(self).buffer,
            match map_uints(
                old(self).buffer@,
                old(self).offset as int,
                fields@.map_values(|s: &str| encode_utf8(s@)),
            ) {
                None => r == Err::<Vec<Option<u64>>, Error>(Error::MalformedData),
                Some(values) => r matches Ok(v) && v@ == values,
            },
            r is Ok ==> final(self).offset == skip_values(old(self).buffer@, old(self).offset as int, 1)->0,
    {
        let ghost d = self.buffer@;
        let ghost pos = self.offset as int;
        let ghost wanted = fields@.map_values(|s: &str| encode_utf8(s@));
        proof {
            lemma_ctrl_bounds(d, pos);
        }
        let (ty, size) = match self.decode_ctrl_byte() {
            None => return Err(Error::MalformedData),
            Some(c) => c,
        };
        if let Type::Dict = ty {
        } else {
            return Err(Error::MalformedData);
        }
        let mut result: Vec<Option<u64>> = Vec::new();
        let mut j: usize = 0;
        while j < fields.len()
            invariant
                j <= fields@.len(),
                result@ =~= Seq::new(j as nat, |k: int| None::<u64>),
            decreases fields@.len() - j,
        {
            result.push(None);
            j = j + 1;
        }
        let mut i: usize = 0;
        while i < size
            invariant
                self.buffer@ == d,
                self.buffer == old(self).buffer,
                d == old(self).buffer@,
                wanted == fields@.map_values(|s: &str| encode_utf8(s@)),
                pos == old(self).offset,
                i <= size,
                result@.len() == fields@.len(),
                scan_entries(d, self.offset as int, (size - i) as nat, wanted, result@) == map_uints(
                    d,
                    pos,
                    wanted,
                ),
                skip_values(d, self.offset as int, (2 * (size - i)) as nat) == skip_values(d, pos, 1),
            decreases size - i,
        {
            let ghost p = self.offset as int;
            let key = match self.decode_string() {
                Err(_) => return Err(Error::MalformedData),
                Ok(k) => k,
            };
            let key_bytes = key.as_bytes();
            let ghost k = key_at(d, p).unwrap().0;
            let ghost after = self.offset as int;
            proof {
                decode_utf8_encode_utf8(k);
            }
            let mut hit = false;
            let mut j: usize = 0;
            while j < fields.len()
                invariant
                    j <= fields@.len(),
                    wanted == fields@.map_values(|s: &str| encode_utf8(s@)),
                    key_bytes@ == k,
                    hit == exists|m: int| 0 <= m < j && wanted[m] == k,
                decreases fields@.len() - j,
            {
                assert(wanted[j as int] == encode_utf8(fields@[j as int]@));
                if bytes_eq(fields[j].as_bytes(), key_bytes) {
                    hit = true;
                }
                j = j + 1;
            }
            if hit {
                let v = match self.decode_uint() {
                    Err(e) => return Err(e),
                    Ok(v) => v,
                };
                proof {
                    lemma_key_and_uint_skip(d, after);
                }
                let ghost before = result@;
                let mut j: usize = 0;
                while j < fields.len()
                    invariant
                        j <= fields@.len(),
                        result@.len() == fields@.len(),
                        before.len() == fields@.len(),
                        wanted == fields@.map_values(|s: &str| encode_utf8(s@)),
                        key_bytes@ == k,
                        forall|m: int| 0 <= m < j ==> result@[m] == record_uint(wanted, before, k, v)[m],
                        forall|m: int| j <= m < fields@.len() ==> result@[m] == before[m],
                    decreases fields@.len() - j,
                {
                    assert(wanted[j as int] == encode_utf8(fields@[j as int]@));
                    if bytes_eq(fields[j].as_bytes(), key_bytes) {
                        result.set(j, Some(v));
                    }
                    j = j + 1;
                }
                assert(result@ =~= record_uint(wanted, before, k, v));
            } else {
                if !self.skip_value() {
                    return Err(Error::MalformedData);
                }
            }
            proof {
                lemma_entry_skip(d, p, after, self.offset as int, (size - i) as nat);
            }
            i = i + 1;
        }
        assert(skip_values(d, self.offset as int, 0) == Some(self.offset as int));
        Ok(result)
    }

    /// Whether the cursor stands on a map, in place or behind one pointer.
    /// The cursor moves.
    pub fn at_map(&mut self) -> (r: bool)
        ensures
            final(self).buffer == old(self).buffer,
            r == is_map_at(old(self).buffer@, old(self).offset as int),
    {
        let ghost d = self.buffer@;
        proof {
            lemma_ctrl_bounds(d, self.offset as int);
        }
        let (ty, size) = match self.decode_ctrl_byte() {
            None => return false,
            Some(c) => c,
        };
        match ty {
            Type::Pointer => {
                proof {
                    lemma_pointer_bounds(d, Ctrl { ty, size: size as int, next: self.offset as int });
                }
                let target = match self.get_pointer_address(size) {
                    None => return false,
                    Some(t) => t,
                };
                self.offset = target;
                match self.decode_ctrl_byte() {
                    Some((Type::Dict, _)) => true,
                    _ => false,
                }
            },
            Type::Dict => true,
            _ => false,
        }
    }

    /// Resolves each of `fields` from the map under the cursor, and records
    /// every one that resolves to a value, under its path, in `result`.
    /// Returns whether the lookup found something: with no fields, whether a
    /// map stands under the cursor; else whether some field resolved. On
    /// malformed data it stops, and `result` keeps the fields before it.
    pub fn decode_map_recursively(&mut self, fields: &[&str], result: &mut Record) -> (r: Result<
        bool,
        Error,
    >)
        ensures
            final(self).buffer == old(self).buffer,
            ({
                let d = old(self).buffer@;
                let pos = old(self).offset as int;
                let paths = fields@.map_values(|s: &str| s@);
                match r {
                    Ok(found) => projection_found(d, pos, paths) == Ok::<bool, ()>(found)
                        && final(result)@ == old(result)@ + projected(d, pos, paths),
                    Err(e) => e == Error::MalformedData && projection_found(d, pos, paths) is Err
                        && exists|k: int|
                        0 <= k < paths.len() && field(d, pos, paths[k]) is Err && (forall|j: int|
                            0 <= j < k ==> !(#[trigger] field(d, pos, paths[j]) is Err))
                            && final(result)@ == old(result)@ + projected(
                            d,
                            pos,
                            paths.take(k),
                        ),
                }
            }),
    {
        let ghost d = self.buffer@;
        let ghost paths = fields@.map_values(|s: &str| s@);
        let map_offset = self.offset;
        let mut found = false;
        let mut i: usize = 0;
        assert(paths.take(0) =~= Seq::<Seq<char>>::empty());
        while i < fields.len()
            invariant
                self.buffer@ == d,
                self.buffer == old(self).buffer,
                d == old(self).buffer@,
                map_offset == old(self).offset,
                paths == fields@.map_values(|s: &str| s@),
                i <= fields@.len(),
                forall|j: int| 0 <= j < i ==> !(#[trigger] field(d, map_offset as int, paths[j]) is Err),
                found == exists|j: int|
                    0 <= j < i && #[trigger] field(d, map_offset as int, paths[j]) matches Ok(Some(_)),
                result@ == old(result)@ + projected(d, map_offset as int, paths.take(i as int)),
            decreases fields@.len() - i,
        {
            self.offset = map_offset;
            let path = fields[i];
            proof {
                assert(paths.take(i + 1).drop_last() =~= paths.take(i as int));
                assert(paths.take(i + 1).last() == path@);
            }
            match self.find_field(path.as_bytes()) {
                Err(e) => {
                    return Err(e);
                },
                Ok(None) => {},
                Ok(Some(v)) => {
                    result.insert(path.to_owned(), v);
                    found = true;
                },
            }
            assert(result@ =~= old(result)@ + projected(d, map_offset as int, paths.take(i + 1)));
            i = i + 1;
        }
        assert(paths.take(i as int) =~= paths);
        if fields.len() == 0 {
            self.offset = map_offset;
            found = self.at_map();
        }
        Ok(found)
    }

    /// Resolves `parts`, the UTF-8 bytes of a path, from the value under the
    /// cursor: `Ok(None)` where the path leads nowhere.
    pub fn find_field(&mut self, parts: &[u8]) -> (r: Result<Option<ResultValue>, Error>)
        ensures
            final(self).buffer == old(self).buffer,
            agrees(r, find(old(self).buffer@, old(self).offset as int, parts@)),
        decreases parts@.len(),
    {
        if parts.len() == 0 {
            return self.decode_value();
        }
        let ghost d = self.buffer@;
        let len = self.buffer.len();
        let e = segment_end(parts);
        proof {
            lemma_dot_from_range(parts@, 0);
        }
        let head = slice_subrange(parts, 0, e);
        let tail = if e < parts.len() {
            slice_subrange(parts, e + 1, parts.len())
        } else {
            slice_subrange(parts, 0, 0)
        };
        assert(head@ =~= path_head(parts@));
        assert(tail@ =~= path_tail(parts@));
        proof {
            lemma_ctrl_bounds(d, self.offset as int);
        }
        let (mut ty, mut size) = match self.decode_ctrl_byte() {
            None => return Err(Error::MalformedData),
            Some(c) => c,
        };
        if let Type::Pointer = ty {
            proof {
                lemma_pointer_bounds(d, Ctrl { ty, size: size as int, next: self.offset as int });
            }
            let target = match self.get_pointer_address(size) {
                None => return Err(Error::MalformedData),
                Some(t) => t,
            };
            self.offset = target;
            proof {
                lemma_ctrl_bounds(d, target as int);
            }
            match self.decode_ctrl_byte() {
                None => return Err(Error::MalformedData),
                Some((t, s)) => {
                    ty = t;
                    size = s;
                },
            }
        }
        let ghost first = self.offset as int;
        let container = match ty {
            Type::Dict | Type::Array => true,
            _ => false,
        };
        if container && is_index(head) {
            return match parse_index(head, size) {
                None => Ok(None),
                Some(index) => {
                    if !self.skip_values(index) {
                        return Err(Error::MalformedData);
                    }
                    self.find_field(tail)
                },
            };
        }
        match ty {
            Type::Dict => {
                let mut i: usize = 0;
                while i < size
                    invariant
                        self.buffer@ == d,
                        self.buffer == old(self).buffer,
                        d == old(self).buffer@,
                        i <= size,
                        parts@.len() > 0,
                        index_of(head@) is None,
                        head@ == path_head(parts@),
                        tail@ == path_tail(parts@),
                        tail@.len() < parts@.len(),
                        resolved_ctrl_at(d, old(self).offset as int) matches Some(c) && c.ty
                            == Type::Dict && c.size == size && c.next == first,
                        map_value_pos(d, self.offset as int, (size - i) as nat, head@)
                            == map_value_pos(d, first, size as nat, head@),
                    decreases size - i,
                {
                    let ghost p = self.offset as int;
                    let key = match self.decode_string() {
                        Err(_) => return Err(Error::MalformedData),
                        Ok(k) => k,
                    };
                    let key_bytes = key.as_bytes();
                    proof {
                        let (k, _) = key_at(d, p).unwrap();
                        decode_utf8_encode_utf8(k);
                    }
                    if bytes_eq(key_bytes, head) {
                        return self.find_field(tail);
                    }
                    if !self.skip_value() {
                        return Err(Error::MalformedData);
                    }
                    i = i + 1;
                }
                Ok(None)
            },
            _ => Ok(None),
        }
    }

    /// Steps over one value; `false` where it does not decode.
    pub fn skip_value(&mut self) -> (r: bool)
        ensures
            final(self).buffer == old(self).buffer,
            match skip_values(old(self).buffer@, old(self).offset as int, 1) {
                None => !r,
                Some(e) => r && final(self).offset == e,
            },
    {
        self.skip_values(1)
    }

    /// Steps over `n` consecutive values; `false` where they do not decode.
    pub fn skip_values(&mut self, n: usize) -> (r: bool)
        ensures
            final(self).buffer == old(self).buffer,
            match skip_values(old(self).buffer@, old(self).offset as int, n as nat) {
                None => !r,
                Some(e) => r && final(self).offset == e,
            },
    {
        let ghost d = self.buffer@;
        let ghost start = self.offset as int;
        let len = self.buffer.len();
        let mut remaining = n;
        while remaining > 0
            invariant
                self.buffer@ == d,
                self.buffer == old(self).buffer,
                d == old(self).buffer@,
                start == old(self).offset,
                len == d.len(),
                skip_values(d, self.offset as int, remaining as nat) == skip_values(d, start, n as nat),
            decreases len - self.offset, remaining,
        {
            proof {
                lemma_skip_consumes(d, self.offset as int, remaining as nat);
                lemma_ctrl_bounds(d, self.offset as int);
            }
            if self.offset > len || remaining > len - self.offset {
                return false;
            }
            let (ty, size) = match self.decode_ctrl_byte() {
                None => return false,
                Some(c) => c,
            };
            let rest = remaining - 1;
            proof {
                lemma_skip_consumes(d, self.offset as int, (rest + 2 * size) as nat);
                lemma_skip_consumes(d, self.offset as int, (rest + size) as nat);
                lemma_skip_consumes(d, self.offset as int, rest as nat);
            }
            match ty {
                Type::Pointer => {
                    proof {
                        lemma_pointer_bounds(d, Ctrl { ty, size: size as int, next: self.offset as int });
                    }
                    match self.get_pointer_address(size) {
                        None => return false,
                        Some(_) => {},
                    }
                    remaining = rest;
                },
                Type::Array => {
                    if rest > len - self.offset || size > len - self.offset - rest {
                        return false;
                    }
                    remaining = rest + size;
                },
                Type::Dict => {
                    if rest > len - self.offset || size > (len - self.offset - rest) / 2 {
                        return false;
                    }
                    remaining = rest + 2 * size;
                },
                Type::Boolean => {
                    remaining = rest;
                },
                Type::Container | Type::EndMarker => {
                    return false;
                },
                _ => {
                    if size > len - self.offset {
                        return false;
                    }
                    self.offset = self.offset + size;
                    remaining = rest;
                },
            }
        }
        true
    }
}

/// Skipping the `m` remaining entries of a map from an entry whose key ends
/// at `after` and whose value ends at `e` is skipping the `m - 1` after it.
proof fn lemma_entry_skip(d: Seq<u8>, p: int, after: int, e: int, m: nat)
    requires
        m >= 1,
        key_at(d, p) matches Some((_, a)) && a == after,
        skip_values(d, after, 1) == Some(e),
    ensures
        skip_values(d, p, 2 * m) == skip_values(d, e, (2 * (m - 1)) as nat),
{
    lemma_skip_split(d, p, 1, (2 * m - 1) as nat);
    lemma_key_and_uint_skip(d, p);
    lemma_skip_split(d, after, 1, (2 * m - 2) as nat);
}

/// Relies on `std::str::from_utf8`: it accepts exactly the valid UTF-8 byte
/// sequences, and views the same bytes as text.
#[verifier::external_body]
fn utf8_str(bytes: &[u8]) -> (r: Option<&str>)
    ensures
        r is Some <==> valid_utf8(bytes@),
        r matches Some(s) ==> s@ == decode_utf8(bytes@),
{
    match std::str::from_utf8(bytes) {
        Ok(s) => Some(s),
        Err(_) => None,
    }
}

/// The type for a tag number.
fn type_from_tag(tag: u16) -> (r: Option<Type>)
    ensures
        r == type_of_tag(tag as int),
{
    match tag {
        1 => Some(Type::Pointer),
        2 => Some(Type::String),
        3 => Some(Type::Double),
        4 => Some(Type::Bytes),
        5 => Some(Type::Uint16),
        6 => Some(Type::Uint32),
        7 => Some(Type::Dict),
        8 => Some(Type::Int32),
        9 => Some(Type::Uint64),
        10 => Some(Type::Uint128),
        11 => Some(Type::Array),
        12 => Some(Type::Container),
        13 => Some(Type::EndMarker),
        14 => Some(Type::Boolean),
        15 => Some(Type::Float),
        _ => None,
    }
}

} // verus!
