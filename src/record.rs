//! The caller-owned container that a lookup writes its fields into.
use vstd::prelude::*;
use vstd::utf8::encode_utf8_decode_utf8;

use crate::format::FieldValue;
use crate::path::bytes_eq;
use crate::value::ResultValue;

verus! {

/// The value last recorded under `key` in a sequence of entries.
pub open spec fn latest(entries: Seq<(Seq<char>, FieldValue)>, key: Seq<char>) -> Option<FieldValue>
    decreases entries.len(),
{
    if entries.len() == 0 {
        None
    } else if entries.last().0 == key {
        Some(entries.last().1)
    } else {
        latest(entries.drop_last(), key)
    }
}

/// Fields found by lookups, in the order they were inserted: a mapping from
/// path to value in which a later entry for a path hides an earlier one.
pub struct Record {
    entries: Vec<(String, ResultValue)>,
}

impl View for Record {
    type V = Seq<(Seq<char>, FieldValue)>;

    closed spec fn view(&self) -> Seq<(Seq<char>, FieldValue)> {
        self.entries@.map_values(|e: (String, ResultValue)| (e.0@, e.1@))
    }
}

impl Record {
    /// An empty record.
    pub fn new() -> (r: Record)
        ensures
            r@ == Seq::<(Seq<char>, FieldValue)>::empty(),
    {
        let r = Record { entries: Vec::new() };
        assert(r@ =~= Seq::<(Seq<char>, FieldValue)>::empty());
        r
    }

    /// The number of entries, counting every insertion.
    pub fn len(&self) -> (r: usize)
        ensures
            r == self@.len(),
    {
        self.entries.len()
    }

    /// Records `value` under `path`.
    pub fn insert(&mut self, path: String, value: ResultValue)
        ensures
            final(self)@ == old(self)@.push((path@, value@)),
    {
        let ghost entry = (path@, value@);
        self.entries.push((path, value));
        assert(self@ =~= old(self)@.push(entry));
    }

    /// Removes every entry.
    pub fn clear(&mut self)
        ensures
            final(self)@ == Seq::<(Seq<char>, FieldValue)>::empty(),
    {
        self.entries.clear();
        assert(self@ =~= Seq::<(Seq<char>, FieldValue)>::empty());
    }

    /// The value last recorded under `path`.
    pub fn get(&self, path: &str) -> (r: Option<&ResultValue>)
        ensures
            match latest(self@, path@) {
                None => r is None,
                Some(v) => r matches Some(x) && x@ == v,
            },
    {
        let wanted = path.as_bytes();
        let mut i: usize = self.entries.len();
        assert(self@.subrange(0, i as int) =~= self@);
        while i > 0
            invariant
                i <= self.entries@.len(),
                wanted@ == vstd::utf8::encode_utf8(path@),
                latest(self@, path@) == latest(self@.subrange(0, i as int), path@),
            decreases i,
        {
            let entry = &self.entries[i - 1];
            let key = entry.0.as_str().as_bytes();
            proof {
                encode_utf8_decode_utf8(entry.0@);
                encode_utf8_decode_utf8(path@);
                assert(self@.subrange(0, i as int).drop_last() =~= self@.subrange(0, i - 1));
            }
            if bytes_eq(key, wanted) {
                return Some(&entry.1);
            }
            i = i - 1;
        }
        None
    }

    /// The entries, in the order they were inserted.
    pub fn into_entries(self) -> (r: Vec<(String, ResultValue)>)
        ensures
            r@.map_values(|e: (String, ResultValue)| (e.0@, e.1@)) == self@,
    {
        self.entries
    }
}

} // verus!
