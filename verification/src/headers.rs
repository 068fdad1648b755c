//! An ordered multimap of header names to values, the crate's model of an
//! HTTP header map: names compare ASCII-case-insensitively, values may
//! repeat, and the order of entries is kept.

use vstd::prelude::*;

use crate::text::lower_seq;
use crate::text::lower_bytes;
use crate::text::bytes_eq;
use crate::text::subvec;

verus! {

/// One header map: a sequence of (name, value) byte-string pairs.
pub struct Headers {
    pub entries: Vec<(Vec<u8>, Vec<u8>)>,
}

/// Two header names denote the same header.
pub open spec fn key_matches(name: Seq<u8>, key: Seq<u8>) -> bool {
    lower_seq(name) == lower_seq(key)
}

/// The value of the first entry named `key`, if any.
pub open spec fn get_first_spec(h: Seq<(Seq<u8>, Seq<u8>)>, key: Seq<u8>) -> Option<Seq<u8>>
    decreases h.len(),
{
    if h.len() == 0 {
        None
    } else if key_matches(h[0].0, key) {
        Some(h[0].1)
    } else {
        get_first_spec(h.skip(1), key)
    }
}

/// Whether some entry is named `key`.
pub open spec fn contains_key_spec(h: Seq<(Seq<u8>, Seq<u8>)>, key: Seq<u8>) -> bool {
    exists|i: int| 0 <= i < h.len() && key_matches(h[i].0, key)
}

/// The entries with every entry named `key` removed, order kept.
pub open spec fn remove_key_spec(h: Seq<(Seq<u8>, Seq<u8>)>, key: Seq<u8>) -> Seq<
    (Seq<u8>, Seq<u8>),
>
    decreases h.len(),
{
    if h.len() == 0 {
        h
    } else {
        let rest = remove_key_spec(h.drop_last(), key);
        if key_matches(h.last().0, key) {
            rest
        } else {
            rest.push(h.last())
        }
    }
}

/// Whether the transport can carry this byte string as a header value:
/// every byte printable or opaque (32 and above, except DEL) or a tab —
/// the rule the HTTP header types enforce byte by byte. A rewritten
/// value that fails it is replaced by the upstream original, never
/// dropped.
pub open spec fn is_header_value_spec(v: Seq<u8>) -> bool {
    forall|i: int| 0 <= i < v.len() ==> (#[trigger] v[i] >= 32 && v[i] != 127) || v[i] == 9
}

/// Checks that the transport can carry `v` as a header value.
pub fn is_header_value(v: &Vec<u8>) -> (r: bool)
    ensures
        r == is_header_value_spec(v@),
{
    let mut i: usize = 0;
    while i < v.len()
        invariant
            i <= v@.len(),
            forall|j: int| 0 <= j < i ==> (#[trigger] v@[j] >= 32 && v@[j] != 127) || v@[j] == 9,
        decreases v.len() - i,
    {
        let b = v[i];
        if !((b >= 32 && b != 127) || b == 9) {
            return false;
        }
        i = i + 1;
    }
    true
}

/// The copy of a byte string.
pub fn copy_bytes(v: &Vec<u8>) -> (r: Vec<u8>)
    ensures
        r@ == v@,
{
    let r = subvec(v, 0, v.len());
    proof {
        assert(v@.subrange(0, v@.len() as int) =~= v@);
    }
    r
}

/// Whether `name` and `key` denote the same header.
pub fn key_eq(name: &Vec<u8>, key: &Vec<u8>) -> (r: bool)
    ensures
        r == key_matches(name@, key@),
{
    let a = lower_bytes(name);
    let b = lower_bytes(key);
    bytes_eq(&a, &b)
}

impl View for Headers {
    type V = Seq<(Seq<u8>, Seq<u8>)>;

    open spec fn view(&self) -> Seq<(Seq<u8>, Seq<u8>)> {
        Seq::new(self.entries@.len(), |i: int| (self.entries@[i].0@, self.entries@[i].1@))
    }
}

impl Headers {
    /// An empty header map.
    pub fn new() -> (r: Headers)
        ensures
            r@ == Seq::<(Seq<u8>, Seq<u8>)>::empty(),
    {
        let r = Headers { entries: Vec::new() };
        proof {
            assert(r@ =~= Seq::<(Seq<u8>, Seq<u8>)>::empty());
        }
        r
    }

    /// The number of entries.
    pub fn len(&self) -> (r: usize)
        ensures
            r == self@.len(),
    {
        self.entries.len()
    }

    /// The name of the entry at `i`.
    pub fn name_at(&self, i: usize) -> (r: &Vec<u8>)
        requires
            i < self@.len(),
        ensures
            r@ == self@[i as int].0,
    {
        &self.entries[i].0
    }

    /// The value of the entry at `i`.
    pub fn value_at(&self, i: usize) -> (r: &Vec<u8>)
        requires
            i < self@.len(),
        ensures
            r@ == self@[i as int].1,
    {
        &self.entries[i].1
    }

    /// Adds an entry at the end, keeping any entries of the same name.
    pub fn append(&mut self, name: Vec<u8>, value: Vec<u8>)
        ensures
            final(self)@ == old(self)@.push((name@, value@)),
    {
        let ghost before = self@;
        self.entries.push((name, value));
        proof {
            assert(self@ =~= before.push((name@, value@)));
        }
    }

    /// The value of the first entry named `name`, if any.
    pub fn get_first(&self, name: &Vec<u8>) -> (r: Option<&Vec<u8>>)
        ensures
            match r {
                Some(v) => get_first_spec(self@, name@) == Some(v@),
                None => get_first_spec(self@, name@) is None,
            },
    {
        let mut i: usize = 0;
        proof {
            assert(self@.skip(0) =~= self@);
        }
        while i < self.entries.len()
            invariant
                i <= self@.len(),
                get_first_spec(self@, name@) == get_first_spec(self@.skip(i as int), name@),
            decreases self@.len() - i,
        {
            if key_eq(&self.entries[i].0, name) {
                proof {
                    assert(self@.skip(i as int)[0] == self@[i as int]);
                }
                return Some(&self.entries[i].1);
            }
            proof {
                assert(self@.skip(i as int)[0] == self@[i as int]);
                assert(self@.skip(i as int).skip(1) =~= self@.skip(i + 1));
            }
            i = i + 1;
        }
        None
    }

    /// Whether some entry is named `name`.
    pub fn contains_key(&self, name: &Vec<u8>) -> (r: bool)
        ensures
            r == contains_key_spec(self@, name@),
    {
        let mut i: usize = 0;
        while i < self.entries.len()
            invariant
                i <= self@.len(),
                forall|j: int| 0 <= j < i ==> !key_matches(self@[j].0, name@),
            decreases self@.len() - i,
        {
            if key_eq(&self.entries[i].0, name) {
                proof {
                    assert(key_matches(self@[i as int].0, name@));
                }
                return true;
            }
            i = i + 1;
        }
        false
    }

    /// Removes every entry named `name`, keeping the order of the rest.
    pub fn remove_all(&mut self, name: &Vec<u8>)
        ensures
            final(self)@ == remove_key_spec(old(self)@, name@),
    {
        let mut kept: Vec<(Vec<u8>, Vec<u8>)> = Vec::new();
        let ghost before = self@;
        let mut i: usize = 0;
        while i < self.entries.len()
            invariant
                i <= self@.len(),
                self@ == before,
                self.entries@.len() == before.len(),
                Seq::new(kept@.len(), |k: int| (kept@[k].0@, kept@[k].1@)) == remove_key_spec(
                    before.take(i as int),
                    name@,
                ),
            decreases self@.len() - i,
        {
            let ghost kept_view = Seq::new(kept@.len(), |k: int| (kept@[k].0@, kept@[k].1@));
            proof {
                assert(before.take(i + 1).drop_last() =~= before.take(i as int));
                assert(before.take(i + 1).last() == before[i as int]);
            }
            if !key_eq(&self.entries[i].0, name) {
                let n = copy_bytes(&self.entries[i].0);
                let v = copy_bytes(&self.entries[i].1);
                kept.push((n, v));
                proof {
                    assert(Seq::new(kept@.len(), |k: int| (kept@[k].0@, kept@[k].1@))
                        =~= kept_view.push(before[i as int]));
                }
            }
            i = i + 1;
        }
        proof {
            assert(before.take(before.len() as int) =~= before);
        }
        self.entries = kept;
    }

    /// Sets `name` to a single `value`: every old entry of that name goes,
    /// and the new entry stands at the end.
    pub fn insert(&mut self, name: &Vec<u8>, value: Vec<u8>)
        ensures
            final(self)@ == remove_key_spec(old(self)@, name@).push((name@, value@)),
    {
        self.remove_all(name);
        let n = copy_bytes(name);
        self.append(n, value);
    }
}

} // verus!
