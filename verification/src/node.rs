//! A single storage cell (slot) of the bucket array.

use vstd::prelude::*;
use crate::HashType;

verus! {

/// One slot of the bucket array: either empty, or occupied by a key/value
/// pair together with the key's cached hash and the entry's probe distance.
///
/// `distance_to_initial_bucket == -1` means the slot is empty and the
/// key/value storage is absent; `>= 0` means the slot is occupied and the
/// value is the number of buckets the entry sits past its ideal bucket
/// (`hash % capacity`).
///
/// The storage is an owned `Option`, so dropping a slot drops its key and
/// value exactly once when occupied and touches nothing when empty, and a
/// pair extracted by `take_key_value` is never dropped again by the slot.
pub struct Node<K, V> {
    hash: HashType,
    distance_to_initial_bucket: i32,
    data: Option<(K, V)>,
}

impl<K, V> Node<K, V> {
    /// A slot is well formed when its probe distance agrees with whether it
    /// holds a key/value pair: `-1` means empty, `>= 0` means occupied.
    pub closed spec fn wf(self) -> bool {
        &&& self.distance_to_initial_bucket >= -1
        &&& self.distance_to_initial_bucket >= 0 <==> self.data.is_some()
    }

    /// Whether the slot holds an entry.
    pub closed spec fn occupied(self) -> bool {
        self.data.is_some()
    }

    /// The stored key (meaningful only when occupied).
    pub closed spec fn spec_key(self) -> K {
        (self.data->Some_0).0
    }

    /// The stored value (meaningful only when occupied).
    pub closed spec fn spec_value(self) -> V {
        (self.data->Some_0).1
    }

    /// The cached hash of the stored key.
    pub closed spec fn spec_hash(self) -> HashType {
        self.hash
    }

    /// The probe distance; `-1` when the slot is empty.
    pub closed spec fn spec_distance(self) -> int {
        self.distance_to_initial_bucket as int
    }

    /// Returns an empty slot.
    pub fn new() -> (r: Self)
        ensures
            r.wf(),
            !r.occupied(),
            r.spec_distance() == -1,
    {
        Self { hash: 0, distance_to_initial_bucket: -1, data: None }
    }

    /// Returns a slot occupied by `(key, value, hash)` at probe distance 0.
    pub fn new_with(key: K, value: V, hash: HashType) -> (r: Self)
        ensures
            r.wf(),
            r.occupied(),
            r.spec_key() == key,
            r.spec_value() == value,
            r.spec_hash() == hash,
            r.spec_distance() == 0,
    {
        Self { hash, distance_to_initial_bucket: 0, data: Some((key, value)) }
    }

    /// Returns a reference to the stored value, or `None` when empty.
    pub fn value_ref(&self) -> (r: Option<&V>)
        requires
            self.wf(),
        ensures
            match r {
                Some(v) => self.occupied() && *v == self.spec_value(),
                None => !self.occupied(),
            },
    {
        if self.has_value() {
            match &self.data {
                Some(pair) => Some(&pair.1),
                None => None,
            }
        } else {
            None
        }
    }

    /// Returns a mutable reference to the stored value, or `None` when empty.
    pub fn value_mut(&mut self) -> (r: Option<&mut V>)
        requires
            old(self).wf(),
        ensures
            match r {
                Some(v) => {
                    &&& old(self).occupied()
                    &&& *v == old(self).spec_value()
                    &&& *final(self) == old(self).with_value(*final(v))
                },
                None => !old(self).occupied() && *final(self) == *old(self),
            },
    {
        if self.has_value() {
            match &mut self.data {
                Some(pair) => Some(&mut pair.1),
                None => None,
            }
        } else {
            None
        }
    }

    /// Returns the stored key and a mutable reference to the stored value,
    /// or `None` when empty.
    pub fn key_value_mut(&mut self) -> (r: Option<(&K, &mut V)>)
        requires
            old(self).wf(),
        ensures
            match r {
                Some(kv) => {
                    &&& old(self).occupied()
                    &&& *kv.0 == old(self).spec_key()
                    &&& *kv.1 == old(self).spec_value()
                    &&& *final(self) == old(self).with_value(*final(kv.1))
                },
                None => !old(self).occupied() && *final(self) == *old(self),
            },
    {
        if self.has_value() {
            match &mut self.data {
                Some(pair) => Some((&pair.0, &mut pair.1)),
                None => None,
            }
        } else {
            None
        }
    }

    /// The slot with its value replaced by `v` and everything else unchanged.
    pub closed spec fn with_value(self, v: V) -> Self {
        Node {
            hash: self.hash,
            distance_to_initial_bucket: self.distance_to_initial_bucket,
            data: Some(((self.data->Some_0).0, v)),
        }
    }

    /// Returns a reference to the stored key, or `None` when empty.
    pub fn key_ref(&self) -> (r: Option<&K>)
        requires
            self.wf(),
        ensures
            match r {
                Some(k) => self.occupied() && *k == self.spec_key(),
                None => !self.occupied(),
            },
    {
        if self.has_value() {
            match &self.data {
                Some(pair) => Some(&pair.0),
                None => None,
            }
        } else {
            None
        }
    }

    /// Returns references to the stored key and value, or `None` when empty.
    pub fn key_value_ref(&self) -> (r: Option<(&K, &V)>)
        requires
            self.wf(),
        ensures
            match r {
                Some(kv) => {
                    &&& self.occupied()
                    &&& *kv.0 == self.spec_key()
                    &&& *kv.1 == self.spec_value()
                },
                None => !self.occupied(),
            },
    {
        if self.has_value() {
            match &self.data {
                Some(pair) => Some((&pair.0, &pair.1)),
                None => None,
            }
        } else {
            None
        }
    }

    /// Whether the slot holds an entry.
    pub fn has_value(&self) -> (r: bool)
        requires
            self.wf(),
        ensures
            r == self.occupied(),
    {
        self.distance_to_initial_bucket >= 0
    }

    /// If occupied, extracts `(key, value, hash)` by value and resets the
    /// slot to empty; ownership of the extracted pair passes to the caller.
    pub fn take_key_value(&mut self) -> (r: Option<(K, V, HashType)>)
        requires
            old(self).wf(),
        ensures
            final(self).wf(),
            match r {
                Some(kvh) => {
                    &&& old(self).occupied()
                    &&& kvh.0 == old(self).spec_key()
                    &&& kvh.1 == old(self).spec_value()
                    &&& kvh.2 == old(self).spec_hash()
                    &&& !final(self).occupied()
                },
                None => !old(self).occupied() && *final(self) == *old(self),
            },
    {
        if self.has_value() {
            let data = self.data.take();
            self.distance_to_initial_bucket = -1;
            match data {
                Some((key, value)) => Some((key, value, self.hash)),
                None => None,
            }
        } else {
            None
        }
    }

    /// Installs `value` in an occupied slot and returns the previous value.
    /// Calling this on an empty slot would signal a probe-engine bug, so an
    /// occupied slot is demanded up front.
    pub fn replace_value(&mut self, value: V) -> (r: V)
        requires
            old(self).wf(),
            old(self).occupied(),
        ensures
            final(self).wf(),
            final(self).occupied(),
            final(self).spec_key() == old(self).spec_key(),
            final(self).spec_value() == value,
            final(self).spec_hash() == old(self).spec_hash(),
            final(self).spec_distance() == old(self).spec_distance(),
            r == old(self).spec_value(),
    {
        match &mut self.data {
            Some(pair) => {
                let mut v = value;
                core::mem::swap(&mut pair.1, &mut v);
                v
            },
            None => {
                unreached()
            },
        }
    }

    /// Installs `key` and `value` in an occupied slot and returns the
    /// previous pair; the cached hash and the probe distance stay.
    pub fn replace(&mut self, key: K, value: V) -> (r: (K, V))
        requires
            old(self).wf(),
            old(self).occupied(),
        ensures
            final(self).wf(),
            final(self).occupied(),
            final(self).spec_key() == key,
            final(self).spec_value() == value,
            final(self).spec_hash() == old(self).spec_hash(),
            final(self).spec_distance() == old(self).spec_distance(),
            r.0 == old(self).spec_key(),
            r.1 == old(self).spec_value(),
    {
        match &mut self.data {
            Some(pair) => {
                let mut kv = (key, value);
                core::mem::swap(pair, &mut kv);
                kv
            },
            None => {
                unreached()
            },
        }
    }

    /// Moves the entry one bucket farther from its ideal bucket.
    pub fn increment_distance(&mut self)
        requires
            old(self).wf(),
            old(self).occupied(),
            old(self).spec_distance() < i32::MAX,
        ensures
            final(self).wf(),
            final(self).occupied(),
            final(self).spec_key() == old(self).spec_key(),
            final(self).spec_value() == old(self).spec_value(),
            final(self).spec_hash() == old(self).spec_hash(),
            final(self).spec_distance() == old(self).spec_distance() + 1,
    {
        self.distance_to_initial_bucket = self.distance_to_initial_bucket + 1;
    }

    /// Moves the entry one bucket closer to its ideal bucket; going below
    /// distance 0 would signal a deletion-engine bug, so a positive distance
    /// is demanded up front.
    pub fn decrement_distance(&mut self)
        requires
            old(self).wf(),
            old(self).spec_distance() >= 1,
        ensures
            final(self).wf(),
            final(self).occupied(),
            final(self).spec_key() == old(self).spec_key(),
            final(self).spec_value() == old(self).spec_value(),
            final(self).spec_hash() == old(self).spec_hash(),
            final(self).spec_distance() == old(self).spec_distance() - 1,
    {
        self.distance_to_initial_bucket = self.distance_to_initial_bucket - 1;
        if self.distance_to_initial_bucket < 0 {
            unreached::<()>();
        }
    }

    /// The probe distance; `-1` when the slot is empty.
    pub fn distance(&self) -> (r: i32)
        ensures
            r == self.spec_distance(),
    {
        self.distance_to_initial_bucket
    }

    /// The cached hash of the stored key.
    pub fn hash(&self) -> (r: HashType)
        ensures
            r == self.spec_hash(),
    {
        self.hash
    }
}

impl<K, V> Default for Node<K, V> {
    /// Returns an empty slot.
    fn default() -> (r: Self)
        ensures
            r.wf(),
            !r.occupied(),
            r.spec_distance() == -1,
    {
        Self::new()
    }
}

} // verus!
