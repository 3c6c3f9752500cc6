//! The byte-keyed store.
//!
//! The chain persists through an ordered byte-keyed store with `put`, `get`
//! and `delete`. This one keeps its entries in memory; a later write to a
//! key shadows the earlier one, and a read returns the latest write.

use vstd::prelude::*;

verus! {

/// What a list of entries holds under a key: the value of the latest entry
/// with that key, if any.
pub open spec fn kv_get(s: Seq<(Vec<u8>, String)>, k: Seq<u8>) -> Option<Seq<char>>
    decreases s.len(),
{
    if s.len() == 0 {
        None
    } else if s.last().0@ == k {
        Some(s.last().1@)
    } else {
        kv_get(s.drop_last(), k)
    }
}

/// A copy of a byte string.
fn bytes_copy(a: &Vec<u8>) -> (r: Vec<u8>)
    ensures
        r@ == a@,
{
    let n = a.len();
    let mut r: Vec<u8> = Vec::new();
    let mut i: usize = 0;
    while i < n
        invariant
            i <= n,
            n == a@.len(),
            r@ == a@.subrange(0, i as int),
        decreases n - i,
    {
        r.push(a[i]);
        proof {
            assert(r@ =~= a@.subrange(0, i as int + 1));
        }
        i += 1;
    }
    proof {
        assert(a@.subrange(0, n as int) =~= a@);
    }
    r
}

/// Whether two byte strings hold the same bytes.
fn bytes_eq(a: &Vec<u8>, b: &Vec<u8>) -> (r: bool)
    ensures
        r == (a@ == b@),
{
    if a.len() != b.len() {
        return false;
    }
    let n = a.len();
    let mut i: usize = 0;
    while i < n
        invariant
            i <= n,
            n == a@.len() == b@.len(),
            forall|j: int| 0 <= j < i ==> a@[j] == b@[j],
        decreases n - i,
    {
        if a[i] != b[i] {
            return false;
        }
        i += 1;
    }
    proof {
        assert(a@ =~= b@);
    }
    true
}

/// The in-memory byte-keyed store.
pub struct KvStore {
    pub entries: Vec<(Vec<u8>, String)>,
}

impl KvStore {
    /// An empty store.
    pub fn new() -> (r: Self)
        ensures
            forall|k: Seq<u8>| kv_get(r.entries@, k) is None,
    {
        let r = KvStore { entries: Vec::new() };
        proof {
            assert(r.entries@.len() == 0);
        }
        r
    }

    /// Write `value` under `key`, shadowing any earlier write.
    pub fn put(&mut self, key: Vec<u8>, value: String)
        ensures
            kv_get(final(self).entries@, key@) == Some(value@),
            forall|k: Seq<u8>|
                k != key@ ==> #[trigger] kv_get(final(self).entries@, k) == kv_get(
                    old(self).entries@,
                    k,
                ),
    {
        let ghost keyv = key@;
        let ghost valv = value@;
        self.entries.push((key, value));
        proof {
            assert(self.entries@.last().0@ == keyv);
            assert(self.entries@.last().1@ == valv);
            assert(self.entries@.drop_last() =~= old(self).entries@);
        }
    }

    /// Read the value under `key`, if one was written.
    pub fn get(&self, key: &Vec<u8>) -> (r: Option<&String>)
        ensures
            match r {
                Some(v) => kv_get(self.entries@, key@) == Some(v@),
                None => kv_get(self.entries@, key@) is None,
            },
    {
        let n = self.entries.len();
        proof {
            assert(self.entries@.subrange(0, n as int) =~= self.entries@);
        }
        let mut i: usize = n;
        while i > 0
            invariant
                i <= n,
                n == self.entries@.len(),
                kv_get(self.entries@, key@) == kv_get(self.entries@.subrange(0, i as int), key@),
            decreases i,
        {
            i -= 1;
            let hit = bytes_eq(&self.entries[i].0, key);
            proof {
                let cur = self.entries@.subrange(0, i as int + 1);
                assert(cur.last() == self.entries@[i as int]);
                assert(cur.drop_last() =~= self.entries@.subrange(0, i as int));
            }
            if hit {
                return Some(&self.entries[i].1);
            }
        }
        proof {
            assert(self.entries@.subrange(0, 0) =~= Seq::<(Vec<u8>, String)>::empty());
        }
        None
    }

    /// Remove every entry under `key`.
    pub fn delete(&mut self, key: &Vec<u8>)
        ensures
            kv_get(final(self).entries@, key@) is None,
            forall|k: Seq<u8>|
                k != key@ ==> #[trigger] kv_get(final(self).entries@, k) == kv_get(
                    old(self).entries@,
                    k,
                ),
    {
        let n = self.entries.len();
        let mut kept: Vec<(Vec<u8>, String)> = Vec::new();
        let mut i: usize = 0;
        proof {
            assert(self.entries@.subrange(0, 0) =~= Seq::<(Vec<u8>, String)>::empty());
            assert(kept@.len() == 0);
        }
        while i < n
            invariant
                i <= n,
                n == self.entries@.len(),
                kv_get(kept@, key@) is None,
                forall|k: Seq<u8>|
                    k != key@ ==> #[trigger] kv_get(kept@, k) == kv_get(
                        self.entries@.subrange(0, i as int),
                        k,
                    ),
            decreases n - i,
        {
            let skip = bytes_eq(&self.entries[i].0, key);
            let ghost prev = kept@;
            if !skip {
                let pair = (
                    bytes_copy(&self.entries[i].0),
                    self.entries[i].1.clone(),
                );
                kept.push(pair);
            }
            proof {
                let cur = self.entries@.subrange(0, i as int + 1);
                assert(cur.last() == self.entries@[i as int]);
                assert(cur.drop_last() =~= self.entries@.subrange(0, i as int));
                if !skip {
                    assert(kept@.last().0@ == self.entries@[i as int].0@);
                    assert(kept@.last().1@ == self.entries@[i as int].1@);
                    assert(kept@.drop_last() =~= prev);
                }
                assert forall|k: Seq<u8>|
                    k != key@ implies #[trigger] kv_get(kept@, k) == kv_get(cur, k) by {
                    assert(kv_get(prev, k) == kv_get(self.entries@.subrange(0, i as int), k));
                }
            }
            i += 1;
        }
        proof {
            assert(self.entries@.subrange(0, n as int) =~= self.entries@);
        }
        self.entries = kept;
    }
}

} // verus!
