//! A TTL-aware key/value cache store: each key maps to cached bytes plus
//! an expiry time. A live (non-expired) entry answers a lookup; `write`
//! atomically inserts or replaces the entry for one key and leaves every
//! other key untouched.

use vstd::prelude::*;
use vstd::string::*;
use crate::text::str_eq;

verus! {

/// The index of the first entry with the given key, if any.
fn find_key(entries: &Vec<CacheEntry>, key: &str) -> (r: Option<usize>)
    ensures
        match r {
            Some(i) => i < entries@.len() && entries@[i as int].key@ == key@ && forall|j: int|
                0 <= j < i ==> entries@[j].key@ != key@,
            None => forall|j: int| 0 <= j < entries@.len() ==> entries@[j].key@ != key@,
        },
{
    let n = entries.len();
    let mut i: usize = 0;
    while i < n
        invariant
            n == entries@.len(),
            i <= n,
            forall|j: int| 0 <= j < i ==> entries@[j].key@ != key@,
        decreases n - i,
    {
        if str_eq(key, entries[i].key.as_str()) {
            return Some(i);
        }
        i = i + 1;
    }
    None
}

pub struct CacheEntry {
    pub key: String,
    pub data: Vec<u8>,
    pub expires_at: u64,
}

/// The cached bytes and expiry for `key`: the first entry with that key,
/// if any.
pub open spec fn spec_lookup_entries(s: Seq<CacheEntry>, key: Seq<char>) -> Option<(Seq<u8>, u64)>
    decreases s.len(),
{
    if s.len() == 0 {
        None
    } else if s[0].key@ == key {
        Some((s[0].data@, s[0].expires_at))
    } else {
        spec_lookup_entries(s.drop_first(), key)
    }
}

/// What a cache lookup at time `now` yields: the cached bytes when a live
/// entry exists, nothing when the key is absent or expired.
pub open spec fn spec_cached(s: Seq<CacheEntry>, key: Seq<char>, now: u64) -> Option<Seq<u8>> {
    match spec_lookup_entries(s, key) {
        Some(p) => if now < p.1 {
            Some(p.0)
        } else {
            None
        },
        None => None,
    }
}

/// The expiry a write at time `now` with time-to-live `ttl` records,
/// saturating at the largest representable time.
pub open spec fn spec_expiry(now: u64, ttl: u64) -> u64 {
    if now + ttl > u64::MAX {
        u64::MAX
    } else {
        (now + ttl) as u64
    }
}

proof fn lemma_lookup_absent(s: Seq<CacheEntry>, key: Seq<char>)
    requires
        forall|i: int| 0 <= i < s.len() ==> s[i].key@ != key,
    ensures
        spec_lookup_entries(s, key) is None,
    decreases s.len(),
{
    if s.len() > 0 {
        lemma_lookup_absent(s.drop_first(), key);
    }
}

proof fn lemma_lookup_at(s: Seq<CacheEntry>, i: int, key: Seq<char>)
    requires
        0 <= i < s.len(),
        s[i].key@ == key,
        forall|j: int| 0 <= j < i ==> s[j].key@ != key,
    ensures
        spec_lookup_entries(s, key) == Some((s[i].data@, s[i].expires_at)),
    decreases s.len(),
{
    if i > 0 {
        lemma_lookup_at(s.drop_first(), i - 1, key);
    }
}

proof fn lemma_lookup_push(s: Seq<CacheEntry>, e: CacheEntry, key: Seq<char>)
    ensures
        spec_lookup_entries(s.push(e), key) == match spec_lookup_entries(s, key) {
            Some(p) => Some(p),
            None => if e.key@ == key {
                Some((e.data@, e.expires_at))
            } else {
                None
            },
        },
    decreases s.len(),
{
    if s.len() == 0 {
        assert(s.push(e).drop_first() =~= s);
    } else {
        assert(s.push(e).drop_first() =~= s.drop_first().push(e));
        lemma_lookup_push(s.drop_first(), e, key);
    }
}

proof fn lemma_lookup_remove(s: Seq<CacheEntry>, i: int, key: Seq<char>)
    requires
        0 <= i < s.len(),
        s[i].key@ != key,
    ensures
        spec_lookup_entries(s.remove(i), key) == spec_lookup_entries(s, key),
    decreases s.len(),
{
    if i == 0 {
        assert(s.remove(0) =~= s.drop_first());
    } else {
        assert(s.remove(i).drop_first() =~= s.drop_first().remove(i - 1));
        lemma_lookup_remove(s.drop_first(), i - 1, key);
    }
}

/// The persistent cache store: entries with pairwise distinct keys.
pub struct CacheStore {
    pub entries: Vec<CacheEntry>,
}

impl CacheStore {
    /// Keys are unique: each key owns at most one entry.
    pub open spec fn wf(self) -> bool {
        forall|i: int, j: int|
            0 <= i < j < self.entries@.len() ==> self.entries@[i].key@ != self.entries@[j].key@
    }

    pub fn new() -> (r: Self)
        ensures
            r.wf(),
            r.entries@.len() == 0,
    {
        CacheStore { entries: Vec::new() }
    }

    /// Looks the key up for a possible update: a live entry answers with
    /// its bytes; an absent or expired entry leaves the slot to be filled
    /// by a later `write`.
    pub fn get_for_update(&self, key: &str, now: u64) -> (r: Option<Vec<u8>>)
        ensures
            match r {
                Some(d) => spec_cached(self.entries@, key@, now) == Some(d@),
                None => spec_cached(self.entries@, key@, now) is None,
            },
    {
        let n = self.entries.len();
        let mut i: usize = 0;
        while i < n
            invariant
                n == self.entries@.len(),
                i <= n,
                forall|j: int| 0 <= j < i ==> self.entries@[j].key@ != key@,
            decreases n - i,
        {
            if str_eq(key, self.entries[i].key.as_str()) {
                proof {
                    lemma_lookup_at(self.entries@, i as int, key@);
                }
                if now < self.entries[i].expires_at {
                    return Some(clone_bytes(&self.entries[i].data));
                }
                return None;
            }
            i = i + 1;
        }
        proof {
            lemma_lookup_absent(self.entries@, key@);
        }
        None
    }

    /// Inserts or replaces the entry for `key` with the given bytes and an
    /// expiry of `now + ttl`; every other key keeps its entry.
    pub fn write(&mut self, key: &str, data: Vec<u8>, ttl: u64, now: u64)
        requires
            old(self).wf(),
        ensures
            final(self).wf(),
            spec_lookup_entries(final(self).entries@, key@) == Some(
                (data@, spec_expiry(now, ttl)),
            ),
            forall|k: Seq<char>|
                k != key@ ==> spec_lookup_entries(final(self).entries@, k)
                    == spec_lookup_entries(old(self).entries@, k),
    {
        let expires_at = match now.checked_add(ttl) {
            Some(v) => v,
            None => u64::MAX,
        };
        let ghost s0 = self.entries@;
        let pos = find_key(&self.entries, key);
        if let Some(i) = pos {
            self.entries.remove(i);
            proof {
                assert(forall|j: int|
                    0 <= j < s0.len() && j != i ==> s0[j].key@ != key@);
                assert(forall|j: int| #![auto]
                    0 <= j < self.entries@.len() ==> self.entries@[j].key@ != key@);
                assert(forall|k: Seq<char>|
                    k != key@ ==> spec_lookup_entries(self.entries@, k) == spec_lookup_entries(
                        s0,
                        k,
                    )) by {
                    assert forall|k: Seq<char>| k != key@ implies spec_lookup_entries(
                        self.entries@,
                        k,
                    ) == spec_lookup_entries(s0, k) by {
                        lemma_lookup_remove(s0, i as int, k);
                    }
                }
            }
        } else {
            proof {
                assert(forall|j: int| #![auto]
                    0 <= j < self.entries@.len() ==> self.entries@[j].key@ != key@);
            }
        }
        let ghost s1 = self.entries@;
        let e = CacheEntry { key: key_owned(key), data, expires_at };
        self.entries.push(e);
        proof {
            lemma_lookup_absent(s1, key@);
            lemma_lookup_push(s1, e, key@);
            assert forall|k: Seq<char>| k != key@ implies spec_lookup_entries(
                self.entries@,
                k,
            ) == spec_lookup_entries(s0, k) by {
                lemma_lookup_push(s1, e, k);
            }
        }
    }
}

/// An owned copy of a byte vector.
pub fn clone_bytes(v: &Vec<u8>) -> (r: Vec<u8>)
    ensures
        r@ == v@,
{
    let mut out: Vec<u8> = Vec::new();
    let n = v.len();
    let mut i: usize = 0;
    while i < n
        invariant
            n == v@.len(),
            i <= n,
            out@ == v@.take(i as int),
        decreases n - i,
    {
        out.push(v[i]);
        proof {
            assert(v@.take(i + 1) =~= v@.take(i as int).push(v@[i as int]));
        }
        i = i + 1;
    }
    proof {
        assert(v@.take(n as int) =~= v@);
    }
    out
}

/// An owned copy of a string slice.
pub fn key_owned(s: &str) -> (r: String)
    ensures
        r@ == s@,
{
    String::from_str(s)
}

/// A live entry written with time-to-live `ttl` at time `t0` answers every
/// lookup before `t0 + ttl` from the cache, and none at or after it.
pub proof fn lemma_ttl_respect(s: Seq<CacheEntry>, key: Seq<char>, d: Seq<u8>, exp: u64, now: u64)
    requires
        spec_lookup_entries(s, key) == Some((d, exp)),
    ensures
        now < exp ==> spec_cached(s, key, now) == Some(d),
        now >= exp ==> spec_cached(s, key, now) is None,
{
}

} // verus!
