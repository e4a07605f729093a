//! The fetch decision logic. Resolving a URL goes through the cache: a
//! live entry answers at once; on a miss the caller performs the network
//! request and hands the response back to `complete_fetch`, which decides
//! between failure (nothing cached) and success (bytes cached under a
//! time-to-live taken from the response's `Cache-Control` header, or a
//! day by default).

use vstd::prelude::*;
use vstd::string::*;
use crate::cache::{spec_cached, spec_expiry, spec_lookup_entries, CacheStore};
use crate::text::{parse_u64, spec_parse_u64, str_eq};
use crate::cache::clone_bytes;

verus! {

/// The fall-back time-to-live when the response names none: one day.
pub const DEFAULT_TTL_SECS: u64 = 86400;

/// A failed fetch: the response was not successful; its body is the error
/// detail.
#[derive(Debug)]
pub struct FetchError {
    pub body: Vec<u8>,
}

/// Splitting a header value at its first `=`: the `max-age` seconds when
/// the part before it is exactly `max-age` and the part after it parses
/// as a decimal count. `pre` accumulates the part seen so far.
pub open spec fn spec_split_max_age(s: Seq<char>, pre: Seq<char>) -> Option<u64>
    decreases s.len(),
{
    if s.len() == 0 {
        None
    } else if s[0] == '=' {
        if pre == "max-age"@ {
            spec_parse_u64(s.drop_first())
        } else {
            None
        }
    } else {
        spec_split_max_age(s.drop_first(), pre.push(s[0]))
    }
}

/// The `max-age` value of a `Cache-Control` header, if the whole value has
/// the shape `max-age=<seconds>`.
pub open spec fn spec_max_age(s: Seq<char>) -> Option<u64> {
    spec_split_max_age(s, Seq::<char>::empty())
}

/// The time-to-live a response's `Cache-Control` value resolves to.
pub open spec fn spec_ttl(cc: Option<Seq<char>>) -> u64 {
    match cc {
        Some(s) => match spec_max_age(s) {
            Some(v) => v,
            None => DEFAULT_TTL_SECS,
        },
        None => DEFAULT_TTL_SECS,
    }
}

/// Extracts the `max-age` seconds from a `Cache-Control` header value.
pub fn parse_max_age(value: &str) -> (r: Option<u64>)
    ensures
        r == spec_max_age(value@),
{
    let len = value.unicode_len();
    let mut i: usize = 0;
    proof {
        assert(value@.skip(0) =~= value@);
        assert(value@.take(0) =~= Seq::<char>::empty());
    }
    while i < len
        invariant
            len == value@.len(),
            i <= len,
            spec_split_max_age(value@.skip(i as int), value@.take(i as int)) == spec_max_age(
                value@,
            ),
        decreases len - i,
    {
        let c = value.get_char(i);
        proof {
            assert(value@.skip(i as int)[0] == value@[i as int]);
            assert(value@.skip(i as int).drop_first() =~= value@.skip(i + 1));
            assert(value@.take(i as int).push(value@[i as int]) =~= value@.take(i + 1));
        }
        if c == '=' {
            let pre = value.substring_char(0, i);
            let rest = value.substring_char(i + 1, len);
            proof {
                assert(pre@ =~= value@.take(i as int));
                assert(rest@ =~= value@.skip(i as int).drop_first());
            }
            if str_eq(pre, "max-age") {
                return parse_u64(rest);
            }
            return None;
        }
        i = i + 1;
    }
    proof {
        assert(value@.skip(len as int).len() == 0);
    }
    None
}

/// Resolves the time-to-live for a response: the `max-age` seconds when
/// the `Cache-Control` value names them, one day otherwise.
pub fn resolve_ttl(cache_control: Option<&str>) -> (r: u64)
    ensures
        r == spec_ttl(
            match cache_control {
                Some(s) => Some(s@),
                None => None,
            },
        ),
{
    match cache_control {
        Some(value) => match parse_max_age(value) {
            Some(secs) => secs,
            None => DEFAULT_TTL_SECS,
        },
        None => DEFAULT_TTL_SECS,
    }
}

/// Finishes a fetch after the network answered. A successful status caches
/// the body under the resolved time-to-live and yields it; any other
/// status yields the body as the error detail and caches nothing.
pub fn complete_fetch(
    store: &mut CacheStore,
    url: &str,
    status: u16,
    cache_control: Option<&str>,
    body: Vec<u8>,
    now: u64,
) -> (r: Result<Vec<u8>, FetchError>)
    requires
        old(store).wf(),
    ensures
        final(store).wf(),
        status == 200 ==> {
            &&& r is Ok
            &&& r->Ok_0@ == body@
            &&& spec_lookup_entries(final(store).entries@, url@) == Some(
                (
                    body@,
                    spec_expiry(
                        now,
                        spec_ttl(
                            match cache_control {
                                Some(s) => Some(s@),
                                None => None,
                            },
                        ),
                    ),
                ),
            )
            &&& forall|k: Seq<char>|
                k != url@ ==> spec_lookup_entries(final(store).entries@, k) == spec_lookup_entries(
                    old(store).entries@,
                    k,
                )
        },
        status != 200 ==> r is Err && r->Err_0.body@ == body@ && *final(store) == *old(store),
{
    if status != 200 {
        return Err(FetchError { body });
    }
    let ttl = resolve_ttl(cache_control);
    let cached = clone_bytes(&body);
    store.write(url, cached, ttl, now);
    Ok(body)
}

/// A warm cache makes a repeated fetch free: a live entry for the URL is
/// answered from the store, so the second run issues no network request
/// for it.
pub proof fn lemma_warm_cache_hit(
    s: Seq<crate::cache::CacheEntry>,
    url: Seq<char>,
    d: Seq<u8>,
    exp: u64,
    now: u64,
)
    requires
        spec_lookup_entries(s, url) == Some((d, exp)),
        now < exp,
    ensures
        spec_cached(s, url, now) == Some(d),
{
}

} // verus!
