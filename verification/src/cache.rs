//! What the resolver caches and for how long: cache keys, cached entries
//! with their time to live, and which responses may be cached.
use vstd::prelude::*;

use std::time::Instant;

use crate::dns_packet::{answer_ttl, extract_answer_ttl, is_nodata_response, is_nxdomain_response, nodata, nxdomain};
use crate::dns::parser::DnsRequest;
use crate::text::{lowercase_text, to_lowercase};

verus! {

/// How long a negative answer (NXDOMAIN or NODATA) is cached, in seconds.
pub const NEGATIVE_CACHE_TTL: u32 = 10;

#[verifier::external_type_specification]
#[verifier::external_body]
pub struct ExInstant(Instant);

/// `Instant::clone`. `Instant` is `Copy`, so the clone is the same instant.
pub assume_specification[ <Instant as Clone>::clone ](instant: &Instant) -> (res: Instant)
    ensures
        res == *instant,
;

/// The question a cached response answers: lower-cased name, type, class.
#[derive(Hash, Eq, PartialEq, Debug, Clone)]
pub struct CacheKey {
    qname: String,
    qtype: u16,
    qclass: u16,
}

impl View for CacheKey {
    type V = (Seq<char>, u16, u16);

    closed spec fn view(&self) -> (Seq<char>, u16, u16) {
        (self.qname@, self.qtype, self.qclass)
    }
}

/// A cached response, when it was stored, and for how many seconds it
/// stays valid.
#[derive(Clone)]
pub struct CacheEntry {
    pub response: Vec<u8>,
    stored_at: Instant,
    ttl: u32,
}

impl CacheEntry {
    /// The cached response.
    pub closed spec fn response_bytes(&self) -> Seq<u8> {
        self.response@
    }

    /// The number of seconds the entry stays valid after it was stored.
    pub closed spec fn ttl_secs(&self) -> u32 {
        self.ttl
    }

    /// An entry for `response`, stored now, valid for `ttl` seconds.
    pub fn new(response: Vec<u8>, ttl: u32) -> (e: CacheEntry)
        ensures
            e.response_bytes() == response@,
            e.ttl_secs() == ttl,
    {
        CacheEntry { response, stored_at: now(), ttl }
    }
}

/// `Instant::now`. Nothing is claimed of the instant it returns.
#[verifier::external_body]
fn now() -> Instant {
    Instant::now()
}

/// `Instant::elapsed`, in whole seconds (`Duration::as_secs`). Nothing is
/// claimed of the result: it depends on the clock.
#[verifier::external_body]
fn elapsed_secs(since: &Instant) -> u64 {
    since.elapsed().as_secs()
}

/// The cache key of a request: its question name lower-cased, its type and
/// its class.
pub fn build_cache_key(parsed: &DnsRequest) -> (key: CacheKey)
    ensures
        key@ == (
            lowercase_text(parsed.question.qname@),
            parsed.question.qtype,
            parsed.question.qclass,
        ),
{
    CacheKey {
        qname: to_lowercase(parsed.question.qname.as_str()),
        qtype: parsed.question.qtype,
        qclass: parsed.question.qclass,
    }
}

/// Whether an entry is expired once `elapsed` whole seconds have passed
/// since it was stored: at least its TTL has passed. (A stored time that is
/// `s` seconds and some nanoseconds old has reached `ttl` seconds exactly
/// when `s >= ttl`.)
pub open spec fn expired_at(entry: CacheEntry, elapsed: u64) -> bool {
    elapsed >= entry.ttl_secs()
}

/// The seconds an entry still has once `elapsed` whole seconds have
/// passed: its TTL minus the elapsed seconds taken modulo 2^32, and zero
/// when that would be negative.
pub open spec fn remaining_at(entry: CacheEntry, elapsed: u64) -> u32 {
    let e = elapsed as u32;
    if e >= entry.ttl_secs() {
        0
    } else {
        (entry.ttl_secs() - e) as u32
    }
}

/// Whether `entry` is expired after `elapsed` whole seconds.
pub fn is_expired_after(entry: &CacheEntry, elapsed: u64) -> (r: bool)
    ensures
        r == expired_at(*entry, elapsed),
{
    elapsed >= entry.ttl as u64
}

/// The seconds `entry` still has after `elapsed` whole seconds.
pub fn remaining_ttl_after(entry: &CacheEntry, elapsed: u64) -> (r: u32)
    ensures
        r == remaining_at(*entry, elapsed),
        r <= entry.ttl_secs(),
{
    let e = elapsed as u32;
    entry.ttl.saturating_sub(e)
}

/// Whether `entry` is expired now. The time that has passed is read from
/// the clock, so nothing fixes the result; `is_expired_after` gives it for
/// each number of elapsed seconds.
pub fn is_expired(entry: &CacheEntry) -> (r: bool)
    ensures
        exists|elapsed: u64| r == expired_at(*entry, elapsed),
{
    let elapsed = elapsed_secs(&entry.stored_at);
    is_expired_after(entry, elapsed)
}

/// The seconds `entry` still has now, never more than its TTL. The time
/// that has passed is read from the clock; `remaining_ttl_after` gives the
/// result for each number of elapsed seconds.
pub fn remaining_ttl(entry: &CacheEntry) -> (r: u32)
    ensures
        exists|elapsed: u64| r == remaining_at(*entry, elapsed),
        r <= entry.ttl_secs(),
{
    let elapsed = elapsed_secs(&entry.stored_at);
    remaining_ttl_after(entry, elapsed)
}

/// Whether and how a response is cached.
#[derive(Debug, Clone, Copy, PartialEq, Eq)]
pub enum CacheDecision {
    /// An answer: cached for the TTL of its first answer record.
    Positive(u32),
    /// NXDOMAIN: cached for `NEGATIVE_CACHE_TTL` seconds.
    NegativeNxdomain(u32),
    /// NODATA: cached for `NEGATIVE_CACHE_TTL` seconds.
    NegativeNodata(u32),
    /// Not cached.
    Skip,
}

/// How `response` is cached: for the TTL of its first answer where it has
/// one; else for `NEGATIVE_CACHE_TTL` seconds if it is NXDOMAIN or NODATA;
/// else not at all.
pub open spec fn cache_decision_of(response: Seq<u8>) -> CacheDecision {
    match answer_ttl(response) {
        Some(ttl) => CacheDecision::Positive(ttl),
        None => if nxdomain(response) {
            CacheDecision::NegativeNxdomain(NEGATIVE_CACHE_TTL)
        } else if nodata(response) {
            CacheDecision::NegativeNodata(NEGATIVE_CACHE_TTL)
        } else {
            CacheDecision::Skip
        },
    }
}

/// Decides whether and for how long `response` is cached.
pub fn cache_decision(response: &[u8]) -> (d: CacheDecision)
    ensures
        d == cache_decision_of(response@),
{
    if let Some(ttl) = extract_answer_ttl(response) {
        CacheDecision::Positive(ttl)
    } else if is_nxdomain_response(response) {
        CacheDecision::NegativeNxdomain(NEGATIVE_CACHE_TTL)
    } else if is_nodata_response(response) {
        CacheDecision::NegativeNodata(NEGATIVE_CACHE_TTL)
    } else {
        CacheDecision::Skip
    }
}

/// An entry has expired exactly when no seconds of it remain (for any
/// elapsed time below 2^32 seconds, which the remaining time is computed
/// modulo); and what remains never exceeds the TTL.
pub proof fn lemma_expired_iff_nothing_remains(entry: CacheEntry, elapsed: u64)
    requires
        elapsed < 0x1_0000_0000,
    ensures
        expired_at(entry, elapsed) <==> remaining_at(entry, elapsed) == 0,
        remaining_at(entry, elapsed) <= entry.ttl_secs(),
{
    assert(elapsed as u32 == elapsed);
}

/// Time counts an entry down: after `elapsed` whole seconds (fewer than
/// 2^32) it has its TTL minus those seconds left, and none once they reach
/// the TTL; more seconds never leave more, and an expired entry stays
/// expired.
pub proof fn lemma_entry_counts_down(entry: CacheEntry, elapsed: u64, later: u64)
    requires
        elapsed <= later < 0x1_0000_0000,
    ensures
        remaining_at(entry, elapsed) + elapsed == entry.ttl_secs() || (remaining_at(entry, elapsed)
            == 0 && elapsed >= entry.ttl_secs()),
        remaining_at(entry, later) <= remaining_at(entry, elapsed),
        expired_at(entry, elapsed) ==> expired_at(entry, later),
        remaining_at(entry, 0) == entry.ttl_secs(),
        expired_at(entry, entry.ttl_secs() as u64),
{
    assert(elapsed as u32 == elapsed);
    assert(later as u32 == later);
    assert(0u64 as u32 == 0);
}

/// A positive answer is cached for the TTL of its first answer record and
/// a negative one for `NEGATIVE_CACHE_TTL` seconds; a response is cached
/// exactly when it has such an answer, or is NXDOMAIN or NODATA.
pub proof fn lemma_cache_decision(response: Seq<u8>)
    ensures
        (cache_decision_of(response) is Skip) <==> (answer_ttl(response) is None && !nxdomain(
            response,
        ) && !nodata(response)),
        answer_ttl(response) matches Some(t) ==> cache_decision_of(response)
            == CacheDecision::Positive(t),
        cache_decision_of(response) matches CacheDecision::NegativeNxdomain(t) ==> t
            == NEGATIVE_CACHE_TTL,
        cache_decision_of(response) matches CacheDecision::NegativeNodata(t) ==> t
            == NEGATIVE_CACHE_TTL,
{
}

} // verus!
