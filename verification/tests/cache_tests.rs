use resolver::cache::{
    build_cache_key, cache_decision, is_expired, is_expired_after, remaining_ttl,
    remaining_ttl_after, CacheDecision, CacheEntry, NEGATIVE_CACHE_TTL,
};
use resolver::dns::parser::parse_dns_request;

fn request(labels: &[&[u8]], qtype: u16) -> Vec<u8> {
    let mut q = vec![0, 1, 1, 0, 0, 1, 0, 0, 0, 0, 0, 0];
    for l in labels {
        q.push(l.len() as u8);
        q.extend_from_slice(l);
    }
    q.push(0);
    q.extend_from_slice(&qtype.to_be_bytes());
    q.extend_from_slice(&[0, 1]);
    q
}

#[test]
fn cache_key_ignores_case() {
    let a = parse_dns_request(&request(&[b"WWW", b"Example"], 1)).unwrap();
    let b = parse_dns_request(&request(&[b"www", b"example"], 1)).unwrap();
    let c = parse_dns_request(&request(&[b"www", b"example"], 28)).unwrap();
    assert_eq!(build_cache_key(&a), build_cache_key(&b));
    assert_ne!(build_cache_key(&a), build_cache_key(&c));
}

#[test]
fn expiry_after_elapsed_seconds() {
    let entry = CacheEntry::new(vec![1, 2, 3], 30);
    assert!(!is_expired_after(&entry, 29));
    assert!(is_expired_after(&entry, 30));
    assert_eq!(remaining_ttl_after(&entry, 0), 30);
    assert_eq!(remaining_ttl_after(&entry, 12), 18);
    assert_eq!(remaining_ttl_after(&entry, 30), 0);
    assert_eq!(remaining_ttl_after(&entry, 1000), 0);
    // The elapsed seconds count modulo 2^32 in the remaining time.
    assert_eq!(remaining_ttl_after(&entry, (1u64 << 32) + 5), 25);
    assert_eq!(entry.response, vec![1, 2, 3]);
}

#[test]
fn expired_exactly_when_nothing_remains() {
    let entry = CacheEntry::new(vec![], 7);
    for elapsed in 0..20u64 {
        assert_eq!(is_expired_after(&entry, elapsed), remaining_ttl_after(&entry, elapsed) == 0);
    }
}

#[test]
fn fresh_entries_by_the_clock() {
    let long = CacheEntry::new(vec![0], 3600);
    assert!(!is_expired(&long));
    let r = remaining_ttl(&long);
    assert!(r <= 3600 && r >= 3590);
    let zero = CacheEntry::new(vec![0], 0);
    assert!(is_expired(&zero));
    assert_eq!(remaining_ttl(&zero), 0);
}

fn with_rcode_counts(rcode: u8, an: u16, ns: u16) -> Vec<u8> {
    let mut r = vec![0, 1, 0x81, 0x80 | rcode];
    r.extend_from_slice(&1u16.to_be_bytes());
    r.extend_from_slice(&an.to_be_bytes());
    r.extend_from_slice(&ns.to_be_bytes());
    r.extend_from_slice(&0u16.to_be_bytes());
    r.extend_from_slice(&[1, b'a', 0, 0, 1, 0, 1]);
    r
}

#[test]
fn cache_decisions() {
    let mut answer = with_rcode_counts(0, 1, 0);
    answer.extend_from_slice(&[0xc0, 12, 0, 1, 0, 1, 0, 0, 0x0e, 0x10, 0, 4, 1, 2, 3, 4]);
    assert_eq!(cache_decision(&answer), CacheDecision::Positive(3600));
    assert_eq!(
        cache_decision(&with_rcode_counts(3, 0, 1)),
        CacheDecision::NegativeNxdomain(NEGATIVE_CACHE_TTL)
    );
    assert_eq!(
        cache_decision(&with_rcode_counts(0, 0, 0)),
        CacheDecision::NegativeNodata(10)
    );
    assert_eq!(cache_decision(&with_rcode_counts(0, 0, 1)), CacheDecision::Skip);
    assert_eq!(cache_decision(&with_rcode_counts(2, 0, 0)), CacheDecision::Skip);
}
