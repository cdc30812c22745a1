use resolver::dns_packet::{build_servfail_response, extract_a_answer, extract_cname_answer};
use resolver::resolver::{next_attempt, ResolveAction, Resolution, MAX_CNAME_DEPTH, MAX_RETRIES};

fn name_bytes(labels: &[&[u8]]) -> Vec<u8> {
    let mut out = Vec::new();
    for l in labels {
        out.push(l.len() as u8);
        out.extend_from_slice(l);
    }
    out.push(0);
    out
}

fn header(id: u16, flags: [u8; 2], an: u16, ns: u16, ar: u16) -> Vec<u8> {
    let mut h = id.to_be_bytes().to_vec();
    h.extend_from_slice(&flags);
    for c in [1u16, an, ns, ar] {
        h.extend_from_slice(&c.to_be_bytes());
    }
    h
}

fn query(id: u16, name: &[&[u8]], qtype: u16) -> Vec<u8> {
    let mut q = header(id, [0x01, 0x00], 0, 0, 0);
    q.extend_from_slice(&name_bytes(name));
    q.extend_from_slice(&qtype.to_be_bytes());
    q.extend_from_slice(&1u16.to_be_bytes());
    q
}

fn record(owner: &[u8], rtype: u16, ttl: u32, rdata: &[u8]) -> Vec<u8> {
    let mut r = owner.to_vec();
    r.extend_from_slice(&rtype.to_be_bytes());
    r.extend_from_slice(&1u16.to_be_bytes());
    r.extend_from_slice(&ttl.to_be_bytes());
    r.extend_from_slice(&(rdata.len() as u16).to_be_bytes());
    r.extend_from_slice(rdata);
    r
}

/// A reply to `q` (flags, counts and records given).
fn reply(q: &[u8], rcode: u8, an: &[Vec<u8>], ns: &[Vec<u8>], ar: &[Vec<u8>]) -> Vec<u8> {
    let id = u16::from_be_bytes([q[0], q[1]]);
    let mut r = header(id, [0x84, rcode], an.len() as u16, ns.len() as u16, ar.len() as u16);
    r.extend_from_slice(&q[12..]);
    for rec in an.iter().chain(ns).chain(ar) {
        r.extend_from_slice(rec);
    }
    r
}

fn expect_send(action: ResolveAction) -> (String, Vec<u8>) {
    match action {
        ResolveAction::Send { server, query } => (server, query),
        _ => panic!("expected a query to send"),
    }
}

fn expect_respond(action: ResolveAction) -> Vec<u8> {
    match action {
        ResolveAction::Respond(r) => r,
        _ => panic!("expected a response"),
    }
}

#[test]
fn direct_answer_is_returned() {
    let request = query(0x4242, &[b"www", b"example"], 1);
    let (res, action) = Resolution::start("auth:53".to_string(), request.clone());
    let (server, sent) = expect_send(action);
    assert_eq!(server, "auth:53");
    assert_eq!(sent, request);
    assert!(res.is_awaiting());
    let answer = reply(&request, 0, &[record(&[0xc0, 12], 1, 60, &[1, 2, 3, 4])], &[], &[]);
    let (res, action) = res.on_reply(answer.clone());
    assert_eq!(expect_respond(action), answer);
    assert!(!res.is_awaiting());
}

#[test]
fn trusted_referral_is_followed_once() {
    let request = query(1, &[b"www", b"sub", b"example"], 1);
    let (res, action) = Resolution::start("auth:53".to_string(), request.clone());
    let _ = expect_send(action);
    let zone = name_bytes(&[b"sub", b"example"]);
    let ns = name_bytes(&[b"ns1", b"sub", b"example"]);
    let referral = reply(
        &request,
        0,
        &[],
        &[record(&zone, 2, 60, &ns)],
        &[record(&ns, 1, 60, &[10, 9, 8, 7])],
    );
    let (res, action) = res.on_reply(referral.clone());
    let (server, sent) = expect_send(action);
    assert_eq!(server, "10.9.8.7:33053");
    assert_eq!(sent, request);
    // A second referral on the glue server ends the exchange as it is.
    let (_, action) = res.on_reply(referral.clone());
    assert_eq!(expect_respond(action), referral);
}

#[test]
fn untrusted_referral_is_returned() {
    let request = query(1, &[b"www", b"sub", b"example"], 1);
    let (res, _) = Resolution::start("auth:53".to_string(), request.clone());
    let zone = name_bytes(&[b"sub", b"example"]);
    let referral = reply(
        &request,
        0,
        &[],
        &[record(&zone, 2, 60, &name_bytes(&[b"ns1", b"sub", b"example"]))],
        &[record(&name_bytes(&[b"other"]), 1, 60, &[10, 9, 8, 7])],
    );
    let (_, action) = res.on_reply(referral.clone());
    assert_eq!(expect_respond(action), referral);
}

#[test]
fn nodata_follows_a_cname_chain() {
    let request = query(0x0102, &[b"www", b"example"], 1);
    let (res, _) = Resolution::start("auth:53".to_string(), request.clone());
    let (res, action) = res.on_reply(reply(&request, 0, &[], &[], &[]));
    let (server, cname_query) = expect_send(action);
    assert_eq!(server, "auth:53");
    assert_eq!(&cname_query[..2], &request[..2]);
    assert_eq!(&cname_query[cname_query.len() - 4..], &[0, 5, 0, 1]);

    let alias = name_bytes(&[b"edge", b"cdn"]);
    let cname_reply = reply(&cname_query, 0, &[record(&[0xc0, 12], 5, 300, &alias)], &[], &[]);
    let (res, action) = res.on_reply(cname_reply);
    let (_, a_query) = expect_send(action);
    assert_eq!(&a_query[12..a_query.len() - 4], &alias[..]);
    assert_eq!(&a_query[a_query.len() - 4..], &[0, 1, 0, 1]);

    let a_reply = reply(&a_query, 0, &[record(&[0xc0, 12], 1, 60, &[192, 0, 2, 9])], &[], &[]);
    let (res, action) = res.on_reply(a_reply);
    let response = expect_respond(action);
    assert!(!res.is_awaiting());
    assert_eq!(&response[..2], &[0x01, 0x02]);
    assert_eq!(&response[6..8], &[0, 2]);
    let c = extract_cname_answer(&response).unwrap();
    assert_eq!((c.name.as_str(), c.target_name.as_str(), c.ttl), ("www.example", "edge.cdn", 300));
    let a = extract_a_answer(&response).unwrap();
    assert_eq!((a.name.as_str(), a.ip, a.ttl), ("edge.cdn", [192, 0, 2, 9], 60));
}

#[test]
fn missing_cname_returns_the_first_reply() {
    let request = query(3, &[b"www", b"example"], 1);
    let (res, _) = Resolution::start("auth:53".to_string(), request.clone());
    let nodata = reply(&request, 0, &[], &[], &[]);
    let (res, action) = res.on_reply(nodata.clone());
    let (_, cname_query) = expect_send(action);
    let (_, action) = res.on_reply(reply(&cname_query, 0, &[], &[], &[]));
    assert_eq!(expect_respond(action), nodata);
}

#[test]
fn endless_cname_chain_gives_servfail() {
    let request = query(5, &[b"loop"], 1);
    let (mut res, _) = Resolution::start("auth:53".to_string(), request.clone());
    let (next, mut action) = res.on_reply(reply(&request, 0, &[], &[], &[]));
    res = next;
    let mut sends = 1;
    loop {
        match action {
            ResolveAction::Send { query, .. } => {
                sends += 1;
                let qtype = u16::from_be_bytes([query[query.len() - 4], query[query.len() - 3]]);
                let answer = if qtype == 5 {
                    reply(&query, 0, &[record(&[0xc0, 12], 5, 1, &name_bytes(&[b"loop"]))], &[], &[])
                } else {
                    reply(&query, 0, &[], &[], &[])
                };
                let (n, a) = res.on_reply(answer);
                res = n;
                action = a;
            }
            ResolveAction::Respond(r) => {
                assert_eq!(r, build_servfail_response(&request).unwrap());
                break;
            }
            ResolveAction::Abandon => panic!("unexpected abandon"),
        }
    }
    assert_eq!(sends, 1 + 2 * MAX_CNAME_DEPTH);
}

#[test]
fn unreachable_server_gives_servfail() {
    let request = query(6, &[b"a"], 1);
    let (res, _) = Resolution::start("auth:53".to_string(), request.clone());
    let (res, action) = res.on_failure();
    assert_eq!(expect_respond(action), build_servfail_response(&request).unwrap());
    assert!(!res.is_awaiting());
}

#[test]
fn unreadable_request_is_abandoned() {
    let (res, _) = Resolution::start("auth:53".to_string(), vec![0u8; 12]);
    let (_, action) = res.on_failure();
    assert!(matches!(action, ResolveAction::Abandon));
}

#[test]
fn upstream_exchange_is_tried_three_times() {
    let mut attempts = 1;
    let mut attempt = 1;
    while let Some(next) = next_attempt(attempt) {
        assert_eq!(next, attempt + 1);
        attempt = next;
        attempts += 1;
    }
    assert_eq!(attempts, MAX_RETRIES);
    assert_eq!(next_attempt(3), None);
}
