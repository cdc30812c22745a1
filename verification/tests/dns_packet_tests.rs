use resolver::dns_packet::{
    build_cname_chain_a_response, build_query_request, build_servfail_response,
    extract_a_answer, extract_answer_ttl, extract_cname_answer, extract_question_name_and_class,
    extract_trusted_glue_address, find_answer_offset, is_a_query, read_dns_name, is_nodata_response, is_nxdomain_response,
    is_referral_response, is_truncated_response, replace_answer_ttl, replace_response_id,
    AAnswer, CnameAnswer,
};
use resolver::error::PacketError;
use resolver::name::write_dns_name;

fn name_bytes(labels: &[&[u8]]) -> Vec<u8> {
    let mut out = Vec::new();
    for l in labels {
        out.push(l.len() as u8);
        out.extend_from_slice(l);
    }
    out.push(0);
    out
}

fn header(id: u16, flags: [u8; 2], qd: u16, an: u16, ns: u16, ar: u16) -> Vec<u8> {
    let mut h = Vec::new();
    h.extend_from_slice(&id.to_be_bytes());
    h.extend_from_slice(&flags);
    for c in [qd, an, ns, ar] {
        h.extend_from_slice(&c.to_be_bytes());
    }
    h
}

fn query(id: u16, labels: &[&[u8]], qtype: u16, qclass: u16) -> Vec<u8> {
    let mut q = header(id, [0x01, 0x00], 1, 0, 0, 0);
    q.extend_from_slice(&name_bytes(labels));
    q.extend_from_slice(&qtype.to_be_bytes());
    q.extend_from_slice(&qclass.to_be_bytes());
    q
}

fn record(owner: &[u8], rtype: u16, rclass: u16, ttl: u32, rdata: &[u8]) -> Vec<u8> {
    let mut r = owner.to_vec();
    r.extend_from_slice(&rtype.to_be_bytes());
    r.extend_from_slice(&rclass.to_be_bytes());
    r.extend_from_slice(&ttl.to_be_bytes());
    r.extend_from_slice(&(rdata.len() as u16).to_be_bytes());
    r.extend_from_slice(rdata);
    r
}

#[test]
fn is_a_query_reads_the_question_type() {
    assert!(is_a_query(&query(7, &[b"example", b"com"], 1, 1)));
    assert!(!is_a_query(&query(7, &[b"example", b"com"], 28, 1)));
    assert!(!is_a_query(&[0u8; 5]));
    let mut cut = query(7, &[b"example", b"com"], 1, 1);
    cut.truncate(cut.len() - 1);
    assert!(!is_a_query(&cut));
}

#[test]
fn is_a_query_follows_a_compression_pointer() {
    // The question name points back at a name stored in the header area.
    let mut q = header(1, [0, 0], 1, 0, 0, 0);
    let name_at = q.len() + 6;
    q.extend_from_slice(&[0xc0, name_at as u8]);
    q.extend_from_slice(&1u16.to_be_bytes());
    q.extend_from_slice(&1u16.to_be_bytes());
    q.extend_from_slice(&name_bytes(&[b"a"]));
    assert!(is_a_query(&q));
}

#[test]
fn extract_question_lowercases_the_name() {
    let q = query(9, &[b"WWW", b"Example", b"COM"], 1, 3);
    assert_eq!(
        extract_question_name_and_class(&q),
        Some(("www.example.com".to_string(), 3))
    );
    assert_eq!(extract_question_name_and_class(&q[..q.len() - 1]), None);
}

#[test]
fn extract_question_replaces_invalid_utf8() {
    let q = query(9, &[&[0xff, b'a'], b"com"], 1, 1);
    assert_eq!(
        extract_question_name_and_class(&q),
        Some(("\u{fffd}a.com".to_string(), 1))
    );
}

#[test]
fn pointer_loop_reads_as_nothing() {
    let mut q = header(1, [0, 0], 1, 0, 0, 0);
    q.extend_from_slice(&[0xc0, 12]);
    q.extend_from_slice(&[0, 1, 0, 1]);
    assert!(!is_a_query(&q));
    assert_eq!(extract_question_name_and_class(&q), None);
}

#[test]
fn build_query_request_exact_bytes() {
    let original = query(0xabcd, &[b"x"], 1, 1);
    let built = build_query_request(&original, "www.example.com.", 5, 1).unwrap();
    let mut expected = vec![0xab, 0xcd, 0x01, 0x00, 0, 1, 0, 0, 0, 0, 0, 0];
    expected.extend_from_slice(&name_bytes(&[b"www", b"example", b"com"]));
    expected.extend_from_slice(&[0, 5, 0, 1]);
    assert_eq!(built, expected);
}

#[test]
fn build_query_request_keeps_only_the_rd_bit() {
    let mut original = query(1, &[b"x"], 1, 1);
    original[2] = 0xff;
    let built = build_query_request(&original, "a", 1, 1).unwrap();
    assert_eq!(built[2], 0x01);
    assert_eq!(built[3], 0);
}

#[test]
fn build_query_request_errors() {
    assert_eq!(
        build_query_request(&[0u8; 11], "a", 1, 1),
        Err(PacketError::InvalidRequest)
    );
    let long = "a".repeat(64);
    let original = query(1, &[b"x"], 1, 1);
    assert_eq!(
        build_query_request(&original, &format!("{}.com", long), 1, 1),
        Err(PacketError::LabelTooLong)
    );
    assert!(build_query_request(&original, &"a".repeat(63), 1, 1).is_ok());
}

#[test]
fn built_query_reads_back() {
    let original = query(1, &[b"x"], 1, 1);
    let built = build_query_request(&original, "Alias.Example.org", 1, 3).unwrap();
    assert!(is_a_query(&built));
    assert_eq!(
        extract_question_name_and_class(&built),
        Some(("alias.example.org".to_string(), 3))
    );
    let built5 = build_query_request(&original, "alias.example.org", 5, 1).unwrap();
    assert!(!is_a_query(&built5));
}

#[test]
fn build_servfail_response_exact_bytes() {
    let request = query(0x0102, &[b"example", b"com"], 1, 1);
    let response = build_servfail_response(&request).unwrap();
    let mut expected = vec![0x01, 0x02, 0x85, 0x02, 0, 1, 0, 0, 0, 0, 0, 0];
    expected.extend_from_slice(&request[12..]);
    assert_eq!(response, expected);
    assert!(!is_nxdomain_response(&response));
    assert!(!is_nodata_response(&response));
    assert!(!is_referral_response(&response));
}

#[test]
fn build_servfail_response_needs_a_question() {
    assert_eq!(build_servfail_response(&[0u8; 11]), Err(PacketError::InvalidQuestion));
    let request = query(1, &[b"example"], 1, 1);
    assert_eq!(
        build_servfail_response(&request[..request.len() - 2]),
        Err(PacketError::InvalidQuestion)
    );
}

#[test]
fn build_cname_chain_a_response_exact_bytes() {
    let request = query(0x1111, &[b"www", b"a"], 1, 1);
    let cnames = vec![CnameAnswer {
        name: "www.a".to_string(),
        target_name: "b".to_string(),
        ttl: 300,
    }];
    let a = AAnswer { name: "b".to_string(), ip: [192, 0, 2, 1], ttl: 60 };
    let response = build_cname_chain_a_response(&request, 1, &cnames, &a).unwrap();
    let mut expected = vec![0x11, 0x11, 0x85, 0x00, 0, 1, 0, 2, 0, 0, 0, 0];
    expected.extend_from_slice(&request[12..]);
    expected.extend_from_slice(&record(&name_bytes(&[b"www", b"a"]), 5, 1, 300, &name_bytes(&[b"b"])));
    expected.extend_from_slice(&record(&name_bytes(&[b"b"]), 1, 1, 60, &[192, 0, 2, 1]));
    assert_eq!(response, expected);

    // The response reads back: its CNAME and A answers are the ones written.
    let c = extract_cname_answer(&response).unwrap();
    assert_eq!((c.name.as_str(), c.target_name.as_str(), c.ttl), ("www.a", "b", 300));
    let got = extract_a_answer(&response).unwrap();
    assert_eq!((got.name.as_str(), got.ip, got.ttl), ("b", [192, 0, 2, 1], 60));
}

#[test]
fn build_cname_chain_a_response_errors() {
    let a = AAnswer { name: "b".to_string(), ip: [1, 2, 3, 4], ttl: 1 };
    assert_eq!(
        build_cname_chain_a_response(&[0u8; 12], 1, &[], &a).map(|_| ()),
        Err(PacketError::InvalidQuestion)
    );
    let request = query(1, &[b"x"], 1, 1);
    let long = AAnswer { name: "c".repeat(64), ip: [1, 2, 3, 4], ttl: 1 };
    assert_eq!(
        build_cname_chain_a_response(&request, 1, &[], &long).map(|_| ()),
        Err(PacketError::LabelTooLong)
    );
}

fn answer_response(answers: &[Vec<u8>]) -> Vec<u8> {
    let mut r = header(5, [0x81, 0x80], 1, answers.len() as u16, 0, 0);
    r.extend_from_slice(&name_bytes(&[b"www", b"example", b"com"]));
    r.extend_from_slice(&[0, 1, 0, 1]);
    for a in answers {
        r.extend_from_slice(a);
    }
    r
}

#[test]
fn extract_cname_answer_skips_other_records() {
    let pointer = [0xc0, 12];
    let response = answer_response(&[
        record(&pointer, 16, 1, 5, b"\x03txt"),
        record(&pointer, 5, 1, 120, &name_bytes(&[b"Target", b"net"])),
    ]);
    let c = extract_cname_answer(&response).unwrap();
    assert_eq!(c.name, "www.example.com");
    assert_eq!(c.target_name, "target.net");
    assert_eq!(c.ttl, 120);
    assert!(extract_a_answer(&response).is_none());
}

#[test]
fn extract_a_answer_needs_class_in_and_four_bytes() {
    let pointer = [0xc0, 12];
    let response = answer_response(&[
        record(&pointer, 1, 3, 5, &[1, 2, 3, 4]),
        record(&pointer, 1, 1, 5, &[1, 2, 3]),
        record(&pointer, 1, 1, 77, &[10, 0, 0, 1]),
    ]);
    let a = extract_a_answer(&response).unwrap();
    assert_eq!(a.name, "www.example.com");
    assert_eq!(a.ip, [10, 0, 0, 1]);
    assert_eq!(a.ttl, 77);
}

#[test]
fn extract_answers_of_a_truncated_record_is_none() {
    let pointer = [0xc0, 12];
    let mut response = answer_response(&[record(&pointer, 5, 1, 1, &name_bytes(&[b"t"]))]);
    response.truncate(response.len() - 1);
    assert!(extract_cname_answer(&response).is_none());
    assert!(extract_cname_answer(&[0u8; 3]).is_none());
}

fn referral(ns_name: &[&[u8]], glue_owner: &[&[u8]], glue_ip: [u8; 4]) -> Vec<u8> {
    let mut r = header(5, [0x81, 0x00], 1, 0, 1, 1);
    r.extend_from_slice(&name_bytes(&[b"www", b"sub", b"example"]));
    r.extend_from_slice(&[0, 1, 0, 1]);
    r.extend_from_slice(&record(&name_bytes(&[b"sub", b"example"]), 2, 1, 60, &name_bytes(ns_name)));
    r.extend_from_slice(&record(&name_bytes(glue_owner), 1, 1, 60, &glue_ip));
    r
}

#[test]
fn trusted_glue_address_when_names_match() {
    let r = referral(&[b"ns1", b"sub", b"example"], &[b"NS1", b"sub", b"example"], [192, 0, 2, 53]);
    assert!(is_referral_response(&r));
    assert_eq!(extract_trusted_glue_address(&r), Some("192.0.2.53:33053".to_string()));
}

#[test]
fn untrusted_glue_is_ignored() {
    let r = referral(&[b"ns1", b"sub", b"example"], &[b"evil", b"example"], [6, 6, 6, 6]);
    assert_eq!(extract_trusted_glue_address(&r), None);
    assert_eq!(extract_trusted_glue_address(&query(1, &[b"a"], 1, 1)), None);
}

#[test]
fn replace_response_id_takes_the_request_id() {
    let response = vec![1, 2, 3, 4, 5];
    assert_eq!(replace_response_id(response, &[9, 8, 7]), vec![9, 8, 3, 4, 5]);
}

#[test]
fn response_kinds() {
    let mut r = header(1, [0x81, 0x80], 1, 0, 1, 0);
    assert!(is_referral_response(&r));
    assert!(!is_nodata_response(&r));
    r[9] = 0;
    assert!(is_nodata_response(&r));
    assert!(!is_referral_response(&r));
    r[3] = 0x83;
    assert!(is_nxdomain_response(&r));
    assert!(!is_nodata_response(&r));
    assert!(is_nxdomain_response(&[0, 0, 0, 3]));
    assert!(!is_nxdomain_response(&[0, 0, 0]));
    assert!(!is_nodata_response(&[0u8; 11]));
    assert!(!is_referral_response(&[0u8; 11]));
}

#[test]
fn truncated_bit() {
    assert!(is_truncated_response(&[0, 0, 0x02, 0]));
    assert!(!is_truncated_response(&[0, 0, 0xfd, 0]));
    assert!(!is_truncated_response(&[0, 0, 0x02]));
}

#[test]
fn answer_ttl_read_and_rewrite() {
    let pointer = [0xc0, 12];
    let response = answer_response(&[record(&pointer, 1, 1, 3600, &[1, 2, 3, 4])]);
    assert_eq!(extract_answer_ttl(&response), Some(3600));
    let rewritten = replace_answer_ttl(response.clone(), 42);
    assert_eq!(extract_answer_ttl(&rewritten), Some(42));
    assert_eq!(rewritten.len(), response.len());
    let n = response.len();
    assert_eq!(&rewritten[..n - 10], &response[..n - 10]);
    assert_eq!(&rewritten[n - 6..], &response[n - 6..]);
}

#[test]
fn answer_ttl_absent() {
    let no_answers = answer_response(&[]);
    assert_eq!(extract_answer_ttl(&no_answers), None);
    assert_eq!(replace_answer_ttl(no_answers.clone(), 5), no_answers);
    let mut short = answer_response(&[record(&[0xc0, 12], 1, 1, 1, &[])]);
    short.truncate(short.len() - 3);
    assert_eq!(extract_answer_ttl(&short), None);
    assert_eq!(replace_answer_ttl(short.clone(), 5), short);
}

#[test]
fn cache_hit_response_carries_request_id_and_new_ttl() {
    let response = answer_response(&[record(&[0xc0, 12], 1, 1, 3600, &[1, 2, 3, 4])]);
    let request = query(0x7777, &[b"www", b"example", b"com"], 1, 1);
    let served = replace_answer_ttl(replace_response_id(response, &request), 17);
    assert_eq!(&served[..2], &[0x77, 0x77]);
    assert_eq!(extract_answer_ttl(&served), Some(17));
}

#[test]
fn name_write_keeps_labels_before_a_long_one() {
    let mut buffer = vec![9u8];
    let name = format!("ab.{}.x", "c".repeat(64));
    assert_eq!(write_dns_name(&mut buffer, &name), Err(PacketError::LabelTooLong));
    assert_eq!(buffer, vec![9u8, 2, b'a', b'b']);
}

#[test]
fn name_write_appends_labels_and_end() {
    let mut buffer = vec![7u8];
    assert_eq!(write_dns_name(&mut buffer, "Ab.c.."), Ok(()));
    assert_eq!(buffer, vec![7u8, 2, b'A', b'b', 1, b'c', 0]);
}

fn uncompressed_chain_response() -> Vec<u8> {
    vec![
        0x12, 0x34, 0x85, 0, 0, 1, 0, 2, 0, 0, 0, 0, 1, b'a', 0, 0, 1, 0, 1, 1, b'a', 0, 0, 5, 0,
        1, 0, 0, 0, 60, 0, 3, 1, b'b', 0, 1, b'b', 0, 0, 1, 0, 1, 0, 0, 0, 30, 0, 4, 1, 2, 3, 4,
    ]
}

#[test]
fn answer_ttl_after_uncompressed_owner() {
    let response = uncompressed_chain_response();
    assert_eq!(find_answer_offset(&response), Some(19));
    assert_eq!(extract_answer_ttl(&response), Some(60));
}

#[test]
fn answer_ttl_rewrite_after_uncompressed_owner() {
    let mut expected = uncompressed_chain_response();
    expected[29] = 5;
    let rewritten = replace_answer_ttl(uncompressed_chain_response(), 5);
    assert_eq!(rewritten, expected);
    assert_eq!(extract_answer_ttl(&rewritten), Some(5));
}

#[test]
fn answer_ttl_after_labels_and_pointer_owner() {
    let mut response = header(7, [0x81, 0x80], 1, 1, 0, 0);
    response.extend(name_bytes(&[b"example", b"com"]));
    response.extend([0, 1, 0, 1]);
    response.extend([3, b'w', b'w', b'w', 0xc0, 12]);
    response.extend([0, 1, 0, 1, 0, 0, 0x0e, 0x10, 0, 4, 9, 9, 9, 9]);
    assert_eq!(extract_answer_ttl(&response), Some(3600));
    let rewritten = replace_answer_ttl(response, 7);
    assert_eq!(extract_answer_ttl(&rewritten), Some(7));
}

#[test]
fn written_name_reads_back_as_text() {
    let mut buffer = vec![1u8, 2, 3];
    assert_eq!(write_dns_name(&mut buffer, "WWW.Example.com."), Ok(()));
    assert_eq!(read_dns_name(&buffer, 3), Some(("www.example.com".to_string(), buffer.len())));
}

#[test]
fn chain_response_answer_ttl_is_first_record_ttl() {
    let request = query(9, &[b"a"], 1, 1);
    let cnames = vec![CnameAnswer { name: "a".to_string(), target_name: "b".to_string(), ttl: 60 }];
    let a = AAnswer { name: "b".to_string(), ip: [1, 2, 3, 4], ttl: 30 };
    let response = build_cname_chain_a_response(&request, 1, &cnames, &a).unwrap();
    assert_eq!(extract_answer_ttl(&response), Some(60));
}
