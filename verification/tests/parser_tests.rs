use resolver::dns::builder::build_response;
use resolver::dns::parser::parse_dns_request;
use resolver::dns_packet::build_query_request;

fn request(id: u16, labels: &[&[u8]], qtype: u16, qclass: u16) -> Vec<u8> {
    let mut q = Vec::new();
    q.extend_from_slice(&id.to_be_bytes());
    q.extend_from_slice(&[0x01, 0x00, 0, 1, 0, 0, 0, 0, 0, 0]);
    for l in labels {
        q.push(l.len() as u8);
        q.extend_from_slice(l);
    }
    q.push(0);
    q.extend_from_slice(&qtype.to_be_bytes());
    q.extend_from_slice(&qclass.to_be_bytes());
    q
}

#[test]
fn parse_dns_request_reads_header_and_question() {
    let parsed = parse_dns_request(&request(0x1234, &[b"www", b"Example", b"com"], 28, 1)).unwrap();
    assert_eq!(parsed.header.id, 0x1234);
    assert_eq!(parsed.header.qdcount, 1);
    assert_eq!(parsed.question.qname, "www.Example.com");
    assert_eq!(parsed.question.qtype, 28);
    assert_eq!(parsed.question.qclass, 1);
}

#[test]
fn parse_dns_request_root_name() {
    let parsed = parse_dns_request(&request(1, &[], 2, 1)).unwrap();
    assert_eq!(parsed.question.qname, "");
    assert_eq!(parsed.question.qtype, 2);
}

#[test]
fn parse_dns_request_keeps_utf8_labels() {
    let parsed = parse_dns_request(&request(1, &["bücher".as_bytes(), b"de"], 1, 1)).unwrap();
    assert_eq!(parsed.question.qname, "bücher.de");
}

#[test]
fn parse_dns_request_rejects() {
    assert!(parse_dns_request(&[0u8; 11]).is_none());
    assert!(parse_dns_request(&request(1, &[&[0xff]], 1, 1)).is_none());
    let full = request(1, &[b"www", b"example"], 1, 1);
    assert!(parse_dns_request(&full[..full.len() - 1]).is_none());
    // A length byte that runs past the end.
    let mut bad = full[..12].to_vec();
    bad.extend_from_slice(&[9, b'a']);
    assert!(parse_dns_request(&bad).is_none());
    // No terminating zero.
    assert!(parse_dns_request(&full[..16]).is_none());
}

#[test]
fn build_response_answers_from_records() {
    let parsed = parse_dns_request(&request(0x0a0b, &[b"host", b"lan"], 1, 1)).unwrap();
    let records = vec![
        ("other.lan".to_string(), [1, 1, 1, 1]),
        ("host.lan".to_string(), [192, 168, 0, 7]),
    ];
    let response = build_response(&parsed, &records);
    let mut expected = vec![0x0a, 0x0b, 0x81, 0x80, 0, 1, 0, 1, 0, 0, 0, 0];
    expected.extend_from_slice(&[4, b'h', b'o', b's', b't', 3, b'l', b'a', b'n', 0, 0, 1, 0, 1]);
    expected.extend_from_slice(&[0xc0, 0x0c, 0, 1, 0, 1, 0, 0, 0, 0x3c, 0, 4, 192, 168, 0, 7]);
    assert_eq!(response, expected);
}

#[test]
fn build_response_default_address() {
    let parsed = parse_dns_request(&request(1, &[b"unknown"], 1, 1)).unwrap();
    let response = build_response(&parsed, &[]);
    assert_eq!(&response[response.len() - 4..], &[10, 0, 100, 1]);
}

#[test]
fn parse_reads_back_a_built_query() {
    let original = request(0x5151, &[b"x"], 1, 1);
    let built = build_query_request(&original, "Grüße.example.org.", 28, 3).unwrap();
    let parsed = parse_dns_request(&built).unwrap();
    assert_eq!(parsed.header.id, 0x5151);
    assert_eq!(parsed.header.qdcount, 1);
    assert_eq!(parsed.question.qname, "Grüße.example.org");
    assert_eq!(parsed.question.qtype, 28);
    assert_eq!(parsed.question.qclass, 3);
}
