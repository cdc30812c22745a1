//! Reading, classifying and rewriting DNS messages, and building the
//! queries and responses that the resolver sends.
use vstd::prelude::*;
use vstd::string::*;
use vstd::utf8::encode_utf8;

use crate::error::PacketError;
use crate::name::{
    dotted_name_wire, label_wire, labels_fit, labels_writable, lemma_plain_name_bounds,
    lemma_name_end_agree, lemma_name_end_bounds, lemma_read_name_bounds, lemma_read_plain,
    lemma_read_written_name, name_end, no_pointer, plain_name, skip_name, walk_name,
    read_name, read_name_labels, read_plain_labels, split_dots, trim_end_dots, write_dns_name,
};
use crate::text::{
    decimal, decimal_string, labels_text, lemma_name_text_of_labels, name_text, read_back_text,
};
use crate::wire::{
    append_bytes, be16, be16_bytes, be32, be32_bytes, lemma_be16_roundtrip, lemma_be32_roundtrip,
    push_u16, push_u32, read_u16, read_u32,
};

verus! {

/// A CNAME record found in an answer section.
#[derive(Debug)]
pub struct CnameAnswer {
    pub name: String,
    pub target_name: String,
    pub ttl: u32,
}

/// An A record (class IN, four bytes of data) found in an answer section.
#[derive(Debug)]
pub struct AAnswer {
    pub name: String,
    pub ip: [u8; 4],
    pub ttl: u32,
}

/// What a CNAME answer says: owner name, target name and TTL.
pub struct CnameRecord {
    pub name: Seq<char>,
    pub target: Seq<char>,
    pub ttl: u32,
}

impl View for CnameAnswer {
    type V = CnameRecord;

    open spec fn view(&self) -> CnameRecord {
        CnameRecord { name: self.name@, target: self.target_name@, ttl: self.ttl }
    }
}

/// What an A answer says: owner name, address and TTL.
pub struct ARecord {
    pub name: Seq<char>,
    pub ip: Seq<u8>,
    pub ttl: u32,
}

impl View for AAnswer {
    type V = ARecord;

    open spec fn view(&self) -> ARecord {
        ARecord { name: self.name@, ip: self.ip@, ttl: self.ttl }
    }
}

/// The fixed part of a resource record at some offset, after its owner name.
pub struct RecordHead {
    pub name: Seq<Seq<u8>>,
    pub rtype: u16,
    pub rclass: u16,
    pub ttl: u32,
    pub rdlength: u16,
    pub rdata: int,
    pub next: int,
}

/// The resource record at `off`: its owner name, type, class, TTL and the
/// place of its data, provided the ten fixed bytes and the data lie within
/// the packet.
pub open spec fn record_at(p: Seq<u8>, off: int) -> Option<RecordHead> {
    match read_name(p, off) {
        Some((name, o)) => {
            if o + 10 > p.len() {
                None
            } else {
                let rdlength = be16(p, o + 8);
                if o + 10 + rdlength > p.len() {
                    None
                } else {
                    Some(
                        RecordHead {
                            name,
                            rtype: be16(p, o),
                            rclass: be16(p, o + 2),
                            ttl: be32(p, o + 4),
                            rdlength,
                            rdata: o + 10,
                            next: o + 10 + rdlength,
                        },
                    )
                }
            }
        },
        None => None,
    }
}

/// The offset just after the question section of `p` (one question,
/// starting right after the 12-byte header).
pub open spec fn question_end(p: Seq<u8>) -> Option<int> {
    if p.len() < 12 {
        None
    } else {
        match read_name(p, 12) {
            Some((_, o)) => if o + 4 > p.len() {
                None
            } else {
                Some(o + 4)
            },
            None => None,
        }
    }
}

/// The offset after skipping `n` resource records from `off`.
pub open spec fn skip_records(p: Seq<u8>, off: int, n: nat) -> Option<int>
    decreases n,
{
    if n == 0 {
        Some(off)
    } else {
        match record_at(p, off) {
            Some(h) => skip_records(p, h.next, (n - 1) as nat),
            None => None,
        }
    }
}

/// The first CNAME record among `n` records from `off`: owner, target, TTL.
pub open spec fn find_cname(p: Seq<u8>, off: int, n: nat) -> Option<
    (Seq<Seq<u8>>, Seq<Seq<u8>>, u32),
>
    decreases n,
{
    if n == 0 {
        None
    } else {
        match record_at(p, off) {
            Some(h) => if h.rtype == 5 {
                match read_name(p, h.rdata) {
                    Some((target, _)) => Some((h.name, target, h.ttl)),
                    None => None,
                }
            } else {
                find_cname(p, h.next, (n - 1) as nat)
            },
            None => None,
        }
    }
}

/// The first A record of class IN with four data bytes among `n` records
/// from `off`: owner, address, TTL.
pub open spec fn find_a(p: Seq<u8>, off: int, n: nat) -> Option<(Seq<Seq<u8>>, Seq<u8>, u32)>
    decreases n,
{
    if n == 0 {
        None
    } else {
        match record_at(p, off) {
            Some(h) => if h.rtype == 1 && h.rclass == 1 && h.rdlength == 4 {
                Some((h.name, p.subrange(h.rdata, h.rdata + 4), h.ttl))
            } else {
                find_a(p, h.next, (n - 1) as nat)
            },
            None => None,
        }
    }
}

/// The target of the first NS record among `n` records from `off`.
pub open spec fn find_ns(p: Seq<u8>, off: int, n: nat) -> Option<Seq<Seq<u8>>>
    decreases n,
{
    if n == 0 {
        None
    } else {
        match record_at(p, off) {
            Some(h) => if h.rtype == 2 {
                match read_name(p, h.rdata) {
                    Some((target, _)) => Some(target),
                    None => None,
                }
            } else {
                find_ns(p, h.next, (n - 1) as nat)
            },
            None => None,
        }
    }
}

/// The number of answer records in the header.
pub open spec fn answer_count(p: Seq<u8>) -> u16 {
    be16(p, 6)
}

/// The number of authority records in the header.
pub open spec fn authority_count(p: Seq<u8>) -> u16 {
    be16(p, 8)
}

/// The number of additional records in the header.
pub open spec fn additional_count(p: Seq<u8>) -> u16 {
    be16(p, 10)
}

/// The response code: the low four bits of the fourth byte.
pub open spec fn rcode(p: Seq<u8>) -> u8 {
    p[3] & 15u8
}

/// The first CNAME record of the answer section.
pub open spec fn cname_answer_of(p: Seq<u8>) -> Option<(Seq<Seq<u8>>, Seq<Seq<u8>>, u32)> {
    match question_end(p) {
        Some(q) => find_cname(p, q, answer_count(p) as nat),
        None => None,
    }
}

/// The first A record of the answer section.
pub open spec fn a_answer_of(p: Seq<u8>) -> Option<(Seq<Seq<u8>>, Seq<u8>, u32)> {
    match question_end(p) {
        Some(q) => find_a(p, q, answer_count(p) as nat),
        None => None,
    }
}

/// The target of the first NS record of the authority section.
pub open spec fn authority_ns_of(p: Seq<u8>) -> Option<Seq<Seq<u8>>> {
    match question_end(p) {
        Some(q) => match skip_records(p, q, answer_count(p) as nat) {
            Some(o) => find_ns(p, o, authority_count(p) as nat),
            None => None,
        },
        None => None,
    }
}

/// The owner and address of the first A record of the additional section.
pub open spec fn additional_a_of(p: Seq<u8>) -> Option<(Seq<Seq<u8>>, Seq<u8>)> {
    match question_end(p) {
        Some(q) => match skip_records(p, q, answer_count(p) as nat) {
            Some(o1) => match skip_records(p, o1, authority_count(p) as nat) {
                Some(o2) => match find_a(p, o2, additional_count(p) as nat) {
                    Some((name, ip, _)) => Some((name, ip)),
                    None => None,
                },
                None => None,
            },
            None => None,
        },
        None => None,
    }
}

/// The text of a glue address: the four numbers of `ip` with dots between
/// them, then the resolver port, `:33053`.
pub open spec fn glue_address_text(ip: Seq<u8>) -> Seq<char> {
    decimal(ip[0] as nat) + seq!['.'] + decimal(ip[1] as nat) + seq!['.'] + decimal(ip[2] as nat)
        + seq!['.'] + decimal(ip[3] as nat) + seq![':', '3', '3', '0', '5', '3']
}

/// The glue address to ask next: the additional section's first A record,
/// provided its owner is the name of the first NS record of the authority
/// section.
pub open spec fn trusted_glue_of(p: Seq<u8>) -> Option<Seq<char>> {
    match authority_ns_of(p) {
        Some(ns) => match additional_a_of(p) {
            Some((glue, ip)) => if name_text(ns) == name_text(glue) {
                Some(glue_address_text(ip))
            } else {
                None
            },
            None => None,
        },
        None => None,
    }
}

/// Whether `p` asks for an A record: its question's type is 1.
pub open spec fn asks_for_a(p: Seq<u8>) -> bool {
    match read_name(p, 12) {
        Some((_, o)) => o + 4 <= p.len() && be16(p, o) == 1,
        None => false,
    }
}

/// A referral: no error, no answers, some authority records.
pub open spec fn referral(p: Seq<u8>) -> bool {
    p.len() >= 12 && rcode(p) == 0 && answer_count(p) == 0 && authority_count(p) > 0
}

/// NXDOMAIN: response code 3.
pub open spec fn nxdomain(p: Seq<u8>) -> bool {
    p.len() >= 4 && rcode(p) == 3
}

/// NODATA: no error, no answers, no authority records.
pub open spec fn nodata(p: Seq<u8>) -> bool {
    p.len() >= 12 && rcode(p) == 0 && answer_count(p) == 0 && authority_count(p) == 0
}

/// The TC bit of the flags is set.
pub open spec fn truncated(p: Seq<u8>) -> bool {
    p.len() >= 4 && p[2] & 2u8 != 0
}

/// Where the first answer record starts, found by skipping the question
/// name as an uncompressed name; `None` when there are no answers.
pub open spec fn answer_offset(p: Seq<u8>) -> Option<int> {
    if p.len() < 12 || answer_count(p) == 0 {
        None
    } else {
        match plain_name(p, 12) {
            Some((_, o)) => if o + 4 > p.len() {
                None
            } else {
                Some(o + 4)
            },
            None => None,
        }
    }
}

/// Where the TTL of the first answer record lies: four bytes after the end
/// of its owner name (past the type and the class); `None` when there is
/// no answer, its owner name cannot be skipped, or the record's fixed
/// fields (type, class, TTL, data length) do not fit in the packet.
pub open spec fn answer_ttl_at(p: Seq<u8>) -> Option<int> {
    match answer_offset(p) {
        Some(a) => match name_end(p, a) {
            Some(e) => if e + 10 > p.len() {
                None
            } else {
                Some(e + 4)
            },
            None => None,
        },
        None => None,
    }
}

/// The TTL of the first answer lies past the header and the question,
/// within the packet.
pub proof fn lemma_answer_ttl_at_bounds(p: Seq<u8>)
    ensures
        answer_ttl_at(p) matches Some(t) ==> 16 < t && t + 6 <= p.len(),
{
    if let Some(a) = answer_offset(p) {
        lemma_plain_name_bounds(p, 12);
        lemma_name_end_bounds(p, a);
    }
}

/// The TTL of the first answer record.
pub open spec fn answer_ttl(p: Seq<u8>) -> Option<u32> {
    match answer_ttl_at(p) {
        Some(t) => Some(be32(p, t)),
        None => None,
    }
}

/// `p` with the TTL of its first answer record set to `ttl`; `p` itself
/// when it has no such record.
pub open spec fn with_answer_ttl(p: Seq<u8>, ttl: u32) -> Seq<u8> {
    match answer_ttl_at(p) {
        Some(t) => p.take(t) + be32_bytes(ttl) + p.skip(t + 4),
        None => p,
    }
}

/// A query asking for `qtype`/`qclass` of the name whose wire form is
/// `name`, with the ID of `original`, recursion desired as in `original`,
/// and one question.
pub open spec fn query_packet(original: Seq<u8>, name: Seq<u8>, qtype: u16, qclass: u16) -> Seq<u8> {
    original.subrange(0, 2) + seq![original[2] & 1u8, 0u8] + seq![0u8, 1u8, 0u8, 0u8, 0u8, 0u8, 0u8, 0u8]
        + name + be16_bytes(qtype) + be16_bytes(qclass)
}

/// A response header for `original`: its ID, QR and AA set, recursion
/// desired as in `original`, the response code `code`, one question,
/// `answers` answers and no other records.
pub open spec fn response_header(original: Seq<u8>, code: u8, answers: u16) -> Seq<u8> {
    original.subrange(0, 2) + seq![0x84u8 | (original[2] & 1u8), code] + seq![0u8, 1u8]
        + be16_bytes(answers) + seq![0u8, 0u8, 0u8, 0u8]
}

/// The SERVFAIL response to `original`, repeating its question.
pub open spec fn servfail_packet(original: Seq<u8>) -> Option<Seq<u8>> {
    match question_end(original) {
        Some(q) => Some(response_header(original, 2, 0) + original.subrange(12, q)),
        None => None,
    }
}

/// The wire form of a dotted name given as text.
pub open spec fn text_name_wire(name: Seq<char>) -> Option<Seq<u8>> {
    dotted_name_wire(encode_utf8(name))
}

/// The CNAME record `c` in wire form, of class `qclass`.
pub open spec fn cname_record_wire(c: CnameRecord, qclass: u16) -> Option<Seq<u8>> {
    match text_name_wire(c.name) {
        Some(owner) => match text_name_wire(c.target) {
            Some(target) => Some(
                owner + be16_bytes(5) + be16_bytes(qclass) + be32_bytes(c.ttl) + be16_bytes(
                    (target.len() % 65536) as u16,
                ) + target,
            ),
            None => None,
        },
        None => None,
    }
}

/// The CNAME records of `answers` in wire form, each of class `qclass`.
pub open spec fn cname_records_wire(answers: Seq<CnameRecord>, qclass: u16) -> Option<Seq<u8>>
    decreases answers.len(),
{
    if answers.len() == 0 {
        Some(Seq::empty())
    } else {
        match cname_records_wire(answers.drop_last(), qclass) {
            Some(before) => match cname_record_wire(answers.last(), qclass) {
                Some(rec) => Some(before + rec),
                None => None,
            },
            None => None,
        }
    }
}

/// The A record `a` in wire form, of class `qclass`.
pub open spec fn a_record_wire(a: ARecord, qclass: u16) -> Option<Seq<u8>> {
    match text_name_wire(a.name) {
        Some(owner) => Some(
            owner + be16_bytes(1) + be16_bytes(qclass) + be32_bytes(a.ttl) + be16_bytes(4) + a.ip,
        ),
        None => None,
    }
}

/// The response to `original` that answers its question with the CNAME
/// chain `cnames` and the A record `a`; `None` when a name cannot be written.
pub open spec fn cname_chain_packet(
    original: Seq<u8>,
    q: int,
    qclass: u16,
    cnames: Seq<CnameRecord>,
    a: ARecord,
) -> Option<Seq<u8>> {
    match cname_records_wire(cnames, qclass) {
        Some(records) => match a_record_wire(a, qclass) {
            Some(arec) => Some(
                response_header(original, 0, ((cnames.len() + 1) % 65536) as u16) + original.subrange(12, q)
                    + records + arec,
            ),
            None => None,
        },
        None => None,
    }
}

/// The response to `original` answering it with the CNAME chain `cnames`
/// and the A record `a`; `None` when the question of `original` cannot be
/// read or a name cannot be written.
pub open spec fn chain_response(original: Seq<u8>, qclass: u16, cnames: Seq<CnameRecord>, a: ARecord) -> Option<
    Seq<u8>,
> {
    match question_end(original) {
        Some(q) => cname_chain_packet(original, q, qclass, cnames, a),
        None => None,
    }
}

/// The query for `qtype`/`qclass` of the dotted name `name` that
/// `build_query_request` builds from `original`; `None` when it fails.
pub open spec fn query_for(original: Seq<u8>, name: Seq<char>, qtype: u16, qclass: u16) -> Option<
    Seq<u8>,
> {
    if original.len() < 12 {
        None
    } else {
        match text_name_wire(name) {
            Some(w) => Some(query_packet(original, w, qtype, qclass)),
            None => None,
        }
    }
}

/// The question of `request` as `extract_question_name_and_class` reports
/// it: the name as text and the class.
pub open spec fn question_of(request: Seq<u8>) -> Option<(Seq<char>, u16)> {
    match read_name(request, 12) {
        Some((ls, o)) => if o + 4 > request.len() {
            None
        } else {
            Some((name_text(ls), be16(request, o + 2)))
        },
        None => None,
    }
}

/// The first CNAME answer of `p`, as text.
pub open spec fn cname_record_of(p: Seq<u8>) -> Option<CnameRecord> {
    match cname_answer_of(p) {
        Some((name, target, ttl)) => Some(
            CnameRecord { name: name_text(name), target: name_text(target), ttl },
        ),
        None => None,
    }
}

/// The first A answer of `p`, its owner as text.
pub open spec fn a_record_of(p: Seq<u8>) -> Option<ARecord> {
    match a_answer_of(p) {
        Some((name, ip, ttl)) => Some(ARecord { name: name_text(name), ip, ttl }),
        None => None,
    }
}

/// What a resource record holds, as read from a packet.
struct RecordInfo {
    name: Vec<Vec<u8>>,
    rtype: u16,
    rclass: u16,
    ttl: u32,
    rdlength: u16,
    rdata: usize,
    next: usize,
}

/// Reads the resource record at `offset`.
fn read_record(packet: &[u8], offset: usize) -> (r: Option<RecordInfo>)
    ensures
        match record_at(packet@, offset as int) {
            Some(h) => r matches Some(x) && crate::name::byte_strings(x.name@) == h.name && x.rtype
                == h.rtype && x.rclass == h.rclass && x.ttl == h.ttl && x.rdlength == h.rdlength
                && x.rdata == h.rdata && x.next == h.next,
            None => r is None,
        },
        r matches Some(x) ==> x.next <= packet@.len(),
{
    let (name, o) = match read_name_labels(packet, offset) {
        Some(found) => found,
        None => return None,
    };
    if packet.len() - o < 10 {
        return None;
    }
    let rtype = read_u16(packet, o);
    let rclass = read_u16(packet, o + 2);
    let ttl = read_u32(packet, o + 4);
    let rdlength = read_u16(packet, o + 8);
    let rdata = o + 10;
    if rdlength as usize > packet.len() - rdata {
        return None;
    }
    Some(RecordInfo { name, rtype, rclass, ttl, rdlength, rdata, next: rdata + rdlength as usize })
}

/// Reads the (possibly compressed) name at `offset` as text, and the offset
/// where the data after it starts.
pub fn read_dns_name(packet: &[u8], offset: usize) -> (r: Option<(String, usize)>)
    ensures
        match read_name(packet@, offset as int) {
            Some((ls, next)) => r matches Some((s, n)) && s@ == name_text(ls) && n == next,
            None => r is None,
        },
        r matches Some((_, n)) ==> n <= packet@.len(),
{
    match read_name_labels(packet, offset) {
        Some((labels, next)) => {
            let text = labels_text(&labels);
            Some((text, next))
        },
        None => None,
    }
}

/// The offset just after the question section.
fn skip_question(packet: &[u8]) -> (r: Option<usize>)
    ensures
        match question_end(packet@) {
            Some(q) => r matches Some(x) && x == q,
            None => r is None,
        },
        r matches Some(q) ==> 12 <= q <= packet@.len(),
{
    if packet.len() < 12 {
        return None;
    }
    let o = match read_name_labels(packet, 12) {
        Some((_, o)) => o,
        None => return None,
    };
    if packet.len() - o < 4 {
        return None;
    }
    Some(o + 4)
}

/// The offset just after the resource record at `offset`.
fn skip_rr(packet: &[u8], offset: usize) -> (r: Option<usize>)
    ensures
        match record_at(packet@, offset as int) {
            Some(h) => r matches Some(x) && x == h.next,
            None => r is None,
        },
        r matches Some(n) ==> n <= packet@.len(),
{
    match read_record(packet, offset) {
        Some(rec) => Some(rec.next),
        None => None,
    }
}

/// The offset after skipping `count` resource records from `offset`.
fn skip_rrs(packet: &[u8], offset: usize, count: u16) -> (r: Option<usize>)
    ensures
        match skip_records(packet@, offset as int, count as nat) {
            Some(o) => r matches Some(x) && x == o,
            None => r is None,
        },
        r matches Some(n) ==> n <= packet@.len() || n == offset,
{
    let mut off = offset;
    let mut i: u16 = 0;
    while i < count
        invariant
            i <= count,
            skip_records(packet@, offset as int, count as nat) == skip_records(
                packet@,
                off as int,
                (count - i) as nat,
            ),
            i == 0 ==> off == offset,
            off <= packet@.len() || off == offset,
        decreases count - i,
    {
        match skip_rr(packet, off) {
            Some(next) => {
                assert(skip_records(packet@, off as int, (count - i) as nat) == skip_records(
                    packet@,
                    next as int,
                    (count - i - 1) as nat,
                ));
                off = next;
            },
            None => {
                return None;
            },
        }
        i = i + 1;
    }
    Some(off)
}

/// Whether `request` asks for an A record (its question's type is 1).
pub fn is_a_query(request: &[u8]) -> (r: bool)
    ensures
        r == asks_for_a(request@),
{
    let offset = match read_name_labels(request, 12) {
        Some((_, o)) => o,
        None => return false,
    };
    if request.len() - offset < 4 {
        return false;
    }
    let qtype = read_u16(request, offset);
    qtype == 1
}

/// The name (as text) and class of the question of `request`.
pub fn extract_question_name_and_class(request: &[u8]) -> (r: Option<(String, u16)>)
    ensures
        match question_of(request@) {
            Some((name, class)) => r matches Some((qname, qclass)) && qname@ == name && qclass
                == class,
            None => r is None,
        },
{
    let (qname, offset) = match read_dns_name(request, 12) {
        Some(found) => found,
        None => return None,
    };
    if request.len() - offset < 4 {
        return None;
    }
    let qclass = read_u16(request, offset + 2);
    Some((qname, qclass))
}

/// A query for `qtype`/`qclass` of `qname`, carrying the ID and the
/// recursion-desired bit of `original_request`.
pub fn build_query_request(original_request: &[u8], qname: &str, qtype: u16, qclass: u16) -> (r:
    Result<Vec<u8>, PacketError>)
    ensures
        original_request@.len() < 12 ==> r == Err::<Vec<u8>, PacketError>(
            PacketError::InvalidRequest,
        ),
        original_request@.len() >= 12 ==> match text_name_wire(qname@) {
            Some(name) => r matches Ok(v) && v@ == query_packet(
                original_request@,
                name,
                qtype,
                qclass,
            ),
            None => r == Err::<Vec<u8>, PacketError>(PacketError::LabelTooLong),
        },
        match query_for(original_request@, qname@, qtype, qclass) {
            Some(q) => r matches Ok(v) && v@ == q,
            None => r is Err,
        },
{
    if original_request.len() < 12 {
        return Err(PacketError::InvalidRequest);
    }
    let mut request: Vec<u8> = Vec::new();
    append_bytes(&mut request, &original_request[0..2]);
    request.push(original_request[2] & 0x01);
    request.push(0);
    push_u16(&mut request, 1);
    push_u16(&mut request, 0);
    push_u16(&mut request, 0);
    push_u16(&mut request, 0);
    let ghost header = request@;
    match write_dns_name(&mut request, qname) {
        Ok(()) => {},
        Err(e) => return Err(e),
    }
    push_u16(&mut request, qtype);
    push_u16(&mut request, qclass);
    proof {
        let name = text_name_wire(qname@).unwrap();
        assert(header =~= original_request@.subrange(0, 2) + seq![original_request@[2] & 1u8, 0u8]
            + seq![0u8, 1u8, 0u8, 0u8, 0u8, 0u8, 0u8, 0u8]);
        assert(request@ =~= query_packet(original_request@, name, qtype, qclass));
    }
    Ok(request)
}

/// The header of a response to `original_request`, with response code
/// `code` and `answers` answer records.
fn push_response_header(out: &mut Vec<u8>, original_request: &[u8], code: u8, answers: u16)
    requires
        original_request@.len() >= 12,
    ensures
        final(out)@ == old(out)@ + response_header(original_request@, code, answers),
{
    append_bytes(out, &original_request[0..2]);
    out.push(0x84 | (original_request[2] & 0x01));
    out.push(code);
    push_u16(out, 1);
    push_u16(out, answers);
    push_u16(out, 0);
    push_u16(out, 0);
    assert(out@ =~= old(out)@ + response_header(original_request@, code, answers));
}

/// Appends the CNAME records of `cname_answers`, each of class `qclass`.
fn push_cname_records(out: &mut Vec<u8>, cname_answers: &[CnameAnswer], qclass: u16) -> (r: Result<
    (),
    PacketError,
>)
    ensures
        match cname_records_wire(cname_answers@.map_values(|c: CnameAnswer| c@), qclass) {
            Some(w) => r is Ok && final(out)@ == old(out)@ + w,
            None => r == Err::<(), PacketError>(PacketError::LabelTooLong),
        },
{
    let ghost views = cname_answers@.map_values(|c: CnameAnswer| c@);
    let mut i: usize = 0;
    assert(views.take(0) =~= Seq::<CnameRecord>::empty());
    assert(old(out)@ + Seq::<u8>::empty() =~= old(out)@);
    while i < cname_answers.len()
        invariant
            i <= cname_answers@.len(),
            views == cname_answers@.map_values(|c: CnameAnswer| c@),
            cname_records_wire(views.take(i as int), qclass) matches Some(w) && out@ == old(out)@
                + w,
        decreases cname_answers@.len() - i,
    {
        let ghost prefix = views.take(i as int);
        let ghost next = views.take(i + 1);
        assert(next.drop_last() =~= prefix);
        let answer = &cname_answers[i];
        assert(next.last() == answer@);
        match write_dns_name(out, answer.name.as_str()) {
            Ok(()) => {},
            Err(e) => {
                assert(cname_records_wire(views, qclass) is None) by {
                    lemma_cname_records_prefix_none(views, qclass, i + 1);
                }
                return Err(e);
            },
        }
        push_u16(out, 5);
        push_u16(out, qclass);
        push_u32(out, answer.ttl);
        let mut rdata: Vec<u8> = Vec::new();
        match write_dns_name(&mut rdata, answer.target_name.as_str()) {
            Ok(()) => {},
            Err(e) => {
                assert(cname_records_wire(views, qclass) is None) by {
                    lemma_cname_records_prefix_none(views, qclass, i + 1);
                }
                return Err(e);
            },
        }
        push_u16(out, (rdata.len() % 65536) as u16);
        append_bytes(out, rdata.as_slice());
        proof {
            let w = cname_records_wire(prefix, qclass).unwrap();
            let owner = text_name_wire(answer.name@).unwrap();
            let target = text_name_wire(answer.target_name@).unwrap();
            assert(rdata@ =~= target);
            assert(out@ =~= old(out)@ + (w + owner + be16_bytes(5) + be16_bytes(qclass) + be32_bytes(
                answer.ttl,
            ) + be16_bytes((target.len() % 65536) as u16) + target));
        }
        i = i + 1;
    }
    assert(views.take(i as int) =~= views);
    Ok(())
}

/// A prefix of answers whose names cannot be written makes the whole
/// sequence unwritable.
proof fn lemma_cname_records_prefix_none(answers: Seq<CnameRecord>, qclass: u16, k: int)
    requires
        0 <= k <= answers.len(),
        cname_records_wire(answers.take(k), qclass) is None,
    ensures
        cname_records_wire(answers, qclass) is None,
    decreases answers.len() - k,
{
    if k < answers.len() {
        assert(answers.take(k + 1).drop_last() =~= answers.take(k));
        lemma_cname_records_prefix_none(answers, qclass, k + 1);
    } else {
        assert(answers.take(k) =~= answers);
    }
}

/// The response to `original_request` answering it with the CNAME chain
/// `cname_answers` followed by the A record `a_answer`, all of class
/// `qclass`; the question is copied from the request.
pub fn build_cname_chain_a_response(
    original_request: &[u8],
    qclass: u16,
    cname_answers: &[CnameAnswer],
    a_answer: &AAnswer,
) -> (r: Result<Vec<u8>, PacketError>)
    ensures
        question_end(original_request@) is None ==> r == Err::<Vec<u8>, PacketError>(
            PacketError::InvalidQuestion,
        ),
        question_end(original_request@) is Some ==> match chain_response(
            original_request@,
            qclass,
            cname_answers@.map_values(|c: CnameAnswer| c@),
            a_answer@,
        ) {
            Some(w) => r matches Ok(v) && v@ == w,
            None => r == Err::<Vec<u8>, PacketError>(PacketError::LabelTooLong),
        },
{
    let question_end = match skip_question(original_request) {
        Some(q) => q,
        None => return Err(PacketError::InvalidQuestion),
    };
    let n = cname_answers.len() % 65536;
    let answer_count = ((n + 1) % 65536) as u16;
    assert((n + 1) % 65536 == (cname_answers@.len() + 1) % 65536) by (nonlinear_arith)
        requires
            n == cname_answers@.len() % 65536,
    ;
    let mut response: Vec<u8> = Vec::new();
    push_response_header(&mut response, original_request, 0, answer_count);
    append_bytes(&mut response, &original_request[12..question_end]);
    let ghost head = response@;
    match push_cname_records(&mut response, cname_answers, qclass) {
        Ok(()) => {},
        Err(e) => return Err(e),
    }
    let ghost with_cnames = response@;
    match write_dns_name(&mut response, a_answer.name.as_str()) {
        Ok(()) => {},
        Err(e) => return Err(e),
    }
    push_u16(&mut response, 1);
    push_u16(&mut response, qclass);
    push_u32(&mut response, a_answer.ttl);
    push_u16(&mut response, 4);
    append_bytes(&mut response, &a_answer.ip);
    proof {
        let records = cname_records_wire(cname_answers@.map_values(|c: CnameAnswer| c@), qclass).unwrap();
        let owner = text_name_wire(a_answer.name@).unwrap();
        assert(response@ =~= response_header(original_request@, 0, ((cname_answers@.len() + 1) % 65536) as u16)
            + original_request@.subrange(12, question_end as int) + records + (owner + be16_bytes(1)
            + be16_bytes(qclass) + be32_bytes(a_answer.ttl) + be16_bytes(4) + a_answer.ip@));
        assert(cname_answers@.map_values(|c: CnameAnswer| c@).len() == cname_answers@.len());
    }
    Ok(response)
}

/// The SERVFAIL response to `original_request`, repeating its question.
pub fn build_servfail_response(original_request: &[u8]) -> (r: Result<Vec<u8>, PacketError>)
    ensures
        match servfail_packet(original_request@) {
            Some(w) => r matches Ok(v) && v@ == w,
            None => r == Err::<Vec<u8>, PacketError>(PacketError::InvalidQuestion),
        },
{
    let question_end = match skip_question(original_request) {
        Some(q) => q,
        None => return Err(PacketError::InvalidQuestion),
    };
    let mut response: Vec<u8> = Vec::new();
    push_response_header(&mut response, original_request, 2, 0);
    append_bytes(&mut response, &original_request[12..question_end]);
    Ok(response)
}

/// The first CNAME record of the answer section of `packet`.
pub fn extract_cname_answer(packet: &[u8]) -> (r: Option<CnameAnswer>)
    ensures
        match cname_record_of(packet@) {
            Some(c) => r matches Some(x) && x@ == c,
            None => r is None,
        },
{
    let mut offset = match skip_question(packet) {
        Some(q) => q,
        None => return None,
    };
    let ancount = read_u16(packet, 6);
    let mut i: u16 = 0;
    while i < ancount
        invariant
            i <= ancount,
            ancount == answer_count(packet@),
            cname_answer_of(packet@) == find_cname(packet@, offset as int, (ancount - i) as nat),
        decreases ancount - i,
    {
        let rec = match read_record(packet, offset) {
            Some(rec) => rec,
            None => return None,
        };
        if rec.rtype == 5 {
            let (target_name, _) = match read_dns_name(packet, rec.rdata) {
                Some(found) => found,
                None => return None,
            };
            let name = labels_text(&rec.name);
            return Some(CnameAnswer { name, target_name, ttl: rec.ttl });
        }
        assert(find_cname(packet@, offset as int, (ancount - i) as nat) == find_cname(
            packet@,
            rec.next as int,
            (ancount - i - 1) as nat,
        ));
        offset = rec.next;
        i = i + 1;
    }
    None
}

/// The first A record of class IN with four data bytes in the answer
/// section of `packet`.
pub fn extract_a_answer(packet: &[u8]) -> (r: Option<AAnswer>)
    ensures
        match a_record_of(packet@) {
            Some(a) => r matches Some(x) && x@ == a,
            None => r is None,
        },
{
    let offset = match skip_question(packet) {
        Some(q) => q,
        None => return None,
    };
    let ancount = read_u16(packet, 6);
    match find_a_record(packet, offset, ancount) {
        Some((labels, ip, ttl)) => {
            let name = labels_text(&labels);
            Some(AAnswer { name, ip, ttl })
        },
        None => None,
    }
}

/// The first A record of class IN with four data bytes among `count`
/// records from `offset`: owner labels, address, TTL.
fn find_a_record(packet: &[u8], offset: usize, count: u16) -> (r: Option<
    (Vec<Vec<u8>>, [u8; 4], u32),
>)
    ensures
        match find_a(packet@, offset as int, count as nat) {
            Some((name, ip, ttl)) => r matches Some((n, a, t)) && crate::name::byte_strings(n@)
                == name && a@ == ip && t == ttl,
            None => r is None,
        },
{
    let mut off = offset;
    let mut i: u16 = 0;
    while i < count
        invariant
            i <= count,
            find_a(packet@, offset as int, count as nat) == find_a(
                packet@,
                off as int,
                (count - i) as nat,
            ),
        decreases count - i,
    {
        let rec = match read_record(packet, off) {
            Some(rec) => rec,
            None => return None,
        };
        if rec.rtype == 1 && rec.rclass == 1 && rec.rdlength == 4 {
            let d = rec.rdata;
            let ip = [packet[d], packet[d + 1], packet[d + 2], packet[d + 3]];
            assert(ip@ =~= packet@.subrange(d as int, d + 4));
            return Some((rec.name, ip, rec.ttl));
        }
        assert(find_a(packet@, off as int, (count - i) as nat) == find_a(
            packet@,
            rec.next as int,
            (count - i - 1) as nat,
        ));
        off = rec.next;
        i = i + 1;
    }
    None
}

/// The target of the first NS record of the authority section.
fn extract_authority_ns_name(packet: &[u8]) -> (r: Option<String>)
    ensures
        match authority_ns_of(packet@) {
            Some(ns) => r matches Some(s) && s@ == name_text(ns),
            None => r is None,
        },
{
    let q = match skip_question(packet) {
        Some(q) => q,
        None => return None,
    };
    let ancount = read_u16(packet, 6);
    let nscount = read_u16(packet, 8);
    let mut offset = match skip_rrs(packet, q, ancount) {
        Some(o) => o,
        None => return None,
    };
    let mut i: u16 = 0;
    while i < nscount
        invariant
            i <= nscount,
            nscount == authority_count(packet@),
            authority_ns_of(packet@) == find_ns(packet@, offset as int, (nscount - i) as nat),
        decreases nscount - i,
    {
        let rec = match read_record(packet, offset) {
            Some(rec) => rec,
            None => return None,
        };
        if rec.rtype == 2 {
            let (ns_name, _) = match read_dns_name(packet, rec.rdata) {
                Some(found) => found,
                None => return None,
            };
            return Some(ns_name);
        }
        assert(find_ns(packet@, offset as int, (nscount - i) as nat) == find_ns(
            packet@,
            rec.next as int,
            (nscount - i - 1) as nat,
        ));
        offset = rec.next;
        i = i + 1;
    }
    None
}

/// The owner (as text) and address of the first A record of the additional
/// section.
fn extract_additional_a_record(packet: &[u8]) -> (r: Option<(String, [u8; 4])>)
    ensures
        match additional_a_of(packet@) {
            Some((name, ip)) => r matches Some((s, a)) && s@ == name_text(name) && a@ == ip,
            None => r is None,
        },
{
    let q = match skip_question(packet) {
        Some(q) => q,
        None => return None,
    };
    let ancount = read_u16(packet, 6);
    let nscount = read_u16(packet, 8);
    let arcount = read_u16(packet, 10);
    let o1 = match skip_rrs(packet, q, ancount) {
        Some(o) => o,
        None => return None,
    };
    let o2 = match skip_rrs(packet, o1, nscount) {
        Some(o) => o,
        None => return None,
    };
    match find_a_record(packet, o2, arcount) {
        Some((labels, ip, _)) => {
            let name = labels_text(&labels);
            Some((name, ip))
        },
        None => None,
    }
}

/// The text of a glue address: `a.b.c.d:33053`.
fn glue_address(ip: [u8; 4]) -> (r: String)
    ensures
        r@ == glue_address_text(ip@),
{
    proof {
        reveal_strlit(".");
        reveal_strlit(":33053");
    }
    let mut r = decimal_string(ip[0]);
    r.append(".");
    r.append(decimal_string(ip[1]).as_str());
    r.append(".");
    r.append(decimal_string(ip[2]).as_str());
    r.append(".");
    r.append(decimal_string(ip[3]).as_str());
    r.append(":33053");
    r
}

/// The address of the delegated server to ask next, taken only from glue
/// whose owner is the NS name of the authority section.
pub fn extract_trusted_glue_address(response: &[u8]) -> (r: Option<String>)
    ensures
        match trusted_glue_of(response@) {
            Some(addr) => r matches Some(s) && s@ == addr,
            None => r is None,
        },
{
    let ns_name = match extract_authority_ns_name(response) {
        Some(n) => n,
        None => return None,
    };
    let (glue_name, glue_ip) = match extract_additional_a_record(response) {
        Some(found) => found,
        None => return None,
    };
    if ns_name != glue_name {
        return None;
    }
    Some(glue_address(glue_ip))
}

/// The cached `response` with its ID replaced by the ID of `request`.
pub fn replace_response_id(response: Vec<u8>, request: &[u8]) -> (r: Vec<u8>)
    requires
        response@.len() >= 2,
        request@.len() >= 2,
    ensures
        r@ == response@.update(0, request@[0]).update(1, request@[1]),
{
    let mut response = response;
    response.set(0, request[0]);
    response.set(1, request[1]);
    response
}

/// Whether `response` is a referral: no error, no answers, and some
/// authority records.
pub fn is_referral_response(response: &[u8]) -> (r: bool)
    ensures
        r == referral(response@),
{
    if response.len() < 12 {
        return false;
    }
    let code = response[3] & 0x0f;
    let ancount = read_u16(response, 6);
    let nscount = read_u16(response, 8);
    code == 0 && ancount == 0 && nscount > 0
}

/// Whether `response` carries NXDOMAIN.
pub fn is_nxdomain_response(response: &[u8]) -> (r: bool)
    ensures
        r == nxdomain(response@),
{
    if response.len() < 4 {
        return false;
    }
    let code = response[3] & 0x0f;
    code == 3
}

/// Whether `response` is NODATA: no error, no answers and no authority
/// records.
pub fn is_nodata_response(response: &[u8]) -> (r: bool)
    ensures
        r == nodata(response@),
{
    if response.len() < 12 {
        return false;
    }
    let code = response[3] & 0x0f;
    let ancount = read_u16(response, 6);
    let nscount = read_u16(response, 8);
    code == 0 && ancount == 0 && nscount == 0
}

/// Where the first answer record of `packet` starts.
pub fn find_answer_offset(packet: &[u8]) -> (r: Option<usize>)
    ensures
        match answer_offset(packet@) {
            Some(a) => r matches Some(x) && x == a,
            None => r is None,
        },
        r matches Some(x) ==> x <= packet@.len(),
        packet@.len() < 12 || answer_count(packet@) == 0 ==> r is None,
        packet@.len() >= 12 && answer_count(packet@) != 0 && no_pointer(packet@, 12) ==> match question_end(
            packet@,
        ) {
            Some(q) => r matches Some(x) && x == q,
            None => r is None,
        },
{
    proof {
        lemma_answer_offset_is_question_end(packet@);
    }
    if packet.len() < 12 {
        return None;
    }
    let ancount = read_u16(packet, 6);
    if ancount == 0 {
        return None;
    }
    let offset = match read_plain_labels(packet, 12) {
        Some((_, o)) => o,
        None => return None,
    };
    if packet.len() - offset < 4 {
        return None;
    }
    Some(offset + 4)
}

/// Where the TTL of the first answer record of `response` lies.
fn find_answer_ttl(response: &[u8]) -> (r: Option<usize>)
    ensures
        match answer_ttl_at(response@) {
            Some(t) => r matches Some(x) && x == t,
            None => r is None,
        },
        r matches Some(t) ==> t + 4 <= response@.len(),
{
    let answer_offset = match find_answer_offset(response) {
        Some(a) => a,
        None => return None,
    };
    let owner_end = match skip_name(response, answer_offset) {
        Some(e) => e,
        None => return None,
    };
    proof {
        lemma_name_end_bounds(response@, answer_offset as int);
    }
    if response.len() - owner_end < 10 {
        return None;
    }
    Some(owner_end + 4)
}

/// The TTL of the first answer record of `response`.
pub fn extract_answer_ttl(response: &[u8]) -> (r: Option<u32>)
    ensures
        r == answer_ttl(response@),
{
    match find_answer_ttl(response) {
        Some(t) => Some(read_u32(response, t)),
        None => None,
    }
}

/// `response` with the TTL of its first answer record set to `ttl`.
pub fn replace_answer_ttl(response: Vec<u8>, ttl: u32) -> (r: Vec<u8>)
    ensures
        r@ == with_answer_ttl(response@, ttl),
{
    let mut response = response;
    if let Some(t) = find_answer_ttl(response.as_slice()) {
        let ghost before = response@;
        let n = response.len();
        assert(t + 4 <= n);
        let t1: usize = t + 1;
        let t2: usize = t + 2;
        let t3: usize = t + 3;
        response.set(t, (ttl / 16777216) as u8);
        response.set(t1, ((ttl / 65536) % 256) as u8);
        response.set(t2, ((ttl / 256) % 256) as u8);
        response.set(t3, (ttl % 256) as u8);
        assert(response@ =~= before.take(t as int) + be32_bytes(ttl) + before.skip(t + 4));
    }
    response
}

/// Whether the TC (truncated) bit of `response` is set.
pub fn is_truncated_response(response: &[u8]) -> (r: bool)
    ensures
        r == truncated(response@),
{
    if response.len() < 4 {
        return false;
    }
    response[2] & 0x02 != 0
}

/// A plain name read from `p` is read alike from any packet of the same
/// length that agrees with `p` on the bytes from `lo` up to `hi`, where the
/// name lies.
pub proof fn lemma_plain_name_agree(p: Seq<u8>, p2: Seq<u8>, off: int, lo: int, hi: int)
    requires
        p.len() == p2.len(),
        lo <= off,
        forall|i: int| lo <= i < hi ==> p[i] == p2[i],
        plain_name(p, off) matches Some((_, e)) && e <= hi,
    ensures
        plain_name(p2, off) == plain_name(p, off),
    decreases p.len() - off,
{
    lemma_plain_name_bounds(p, off);
    let len = p[off] as int;
    assert(p2[off] == p[off]);
    if len != 0 {
        let next = off + 1 + len;
        lemma_plain_name_bounds(p, next);
        lemma_plain_name_agree(p, p2, next, lo, hi);
        assert(p.subrange(off + 1, next) =~= p2.subrange(off + 1, next));
    }
}

/// A query built for a name, a type and a class asks exactly that: its
/// question reads back as the name (its text without trailing dots,
/// lower-cased), the type and the class, and the question section ends the query. This
/// holds whenever every label of the name is non-empty and at most 63
/// bytes long.
pub proof fn lemma_query_roundtrip(original: Seq<u8>, name: Seq<char>, qtype: u16, qclass: u16)
    requires
        original.len() >= 12,
        labels_writable(split_dots(trim_end_dots(encode_utf8(name)))),
    ensures
        query_for(original, name, qtype, qclass) matches Some(q) && question_of(q) == Some(
            (read_back_text(name), qclass),
        ) && asks_for_a(q) == (qtype == 1) && question_end(q) == Some(q.len() as int)
            && q.subrange(0, 2) == original.subrange(0, 2),
{
    lemma_name_text_of_labels(name);
    let ls = split_dots(trim_end_dots(encode_utf8(name)));
    let w = label_wire(ls) + seq![0u8];
    assert(labels_fit(ls));
    let q = query_packet(original, w, qtype, qclass);
    let o: int = 12 + w.len() as int;
    assert(q.subrange(12, o) =~= w);
    lemma_read_written_name(q, 12, ls);
    assert(q.subrange(o, o + 2) =~= be16_bytes(qtype));
    assert(q.subrange(o + 2, o + 4) =~= be16_bytes(qclass));
    lemma_be16_roundtrip(q, o, qtype);
    lemma_be16_roundtrip(q, o + 2, qclass);
    assert(q.subrange(0, 2) =~= original.subrange(0, 2));
}

/// Rewriting the TTL of the first answer and then reading it gives the TTL
/// written, and no byte but the four of that TTL changes; a response
/// without such an answer is left as it is.
pub proof fn lemma_answer_ttl_after_rewrite(p: Seq<u8>, ttl: u32)
    ensures
        answer_ttl(p) is None ==> with_answer_ttl(p, ttl) == p,
        answer_ttl_at(p) matches Some(t) ==> forall|i: int|
            0 <= i < p.len() && !(t <= i < t + 4) ==> #[trigger] with_answer_ttl(p, ttl)[i] == p[i],
        answer_ttl(with_answer_ttl(p, ttl)) == match answer_ttl(p) {
            Some(_) => Some(ttl),
            None => None,
        },
        with_answer_ttl(p, ttl).len() == p.len(),
        referral(with_answer_ttl(p, ttl)) == referral(p),
        nxdomain(with_answer_ttl(p, ttl)) == nxdomain(p),
        nodata(with_answer_ttl(p, ttl)) == nodata(p),
{
    match answer_ttl_at(p) {
        Some(t) => {
            let a = answer_offset(p).unwrap();
            let p2 = with_answer_ttl(p, ttl);
            lemma_plain_name_bounds(p, 12);
            lemma_name_end_bounds(p, a);
            assert(p2.len() == p.len());
            assert(forall|i: int| 0 <= i < t ==> p2[i] == p[i]);
            lemma_plain_name_agree(p, p2, 12, 0, t);
            assert(answer_offset(p2) == Some(a));
            lemma_name_end_agree(p, p2, a, t);
            assert(answer_ttl_at(p2) == Some(t));
            assert(p2.subrange(t, t + 4) =~= be32_bytes(ttl));
            lemma_be32_roundtrip(p2, t, ttl);
        },
        None => {},
    }
}

/// Replacing the ID of a response changes nothing else that is read from
/// it: its TTL, its kind, and its length.
pub proof fn lemma_id_rewrite_keeps_reading(p: Seq<u8>, b0: u8, b1: u8)
    requires
        p.len() >= 2,
    ensures
        ({
            let p2 = p.update(0, b0).update(1, b1);
            &&& answer_ttl(p2) == answer_ttl(p)
            &&& referral(p2) == referral(p)
            &&& nxdomain(p2) == nxdomain(p)
            &&& nodata(p2) == nodata(p)
            &&& truncated(p2) == truncated(p)
            &&& p2.len() == p.len()
        }),
{
    let p2 = p.update(0, b0).update(1, b1);
    lemma_plain_name_bounds(p, 12);
    lemma_plain_name_bounds(p2, 12);
    if p.len() >= 12 {
        if let Some((_, e)) = plain_name(p, 12) {
            lemma_plain_name_agree(p, p2, 12, 2, p.len() as int);
        }
        if let Some((_, e)) = plain_name(p2, 12) {
            lemma_plain_name_agree(p2, p, 12, 2, p.len() as int);
        }
        if let Some(a) = answer_offset(p) {
            assert(answer_offset(p2) == Some(a));
            lemma_name_end_bounds(p, a);
            lemma_name_end_bounds(p2, a);
            if name_end(p, a) is Some {
                lemma_name_end_agree(p, p2, a, p.len() as int);
            }
            if name_end(p2, a) is Some {
                lemma_name_end_agree(p2, p, a, p.len() as int);
            }
            if let Some(t) = answer_ttl_at(p) {
                assert(p2[t] == p[t] && p2[t + 1] == p[t + 1] && p2[t + 2] == p[t + 2] && p2[t + 3]
                    == p[t + 3]);
            }
        }
    }
}

/// A response is of at most one kind: a referral, NXDOMAIN or NODATA.
pub proof fn lemma_response_kinds_exclusive(p: Seq<u8>)
    ensures
        !(referral(p) && nxdomain(p)),
        !(referral(p) && nodata(p)),
        !(nxdomain(p) && nodata(p)),
{
}

/// The SERVFAIL response to a request carries the request's ID, the
/// response code 2, one question and no records, and repeats the question
/// section; it is neither a referral, nor NXDOMAIN, nor NODATA.
pub proof fn lemma_servfail_shape(request: Seq<u8>)
    requires
        question_end(request) is Some,
    ensures
        servfail_packet(request) matches Some(p) && {
            let q = question_end(request).unwrap();
            &&& p.len() == q
            &&& p.subrange(0, 2) == request.subrange(0, 2)
            &&& rcode(p) == 2
            &&& be16(p, 4) == 1
            &&& answer_count(p) == 0
            &&& authority_count(p) == 0
            &&& additional_count(p) == 0
            &&& p.subrange(12, q) == request.subrange(12, q)
            &&& !referral(p) && !nxdomain(p) && !nodata(p)
        },
{
    lemma_read_name_bounds(request, 12);
    let q = question_end(request).unwrap();
    let p = servfail_packet(request).unwrap();
    assert(p.subrange(0, 2) =~= request.subrange(0, 2));
    assert(p.subrange(12, q) =~= request.subrange(12, q));
    assert(p[3] == 2u8);
    assert(2u8 & 15u8 == 2u8) by (bit_vector);
}

/// A cached response served to a new request carries the new request's ID
/// and the remaining TTL: replacing the ID and then the TTL of the first
/// answer gives a response whose first two bytes are the request's and
/// whose answer TTL reads back as the TTL written (where the cached
/// response had an answer TTL at all), of the same kind and length.
pub proof fn lemma_cache_hit_response(p: Seq<u8>, request: Seq<u8>, ttl: u32)
    requires
        p.len() >= 2,
        request.len() >= 2,
    ensures
        ({
            let served = with_answer_ttl(p.update(0, request[0]).update(1, request[1]), ttl);
            &&& served.len() == p.len()
            &&& served[0] == request[0] && served[1] == request[1]
            &&& answer_ttl(served) == match answer_ttl(p) {
                Some(_) => Some(ttl),
                None => None,
            }
            &&& nxdomain(served) == nxdomain(p)
            &&& nodata(served) == nodata(p)
            &&& referral(served) == referral(p)
        }),
{
    let p1 = p.update(0, request[0]).update(1, request[1]);
    lemma_id_rewrite_keeps_reading(p, request[0], request[1]);
    lemma_answer_ttl_after_rewrite(p1, ttl);
    lemma_answer_ttl_at_bounds(p1);
}

/// Every response the resolver builds (SERVFAIL or a CNAME chain) is
/// marked as a response (QR) and as authoritative (AA), keeps the request's
/// recursion-desired bit (RD), does not claim recursion available (RA),
/// and carries the request's ID and one question.
pub proof fn lemma_response_header_flags(original: Seq<u8>, code: u8, answers: u16)
    requires
        original.len() >= 12,
        code < 16,
    ensures
        ({
            let h = response_header(original, code, answers);
            &&& h.len() == 12
            &&& h.subrange(0, 2) == original.subrange(0, 2)
            &&& h[2] & 0x80u8 == 0x80u8
            &&& h[2] & 0x04u8 == 0x04u8
            &&& h[2] & 1u8 == original[2] & 1u8
            &&& h[3] & 0x80u8 == 0
            &&& rcode(h) == code
            &&& be16(h, 4) == 1
            &&& answer_count(h) == answers
            &&& authority_count(h) == 0
            &&& additional_count(h) == 0
        }),
{
    let h = response_header(original, code, answers);
    let rd = original[2];
    assert(h.subrange(0, 2) =~= original.subrange(0, 2));
    assert(h[2] == 0x84u8 | (rd & 1u8));
    assert(h[3] == code);
    assert((0x84u8 | (rd & 1u8)) & 0x80u8 == 0x80u8) by (bit_vector);
    assert((0x84u8 | (rd & 1u8)) & 0x04u8 == 0x04u8) by (bit_vector);
    assert((0x84u8 | (rd & 1u8)) & 1u8 == rd & 1u8) by (bit_vector);
    assert(code & 0x80u8 == 0 && code & 15u8 == code) by (bit_vector)
        requires
            code < 16,
    ;
    assert(h.subrange(6, 8) =~= be16_bytes(answers));
    lemma_be16_roundtrip(h, 6, answers);
}

/// Glue is trusted only from an A record of the additional section whose
/// owner is the name of the NS record of the authority section.
pub proof fn lemma_glue_only_from_ns_owner(p: Seq<u8>)
    ensures
        trusted_glue_of(p) is Some ==> (authority_ns_of(p) matches Some(ns) && additional_a_of(p)
            matches Some((owner, ip)) && name_text(ns) == name_text(owner) && trusted_glue_of(p)
            == Some(glue_address_text(ip))),
{
}

/// Where the first answer starts, as found by skipping the question name
/// without following pointers, is where the question section ends, when
/// the question name has no length byte of 192 or more; without a header
/// or without answers there is no answer offset.
pub proof fn lemma_answer_offset_is_question_end(p: Seq<u8>)
    ensures
        p.len() < 12 || answer_count(p) == 0 ==> answer_offset(p) is None,
        p.len() >= 12 && answer_count(p) != 0 && no_pointer(p, 12) ==> answer_offset(p)
            == question_end(p),
{
    if p.len() >= 12 && no_pointer(p, 12) {
        lemma_read_plain(p, 12);
    }
}

/// The question is read (name and class) exactly when the question section
/// can be skipped.
pub proof fn lemma_question_iff_question_end(p: Seq<u8>)
    ensures
        question_of(p) is Some <==> question_end(p) is Some,
{
    if p.len() < 12 {
        assert(walk_name(p, 12, (p.len() + 1) as nat) is None);
    }
}

} // verus!
