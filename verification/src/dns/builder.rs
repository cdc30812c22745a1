//! Building an authoritative-style answer to a request from a table of
//! address records.
use vstd::prelude::*;
use vstd::utf8::encode_utf8;

use crate::name::{encode_split, label_wire, split_dots};
use crate::dns::parser::DnsRequest;
use crate::wire::{append_bytes, be16_bytes, push_u16};

verus! {

/// The address answered for names the table does not hold: 10.0.100.1.
pub open spec fn default_address() -> Seq<u8> {
    seq![10u8, 0u8, 100u8, 1u8]
}

/// The address recorded for `name`: the first entry whose name equals it
/// (the only one, in a table whose names are distinct).
pub open spec fn lookup_address(records: Seq<(String, [u8; 4])>, name: Seq<char>) -> Option<Seq<u8>>
    decreases records.len(),
{
    if records.len() == 0 {
        None
    } else if records[0].0@ == name {
        Some(records[0].1@)
    } else {
        lookup_address(records.drop_first(), name)
    }
}

/// Whether no two entries of `records` have the same name, as in a table
/// built from a map.
pub open spec fn distinct_names(records: Seq<(String, [u8; 4])>) -> bool {
    forall|i: int, j: int|
        0 <= i < j < records.len() ==> #[trigger] records[i].0@ != #[trigger] records[j].0@
}

/// A table whose names are distinct answers a name as a map would: with
/// the address of the entry that has the name, whatever its place, and with
/// nothing for a name that no entry has.
pub proof fn lemma_lookup_as_map(records: Seq<(String, [u8; 4])>, name: Seq<char>)
    requires
        distinct_names(records),
    ensures
        forall|i: int|
            0 <= i < records.len() && #[trigger] records[i].0@ == name ==> lookup_address(
                records,
                name,
            ) == Some(records[i].1@),
        (forall|i: int| 0 <= i < records.len() ==> #[trigger] records[i].0@ != name)
            ==> lookup_address(records, name) is None,
    decreases records.len(),
{
    if records.len() > 0 {
        let rest = records.drop_first();
        assert forall|i: int, j: int| 0 <= i < j < rest.len() implies #[trigger] rest[i].0@
            != #[trigger] rest[j].0@ by {
            assert(rest[i] == records[i + 1] && rest[j] == records[j + 1]);
        }
        lemma_lookup_as_map(rest, name);
        assert forall|i: int|
            0 <= i < records.len() && #[trigger] records[i].0@ == name implies lookup_address(
                records,
                name,
            ) == Some(records[i].1@) by {
            if i > 0 {
                assert(records[0].0@ != records[i].0@);
                assert(rest[i - 1] == records[i]);
            }
        }
        if forall|i: int| 0 <= i < records.len() ==> #[trigger] records[i].0@ != name {
            assert forall|i: int| 0 <= i < rest.len() implies #[trigger] rest[i].0@ != name by {
                assert(rest[i] == records[i + 1]);
            }
            assert(records[0].0@ != name);
        }
    }
}

/// A dotted name in wire form without any check: every piece between dots
/// (trailing dots included) becomes a label whose length byte is its length
/// modulo 256, and a zero byte ends the name.
pub open spec fn qname_wire(b: Seq<u8>) -> Seq<u8> {
    label_wire(split_dots(b)) + seq![0u8]
}

/// The answer to `request` with address `ip`: the request's ID, flags
/// 0x8180, one question and one answer; the question repeated; then an A
/// record for the question name (a pointer to offset 12) of class IN with
/// TTL 60.
pub open spec fn answer_packet(request: DnsRequest, ip: Seq<u8>) -> Seq<u8> {
    be16_bytes(request.header.id) + seq![0x81u8, 0x80u8, 0u8, 1u8, 0u8, 1u8, 0u8, 0u8, 0u8, 0u8]
        + qname_wire(encode_utf8(request.question.qname@)) + be16_bytes(request.question.qtype)
        + be16_bytes(request.question.qclass) + seq![
        0xc0u8,
        0x0cu8,
        0u8,
        1u8,
        0u8,
        1u8,
        0u8,
        0u8,
        0u8,
        0x3cu8,
        0u8,
        4u8,
    ] + ip
}

/// Appends `qname` in wire form, every piece between dots as a label.
pub fn write_qname(response: &mut Vec<u8>, qname: &str)
    ensures
        final(response)@ == old(response)@ + qname_wire(encode_utf8(qname@)),
{
    let bytes = qname.as_bytes();
    let (wire, _) = encode_split(bytes, bytes.len());
    assert(bytes@.take(bytes@.len() as int) =~= bytes@);
    append_bytes(response, wire.as_slice());
    response.push(0);
    assert(response@ =~= old(response)@ + qname_wire(encode_utf8(qname@)));
}

/// The address recorded for `name` in `records`.
fn lookup(records: &[(String, [u8; 4])], name: &String) -> (r: Option<[u8; 4]>)
    ensures
        match lookup_address(records@, name@) {
            Some(ip) => r matches Some(a) && a@ == ip,
            None => r is None,
        },
{
    let mut i: usize = 0;
    assert(records@.skip(0) =~= records@);
    while i < records.len()
        invariant
            i <= records@.len(),
            lookup_address(records@, name@) == lookup_address(records@.skip(i as int), name@),
        decreases records@.len() - i,
    {
        assert(records@.skip(i as int)[0] == records@[i as int]);
        if records[i].0 == *name {
            return Some(records[i].1);
        }
        assert(records@.skip(i as int).drop_first() =~= records@.skip(i + 1));
        i = i + 1;
    }
    assert(records@.skip(i as int).len() == 0);
    None
}

/// The answer to `parsed`, giving the address recorded for its name in
/// `records`, or 10.0.100.1 for a name without a record.
pub fn build_response(parsed: &DnsRequest, records: &[(String, [u8; 4])]) -> (r: Vec<u8>)
    ensures
        r@ == answer_packet(
            *parsed,
            match lookup_address(records@, parsed.question.qname@) {
                Some(ip) => ip,
                None => default_address(),
            },
        ),
{
    let ip: [u8; 4] = match lookup(records, &parsed.question.qname) {
        Some(a) => a,
        None => {
            let d = [10u8, 0u8, 100u8, 1u8];
            assert(d@ =~= default_address());
            d
        },
    };
    let mut response: Vec<u8> = Vec::new();
    push_u16(&mut response, parsed.header.id);
    response.push(0x81);
    response.push(0x80);
    push_u16(&mut response, 1);
    push_u16(&mut response, 1);
    push_u16(&mut response, 0);
    push_u16(&mut response, 0);
    write_qname(&mut response, parsed.question.qname.as_str());
    push_u16(&mut response, parsed.question.qtype);
    push_u16(&mut response, parsed.question.qclass);
    response.push(0xc0);
    response.push(0x0c);
    push_u16(&mut response, 1);
    push_u16(&mut response, 1);
    response.push(0x00);
    response.push(0x00);
    response.push(0x00);
    response.push(0x3c);
    push_u16(&mut response, 4);
    append_bytes(&mut response, &ip);
    assert(response@ =~= answer_packet(*parsed, ip@));
    response
}

} // verus!
