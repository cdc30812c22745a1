//! What the responses the resolver builds read back as: the records of a
//! CNAME-chain response are found again by the answer readers.
use vstd::prelude::*;
use vstd::utf8::encode_utf8;

use crate::dns_packet::{
    a_record_of, a_record_wire, answer_count, answer_offset, answer_ttl,
    lemma_answer_offset_is_question_end, chain_response, cname_record_of,
    cname_record_wire, cname_records_wire, find_a, question_end, record_at,
    response_header, text_name_wire, ARecord, CnameRecord, RecordHead,
};
use crate::name::{
    dotted_labels, labels_fit, labels_writable, lemma_no_pointer_agree, lemma_plain_name_bounds,
    lemma_read_name_bounds, lemma_read_plain, lemma_read_written_name, name_end, no_pointer,
    read_name,
};
use crate::text::{lemma_name_text_of_labels, read_back_text};
use crate::wire::{be16_bytes, be32_bytes, lemma_be16_roundtrip, lemma_be32_roundtrip};

verus! {

/// Whether a dotted name can be written and read back: every label is
/// non-empty and at most 63 bytes long.
pub open spec fn writable_name(name: Seq<char>) -> bool {
    labels_writable(dotted_labels(encode_utf8(name)))
}

/// Whether a CNAME record can be written and read back: both names are
/// writable, and the target's wire form fits the 16-bit data length.
pub open spec fn cname_writable(c: CnameRecord) -> bool {
    &&& writable_name(c.name)
    &&& writable_name(c.target)
    &&& text_name_wire(c.target).unwrap().len() < 65536
}

/// A packet holding `x + y` at `off` holds `x` there and `y` right after it.
proof fn lemma_split_at(p: Seq<u8>, off: int, x: Seq<u8>, y: Seq<u8>)
    requires
        0 <= off,
        off + x.len() + y.len() <= p.len(),
        p.subrange(off, off + x.len() + y.len()) == x + y,
    ensures
        p.subrange(off, off + x.len()) == x,
        p.subrange(off + x.len(), off + x.len() + y.len()) == y,
{
    let whole = p.subrange(off, off + x.len() + y.len());
    assert forall|k: int| 0 <= k < x.len() implies p.subrange(off, off + x.len())[k] == x[k] by {
        assert(whole[k] == (x + y)[k]);
    }
    assert forall|k: int| 0 <= k < y.len() implies p.subrange(
        off + x.len(),
        off + x.len() + y.len(),
    )[k] == y[k] by {
        assert(whole[x.len() + k] == (x + y)[x.len() + k]);
    }
    assert(p.subrange(off, off + x.len()) =~= x);
    assert(p.subrange(off + x.len(), off + x.len() + y.len()) =~= y);
}

/// A CNAME record written at `off` is read there as its owner, type 5, the
/// class and TTL written, and its target.
proof fn lemma_cname_record_at(p: Seq<u8>, off: int, c: CnameRecord, qclass: u16)
    requires
        0 <= off,
        cname_writable(c),
        cname_record_wire(c, qclass) matches Some(rec) && off + rec.len() <= p.len() && p.subrange(
            off,
            off + rec.len(),
        ) == rec,
    ensures
        ({
            let ow = text_name_wire(c.name).unwrap();
            let tw = text_name_wire(c.target).unwrap();
            let rd = off + ow.len() + 10;
            &&& record_at(p, off) == Some(
                RecordHead {
                    name: dotted_labels(encode_utf8(c.name)),
                    rtype: 5,
                    rclass: qclass,
                    ttl: c.ttl,
                    rdlength: tw.len() as u16,
                    rdata: rd,
                    next: rd + tw.len(),
                },
            )
            &&& read_name(p, rd) == Some((dotted_labels(encode_utf8(c.target)), rd + tw.len()))
            &&& rd + tw.len() == off + cname_record_wire(c, qclass).unwrap().len()
            &&& name_end(p, off) == Some(off + ow.len())
        }),
{
    let ow = text_name_wire(c.name).unwrap();
    let tw = text_name_wire(c.target).unwrap();
    let o = off + ow.len();
    let rd = o + 10;
    let a1 = ow + be16_bytes(5);
    let a2 = a1 + be16_bytes(qclass);
    let a3 = a2 + be32_bytes(c.ttl);
    let a4 = a3 + be16_bytes((tw.len() % 65536) as u16);
    lemma_split_at(p, off, a4, tw);
    lemma_split_at(p, off, a3, be16_bytes((tw.len() % 65536) as u16));
    lemma_split_at(p, off, a2, be32_bytes(c.ttl));
    lemma_split_at(p, off, a1, be16_bytes(qclass));
    lemma_split_at(p, off, ow, be16_bytes(5));
    lemma_read_written_name(p, off, dotted_labels(encode_utf8(c.name)));
    lemma_read_written_name(p, rd, dotted_labels(encode_utf8(c.target)));
    lemma_be16_roundtrip(p, o, 5);
    lemma_be16_roundtrip(p, o + 2, qclass);
    lemma_be32_roundtrip(p, o + 4, c.ttl);
    lemma_be16_roundtrip(p, o + 8, (tw.len() % 65536) as u16);
    assert(tw.len() % 65536 == tw.len());
}

/// An A record written at `off` is read there as its owner, type 1, the
/// class and TTL written, four data bytes, and its address.
proof fn lemma_a_record_at(p: Seq<u8>, off: int, a: ARecord, qclass: u16)
    requires
        0 <= off,
        writable_name(a.name),
        a.ip.len() == 4,
        a_record_wire(a, qclass) matches Some(rec) && off + rec.len() <= p.len() && p.subrange(
            off,
            off + rec.len(),
        ) == rec,
    ensures
        ({
            let ow = text_name_wire(a.name).unwrap();
            let rd = off + ow.len() + 10;
            &&& record_at(p, off) == Some(
                RecordHead {
                    name: dotted_labels(encode_utf8(a.name)),
                    rtype: 1,
                    rclass: qclass,
                    ttl: a.ttl,
                    rdlength: 4,
                    rdata: rd,
                    next: rd + 4,
                },
            )
            &&& p.subrange(rd, rd + 4) == a.ip
            &&& name_end(p, off) == Some(off + ow.len())
        }),
{
    let ow = text_name_wire(a.name).unwrap();
    let o = off + ow.len();
    let rd = o + 10;
    let a1 = ow + be16_bytes(1);
    let a2 = a1 + be16_bytes(qclass);
    let a3 = a2 + be32_bytes(a.ttl);
    let a4 = a3 + be16_bytes(4);
    lemma_split_at(p, off, a4, a.ip);
    lemma_split_at(p, off, a3, be16_bytes(4));
    lemma_split_at(p, off, a2, be32_bytes(a.ttl));
    lemma_split_at(p, off, a1, be16_bytes(qclass));
    lemma_split_at(p, off, ow, be16_bytes(1));
    lemma_read_written_name(p, off, dotted_labels(encode_utf8(a.name)));
    lemma_be16_roundtrip(p, o, 1);
    lemma_be16_roundtrip(p, o + 2, qclass);
    lemma_be32_roundtrip(p, o + 4, a.ttl);
    lemma_be16_roundtrip(p, o + 8, 4);
}

/// The CNAME records in wire form are the first record's, then the rest's.
proof fn lemma_cname_records_front(cs: Seq<CnameRecord>, qclass: u16)
    requires
        cs.len() > 0,
        forall|i: int| 0 <= i < cs.len() ==> (#[trigger] cname_record_wire(cs[i], qclass)) is Some,
    ensures
        cname_records_wire(cs, qclass) is Some,
        cname_records_wire(cs.drop_first(), qclass) is Some,
        cname_records_wire(cs, qclass).unwrap() == cname_record_wire(cs[0], qclass).unwrap()
            + cname_records_wire(cs.drop_first(), qclass).unwrap(),
    decreases cs.len(),
{
    if cs.len() == 1 {
        assert(cs.drop_last() =~= Seq::<CnameRecord>::empty());
        assert(cs.drop_first() =~= Seq::<CnameRecord>::empty());
        assert(cname_record_wire(cs.last(), qclass) is Some);
        let r0 = cname_record_wire(cs[0], qclass).unwrap();
        assert(Seq::<u8>::empty() + r0 =~= r0 + Seq::<u8>::empty());
    } else {
        let dl = cs.drop_last();
        assert forall|i: int| 0 <= i < dl.len() implies (#[trigger] cname_record_wire(dl[i], qclass))
            is Some by {
            assert(dl[i] == cs[i]);
        }
        lemma_cname_records_front(dl, qclass);
        assert(dl.drop_first() =~= cs.drop_first().drop_last());
        assert(cs.drop_first().last() == cs.last());
        assert(dl[0] == cs[0]);
        assert(cname_record_wire(cs.last(), qclass) is Some);
        let r0 = cname_record_wire(cs[0], qclass).unwrap();
        let mid = cname_records_wire(dl.drop_first(), qclass).unwrap();
        let rl = cname_record_wire(cs.last(), qclass).unwrap();
        assert(r0 + mid + rl =~= r0 + (mid + rl));
    }
}

/// Every writable CNAME record can be written.
proof fn lemma_writable_records(cs: Seq<CnameRecord>, qclass: u16)
    requires
        forall|i: int| 0 <= i < cs.len() ==> cname_writable(#[trigger] cs[i]),
    ensures
        forall|i: int| 0 <= i < cs.len() ==> (#[trigger] cname_record_wire(cs[i], qclass)) is Some,
{
    assert forall|i: int| 0 <= i < cs.len() implies (#[trigger] cname_record_wire(cs[i], qclass))
        is Some by {
        assert(cname_writable(cs[i]));
        assert(labels_fit(dotted_labels(encode_utf8(cs[i].name))));
        assert(labels_fit(dotted_labels(encode_utf8(cs[i].target))));
    }
}

/// Looking for an A record past a record that is not one moves on to the
/// next record.
proof fn lemma_find_a_step(p: Seq<u8>, off: int, n: nat)
    requires
        n > 0,
        record_at(p, off) matches Some(h) && h.rtype != 1,
    ensures
        find_a(p, off, n) == find_a(p, record_at(p, off).unwrap().next, (n - 1) as nat),
{
}

/// The CNAME records in wire form are the first record's, then the rest's,
/// each laid down in the packet where the whole is.
proof fn lemma_cnames_in_packet(p: Seq<u8>, off: int, cs: Seq<CnameRecord>, qclass: u16)
    requires
        0 <= off,
        cs.len() > 0,
        forall|i: int| 0 <= i < cs.len() ==> cname_writable(#[trigger] cs[i]),
        cname_records_wire(cs, qclass) matches Some(r) && off + r.len() <= p.len() && p.subrange(
            off,
            off + r.len(),
        ) == r,
    ensures
        cname_record_wire(cs[0], qclass) matches Some(r0) && cname_records_wire(
            cs.drop_first(),
            qclass,
        ) matches Some(rest) && p.subrange(off, off + r0.len()) == r0 && p.subrange(
            off + r0.len(),
            off + r0.len() + rest.len(),
        ) == rest && cname_records_wire(cs, qclass).unwrap().len() == r0.len() + rest.len(),
        forall|i: int|
            0 <= i < cs.drop_first().len() ==> cname_writable(#[trigger] cs.drop_first()[i]),
{
    lemma_writable_records(cs, qclass);
    lemma_cname_records_front(cs, qclass);
    let r0 = cname_record_wire(cs[0], qclass).unwrap();
    let rest = cname_records_wire(cs.drop_first(), qclass).unwrap();
    lemma_split_at(p, off, r0, rest);
    assert forall|i: int| 0 <= i < cs.drop_first().len() implies cname_writable(
        #[trigger] cs.drop_first()[i],
    ) by {
        assert(cs.drop_first()[i] == cs[i + 1]);
    }
}

/// Looking for an A record among CNAME records written at `off` and the
/// records after them finds what is found after them.
proof fn lemma_find_a_skips_cnames(p: Seq<u8>, off: int, cs: Seq<CnameRecord>, qclass: u16, m: nat)
    requires
        0 <= off,
        forall|i: int| 0 <= i < cs.len() ==> cname_writable(#[trigger] cs[i]),
        cname_records_wire(cs, qclass) matches Some(r) && off + r.len() <= p.len() && p.subrange(
            off,
            off + r.len(),
        ) == r,
    ensures
        find_a(p, off, cs.len() + m) == find_a(
            p,
            off + cname_records_wire(cs, qclass).unwrap().len(),
            m,
        ),
    decreases cs.len(),
{
    if cs.len() == 0 {
        assert(cs.len() + m == m);
    } else {
        lemma_cnames_in_packet(p, off, cs, qclass);
        let r0 = cname_record_wire(cs[0], qclass).unwrap();
        let next = off + r0.len();
        assert(record_at(p, off) matches Some(h) && h.rtype == 5 && h.next == next) by {
            assert(cname_writable(cs[0]));
            lemma_cname_record_at(p, off, cs[0], qclass);
        }
        lemma_find_a_skips_cnames(p, next, cs.drop_first(), qclass, m);
        lemma_find_a_step(p, off, cs.len() + m);
        assert((cs.len() + m - 1) as nat == cs.drop_first().len() + m);
    }
}

/// The question section of `original` copied to the same place of `r`
/// reads there alike.
proof fn lemma_copied_question(original: Seq<u8>, r: Seq<u8>)
    requires
        question_end(original) matches Some(q) && q <= r.len() && r.subrange(12, q)
            == original.subrange(12, q),
        no_pointer(original, 12),
    ensures
        question_end(r) == question_end(original),
        no_pointer(r, 12),
{
    let q = question_end(original).unwrap();
    lemma_read_plain(original, 12);
    lemma_plain_name_bounds(original, 12);
    assert forall|i: int| 12 <= i < q - 4 implies original[i] == r[i] by {
        assert(r.subrange(12, q)[i - 12] == original.subrange(12, q)[i - 12]);
    }
    lemma_no_pointer_agree(original, r, 12, q - 4);
    lemma_read_plain(r, 12);
}

/// The header of a response carries the answer count it was built with.
proof fn lemma_response_count(original: Seq<u8>, code: u8, count: u16, rest: Seq<u8>)
    requires
        original.len() >= 12,
    ensures
        answer_count(response_header(original, code, count) + rest) == count,
        response_header(original, code, count).len() == 12,
{
    let r = response_header(original, code, count) + rest;
    assert(r.subrange(6, 8) =~= be16_bytes(count));
    lemma_be16_roundtrip(r, 6, count);
}

/// How a CNAME-chain response is laid out: the copied question, the
/// answer count, then the CNAME records and the A record, one after the
/// other.
#[verifier::rlimit(30)]
proof fn lemma_chain_layout(original: Seq<u8>, cnames: Seq<CnameRecord>, a: ARecord)
    requires
        question_end(original) is Some,
        cnames.len() < 65535,
        cname_records_wire(cnames, 1) is Some,
        a_record_wire(a, 1) is Some,
    ensures
        ({
            let q = question_end(original).unwrap();
            let records = cname_records_wire(cnames, 1).unwrap();
            let arec = a_record_wire(a, 1).unwrap();
            let aoff = q + records.len();
            chain_response(original, 1, cnames, a) matches Some(r) && 12 < q && q <= r.len()
                && r.subrange(12, q) == original.subrange(12, q)
                && answer_count(r) == cnames.len() + 1 && aoff + arec.len() <= r.len()
                && r.subrange(q, aoff) == records && r.subrange(aoff, aoff + arec.len()) == arec
        }),
{
    let q = question_end(original).unwrap();
    lemma_read_name_bounds(original, 12);
    assert(12 < q <= original.len());
    let records = cname_records_wire(cnames, 1).unwrap();
    let arec = a_record_wire(a, 1).unwrap();
    let count = ((cnames.len() + 1) % 65536) as u16;
    let h = response_header(original, 0, count);
    let question = original.subrange(12, q);
    let x1 = h + question;
    let x2 = x1 + records;
    let r = x2 + arec;
    assert(chain_response(original, 1, cnames, a) == Some(r));
    lemma_response_count(original, 0, count, question + records + arec);
    assert(h + (question + records + arec) =~= r);
    assert(r.subrange(0, r.len() as int) =~= r);
    lemma_split_at(r, 0, x2, arec);
    lemma_split_at(r, 0, x1, records);
    lemma_split_at(r, 0, h, question);
    assert(count == cnames.len() + 1);
}

/// The first A answer of a CNAME-chain response is its A record.
proof fn lemma_chain_a_answer(r: Seq<u8>, q: int, cnames: Seq<CnameRecord>, a: ARecord)
    requires
        0 <= q,
        question_end(r) == Some(q),
        answer_count(r) == cnames.len() + 1,
        forall|i: int| 0 <= i < cnames.len() ==> cname_writable(#[trigger] cnames[i]),
        writable_name(a.name),
        a.ip.len() == 4,
        cname_records_wire(cnames, 1) matches Some(records) && a_record_wire(a, 1) matches Some(
            arec,
        ) && q + records.len() + arec.len() <= r.len() && r.subrange(q, q + records.len())
            == records && r.subrange(q + records.len(), q + records.len() + arec.len()) == arec,
    ensures
        a_record_of(r) == Some(ARecord { name: read_back_text(a.name), ip: a.ip, ttl: a.ttl }),
{
    let records = cname_records_wire(cnames, 1).unwrap();
    lemma_find_a_skips_cnames(r, q, cnames, 1, 1);
    lemma_a_record_at(r, q + records.len(), a, 1);
    assert((cnames.len() + 1) as nat == cnames.len() + 1);
    lemma_name_text_of_labels(a.name);
}

/// The first CNAME answer of a CNAME-chain response is its first CNAME
/// record.
proof fn lemma_chain_cname_answer(r: Seq<u8>, q: int, cnames: Seq<CnameRecord>)
    requires
        0 <= q,
        question_end(r) == Some(q),
        answer_count(r) == cnames.len() + 1,
        cnames.len() > 0,
        forall|i: int| 0 <= i < cnames.len() ==> cname_writable(#[trigger] cnames[i]),
        cname_records_wire(cnames, 1) matches Some(records) && q + records.len() <= r.len()
            && r.subrange(q, q + records.len()) == records,
    ensures
        cname_record_of(r) == Some(
            CnameRecord {
                name: read_back_text(cnames[0].name),
                target: read_back_text(cnames[0].target),
                ttl: cnames[0].ttl,
            },
        ),
{
    lemma_cnames_in_packet(r, q, cnames, 1);
    assert(cname_writable(cnames[0]));
    lemma_cname_record_at(r, q, cnames[0], 1);
    lemma_name_text_of_labels(cnames[0].name);
    lemma_name_text_of_labels(cnames[0].target);
}

/// The TTL of the first answer of a CNAME-chain response is the TTL of
/// its first record: the first CNAME record's, or the A record's when
/// there is no CNAME record.
proof fn lemma_chain_answer_ttl(r: Seq<u8>, q: int, cnames: Seq<CnameRecord>, a: ARecord)
    requires
        0 <= q,
        no_pointer(r, 12),
        question_end(r) == Some(q),
        answer_count(r) == cnames.len() + 1,
        forall|i: int| 0 <= i < cnames.len() ==> cname_writable(#[trigger] cnames[i]),
        writable_name(a.name),
        a.ip.len() == 4,
        cname_records_wire(cnames, 1) matches Some(records) && a_record_wire(a, 1) matches Some(
            arec,
        ) && q + records.len() + arec.len() <= r.len() && r.subrange(q, q + records.len())
            == records && r.subrange(q + records.len(), q + records.len() + arec.len()) == arec,
    ensures
        answer_ttl(r) == Some(if cnames.len() > 0 { cnames[0].ttl } else { a.ttl }),
{
    lemma_answer_offset_is_question_end(r);
    assert(answer_offset(r) == Some(q));
    if cnames.len() > 0 {
        lemma_cnames_in_packet(r, q, cnames, 1);
        assert(cname_writable(cnames[0]));
        lemma_cname_record_at(r, q, cnames[0], 1);
    } else {
        assert(cname_records_wire(cnames, 1).unwrap().len() == 0);
        lemma_a_record_at(r, q, a, 1);
    }
}

/// A CNAME-chain response reads back as the chain it was built from, for
/// class IN (the A reader looks only for it), whenever every name is
/// writable and the number of answers fits the 16-bit count:
/// - wherever the question the response repeats is read to the same end
///   as in the request, its first A answer is the A record given, and its
///   first CNAME answer is the first CNAME record given, each name read as
///   its text without trailing dots, lower-cased; otherwise the answer
///   readers look for the answers elsewhere in the response;
/// - that is so whenever the request's question name has no length byte of
///   192 or more, and then the TTL of the first answer is the TTL of the
///   first record (the first CNAME record's, else the A record's); with
///   such a byte the answer-offset scan reads it as a label length.
pub proof fn lemma_chain_response_reads_back(
    original: Seq<u8>,
    cnames: Seq<CnameRecord>,
    a: ARecord,
)
    requires
        question_end(original) is Some,
        cnames.len() < 65535,
        forall|i: int| 0 <= i < cnames.len() ==> cname_writable(#[trigger] cnames[i]),
        writable_name(a.name),
        a.ip.len() == 4,
    ensures
        chain_response(original, 1, cnames, a) matches Some(r) && (question_end(r) == question_end(
            original,
        ) ==> a_record_of(r) == Some(ARecord { name: read_back_text(a.name), ip: a.ip, ttl: a.ttl })
            && (cnames.len() > 0 ==> cname_record_of(r) == Some(
            CnameRecord {
                name: read_back_text(cnames[0].name),
                target: read_back_text(cnames[0].target),
                ttl: cnames[0].ttl,
            },
        ))) && (no_pointer(original, 12) ==> question_end(r) == question_end(original)
            && answer_ttl(r) == Some(if cnames.len() > 0 { cnames[0].ttl } else { a.ttl })),
{
    let q = question_end(original).unwrap();
    lemma_writable_records(cnames, 1);
    if cnames.len() > 0 {
        lemma_cname_records_front(cnames, 1);
    }
    assert(labels_fit(dotted_labels(encode_utf8(a.name))));
    lemma_chain_layout(original, cnames, a);
    let r = chain_response(original, 1, cnames, a).unwrap();
    if question_end(r) == Some(q) {
        lemma_chain_a_answer(r, q, cnames, a);
        if cnames.len() > 0 {
            lemma_chain_cname_answer(r, q, cnames);
        }
    }
    if no_pointer(original, 12) {
        lemma_copied_question(original, r);
        lemma_chain_answer_ttl(r, q, cnames, a);
    }
}

} // verus!
