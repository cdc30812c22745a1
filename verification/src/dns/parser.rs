//! Reading the header and the question of a client's request.
use vstd::prelude::*;
use vstd::utf8::{decode_utf8, encode_utf8, encode_utf8_valid_utf8, valid_utf8};

use crate::dns_packet::{query_for, question_of};
use crate::dns_packet::query_packet;
use crate::name::{
    label_wire, labels_fit, labels_writable, lemma_read_plain, lemma_read_written_name, no_pointer,
    plain_name,
    read_plain_labels, split_dots, trim_end_dots,
};
use crate::text::{
    dotted, join_dotted, lemma_pieces_decode, lemma_trim_valid, lossy_text, lowercase_text, texts,
    utf8_string,
};
use crate::wire::{be16, be16_bytes, lemma_be16_roundtrip, read_u16};

verus! {

/// The fields of the header that the resolver uses.
#[derive(Debug)]
pub struct DnsHeader {
    pub id: u16,
    pub qdcount: u16,
}

/// The question of a request: the name as dotted text, type and class.
#[derive(Debug)]
pub struct DnsQuestion {
    pub qname: String,
    pub qtype: u16,
    pub qclass: u16,
}

/// A request: its header and its (first) question.
#[derive(Debug)]
pub struct DnsRequest {
    pub header: DnsHeader,
    pub question: DnsQuestion,
}

/// Whether every label is valid UTF-8.
pub open spec fn all_utf8(ls: Seq<Seq<u8>>) -> bool {
    forall|i: int| 0 <= i < ls.len() ==> valid_utf8(#[trigger] ls[i])
}

/// The labels of the question name of `p` (read without following
/// compression pointers) and the offset of its type field, when `p` has a
/// full header, the name ends inside `p`, every label is UTF-8, and the type
/// and class fields follow.
pub open spec fn request_question(p: Seq<u8>) -> Option<(Seq<Seq<u8>>, int)> {
    if p.len() < 12 {
        None
    } else {
        match plain_name(p, 12) {
            Some((ls, o)) => if all_utf8(ls) && o + 4 <= p.len() {
                Some((ls, o))
            } else {
                None
            },
            None => None,
        }
    }
}

/// The dotted text of UTF-8 labels.
pub open spec fn labels_utf8_text(ls: Seq<Seq<u8>>) -> Seq<char> {
    dotted(ls.map_values(|l: Seq<u8>| decode_utf8(l)))
}

/// Reads the ID, the question count and the first question of `request`.
pub fn parse_dns_request(request: &[u8]) -> (r: Option<DnsRequest>)
    ensures
        match request_question(request@) {
            Some((ls, o)) => r matches Some(req) && req.header.id == be16(request@, 0)
                && req.header.qdcount == be16(request@, 4) && req.question.qname@
                == labels_utf8_text(ls) && req.question.qtype == be16(request@, o)
                && req.question.qclass == be16(request@, o + 2),
            None => r is None,
        },
{
    if request.len() < 12 {
        return None;
    }
    let id = read_u16(request, 0);
    let qdcount = read_u16(request, 4);
    let header = DnsHeader { id, qdcount };
    let (labels, offset) = match read_plain_labels(request, 12) {
        Some(found) => found,
        None => return None,
    };
    let ghost ls = crate::name::byte_strings(labels@);
    let mut parts: Vec<String> = Vec::new();
    let mut i: usize = 0;
    assert(texts(parts@) =~= ls.take(0).map_values(|l: Seq<u8>| decode_utf8(l)));
    while i < labels.len()
        invariant
            i <= labels@.len(),
            ls == crate::name::byte_strings(labels@),
            request@.len() >= 12,
            plain_name(request@, 12) == Some((ls, offset as int)),
            parts@.len() == i,
            all_utf8(ls.take(i as int)),
            texts(parts@) == ls.take(i as int).map_values(|l: Seq<u8>| decode_utf8(l)),
        decreases labels@.len() - i,
    {
        assert(ls[i as int] == labels@[i as int]@);
        let part = match utf8_string(labels[i].as_slice()) {
            Some(s) => s,
            None => {
                proof {
                    assert(!all_utf8(ls)) by {
                        assert(!valid_utf8(ls[i as int]));
                    }
                }
                return None;
            },
        };
        let ghost before = parts@;
        parts.push(part);
        proof {
            let want = ls.take(i + 1).map_values(|l: Seq<u8>| decode_utf8(l));
            assert forall|k: int| 0 <= k < want.len() implies #[trigger] texts(parts@)[k]
                == want[k] by {
                if k < i {
                    assert(parts@[k] == before[k]);
                    assert(texts(before)[k] == ls.take(i as int).map_values(
                        |l: Seq<u8>| decode_utf8(l),
                    )[k]);
                } else {
                    assert(parts@[k] == part);
                }
            }
            assert(texts(parts@) =~= want);
            assert forall|k: int| 0 <= k < i + 1 implies valid_utf8(#[trigger] ls.take(i + 1)[k]) by {
                if k < i {
                    assert(ls.take(i + 1)[k] == ls.take(i as int)[k]);
                }
            }
        }
        i = i + 1;
    }
    assert(ls.take(i as int) =~= ls);
    if request.len() - offset < 4 {
        return None;
    }
    let qtype = read_u16(request, offset);
    let qclass = read_u16(request, offset + 2);
    let qname = join_dotted(&parts);
    let question = DnsQuestion { qname, qtype, qclass };
    Some(DnsRequest { header, question })
}

/// A query built for a name is read by `parse_dns_request` as asking for
/// that name (its text without trailing dots), with the type, the class and
/// the ID it was built with, whenever every label of the name is non-empty
/// and at most 63 bytes long.
pub proof fn lemma_parse_reads_built_query(original: Seq<u8>, name: Seq<char>, qtype: u16, qclass: u16)
    requires
        original.len() >= 12,
        labels_writable(split_dots(trim_end_dots(encode_utf8(name)))),
    ensures
        query_for(original, name, qtype, qclass) matches Some(q) && request_question(q) matches Some(
            (ls, o),
        ) && labels_utf8_text(ls) == decode_utf8(trim_end_dots(encode_utf8(name))) && be16(q, 0)
            == be16(original, 0) && be16(q, 4) == 1 && be16(q, o) == qtype && be16(q, o + 2)
            == qclass,
{
    let t = trim_end_dots(encode_utf8(name));
    let ls = split_dots(t);
    let w = label_wire(ls) + seq![0u8];
    assert(labels_fit(ls));
    let q = query_packet(original, w, qtype, qclass);
    let o: int = 12 + w.len() as int;
    assert(q.subrange(12, o) =~= w);
    lemma_read_written_name(q, 12, ls);
    encode_utf8_valid_utf8(name);
    lemma_trim_valid(encode_utf8(name));
    lemma_pieces_decode(t);
    assert(q.subrange(o, o + 2) =~= be16_bytes(qtype));
    assert(q.subrange(o + 2, o + 4) =~= be16_bytes(qclass));
    lemma_be16_roundtrip(q, o, qtype);
    lemma_be16_roundtrip(q, o + 2, qclass);
    assert(q[0] == original[0] && q[1] == original[1]);
    assert(q[4] == 0 && q[5] == 1);
}

/// The question as `extract_question_name_and_class` reads it agrees with
/// what `parse_dns_request` reads: the same name, lower-cased, and the same
/// class, provided no length byte of the question name is 192 or more
/// (which the one reads as a length and the other as a pointer).
pub proof fn lemma_question_agrees_with_parse(request: Seq<u8>)
    ensures
        request_question(request) matches Some((ls, o)) ==> (no_pointer(request, 12) ==> question_of(
            request,
        ) == Some((lowercase_text(labels_utf8_text(ls)), be16(request, o + 2)))),
{
    if let Some((ls, o)) = request_question(request) {
        if no_pointer(request, 12) {
            lemma_read_plain(request, 12);
            let lossy = ls.map_values(|l: Seq<u8>| lossy_text(l));
            let exact = ls.map_values(|l: Seq<u8>| decode_utf8(l));
            assert forall|i: int| 0 <= i < ls.len() implies #[trigger] lossy[i] == exact[i] by {
                assert(valid_utf8(ls[i]));
            }
            assert(lossy =~= exact);
        }
    }
}

} // verus!
