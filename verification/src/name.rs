//! Domain names on the wire: reading them, with and without compression
//! pointers, and writing them from their dotted text form.
use vstd::prelude::*;

use vstd::utf8::encode_utf8;

use crate::error::PacketError;
use crate::wire::{append_bytes, copy_range};

verus! {

/// The dot, `.`, as a byte.
pub const DOT: u8 = 46;

/// The longest label that may be written.
pub const MAX_LABEL_LEN: usize = 63;

/// The byte strings held by a sequence of vectors.
pub open spec fn byte_strings(v: Seq<Vec<u8>>) -> Seq<Seq<u8>> {
    v.map_values(|l: Vec<u8>| l@)
}

/// The labels of an uncompressed name at `off`, and the offset just after
/// its terminating zero byte. Each length byte is read as a plain length,
/// so compression pointers are not followed.
pub open spec fn plain_name(p: Seq<u8>, off: int) -> Option<(Seq<Seq<u8>>, int)>
    decreases p.len() - off,
{
    if off < 0 || off >= p.len() {
        None
    } else {
        let len = p[off] as int;
        if len == 0 {
            Some((Seq::empty(), off + 1))
        } else if off + 1 + len > p.len() {
            None
        } else {
            match plain_name(p, off + 1 + len) {
                Some((rest, end)) => Some((seq![p.subrange(off + 1, off + 1 + len)] + rest, end)),
                None => None,
            }
        }
    }
}

/// What a walk through a possibly compressed name found: its labels, the
/// offset after the terminating zero byte, and whether a pointer was followed.
#[verifier::ext_equal]
pub struct NameWalk {
    pub labels: Seq<Seq<u8>>,
    pub end: int,
    pub jumped: bool,
}

/// Walks the name at `off`, following compression pointers (a length byte
/// of 192 or more, whose low six bits and the next byte form an offset),
/// for at most `fuel` steps.
pub open spec fn walk_name(p: Seq<u8>, off: int, fuel: nat) -> Option<NameWalk>
    decreases fuel,
{
    if fuel == 0 || off < 0 || off >= p.len() {
        None
    } else {
        let len = p[off] as int;
        if len >= 192 {
            if off + 1 >= p.len() {
                None
            } else {
                match walk_name(p, (len - 192) * 256 + p[off + 1] as int, (fuel - 1) as nat) {
                    Some(w) => Some(NameWalk { labels: w.labels, end: w.end, jumped: true }),
                    None => None,
                }
            }
        } else if len == 0 {
            Some(NameWalk { labels: Seq::empty(), end: off + 1, jumped: false })
        } else if off + 1 + len > p.len() {
            None
        } else {
            match walk_name(p, off + 1 + len, (fuel - 1) as nat) {
                Some(w) => Some(
                    NameWalk {
                        labels: seq![p.subrange(off + 1, off + 1 + len)] + w.labels,
                        end: w.end,
                        jumped: w.jumped,
                    },
                ),
                None => None,
            }
        }
    }
}

/// The labels of the (possibly compressed) name at `off` and the offset
/// where the data after the name starts: after the terminating zero byte,
/// or two bytes after `off` where a pointer was followed. The latter is
/// where the name ends when it is a lone pointer; for labels followed by a
/// pointer the data after the name starts later (`name_end` finds it).
///
/// A walk visits each offset of the packet at most once unless it runs in
/// a circle of pointers, so `p.len() + 1` steps reach the end of every
/// name that has one (`lemma_walk_fuel_suffices`); a name whose pointers
/// form a loop reads as `None`.
pub open spec fn read_name(p: Seq<u8>, off: int) -> Option<(Seq<Seq<u8>>, int)> {
    match walk_name(p, off, (p.len() + 1) as nat) {
        Some(w) => Some((w.labels, if w.jumped { off + 2 } else { w.end })),
        None => None,
    }
}

/// Puts labels already read in front of what the rest of a walk reads.
pub open spec fn continue_walk(acc: Seq<Seq<u8>>, jumped: bool, rest: Option<NameWalk>) -> Option<
    NameWalk,
> {
    match rest {
        Some(w) => Some(NameWalk { labels: acc + w.labels, end: w.end, jumped: jumped || w.jumped }),
        None => None,
    }
}

/// Puts labels already read in front of what the rest of a plain scan reads.
pub open spec fn continue_plain(acc: Seq<Seq<u8>>, rest: Option<(Seq<Seq<u8>>, int)>) -> Option<
    (Seq<Seq<u8>>, int),
> {
    match rest {
        Some((ls, end)) => Some((acc + ls, end)),
        None => None,
    }
}

/// Reads the labels of the uncompressed name at `offset`.
pub fn read_plain_labels(packet: &[u8], offset: usize) -> (r: Option<(Vec<Vec<u8>>, usize)>)
    ensures
        match plain_name(packet@, offset as int) {
            Some((ls, end)) => r matches Some((v, e)) && e == end && byte_strings(v@) == ls,
            None => r is None,
        },
        r matches Some((_, e)) ==> offset < e <= packet@.len(),
{
    let mut off = offset;
    let mut labels: Vec<Vec<u8>> = Vec::new();
    let ghost mut acc: Seq<Seq<u8>> = Seq::empty();
    assert(byte_strings(labels@) =~= acc);
    assert(continue_plain(acc, plain_name(packet@, offset as int)) =~= plain_name(
        packet@,
        offset as int,
    )) by {
        match plain_name(packet@, offset as int) {
            Some((ls, end)) => {
                assert(acc + ls =~= ls);
            },
            None => {},
        }
    }
    loop
        invariant
            offset <= off,
            byte_strings(labels@) == acc,
            plain_name(packet@, offset as int) == continue_plain(acc, plain_name(packet@, off as int)),
        decreases packet@.len() - off,
    {
        if off >= packet.len() {
            return None;
        }
        let len = packet[off] as usize;
        if len == 0 {
            assert(acc + Seq::<Seq<u8>>::empty() =~= acc);
            return Some((labels, off + 1));
        }
        if len > packet.len() - off - 1 {
            return None;
        }
        let label = copy_range(packet, off + 1, off + 1 + len);
        proof {
            let lbl = packet@.subrange(off + 1, off + 1 + len);
            match plain_name(packet@, off + 1 + len) {
                Some((rest, end)) => {
                    assert(acc + (seq![lbl] + rest) =~= acc.push(lbl) + rest);
                },
                None => {},
            }
            acc = acc.push(lbl);
        }
        labels.push(label);
        assert(byte_strings(labels@) =~= acc);
        off = off + 1 + len;
    }
}

/// Reads the labels of the possibly compressed name at `offset`, and the
/// offset where the data after the name starts.
pub fn read_name_labels(packet: &[u8], offset: usize) -> (r: Option<(Vec<Vec<u8>>, usize)>)
    ensures
        match read_name(packet@, offset as int) {
            Some((ls, next)) => r matches Some((v, n)) && n == next && byte_strings(v@) == ls,
            None => r is None,
        },
        r matches Some((_, n)) ==> offset < n <= packet@.len(),
{
    let ghost total: nat = (packet@.len() + 1) as nat;
    let mut off = offset;
    let mut fuel: usize = packet.len();
    let mut jumped = false;
    let mut labels: Vec<Vec<u8>> = Vec::new();
    let ghost mut acc: Seq<Seq<u8>> = Seq::empty();
    assert(byte_strings(labels@) =~= acc);
    assert(continue_walk(acc, false, walk_name(packet@, offset as int, total)) =~= walk_name(
        packet@,
        offset as int,
        total,
    )) by {
        match walk_name(packet@, offset as int, total) {
            Some(w) => {
                assert(acc + w.labels =~= w.labels);
            },
            None => {},
        }
    }
    loop
        invariant
            total == (packet@.len() + 1) as nat,
            fuel + 1 <= total,
            byte_strings(labels@) == acc,
            walk_name(packet@, offset as int, total) == continue_walk(
                acc,
                jumped,
                walk_name(packet@, off as int, (fuel + 1) as nat),
            ),
            fuel + 1 == total || offset + 2 <= packet@.len(),
            jumped ==> fuel + 1 < total,
            !jumped ==> offset <= off,
            fuel + 1 == total ==> off == offset,
        decreases fuel,
    {
        if off >= packet.len() {
            assert(walk_name(packet@, off as int, (fuel + 1) as nat) is None);
            return None;
        }
        let len = packet[off];
        if len >= 192 {
            if off >= packet.len() - 1 {
                assert(walk_name(packet@, off as int, (fuel + 1) as nat) is None);
                return None;
            }
            let pointer = ((len - 192) as usize) * 256 + (packet[off + 1] as usize);
            if fuel == 0 {
                assert(walk_name(packet@, pointer as int, 0) is None);
                return None;
            }
            off = pointer;
            jumped = true;
            fuel = fuel - 1;
        } else if len == 0 {
            proof {
                assert(acc + Seq::<Seq<u8>>::empty() =~= acc);
            }
            let next = if jumped {
                offset + 2
            } else {
                off + 1
            };
            return Some((labels, next));
        } else {
            let n = len as usize;
            if n > packet.len() - off - 1 {
                assert(walk_name(packet@, off as int, (fuel + 1) as nat) is None);
                return None;
            }
            if fuel == 0 {
                assert(walk_name(packet@, off + 1 + n, 0) is None);
                return None;
            }
            let label = copy_range(packet, off + 1, off + 1 + n);
            proof {
                let lbl = packet@.subrange(off + 1, off + 1 + n);
                match walk_name(packet@, off + 1 + n, fuel as nat) {
                    Some(w) => {
                        assert(acc + (seq![lbl] + w.labels) =~= acc.push(lbl) + w.labels);
                    },
                    None => {},
                }
                acc = acc.push(lbl);
            }
            labels.push(label);
            assert(byte_strings(labels@) =~= acc);
            off = off + 1 + n;
            fuel = fuel - 1;
        }
    }
}

/// `b` without its trailing dots.
pub open spec fn trim_end_dots(b: Seq<u8>) -> Seq<u8>
    decreases b.len(),
{
    if b.len() > 0 && b.last() == DOT {
        trim_end_dots(b.drop_last())
    } else {
        b
    }
}

/// The pieces of `b` between dots, as splitting a string at every `.`
/// gives them: always at least one piece, possibly empty ones.
pub open spec fn split_dots(b: Seq<u8>) -> Seq<Seq<u8>>
    decreases b.len(),
{
    if b.len() == 0 {
        seq![Seq::empty()]
    } else {
        let s = split_dots(b.drop_last());
        if b.last() == DOT {
            s.push(Seq::empty())
        } else {
            s.update(s.len() - 1, s.last().push(b.last()))
        }
    }
}

/// Each label preceded by its length byte (the length taken modulo 256).
pub open spec fn label_wire(ls: Seq<Seq<u8>>) -> Seq<u8>
    decreases ls.len(),
{
    if ls.len() == 0 {
        Seq::empty()
    } else {
        label_wire(ls.drop_last()) + seq![ls.last().len() as u8] + ls.last()
    }
}

/// Whether no label is longer than `MAX_LABEL_LEN`.
pub open spec fn labels_fit(ls: Seq<Seq<u8>>) -> bool {
    forall|i: int| 0 <= i < ls.len() ==> #[trigger] ls[i].len() <= MAX_LABEL_LEN
}

/// The wire form of a name given by its labels, ended by a zero byte;
/// `None` when a label is longer than `MAX_LABEL_LEN`.
pub open spec fn name_wire(ls: Seq<Seq<u8>>) -> Option<Seq<u8>> {
    if labels_fit(ls) {
        Some(label_wire(ls) + seq![0u8])
    } else {
        None
    }
}

/// The wire form of a dotted name given by its bytes: trailing dots are
/// dropped and every piece between dots becomes a label.
pub open spec fn dotted_name_wire(b: Seq<u8>) -> Option<Seq<u8>> {
    name_wire(dotted_labels(b))
}

/// The length of `b` without its trailing dots.
fn trimmed_len(b: &[u8]) -> (n: usize)
    ensures
        n <= b@.len(),
        b@.take(n as int) == trim_end_dots(b@),
{
    let mut n = b.len();
    assert(b@.take(n as int) =~= b@);
    while n > 0 && b[n - 1] == DOT
        invariant
            n <= b@.len(),
            trim_end_dots(b@) == trim_end_dots(b@.take(n as int)),
        decreases n,
    {
        assert(b@.take(n as int).drop_last() =~= b@.take(n - 1));
        n = n - 1;
    }
    n
}

/// The labels of `b` (split at every dot) in wire form, each length byte
/// being the label's length modulo 256, and whether every label fits.
pub(crate) fn encode_split(b: &[u8], end: usize) -> (r: (Vec<u8>, bool))
    requires
        end <= b@.len(),
    ensures
        r.0@ == label_wire(split_dots(b@.take(end as int))),
        r.1 == labels_fit(split_dots(b@.take(end as int))),
{
    let ghost t = b@.take(end as int);
    let mut out: Vec<u8> = Vec::new();
    let mut fits = true;
    let mut start: usize = 0;
    let mut i: usize = 0;
    let ghost mut done: Seq<Seq<u8>> = Seq::empty();
    assert(t.take(0).len() == 0);
    assert(split_dots(t.take(0)) =~~= done.push(t.subrange(0, 0)));
    while i < end
        invariant
            t == b@.take(end as int),
            end <= b@.len(),
            start <= i <= end,
            split_dots(t.take(i as int)) == done.push(t.subrange(start as int, i as int)),
            out@ == label_wire(done),
            fits == labels_fit(done),
        decreases end - i,
    {
        assert(t.take(i + 1).drop_last() =~= t.take(i as int));
        if b[i] == DOT {
            let label = &b[start..i];
            proof {
                let l = t.subrange(start as int, i as int);
                assert(label@ =~= l);
                assert(done.push(l).drop_last() =~= done);
                assert(labels_fit(done.push(l)) == (labels_fit(done) && l.len() <= MAX_LABEL_LEN))
                    by {
                    if labels_fit(done.push(l)) {
                        assert forall|k: int| 0 <= k < done.len() implies #[trigger] done[k].len()
                            <= MAX_LABEL_LEN by {
                            assert(done.push(l)[k] == done[k]);
                        }
                        assert(done.push(l)[done.len() as int] == l);
                    }
                }
                done = done.push(l);
                assert(t.subrange(i + 1, i + 1) =~= Seq::<u8>::empty());
            }
            if i - start > MAX_LABEL_LEN {
                fits = false;
            }
            out.push(#[verifier::truncate] ((i - start) as u8));
            append_bytes(&mut out, label);
            start = i + 1;
        } else {
            proof {
                assert(t.subrange(start as int, i + 1) =~= t.subrange(start as int, i as int).push(
                    t[i as int],
                ));
            }
        }
        i = i + 1;
    }
    assert(t.take(end as int) =~= t);
    let label = &b[start..end];
    proof {
        let l = t.subrange(start as int, end as int);
        assert(label@ =~= l);
        assert(done.push(l).drop_last() =~= done);
        assert(labels_fit(done.push(l)) == (labels_fit(done) && l.len() <= MAX_LABEL_LEN)) by {
            if labels_fit(done.push(l)) {
                assert forall|k: int| 0 <= k < done.len() implies #[trigger] done[k].len()
                    <= MAX_LABEL_LEN by {
                    assert(done.push(l)[k] == done[k]);
                }
                assert(done.push(l)[done.len() as int] == l);
            }
        }
    }
    if end - start > MAX_LABEL_LEN {
        fits = false;
    }
    out.push(#[verifier::truncate] ((end - start) as u8));
    append_bytes(&mut out, label);
    (out, fits)
}

/// Whether `ls[k]` is the first label of `ls` longer than `MAX_LABEL_LEN`.
pub open spec fn first_long_label(ls: Seq<Seq<u8>>, k: int) -> bool {
    &&& 0 <= k < ls.len()
    &&& ls[k].len() > MAX_LABEL_LEN
    &&& labels_fit(ls.take(k))
}

/// The labels of a dotted name given by its bytes: trailing dots dropped,
/// split at every dot.
pub open spec fn dotted_labels(b: Seq<u8>) -> Seq<Seq<u8>> {
    split_dots(trim_end_dots(b))
}

/// Splitting a longer prefix keeps every piece of a shorter prefix but its
/// last one.
pub proof fn lemma_split_prefix(b: Seq<u8>, j: int, n: int)
    requires
        0 <= j <= n <= b.len(),
    ensures
        split_dots(b.take(j)).len() <= split_dots(b.take(n)).len(),
        forall|k: int|
            0 <= k < split_dots(b.take(j)).len() - 1 ==> #[trigger] split_dots(b.take(n))[k]
                == split_dots(b.take(j))[k],
    decreases n - j,
{
    if n > j {
        lemma_split_prefix(b, j, n - 1);
        lemma_split_dots_len(b.take(n - 1));
        assert(b.take(n).drop_last() =~= b.take(n - 1));
    }
}

/// Appends the wire form of the dotted name `name` to `buffer`: trailing
/// dots are dropped, and each piece between dots is written as a length
/// byte and its bytes, then a zero byte ends the name. A piece longer than
/// `MAX_LABEL_LEN` stops the writing with an error, after the pieces before
/// it have been written.
pub fn write_dns_name(buffer: &mut Vec<u8>, name: &str) -> (r: Result<(), PacketError>)
    ensures
        match dotted_name_wire(encode_utf8(name@)) {
            Some(w) => r is Ok && final(buffer)@ == old(buffer)@ + w,
            None => r == Err::<(), PacketError>(PacketError::LabelTooLong),
        },
        r is Err ==> exists|k: int|
            first_long_label(dotted_labels(encode_utf8(name@)), k) && final(buffer)@ == old(
                buffer,
            )@ + label_wire(dotted_labels(encode_utf8(name@)).take(k)),
{
    let bytes = name.as_bytes();
    let end = trimmed_len(bytes);
    let ghost t = bytes@.take(end as int);
    let ghost ls = split_dots(t);
    let mut start: usize = 0;
    let mut i: usize = 0;
    let ghost mut done: Seq<Seq<u8>> = Seq::empty();
    assert(t.take(0).len() == 0);
    assert(split_dots(t.take(0)) =~~= done.push(t.subrange(0, 0)));
    assert(buffer@ =~= old(buffer)@ + label_wire(done));
    while i < end
        invariant
            t == bytes@.take(end as int),
            ls == split_dots(t),
            bytes@ == encode_utf8(name@),
            trim_end_dots(bytes@) == t,
            end <= bytes@.len(),
            start <= i <= end,
            split_dots(t.take(i as int)) == done.push(t.subrange(start as int, i as int)),
            buffer@ == old(buffer)@ + label_wire(done),
            labels_fit(done),
        decreases end - i,
    {
        assert(t.take(i + 1).drop_last() =~= t.take(i as int));
        if bytes[i] == DOT {
            let ghost l = t.subrange(start as int, i as int);
            proof {
                assert(split_dots(t.take(i + 1)) == done.push(l).push(Seq::empty()));
                lemma_split_prefix(t, i + 1, end as int);
                assert(t.take(end as int) =~= t);
                assert forall|k: int| 0 <= k < done.len() implies #[trigger] ls[k] == done[k] by {
                    assert(done.push(l).push(Seq::empty())[k] == done[k]);
                }
                assert(ls[done.len() as int] == l) by {
                    assert(done.push(l).push(Seq::empty())[done.len() as int] == l);
                }
                assert(ls.take(done.len() as int) =~= done);
            }
            if i - start > MAX_LABEL_LEN {
                assert(dotted_labels(encode_utf8(name@)) == ls);
                assert(first_long_label(ls, done.len() as int));
                assert(!labels_fit(ls));
                return Err(PacketError::LabelTooLong);
            }
            buffer.push((i - start) as u8);
            append_bytes(buffer, &bytes[start..i]);
            proof {
                assert(done.push(l).drop_last() =~= done);
                assert(buffer@ =~= old(buffer)@ + label_wire(done.push(l)));
                assert forall|k: int| 0 <= k < done.push(l).len() implies #[trigger] done.push(
                    l,
                )[k].len() <= MAX_LABEL_LEN by {
                    if k < done.len() {
                        assert(done.push(l)[k] == done[k]);
                    }
                }
                done = done.push(l);
                assert(t.subrange(i + 1, i + 1) =~= Seq::<u8>::empty());
            }
            start = i + 1;
        } else {
            proof {
                assert(t.subrange(start as int, i + 1) =~= t.subrange(start as int, i as int).push(
                    t[i as int],
                ));
            }
        }
        i = i + 1;
    }
    let ghost l = t.subrange(start as int, end as int);
    proof {
        assert(t.take(end as int) =~= t);
        assert(ls == done.push(l));
        assert(ls.take(done.len() as int) =~= done);
        assert(ls[done.len() as int] == l);
        assert(trim_end_dots(bytes@) == t);
    }
    if end - start > MAX_LABEL_LEN {
        assert(dotted_labels(encode_utf8(name@)) == ls);
        assert(first_long_label(ls, done.len() as int));
        assert(!labels_fit(ls));
        return Err(PacketError::LabelTooLong);
    }
    buffer.push((end - start) as u8);
    append_bytes(buffer, &bytes[start..end]);
    buffer.push(0);
    proof {
        assert(done.push(l).drop_last() =~= done);
        assert forall|k: int| 0 <= k < ls.len() implies #[trigger] ls[k].len() <= MAX_LABEL_LEN by {
            if k < done.len() {
                assert(ls[k] == done[k]);
            }
        }
        assert(buffer@ =~= old(buffer)@ + (label_wire(ls) + seq![0u8]));
    }
    Ok(())
}

/// Whether every label is non-empty and no longer than `MAX_LABEL_LEN`.
pub open spec fn labels_writable(ls: Seq<Seq<u8>>) -> bool {
    forall|i: int| 0 <= i < ls.len() ==> 0 < #[trigger] ls[i].len() <= MAX_LABEL_LEN
}

/// The wire form of labels, built from the front.
pub proof fn lemma_label_wire_front(ls: Seq<Seq<u8>>)
    requires
        ls.len() > 0,
    ensures
        label_wire(ls) == seq![ls[0].len() as u8] + ls[0] + label_wire(ls.drop_first()),
    decreases ls.len(),
{
    if ls.len() == 1 {
        assert(ls.drop_last() =~= Seq::<Seq<u8>>::empty());
        assert(ls.drop_first() =~= Seq::<Seq<u8>>::empty());
        assert(label_wire(ls) =~= seq![ls[0].len() as u8] + ls[0] + label_wire(ls.drop_first()));
    } else {
        lemma_label_wire_front(ls.drop_last());
        assert(ls.drop_last().drop_first() =~= ls.drop_first().drop_last());
        assert(ls.drop_first().last() == ls.last());
        assert(ls.drop_last()[0] == ls[0]);
        assert(label_wire(ls) =~= seq![ls[0].len() as u8] + ls[0] + label_wire(ls.drop_first()));
    }
}

/// The wire form of labels is at least twice as long as there are labels.
pub proof fn lemma_label_wire_len(ls: Seq<Seq<u8>>)
    requires
        labels_writable(ls),
    ensures
        label_wire(ls).len() >= 2 * ls.len(),
    decreases ls.len(),
{
    if ls.len() > 0 {
        assert(labels_writable(ls.drop_last())) by {
            assert forall|i: int| 0 <= i < ls.drop_last().len() implies 0 < #[trigger] ls.drop_last()[i].len()
                <= MAX_LABEL_LEN by {
                assert(ls.drop_last()[i] == ls[i]);
            }
        }
        lemma_label_wire_len(ls.drop_last());
        assert(ls[ls.len() - 1].len() > 0);
    }
}

/// A name written as `name_wire(ls)` at `off`, with non-empty labels, is
/// read back (with or without following pointers) as exactly `ls`, ending
/// right after the written bytes.
pub proof fn lemma_walk_written_name(p: Seq<u8>, off: int, ls: Seq<Seq<u8>>, fuel: nat)
    requires
        0 <= off,
        labels_writable(ls),
        off + label_wire(ls).len() + 1 <= p.len(),
        p.subrange(off, off + label_wire(ls).len() + 1) == label_wire(ls) + seq![0u8],
        fuel > ls.len(),
    ensures
        walk_name(p, off, fuel) == Some(
            NameWalk { labels: ls, end: off + label_wire(ls).len() + 1, jumped: false },
        ),
        plain_name(p, off) == Some((ls, off + label_wire(ls).len() + 1)),
        no_pointer(p, off),
    decreases ls.len(),
{
    let w = label_wire(ls) + seq![0u8];
    if ls.len() == 0 {
        assert(p[off] == w[0]);
    } else {
        lemma_label_wire_front(ls);
        let l = ls[0];
        let rest = ls.drop_first();
        let n = l.len() as int;
        assert(0 < n <= MAX_LABEL_LEN);
        assert(labels_writable(rest)) by {
            assert forall|i: int| 0 <= i < rest.len() implies 0 < #[trigger] rest[i].len()
                <= MAX_LABEL_LEN by {
                assert(rest[i] == ls[i + 1]);
            }
        }
        assert(p[off] == w[0]);
        assert(w[0] == l.len() as u8);
        assert(p[off] as int == n);
        assert(p.subrange(off + 1, off + 1 + n) =~= l) by {
            assert forall|k: int| 0 <= k < n implies #[trigger] p.subrange(off + 1, off + 1 + n)[k]
                == l[k] by {
                assert(p[off + 1 + k] == w[1 + k]);
            }
        }
        let next = off + 1 + n;
        assert(label_wire(ls).len() == 1 + n + label_wire(rest).len());
        assert(p.subrange(next, next + label_wire(rest).len() + 1) =~= label_wire(rest) + seq![
            0u8,
        ]) by {
            assert forall|k: int| 0 <= k < label_wire(rest).len() + 1 implies #[trigger] p.subrange(
                next,
                next + label_wire(rest).len() + 1,
            )[k] == (label_wire(rest) + seq![0u8])[k] by {
                assert(p[next + k] == w[1 + n + k]);
            }
        }
        lemma_walk_written_name(p, next, rest, (fuel - 1) as nat);
        assert(seq![l] + rest =~= ls);
    }
}

/// A name written with `name_wire` is read back as its labels, ending right
/// after the written bytes, both by `read_name` and by `plain_name`.
pub proof fn lemma_read_written_name(p: Seq<u8>, off: int, ls: Seq<Seq<u8>>)
    requires
        0 <= off,
        labels_writable(ls),
        name_wire(ls) matches Some(w) && off + w.len() <= p.len() && p.subrange(off, off + w.len())
            == w,
    ensures
        read_name(p, off) == Some((ls, off + name_wire(ls).unwrap().len())),
        plain_name(p, off) == Some((ls, off + name_wire(ls).unwrap().len())),
        no_pointer(p, off),
        name_end(p, off) == Some(off + name_wire(ls).unwrap().len()),
{
    lemma_label_wire_len(ls);
    lemma_walk_written_name(p, off, ls, (p.len() + 1) as nat);
    lemma_name_end_plain(p, off);
}

/// A plain name ends after its start and within the packet.
pub proof fn lemma_plain_name_bounds(p: Seq<u8>, off: int)
    ensures
        plain_name(p, off) matches Some((_, e)) ==> 0 <= off < e <= p.len(),
    decreases p.len() - off,
{
    if 0 <= off < p.len() && p[off] != 0 && off + 1 + p[off] as int <= p.len() {
        lemma_plain_name_bounds(p, off + 1 + p[off] as int);
    }
}

/// Where a walk through a name ends.
pub proof fn lemma_walk_name_bounds(p: Seq<u8>, off: int, fuel: nat)
    ensures
        walk_name(p, off, fuel) matches Some(w) ==> {
            &&& 0 <= off
            &&& w.end <= p.len()
            &&& !w.jumped ==> off < w.end
            &&& w.jumped ==> off + 2 <= p.len()
        },
    decreases fuel,
{
    if fuel > 0 && 0 <= off < p.len() {
        let len = p[off] as int;
        if len >= 192 {
            if off + 1 < p.len() {
                lemma_walk_name_bounds(p, (len - 192) * 256 + p[off + 1] as int, (fuel - 1) as nat);
            }
        } else if len != 0 && off + 1 + len <= p.len() {
            lemma_walk_name_bounds(p, off + 1 + len, (fuel - 1) as nat);
        }
    }
}

/// The data after a name read from `p` starts after the name's first byte
/// and within the packet.
pub proof fn lemma_read_name_bounds(p: Seq<u8>, off: int)
    ensures
        read_name(p, off) matches Some((_, n)) ==> 0 <= off < n <= p.len(),
{
    lemma_walk_name_bounds(p, off, (p.len() + 1) as nat);
}

/// Splitting always gives at least one piece.
pub proof fn lemma_split_dots_len(b: Seq<u8>)
    ensures
        split_dots(b).len() >= 1,
    decreases b.len(),
{
    if b.len() > 0 {
        lemma_split_dots_len(b.drop_last());
    }
}

/// Bytes without a dot split into the one piece they are.
pub proof fn lemma_split_no_dot(b: Seq<u8>)
    requires
        forall|k: int| 0 <= k < b.len() ==> b[k] != DOT,
    ensures
        split_dots(b) == seq![b],
    decreases b.len(),
{
    if b.len() == 0 {
        assert(split_dots(b) =~~= seq![b]);
    } else {
        lemma_split_no_dot(b.drop_last());
        assert(b.drop_last().push(b.last()) =~= b);
        assert(split_dots(b) =~~= seq![b]);
    }
}

/// Splitting `x`, a dot and dot-free `y` gives the pieces of `x`, then `y`.
pub proof fn lemma_split_after_last_dot(x: Seq<u8>, y: Seq<u8>)
    requires
        forall|k: int| 0 <= k < y.len() ==> y[k] != DOT,
    ensures
        split_dots(x + seq![DOT] + y) == split_dots(x).push(y),
    decreases y.len(),
{
    let b = x + seq![DOT] + y;
    if y.len() == 0 {
        assert(b.drop_last() =~= x);
        assert(split_dots(b) =~~= split_dots(x).push(y));
    } else {
        lemma_split_after_last_dot(x, y.drop_last());
        assert(b.drop_last() =~= x + seq![DOT] + y.drop_last());
        let s = split_dots(x).push(y.drop_last());
        assert(y.drop_last().push(y.last()) =~= y);
        assert(s.update(s.len() - 1, s.last().push(b.last())) =~~= split_dots(x).push(y));
    }
}

/// The index of the last dot of `b`, or -1 when it has none.
pub open spec fn last_dot(b: Seq<u8>) -> int
    decreases b.len(),
{
    if b.len() == 0 {
        -1
    } else if b.last() == DOT {
        b.len() - 1
    } else {
        last_dot(b.drop_last())
    }
}

/// `last_dot` finds the last dot.
pub proof fn lemma_last_dot(b: Seq<u8>)
    ensures
        -1 <= last_dot(b) < b.len(),
        last_dot(b) >= 0 ==> b[last_dot(b)] == DOT,
        forall|k: int| last_dot(b) < k < b.len() ==> b[k] != DOT,
    decreases b.len(),
{
    if b.len() > 0 && b.last() != DOT {
        lemma_last_dot(b.drop_last());
        assert forall|k: int| last_dot(b) < k < b.len() implies b[k] != DOT by {
            if k < b.len() - 1 {
                assert(b[k] == b.drop_last()[k]);
            }
        }
    }
}

/// Whether reading the name at `off` as a plain name meets no length byte
/// of 192 or more (which a walk would take for a compression pointer).
pub open spec fn no_pointer(p: Seq<u8>, off: int) -> bool
    decreases p.len() - off,
{
    if off < 0 || off >= p.len() {
        true
    } else {
        let len = p[off] as int;
        if len >= 192 {
            false
        } else if len == 0 || off + 1 + len > p.len() {
            true
        } else {
            no_pointer(p, off + 1 + len)
        }
    }
}

/// Without pointers a walk through a name reads what the plain scan reads.
pub proof fn lemma_walk_plain(p: Seq<u8>, off: int, fuel: nat)
    requires
        no_pointer(p, off),
        fuel > p.len() - off,
    ensures
        walk_name(p, off, fuel) == match plain_name(p, off) {
            Some((ls, e)) => Some(NameWalk { labels: ls, end: e, jumped: false }),
            None => None,
        },
    decreases p.len() - off,
{
    if 0 <= off < p.len() {
        let len = p[off] as int;
        if len != 0 && off + 1 + len <= p.len() {
            lemma_walk_plain(p, off + 1 + len, (fuel - 1) as nat);
        }
    }
}

/// Without pointers `read_name` reads what the plain scan reads.
pub proof fn lemma_read_plain(p: Seq<u8>, off: int)
    requires
        0 <= off,
        no_pointer(p, off),
    ensures
        read_name(p, off) == plain_name(p, off),
{
    lemma_walk_plain(p, off, (p.len() + 1) as nat);
}

/// A plain name read alike from a packet that agrees on the bytes where
/// it lies, and meets no pointer there either.
pub proof fn lemma_no_pointer_agree(p: Seq<u8>, p2: Seq<u8>, off: int, hi: int)
    requires
        0 <= off,
        no_pointer(p, off),
        plain_name(p, off) matches Some((_, e)) && e <= hi,
        hi <= p.len(),
        hi <= p2.len(),
        forall|i: int| off <= i < hi ==> p[i] == p2[i],
    ensures
        no_pointer(p2, off),
        plain_name(p2, off) == plain_name(p, off),
    decreases p.len() - off,
{
    lemma_plain_name_bounds(p, off);
    let len = p[off] as int;
    assert(p2[off] == p[off]);
    if len != 0 {
        let next = off + 1 + len;
        lemma_plain_name_bounds(p, next);
        lemma_no_pointer_agree(p, p2, next, hi);
        assert(p.subrange(off + 1, next) =~= p2.subrange(off + 1, next));
    }
}

/// The offset a walk moves on to from `off` when the byte there does not
/// end the name: the target of a pointer, or the next length byte.
pub open spec fn walk_next(p: Seq<u8>, off: int) -> int {
    let len = p[off] as int;
    if len >= 192 {
        (len - 192) * 256 + p[off + 1] as int
    } else {
        off + 1 + len
    }
}

/// The offset a walk from `off` reaches after `i` steps.
pub open spec fn walk_hop(p: Seq<u8>, off: int, i: nat) -> int
    decreases i,
{
    if i == 0 {
        off
    } else {
        walk_hop(p, walk_next(p, off), (i - 1) as nat)
    }
}

/// How many steps a walk from `off` takes to the zero byte that ends the
/// name, when `fuel` steps are enough for it.
pub open spec fn walk_steps(p: Seq<u8>, off: int, fuel: nat) -> Option<nat>
    decreases fuel,
{
    if fuel == 0 || off < 0 || off >= p.len() {
        None
    } else {
        let len = p[off] as int;
        if len == 0 {
            Some(1)
        } else if (len >= 192 && off + 1 >= p.len()) || (len < 192 && off + 1 + len > p.len()) {
            None
        } else {
            match walk_steps(p, walk_next(p, off), (fuel - 1) as nat) {
                Some(s) => Some(s + 1),
                None => None,
            }
        }
    }
}

/// A walk that finishes takes a number of steps, at most its fuel.
proof fn lemma_walk_has_steps(p: Seq<u8>, off: int, fuel: nat)
    requires
        walk_name(p, off, fuel) is Some,
    ensures
        walk_steps(p, off, fuel) matches Some(s) && 1 <= s <= fuel,
    decreases fuel,
{
    if p[off] != 0 {
        lemma_walk_has_steps(p, walk_next(p, off), (fuel - 1) as nat);
    }
}

/// A walk takes no more steps than its fuel.
proof fn lemma_walk_steps_within_fuel(p: Seq<u8>, off: int, fuel: nat)
    requires
        walk_steps(p, off, fuel) is Some,
    ensures
        walk_steps(p, off, fuel).unwrap() <= fuel,
    decreases fuel,
{
    if p[off] != 0 {
        lemma_walk_steps_within_fuel(p, walk_next(p, off), (fuel - 1) as nat);
    }
}

/// A walk that finishes in `s` steps finishes alike with any fuel of at
/// least `s`.
proof fn lemma_walk_more_fuel(p: Seq<u8>, off: int, fuel: nat, more: nat)
    requires
        walk_steps(p, off, fuel) matches Some(s) && s <= more,
    ensures
        walk_steps(p, off, more) == walk_steps(p, off, fuel),
        walk_name(p, off, more) == walk_name(p, off, fuel),
        walk_name(p, off, fuel) is Some,
    decreases fuel,
{
    if p[off] != 0 {
        lemma_walk_more_fuel(p, walk_next(p, off), (fuel - 1) as nat, (more - 1) as nat);
    }
}

/// The `i`-th offset of a walk that finishes in `s` steps lies in the
/// packet, and the walk from it finishes in `s - i` steps.
proof fn lemma_walk_hop_steps(p: Seq<u8>, off: int, fuel: nat, i: nat)
    requires
        walk_steps(p, off, fuel) matches Some(s) && i < s,
    ensures
        0 <= walk_hop(p, off, i) < p.len(),
        walk_steps(p, walk_hop(p, off, i), fuel) == Some(
            (walk_steps(p, off, fuel).unwrap() - i) as nat,
        ),
    decreases i,
{
    if i > 0 {
        let next = walk_next(p, off);
        lemma_walk_hop_steps(p, next, (fuel - 1) as nat, (i - 1) as nat);
        lemma_walk_steps_within_fuel(p, off, fuel);
        lemma_walk_more_fuel(p, walk_hop(p, off, i), (fuel - 1) as nat, fuel);
    }
}

/// A walk that finishes visits no offset twice, so it takes at most as
/// many steps as the packet has bytes.
proof fn lemma_walk_steps_bound(p: Seq<u8>, off: int, fuel: nat)
    requires
        walk_steps(p, off, fuel) is Some,
    ensures
        walk_steps(p, off, fuel).unwrap() <= p.len(),
{
    let s = walk_steps(p, off, fuel).unwrap();
    let hops = Seq::new(s, |i: int| walk_hop(p, off, i as nat));
    assert forall|i: int, j: int| 0 <= i < hops.len() && 0 <= j < hops.len() && i != j implies hops[i]
        != hops[j] by {
        lemma_walk_hop_steps(p, off, fuel, i as nat);
        lemma_walk_hop_steps(p, off, fuel, j as nat);
    }
    assert(hops.no_duplicates());
    hops.unique_seq_to_set();
    assert forall|x: int| hops.to_set().contains(x) implies vstd::set_lib::set_int_range(
        0,
        p.len() as int,
    ).contains(x) by {
        let i = choose|i: int| 0 <= i < hops.len() && hops[i] == x;
        lemma_walk_hop_steps(p, off, fuel, i as nat);
    }
    vstd::set_lib::lemma_int_range(0, p.len() as int);
    vstd::set_lib::lemma_len_subset(hops.to_set(), vstd::set_lib::set_int_range(0, p.len() as int));
}

/// A walk through a name that reaches the name's end with some number of
/// steps reaches it, alike, with the `p.len() + 1` steps that `read_name`
/// gives it: a walk visits no offset twice, so `read_name` finds nothing
/// only where the walk meets a malformed byte or its pointers run in a
/// circle that no number of steps leaves.
pub proof fn lemma_walk_fuel_suffices(p: Seq<u8>, off: int, fuel: nat)
    requires
        walk_name(p, off, fuel) is Some,
    ensures
        walk_name(p, off, (p.len() + 1) as nat) == walk_name(p, off, fuel),
{
    lemma_walk_has_steps(p, off, fuel);
    lemma_walk_steps_bound(p, off, fuel);
    lemma_walk_more_fuel(p, off, fuel, (p.len() + 1) as nat);
}

/// The offset just after the (possibly compressed) name at `off`, found
/// without following pointers: after the zero byte that ends its labels,
/// or after the two bytes of the pointer that ends it.
pub open spec fn name_end(p: Seq<u8>, off: int) -> Option<int>
    decreases p.len() - off,
{
    if off < 0 || off >= p.len() {
        None
    } else {
        let len = p[off] as int;
        if len >= 192 {
            if off + 2 > p.len() {
                None
            } else {
                Some(off + 2)
            }
        } else if len == 0 {
            Some(off + 1)
        } else if off + 1 + len > p.len() {
            None
        } else {
            name_end(p, off + 1 + len)
        }
    }
}

/// The end of a name lies after its start and within the packet.
pub proof fn lemma_name_end_bounds(p: Seq<u8>, off: int)
    ensures
        name_end(p, off) matches Some(e) ==> 0 <= off < e <= p.len(),
    decreases p.len() - off,
{
    if 0 <= off < p.len() && p[off] != 0 && (p[off] as int) < 192 && off + 1 + p[off] as int
        <= p.len() {
        lemma_name_end_bounds(p, off + 1 + p[off] as int);
    }
}

/// The end of a name is found alike in any packet that agrees on the bytes
/// from the name's start up to `hi`, where the name lies.
pub proof fn lemma_name_end_agree(p: Seq<u8>, p2: Seq<u8>, off: int, hi: int)
    requires
        name_end(p, off) matches Some(e) && e <= hi,
        hi <= p2.len(),
        forall|i: int| off <= i < hi ==> p[i] == p2[i],
    ensures
        name_end(p2, off) == name_end(p, off),
    decreases p.len() - off,
{
    lemma_name_end_bounds(p, off);
    assert(p2[off] == p[off]);
    let len = p[off] as int;
    if len != 0 && len < 192 {
        lemma_name_end_agree(p, p2, off + 1 + len, hi);
    }
}

/// A name without pointers ends where its plain reading ends.
pub proof fn lemma_name_end_plain(p: Seq<u8>, off: int)
    requires
        no_pointer(p, off),
        plain_name(p, off) is Some,
    ensures
        name_end(p, off) == Some(plain_name(p, off).unwrap().1),
    decreases p.len() - off,
{
    let len = p[off] as int;
    if len != 0 {
        lemma_name_end_plain(p, off + 1 + len);
    }
}

/// Finds the end of the name at `offset` without following pointers.
pub fn skip_name(packet: &[u8], offset: usize) -> (r: Option<usize>)
    ensures
        match name_end(packet@, offset as int) {
            Some(e) => r matches Some(x) && x == e,
            None => r is None,
        },
{
    let mut off = offset;
    while off < packet.len()
        invariant
            offset <= off,
            name_end(packet@, off as int) == name_end(packet@, offset as int),
        decreases packet@.len() - off,
    {
        let len = packet[off] as usize;
        if len >= 192 {
            proof {
                lemma_name_end_bounds(packet@, off as int);
            }
            if packet.len() - off < 2 {
                return None;
            }
            return Some(off + 2);
        } else if len == 0 {
            return Some(off + 1);
        } else if packet.len() - off - 1 < len {
            return None;
        }
        off = off + 1 + len;
    }
    None
}

} // verus!
