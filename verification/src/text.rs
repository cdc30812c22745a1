//! Turning label bytes into text: UTF-8 decoding, lower-casing, decimal
//! numbers, and joining labels with dots.
use vstd::prelude::*;
use vstd::string::*;
use vstd::utf8::{
    decode_first_scalar, decode_utf8, decode_utf8_split, encode_utf8, encode_utf8_valid_utf8,
    is_ascii_chars, is_char_boundary_iff_not_is_continuation_byte, is_leading_byte_width_1,
    pop_first_scalar, valid_utf8, valid_utf8_split,
};

use crate::name::{
    dotted_labels, dotted_name_wire, labels_fit, labels_writable, last_dot, lemma_last_dot,
    lemma_read_written_name, lemma_split_after_last_dot, lemma_split_dots_len, lemma_split_no_dot,
    read_name, split_dots, trim_end_dots, DOT,
};

verus! {

/// The text that lossy UTF-8 decoding gives for `bytes` that are not valid
/// UTF-8: each invalid sequence becomes U+FFFD.
pub uninterp spec fn lossy_utf8(bytes: Seq<u8>) -> Seq<char>;

/// The Unicode lower-case form of a text that is not all ASCII.
pub uninterp spec fn lowercase(text: Seq<char>) -> Seq<char>;

/// The text of `bytes` decoded lossily: the decoded text for valid UTF-8,
/// and `lossy_utf8` otherwise.
pub open spec fn lossy_text(bytes: Seq<u8>) -> Seq<char> {
    if valid_utf8(bytes) {
        decode_utf8(bytes)
    } else {
        lossy_utf8(bytes)
    }
}

/// `c` with an ASCII capital letter made small.
pub open spec fn ascii_lower(c: char) -> char {
    if 'A' <= c <= 'Z' {
        ((c as u32) + 32) as char
    } else {
        c
    }
}

/// The lower-case form of `text`: for ASCII text each capital letter made
/// small, otherwise `lowercase`.
pub open spec fn lowercase_text(text: Seq<char>) -> Seq<char> {
    if is_ascii_chars(text) {
        text.map_values(|c: char| ascii_lower(c))
    } else {
        lowercase(text)
    }
}

/// The decimal digits of `n`, without leading zeros.
pub open spec fn decimal(n: nat) -> Seq<char>
    decreases n,
{
    if n < 10 {
        seq![(n + 48) as char]
    } else {
        decimal(n / 10).push((n % 10 + 48) as char)
    }
}

/// Pieces of text joined with a dot between neighbours.
pub open spec fn dotted(parts: Seq<Seq<char>>) -> Seq<char>
    decreases parts.len(),
{
    if parts.len() == 0 {
        Seq::empty()
    } else if parts.len() == 1 {
        parts[0]
    } else {
        dotted(parts.drop_last()) + seq!['.'] + parts.last()
    }
}

/// The text held by a sequence of strings.
pub open spec fn texts(v: Seq<String>) -> Seq<Seq<char>> {
    v.map_values(|s: String| s@)
}

/// `String::from_utf8_lossy`: the text of `bytes`, each invalid UTF-8
/// sequence replaced by U+FFFD. Claimed: for valid UTF-8 the result is
/// exactly the decoded text, and otherwise it is `lossy_utf8` of the bytes.
#[verifier::external_body]
pub fn lossy_string(bytes: &[u8]) -> (s: String)
    ensures
        s@ == (if valid_utf8(bytes@) {
            decode_utf8(bytes@)
        } else {
            lossy_utf8(bytes@)
        }),
{
    String::from_utf8_lossy(bytes).into_owned()
}

/// `str::to_lowercase`. Claimed: ASCII text has each capital letter
/// A-Z made small and nothing else changed; other text gives `lowercase`
/// of it.
#[verifier::external_body]
pub fn to_lowercase(text: &str) -> (s: String)
    ensures
        s@ == (if is_ascii_chars(text@) {
            text@.map_values(|c: char| ascii_lower(c))
        } else {
            lowercase(text@)
        }),
{
    text.to_lowercase()
}

/// `std::str::from_utf8`. Claimed: it succeeds exactly on valid UTF-8, and
/// then gives the decoded text.
#[verifier::external_body]
pub fn utf8_string(bytes: &[u8]) -> (r: Option<String>)
    ensures
        r is Some <==> valid_utf8(bytes@),
        r matches Some(s) ==> s@ == decode_utf8(bytes@),
{
    match std::str::from_utf8(bytes) {
        Ok(s) => Some(s.to_string()),
        Err(_) => None,
    }
}

/// Appends the decimal digit `d` to `s`.
fn push_digit(s: &mut String, d: u8)
    requires
        d < 10,
    ensures
        final(s)@ == old(s)@.push((d + 48) as char),
{
    proof {
        reveal_strlit("0");
        reveal_strlit("1");
        reveal_strlit("2");
        reveal_strlit("3");
        reveal_strlit("4");
        reveal_strlit("5");
        reveal_strlit("6");
        reveal_strlit("7");
        reveal_strlit("8");
        reveal_strlit("9");
    }
    let digit = match d {
        0 => "0",
        1 => "1",
        2 => "2",
        3 => "3",
        4 => "4",
        5 => "5",
        6 => "6",
        7 => "7",
        8 => "8",
        _ => "9",
    };
    assert(digit@ == seq![(d + 48) as char]);
    s.append(digit);
}

/// The decimal form of `n`, as `u8::to_string` gives it.
pub fn decimal_string(n: u8) -> (s: String)
    ensures
        s@ == decimal(n as nat),
{
    let mut s = String::new();
    if n >= 100 {
        push_digit(&mut s, n / 100);
    }
    if n >= 10 {
        push_digit(&mut s, (n / 10) % 10);
    }
    push_digit(&mut s, n % 10);
    proof {
        let m = n as nat;
        if m >= 100 {
            assert(decimal(m / 100) == seq![(m / 100 + 48) as char]);
            assert(decimal(m / 10) == decimal(m / 100).push(((m / 10) % 10 + 48) as char)) by {
                assert((m / 10) / 10 == m / 100);
            }
        } else if m >= 10 {
            assert(decimal(m / 10) == seq![(m / 10 + 48) as char]);
        }
        assert(s@ =~= decimal(m));
    }
    s
}

/// Joins `parts` with a dot between neighbours.
pub fn join_dotted(parts: &Vec<String>) -> (r: String)
    ensures
        r@ == dotted(texts(parts@)),
{
    let mut r = String::new();
    let mut i: usize = 0;
    proof {
        reveal_strlit(".");
    }
    assert(texts(parts@).take(0) =~= Seq::<Seq<char>>::empty());
    while i < parts.len()
        invariant
            i <= parts@.len(),
            r@ == dotted(texts(parts@).take(i as int)),
            "."@ == seq!['.'],
        decreases parts@.len() - i,
    {
        let ghost prev = texts(parts@).take(i as int);
        if i > 0 {
            r.append(".");
        }
        r.append(parts[i].as_str());
        proof {
            let next = texts(parts@).take(i + 1);
            assert(next.drop_last() =~= prev);
            assert(next.last() == parts@[i as int]@);
            if i == 0 {
                assert(r@ =~= next[0]);
            } else {
                assert(r@ =~= dotted(prev) + seq!['.'] + next.last());
            }
        }
        i = i + 1;
    }
    assert(texts(parts@).take(i as int) =~= texts(parts@));
    r
}

/// The text of a name read from the wire: each label decoded lossily,
/// joined with dots, and lower-cased.
pub open spec fn name_text(labels: Seq<Seq<u8>>) -> Seq<char> {
    lowercase_text(dotted(labels.map_values(|l: Seq<u8>| lossy_text(l))))
}

/// The text of a name given by its labels, as a name read from the wire
/// is reported: decoded lossily, joined with dots, lower-cased.
pub fn labels_text(labels: &Vec<Vec<u8>>) -> (r: String)
    ensures
        r@ == name_text(labels@.map_values(|l: Vec<u8>| l@)),
{
    let mut parts: Vec<String> = Vec::new();
    let mut i: usize = 0;
    let ghost ls = labels@.map_values(|l: Vec<u8>| l@);
    assert(ls.take(0).map_values(|l: Seq<u8>| lossy_text(l)) =~= texts(parts@));
    while i < labels.len()
        invariant
            i <= labels@.len(),
            ls == labels@.map_values(|l: Vec<u8>| l@),
            parts@.len() == i,
            texts(parts@) == ls.take(i as int).map_values(|l: Seq<u8>| lossy_text(l)),
        decreases labels@.len() - i,
    {
        let s = lossy_string(labels[i].as_slice());
        assert(ls[i as int] == labels@[i as int]@);
        let ghost before = parts@;
        parts.push(s);
        proof {
            let want = ls.take(i + 1).map_values(|l: Seq<u8>| lossy_text(l));
            assert forall|k: int| 0 <= k < want.len() implies #[trigger] texts(parts@)[k]
                == want[k] by {
                if k < i {
                    assert(parts@[k] == before[k]);
                    assert(texts(before)[k] == ls.take(i as int).map_values(
                        |l: Seq<u8>| lossy_text(l),
                    )[k]);
                } else {
                    assert(parts@[k] == s);
                }
            }
            assert(texts(parts@) =~= want);
        }
        i = i + 1;
    }
    assert(ls.take(i as int) =~= ls);
    let joined = join_dotted(&parts);
    to_lowercase(joined.as_str())
}

/// Valid UTF-8 that starts with a dot is the dot followed by valid UTF-8.
proof fn lemma_dot_then_utf8(s: Seq<u8>)
    requires
        valid_utf8(s),
        s.len() > 0,
        s[0] == DOT,
    ensures
        valid_utf8(s.skip(1)),
        decode_utf8(s) == seq!['.'] + decode_utf8(s.skip(1)),
{
    assert(is_leading_byte_width_1(s[0]));
    assert(pop_first_scalar(s) =~= s.skip(1));
    assert(46u8 & 0x7Fu8 == 46u8) by (bit_vector);
    assert(decode_first_scalar(s) == 46u32);
    assert((46u32 as char) == '.');
}

/// Splitting valid UTF-8 at its dots gives valid UTF-8 pieces, whose text
/// joined with dots is the text of the whole.
pub proof fn lemma_pieces_decode(b: Seq<u8>)
    requires
        valid_utf8(b),
    ensures
        forall|i: int| 0 <= i < split_dots(b).len() ==> valid_utf8(#[trigger] split_dots(b)[i]),
        dotted(split_dots(b).map_values(|l: Seq<u8>| decode_utf8(l))) == decode_utf8(b),
    decreases b.len(),
{
    lemma_last_dot(b);
    let i = last_dot(b);
    if i < 0 {
        lemma_split_no_dot(b);
        assert(split_dots(b).map_values(|l: Seq<u8>| decode_utf8(l)) =~= seq![decode_utf8(b)]);
    } else {
        let x = b.subrange(0, i);
        let y = b.subrange(i + 1, b.len() as int);
        assert(b =~= x + seq![DOT] + y);
        assert forall|k: int| 0 <= k < y.len() implies y[k] != DOT by {
            assert(y[k] == b[i + 1 + k]);
        }
        lemma_split_after_last_dot(x, y);
        is_char_boundary_iff_not_is_continuation_byte(b, i);
        valid_utf8_split(b, i);
        decode_utf8_split(b, i);
        let s = b.subrange(i, b.len() as int);
        lemma_dot_then_utf8(s);
        assert(s.skip(1) =~= y);
        lemma_pieces_decode(x);
        lemma_split_dots_len(x);
        let m = split_dots(x).map_values(|l: Seq<u8>| decode_utf8(l));
        assert(split_dots(x).push(y).map_values(|l: Seq<u8>| decode_utf8(l)) =~= m.push(
            decode_utf8(y),
        ));
        assert(m.push(decode_utf8(y)).drop_last() =~= m);
        assert(decode_utf8(b) =~= decode_utf8(x) + seq!['.'] + decode_utf8(y));
        assert forall|k: int| 0 <= k < split_dots(x).push(y).len() implies valid_utf8(
            #[trigger] split_dots(x).push(y)[k],
        ) by {
            if k < split_dots(x).len() {
                assert(split_dots(x).push(y)[k] == split_dots(x)[k]);
            }
        }
    }
}

/// Dropping the trailing dots of valid UTF-8 leaves valid UTF-8.
pub proof fn lemma_trim_valid(b: Seq<u8>)
    requires
        valid_utf8(b),
    ensures
        valid_utf8(trim_end_dots(b)),
    decreases b.len(),
{
    if b.len() > 0 && b.last() == DOT {
        let i = b.len() - 1;
        is_char_boundary_iff_not_is_continuation_byte(b, i);
        valid_utf8_split(b, i);
        assert(b.subrange(0, i) =~= b.drop_last());
        lemma_trim_valid(b.drop_last());
    }
}

/// The text a dotted name reads back as once written and read from the
/// wire: its text without trailing dots, lower-cased.
pub open spec fn read_back_text(name: Seq<char>) -> Seq<char> {
    lowercase_text(decode_utf8(trim_end_dots(encode_utf8(name))))
}

/// The labels of a dotted name, read as text, give the name's text without
/// trailing dots, lower-cased.
pub proof fn lemma_name_text_of_labels(name: Seq<char>)
    ensures
        name_text(dotted_labels(encode_utf8(name))) == read_back_text(name),
{
    let b = encode_utf8(name);
    let t = trim_end_dots(b);
    encode_utf8_valid_utf8(name);
    lemma_trim_valid(b);
    lemma_pieces_decode(t);
    let ls = split_dots(t);
    let lossy = ls.map_values(|l: Seq<u8>| lossy_text(l));
    let exact = ls.map_values(|l: Seq<u8>| decode_utf8(l));
    assert forall|i: int| 0 <= i < ls.len() implies #[trigger] lossy[i] == exact[i] by {
        assert(valid_utf8(ls[i]));
    }
    assert(lossy =~= exact);
}

/// A dotted name written to the end of any bytes reads back, at the place
/// it was written (as `read_dns_name` reads it), as its labels and, in
/// text, as the name without trailing dots, lower-cased; the data after it
/// starts at the end of the bytes. This holds whenever every label is
/// non-empty and at most 63 bytes.
pub proof fn lemma_written_name_reads_back(before: Seq<u8>, name: Seq<char>)
    requires
        labels_writable(dotted_labels(encode_utf8(name))),
    ensures
        dotted_name_wire(encode_utf8(name)) matches Some(w) && read_name(
            before + w,
            before.len() as int,
        ) == Some((dotted_labels(encode_utf8(name)), (before + w).len() as int)) && name_text(
            dotted_labels(encode_utf8(name)),
        ) == read_back_text(name),
{
    let ls = dotted_labels(encode_utf8(name));
    assert(labels_fit(ls));
    let w = dotted_name_wire(encode_utf8(name)).unwrap();
    let p = before + w;
    assert(p.subrange(before.len() as int, (before.len() + w.len()) as int) =~= w);
    lemma_read_written_name(p, before.len() as int, ls);
    lemma_name_text_of_labels(name);
}

} // verus!
