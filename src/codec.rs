use vstd::prelude::*;
use vstd::utf8::{decode_utf8, encode_utf8, encode_utf8_decode_utf8, valid_utf8};

use crate::document::Document;

verus! {

/// A document as plain values: title, authors, keywords, extension, hash.
pub type DocumentView = (Seq<char>, Seq<Seq<char>>, Seq<Seq<char>>, Seq<char>, Seq<u8>);

pub open spec fn strings_view(v: Seq<String>) -> Seq<Seq<char>> {
    v.map_values(|s: String| s@)
}

impl View for Document {
    type V = DocumentView;

    open spec fn view(&self) -> DocumentView {
        (self.title@, strings_view(self.authors@), strings_view(self.keywords@), self.extension@, self.hash@)
    }
}

/// The eight little-endian bytes of `n`.
pub open spec fn le_bytes(n: u64) -> Seq<u8> {
    seq![
        (n & 0xff) as u8,
        ((n >> 8u64) & 0xff) as u8,
        ((n >> 16u64) & 0xff) as u8,
        ((n >> 24u64) & 0xff) as u8,
        ((n >> 32u64) & 0xff) as u8,
        ((n >> 40u64) & 0xff) as u8,
        ((n >> 48u64) & 0xff) as u8,
        ((n >> 56u64) & 0xff) as u8,
    ]
}

/// The number whose little-endian bytes are the first eight of `b`.
pub open spec fn le_value(b: Seq<u8>) -> u64 {
    (b[0] as u64) | ((b[1] as u64) << 8u64) | ((b[2] as u64) << 16u64) | ((b[3] as u64) << 24u64)
        | ((b[4] as u64) << 32u64) | ((b[5] as u64) << 40u64) | ((b[6] as u64) << 48u64) | ((
    b[7] as u64) << 56u64)
}

/// A text field: its byte length, then its UTF-8 bytes.
pub open spec fn encode_text(c: Seq<char>) -> Seq<u8> {
    le_bytes(encode_utf8(c).len() as u64) + encode_utf8(c)
}

/// The encoded fields of `fs`, one after another.
pub open spec fn encode_texts_body(fs: Seq<Seq<char>>) -> Seq<u8>
    decreases fs.len(),
{
    if fs.len() == 0 {
        Seq::empty()
    } else {
        encode_text(fs[0]) + encode_texts_body(fs.skip(1))
    }
}

/// A list of text fields: its length, then each field.
pub open spec fn encode_texts(fs: Seq<Seq<char>>) -> Seq<u8> {
    le_bytes(fs.len() as u64) + encode_texts_body(fs)
}

/// The stored form of a document: title, authors, keywords, extension, then
/// the 32 hash bytes as they are.
pub open spec fn encode_document(d: DocumentView) -> Seq<u8> {
    encode_text(d.0) + encode_texts(d.1) + encode_texts(d.2) + encode_text(d.3) + d.4
}

/// A document whose every length fits the eight bytes that record it.
pub open spec fn encodable(d: DocumentView) -> bool {
    &&& encode_utf8(d.0).len() < 0x1_0000_0000_0000_0000
    &&& encode_utf8(d.3).len() < 0x1_0000_0000_0000_0000
    &&& d.1.len() < 0x1_0000_0000_0000_0000
    &&& d.2.len() < 0x1_0000_0000_0000_0000
    &&& forall|i: int| 0 <= i < d.1.len() ==> encode_utf8(#[trigger] d.1[i]).len() < 0x1_0000_0000_0000_0000
    &&& forall|i: int| 0 <= i < d.2.len() ==> encode_utf8(#[trigger] d.2[i]).len() < 0x1_0000_0000_0000_0000
    &&& d.4.len() == 32
}

pub proof fn lemma_le_round_trip(n: u64)
    ensures
        le_value(le_bytes(n)) == n,
{
    let b = le_bytes(n);
    assert(((n & 0xff) as u8 as u64) | ((((n >> 8u64) & 0xff) as u8 as u64) << 8u64) | ((((n
        >> 16u64) & 0xff) as u8 as u64) << 16u64) | ((((n >> 24u64) & 0xff) as u8 as u64) << 24u64)
        | ((((n >> 32u64) & 0xff) as u8 as u64) << 32u64) | ((((n >> 40u64) & 0xff) as u8 as u64)
        << 40u64) | ((((n >> 48u64) & 0xff) as u8 as u64) << 48u64) | ((((n >> 56u64) & 0xff) as u8
        as u64) << 56u64) == n) by (bit_vector);
}

pub proof fn lemma_le_bytes_of_value(b: Seq<u8>)
    requires
        b.len() == 8,
    ensures
        le_bytes(le_value(b)) == b,
{
    let (b0, b1, b2, b3, b4, b5, b6, b7) = (b[0], b[1], b[2], b[3], b[4], b[5], b[6], b[7]);
    let v = le_value(b);
    assert(v == (b0 as u64) | ((b1 as u64) << 8u64) | ((b2 as u64) << 16u64) | ((b3 as u64)
        << 24u64) | ((b4 as u64) << 32u64) | ((b5 as u64) << 40u64) | ((b6 as u64) << 48u64) | ((
    b7 as u64) << 56u64));
    assert(v == (b0 as u64) | ((b1 as u64) << 8u64) | ((b2 as u64) << 16u64) | ((b3 as u64)
        << 24u64) | ((b4 as u64) << 32u64) | ((b5 as u64) << 40u64) | ((b6 as u64) << 48u64) | ((
    b7 as u64) << 56u64) ==> (v & 0xff) as u8 == b0 && ((v >> 8u64) & 0xff) as u8 == b1 && ((v
        >> 16u64) & 0xff) as u8 == b2 && ((v >> 24u64) & 0xff) as u8 == b3 && ((v >> 32u64) & 0xff)
        as u8 == b4 && ((v >> 40u64) & 0xff) as u8 == b5 && ((v >> 48u64) & 0xff) as u8 == b6 && ((v
        >> 56u64) & 0xff) as u8 == b7) by (bit_vector);
    assert(le_bytes(v) =~= b);
}

proof fn lemma_text_prefix(a: Seq<char>, b: Seq<char>, r1: Seq<u8>, r2: Seq<u8>)
    requires
        encode_utf8(a).len() < 0x1_0000_0000_0000_0000,
        encode_utf8(b).len() < 0x1_0000_0000_0000_0000,
        encode_text(a) + r1 == encode_text(b) + r2,
    ensures
        a == b,
        r1 == r2,
{
    let x = encode_text(a) + r1;
    let y = encode_text(b) + r2;
    let la = encode_utf8(a).len();
    let lb = encode_utf8(b).len();
    assert(x.take(8) =~= le_bytes(la as u64));
    assert(y.take(8) =~= le_bytes(lb as u64));
    lemma_le_round_trip(la as u64);
    lemma_le_round_trip(lb as u64);
    assert(la == lb);
    assert(x.subrange(8, 8 + la as int) =~= encode_utf8(a));
    assert(y.subrange(8, 8 + lb as int) =~= encode_utf8(b));
    encode_utf8_decode_utf8(a);
    encode_utf8_decode_utf8(b);
    assert(x.skip(8 + la as int) =~= r1);
    assert(y.skip(8 + lb as int) =~= r2);
}

proof fn lemma_body_prefix(f1: Seq<Seq<char>>, f2: Seq<Seq<char>>, r1: Seq<u8>, r2: Seq<u8>)
    requires
        f1.len() == f2.len(),
        forall|i: int| 0 <= i < f1.len() ==> encode_utf8(#[trigger] f1[i]).len() < 0x1_0000_0000_0000_0000,
        forall|i: int| 0 <= i < f2.len() ==> encode_utf8(#[trigger] f2[i]).len() < 0x1_0000_0000_0000_0000,
        encode_texts_body(f1) + r1 == encode_texts_body(f2) + r2,
    ensures
        f1 == f2,
        r1 == r2,
    decreases f1.len(),
{
    if f1.len() == 0 {
        assert(encode_texts_body(f1) + r1 =~= r1);
        assert(encode_texts_body(f2) + r2 =~= r2);
        assert(f1 =~= f2);
    } else {
        let t1 = encode_texts_body(f1.skip(1)) + r1;
        let t2 = encode_texts_body(f2.skip(1)) + r2;
        assert(encode_texts_body(f1) + r1 =~= encode_text(f1[0]) + t1);
        assert(encode_texts_body(f2) + r2 =~= encode_text(f2[0]) + t2);
        lemma_text_prefix(f1[0], f2[0], t1, t2);
        assert forall|i: int| 0 <= i < f1.skip(1).len() implies encode_utf8(
            #[trigger] f1.skip(1)[i],
        ).len() < 0x1_0000_0000_0000_0000 by {
            assert(f1.skip(1)[i] == f1[i + 1]);
        }
        assert forall|i: int| 0 <= i < f2.skip(1).len() implies encode_utf8(
            #[trigger] f2.skip(1)[i],
        ).len() < 0x1_0000_0000_0000_0000 by {
            assert(f2.skip(1)[i] == f2[i + 1]);
        }
        lemma_body_prefix(f1.skip(1), f2.skip(1), r1, r2);
        assert(f1 =~= seq![f1[0]] + f1.skip(1));
        assert(f2 =~= seq![f2[0]] + f2.skip(1));
    }
}

proof fn lemma_texts_prefix(f1: Seq<Seq<char>>, f2: Seq<Seq<char>>, r1: Seq<u8>, r2: Seq<u8>)
    requires
        f1.len() < 0x1_0000_0000_0000_0000,
        f2.len() < 0x1_0000_0000_0000_0000,
        forall|i: int| 0 <= i < f1.len() ==> encode_utf8(#[trigger] f1[i]).len() < 0x1_0000_0000_0000_0000,
        forall|i: int| 0 <= i < f2.len() ==> encode_utf8(#[trigger] f2[i]).len() < 0x1_0000_0000_0000_0000,
        encode_texts(f1) + r1 == encode_texts(f2) + r2,
    ensures
        f1 == f2,
        r1 == r2,
{
    let x = encode_texts(f1) + r1;
    let y = encode_texts(f2) + r2;
    assert(x.take(8) =~= le_bytes(f1.len() as u64));
    assert(y.take(8) =~= le_bytes(f2.len() as u64));
    lemma_le_round_trip(f1.len() as u64);
    lemma_le_round_trip(f2.len() as u64);
    assert(x.skip(8) =~= encode_texts_body(f1) + r1);
    assert(y.skip(8) =~= encode_texts_body(f2) + r2);
    lemma_body_prefix(f1, f2, r1, r2);
}

/// Two documents with the same stored form are the same document: what is
/// read back from the store is what was written to it.
pub proof fn lemma_encoding_injective(d1: DocumentView, d2: DocumentView)
    requires
        encodable(d1),
        encodable(d2),
        encode_document(d1) == encode_document(d2),
    ensures
        d1 == d2,
{
    let a1 = encode_texts(d1.1) + encode_texts(d1.2) + encode_text(d1.3) + d1.4;
    let a2 = encode_texts(d2.1) + encode_texts(d2.2) + encode_text(d2.3) + d2.4;
    assert(encode_document(d1) =~= encode_text(d1.0) + a1);
    assert(encode_document(d2) =~= encode_text(d2.0) + a2);
    lemma_text_prefix(d1.0, d2.0, a1, a2);
    let b1 = encode_texts(d1.2) + encode_text(d1.3) + d1.4;
    let b2 = encode_texts(d2.2) + encode_text(d2.3) + d2.4;
    assert(a1 =~= encode_texts(d1.1) + b1);
    assert(a2 =~= encode_texts(d2.1) + b2);
    lemma_texts_prefix(d1.1, d2.1, b1, b2);
    let c1 = encode_text(d1.3) + d1.4;
    let c2 = encode_text(d2.3) + d2.4;
    assert(b1 =~= encode_texts(d1.2) + c1);
    assert(b2 =~= encode_texts(d2.2) + c2);
    lemma_texts_prefix(d1.2, d2.2, c1, c2);
    lemma_text_prefix(d1.3, d2.3, d1.4, d2.4);
}

proof fn lemma_body_push(fs: Seq<Seq<char>>, x: Seq<char>)
    ensures
        encode_texts_body(fs.push(x)) == encode_texts_body(fs) + encode_text(x),
    decreases fs.len(),
{
    if fs.len() == 0 {
        assert(fs.push(x).skip(1) =~= Seq::<Seq<char>>::empty());
        assert(encode_texts_body(fs.push(x).skip(1)) == Seq::<u8>::empty());
        assert(fs.push(x)[0] == x);
        assert(encode_texts_body(fs) == Seq::<u8>::empty());
        assert(encode_texts_body(fs.push(x)) =~= encode_texts_body(fs) + encode_text(x));
    } else {
        assert(fs.push(x).skip(1) =~= fs.skip(1).push(x));
        lemma_body_push(fs.skip(1), x);
        assert(fs.push(x)[0] == fs[0]);
        assert(encode_texts_body(fs.push(x)) =~= encode_texts_body(fs) + encode_text(x));
    }
}

fn push_le(out: &mut Vec<u8>, n: u64)
    ensures
        final(out)@ == old(out)@ + le_bytes(n),
{
    out.push((n & 0xff) as u8);
    out.push(((n >> 8u64) & 0xff) as u8);
    out.push(((n >> 16u64) & 0xff) as u8);
    out.push(((n >> 24u64) & 0xff) as u8);
    out.push(((n >> 32u64) & 0xff) as u8);
    out.push(((n >> 40u64) & 0xff) as u8);
    out.push(((n >> 48u64) & 0xff) as u8);
    out.push(((n >> 56u64) & 0xff) as u8);
    assert(final(out)@ =~= old(out)@ + le_bytes(n));
}

fn push_bytes(out: &mut Vec<u8>, b: &[u8])
    ensures
        final(out)@ == old(out)@ + b@,
{
    let ghost start = old(out)@;
    let mut i: usize = 0;
    while i < b.len()
        invariant
            i <= b@.len(),
            out@ =~= start + b@.take(i as int),
        decreases b@.len() - i,
    {
        out.push(b[i]);
        i = i + 1;
    }
    assert(b@.take(i as int) =~= b@);
}

fn push_text(out: &mut Vec<u8>, s: &String)
    requires
        encode_utf8(s@).len() < 0x1_0000_0000_0000_0000,
    ensures
        final(out)@ == old(out)@ + encode_text(s@),
{
    let b = s.as_str().as_bytes();
    push_le(out, b.len() as u64);
    push_bytes(out, b);
    assert(final(out)@ =~= old(out)@ + encode_text(s@));
}

fn push_texts(out: &mut Vec<u8>, v: &Vec<String>)
    requires
        v@.len() < 0x1_0000_0000_0000_0000,
        forall|i: int| 0 <= i < v@.len() ==> encode_utf8(#[trigger] v@[i]@).len() < 0x1_0000_0000_0000_0000,
    ensures
        final(out)@ == old(out)@ + encode_texts(strings_view(v@)),
{
    let ghost start = old(out)@;
    push_le(out, v.len() as u64);
    let mut i: usize = 0;
    while i < v.len()
        invariant
            i <= v@.len(),
            v@.len() < 0x1_0000_0000_0000_0000,
            forall|j: int| 0 <= j < v@.len() ==> encode_utf8(#[trigger] v@[j]@).len() < 0x1_0000_0000_0000_0000,
            out@ =~= start + le_bytes(v@.len() as u64) + encode_texts_body(strings_view(v@).take(i as int)),
        decreases v@.len() - i,
    {
        proof {
            assert(strings_view(v@).take(i as int + 1) =~= strings_view(v@).take(i as int).push(v@[i as int]@));
            lemma_body_push(strings_view(v@).take(i as int), v@[i as int]@);
        }
        push_text(out, &v[i]);
        i = i + 1;
    }
    assert(strings_view(v@).take(i as int) =~= strings_view(v@));
}

/// The stored form of `d`.
pub fn encode(d: &Document) -> (r: Vec<u8>)
    requires
        encodable(d@),
    ensures
        r@ == encode_document(d@),
{
    let mut r: Vec<u8> = Vec::new();
    push_text(&mut r, &d.title);
    proof {
        assert forall|i: int| 0 <= i < d.authors@.len() implies encode_utf8(#[trigger] d.authors@[i]@).len()
            < 0x1_0000_0000_0000_0000 by {
            assert(strings_view(d.authors@)[i] == d.authors@[i]@);
        }
        assert forall|i: int| 0 <= i < d.keywords@.len() implies encode_utf8(
            #[trigger] d.keywords@[i]@,
        ).len() < 0x1_0000_0000_0000_0000 by {
            assert(strings_view(d.keywords@)[i] == d.keywords@[i]@);
        }
    }
    push_texts(&mut r, &d.authors);
    push_texts(&mut r, &d.keywords);
    push_text(&mut r, &d.extension);
    push_bytes(&mut r, d.hash.as_slice());
    assert(r@ =~= encode_document(d@));
    r
}

/// Relies on String::from_utf8: it succeeds exactly on valid UTF-8, and the
/// string then holds the characters that the bytes encode.
#[verifier::external_body]
fn string_from_utf8(v: Vec<u8>) -> (r: Option<String>)
    ensures
        r is Some <==> valid_utf8(v@),
        r is Some ==> r->0@ == decode_utf8(v@),
{
    String::from_utf8(v).ok()
}

fn read_le(b: &[u8], pos: usize) -> (r: u64)
    requires
        pos + 8 <= b@.len(),
    ensures
        r == le_value(b@.subrange(pos as int, pos + 8)),
{
    (b[pos] as u64) | ((b[pos + 1] as u64) << 8u64) | ((b[pos + 2] as u64) << 16u64) | ((b[pos
        + 3] as u64) << 24u64) | ((b[pos + 4] as u64) << 32u64) | ((b[pos + 5] as u64) << 40u64)
        | ((b[pos + 6] as u64) << 48u64) | ((b[pos + 7] as u64) << 56u64)
}

/// `b` holds the stored form of text `c` from `pos` on.
pub open spec fn text_at(b: Seq<u8>, pos: int, c: Seq<char>) -> bool {
    &&& encode_utf8(c).len() < 0x1_0000_0000_0000_0000
    &&& 0 <= pos
    &&& pos + encode_text(c).len() <= b.len()
    &&& b.subrange(pos, pos + encode_text(c).len()) == encode_text(c)
}

proof fn lemma_text_at(b: Seq<u8>, pos: int, c: Seq<char>)
    requires
        text_at(b, pos, c),
    ensures
        pos + 8 + encode_utf8(c).len() <= b.len(),
        le_value(b.subrange(pos, pos + 8)) == encode_utf8(c).len(),
        b.subrange(pos + 8, pos + 8 + encode_utf8(c).len()) == encode_utf8(c),
{
    let l = encode_utf8(c).len();
    let e = encode_text(c);
    assert(b.subrange(pos, pos + 8) =~= e.subrange(0, 8));
    assert(e.subrange(0, 8) =~= le_bytes(l as u64));
    lemma_le_round_trip(l as u64);
    assert(b.subrange(pos + 8, pos + 8 + l) =~= e.subrange(8, 8 + l as int));
    assert(e.subrange(8, 8 + l as int) =~= encode_utf8(c));
}

fn read_text(b: &[u8], pos: usize) -> (r: Option<(String, usize)>)
    requires
        pos <= b@.len(),
    ensures
        r matches Some((s, p)) ==> pos <= p <= b@.len() && b@.subrange(pos as int, p as int)
            == encode_text(s@) && encode_utf8(s@).len() < 0x1_0000_0000_0000_0000,
        forall|c: Seq<char>|
            #[trigger] text_at(b@, pos as int, c) ==> (r matches Some((s, p)) && s@ == c && p == pos
                + encode_text(c).len()),
{
    if b.len() - pos < 8 {
        proof {
            assert forall|c: Seq<char>| !#[trigger] text_at(b@, pos as int, c) by {
                if text_at(b@, pos as int, c) {
                    lemma_text_at(b@, pos as int, c);
                }
            }
        }
        return None;
    }
    let n = read_le(b, pos);
    let start = pos + 8;
    if ((b.len() - start) as u64) < n {
        proof {
            assert forall|c: Seq<char>| !#[trigger] text_at(b@, pos as int, c) by {
                if text_at(b@, pos as int, c) {
                    lemma_text_at(b@, pos as int, c);
                }
            }
        }
        return None;
    }
    let end = start + n as usize;
    let mut v: Vec<u8> = Vec::new();
    let mut i: usize = start;
    while i < end
        invariant
            start <= i <= end,
            end <= b@.len(),
            v@ =~= b@.subrange(start as int, i as int),
        decreases end - i,
    {
        v.push(b[i]);
        i = i + 1;
    }
    match string_from_utf8(v) {
        Some(s) => {
            proof {
                vstd::utf8::decode_utf8_encode_utf8(v@);
                lemma_le_bytes_of_value(b@.subrange(pos as int, pos + 8));
                assert(v@ =~= b@.subrange(start as int, end as int));
                assert(b@.subrange(pos as int, end as int) =~= encode_text(s@));
                assert forall|c: Seq<char>| #[trigger] text_at(b@, pos as int, c) implies s@ == c
                    && end == pos + encode_text(c).len() by {
                    lemma_text_at(b@, pos as int, c);
                    encode_utf8_decode_utf8(c);
                }
            }
            Some((s, end))
        },
        None => {
            proof {
                assert forall|c: Seq<char>| !#[trigger] text_at(b@, pos as int, c) by {
                    if text_at(b@, pos as int, c) {
                        lemma_text_at(b@, pos as int, c);
                        vstd::utf8::encode_utf8_valid_utf8(c);
                        assert(v@ =~= encode_utf8(c));
                    }
                }
            }
            None
        },
    }
}

/// `b` holds the stored form of the list of texts `fs` from `pos` on.
pub open spec fn texts_at(b: Seq<u8>, pos: int, fs: Seq<Seq<char>>) -> bool {
    &&& fs.len() < 0x1_0000_0000_0000_0000
    &&& forall|i: int| 0 <= i < fs.len() ==> encode_utf8(#[trigger] fs[i]).len() < 0x1_0000_0000_0000_0000
    &&& 0 <= pos
    &&& pos + encode_texts(fs).len() <= b.len()
    &&& b.subrange(pos, pos + encode_texts(fs).len()) == encode_texts(fs)
}

proof fn lemma_body_split(fs: Seq<Seq<char>>, i: int)
    requires
        0 <= i <= fs.len(),
    ensures
        encode_texts_body(fs) == encode_texts_body(fs.take(i)) + encode_texts_body(fs.skip(i)),
    decreases i,
{
    if i == 0 {
        assert(fs.take(0) =~= Seq::<Seq<char>>::empty());
        assert(fs.skip(0) =~= fs);
        assert(encode_texts_body(fs.take(0)) == Seq::<u8>::empty());
        assert(encode_texts_body(fs) =~= Seq::<u8>::empty() + encode_texts_body(fs));
    } else {
        lemma_body_split(fs.skip(1), i - 1);
        assert(fs.take(i).skip(1) =~= fs.skip(1).take(i - 1));
        assert(fs.skip(1).skip(i - 1) =~= fs.skip(i));
        assert(fs.take(i)[0] == fs[0]);
        assert(encode_texts_body(fs.take(i)) == encode_text(fs[0]) + encode_texts_body(fs.take(i).skip(1)));
        assert(encode_texts_body(fs) =~= encode_texts_body(fs.take(i)) + encode_texts_body(fs.skip(i)));
    }
}

proof fn lemma_texts_step(b: Seq<u8>, pos: int, fs: Seq<Seq<char>>, i: int, p: int)
    requires
        texts_at(b, pos, fs),
        0 <= i < fs.len(),
        p == pos + 8 + encode_texts_body(fs.take(i)).len(),
    ensures
        text_at(b, p, fs[i]),
        encode_texts_body(fs.take(i + 1)) == encode_texts_body(fs.take(i)) + encode_text(fs[i]),
{
    lemma_body_split(fs, i);
    let rest = fs.skip(i);
    assert(rest.skip(1) =~= fs.skip(i + 1));
    assert(rest[0] == fs[i]);
    assert(encode_texts_body(rest) == encode_text(fs[i]) + encode_texts_body(fs.skip(i + 1)));
    let e = encode_texts(fs);
    let pre = encode_texts_body(fs.take(i));
    let t = encode_text(fs[i]);
    assert(e =~= le_bytes(fs.len() as u64) + pre + t + encode_texts_body(fs.skip(i + 1)));
    let a: int = 8 + pre.len() as int;
    assert(b.subrange(p, p + t.len()) =~= e.subrange(a, a + t.len()));
    assert(e.subrange(a, a + t.len()) =~= t);
    assert(fs.take(i + 1) =~= fs.take(i).push(fs[i]));
    lemma_body_push(fs.take(i), fs[i]);
}

fn read_texts(b: &[u8], pos: usize) -> (r: Option<(Vec<String>, usize)>)
    requires
        pos <= b@.len(),
    ensures
        r matches Some((v, p)) ==> {
            &&& pos <= p <= b@.len()
            &&& b@.subrange(pos as int, p as int) == encode_texts(strings_view(v@))
            &&& v@.len() < 0x1_0000_0000_0000_0000
            &&& forall|i: int| 0 <= i < v@.len() ==> encode_utf8(#[trigger] v@[i]@).len() < 0x1_0000_0000_0000_0000
        },
        forall|fs: Seq<Seq<char>>|
            #[trigger] texts_at(b@, pos as int, fs) ==> (r matches Some((v, p)) && strings_view(v@)
                == fs && p == pos + encode_texts(fs).len()),
{
    if b.len() - pos < 8 {
        return None;
    }
    let n = read_le(b, pos);
    proof {
        assert forall|fs: Seq<Seq<char>>| #[trigger] texts_at(b@, pos as int, fs) implies n == fs.len() by {
            let e = encode_texts(fs);
            assert(b@.subrange(pos as int, pos + 8) =~= e.subrange(0, 8));
            assert(e.subrange(0, 8) =~= le_bytes(fs.len() as u64));
            lemma_le_round_trip(fs.len() as u64);
        }
    }
    let mut p: usize = pos + 8;
    let mut v: Vec<String> = Vec::new();
    let mut i: u64 = 0;
    while i < n
        invariant
            pos + 8 <= p <= b@.len(),
            v@.len() == i,
            i <= n,
            b@.subrange(pos as int + 8, p as int) == encode_texts_body(strings_view(v@)),
            forall|j: int| 0 <= j < v@.len() ==> encode_utf8(#[trigger] v@[j]@).len() < 0x1_0000_0000_0000_0000,
            forall|fs: Seq<Seq<char>>|
                #[trigger] texts_at(b@, pos as int, fs) ==> n == fs.len() && strings_view(v@) == fs.take(
                    i as int,
                ) && p == pos + 8 + encode_texts_body(fs.take(i as int)).len(),
        decreases n - i,
    {
        proof {
            assert forall|fs: Seq<Seq<char>>| #[trigger] texts_at(b@, pos as int, fs) implies text_at(
                b@,
                p as int,
                fs[i as int],
            ) by {
                lemma_texts_step(b@, pos as int, fs, i as int, p as int);
            }
        }
        match read_text(b, p) {
            Some((s, p2)) => {
                proof {
                    assert forall|fs: Seq<Seq<char>>| #[trigger] texts_at(b@, pos as int, fs) implies n
                        == fs.len() && strings_view(v@.push(s)) == fs.take(i + 1) && p2 == pos + 8
                        + encode_texts_body(fs.take(i + 1)).len() by {
                        lemma_texts_step(b@, pos as int, fs, i as int, p as int);
                        assert(text_at(b@, p as int, fs[i as int]));
                        assert(strings_view(v@.push(s)) =~= strings_view(v@).push(s@));
                        assert(fs.take(i + 1) =~= fs.take(i as int).push(fs[i as int]));
                    }
                    lemma_body_push(strings_view(v@), s@);
                    assert(strings_view(v@.push(s)) =~= strings_view(v@).push(s@));
                    assert(b@.subrange(pos as int + 8, p2 as int) =~= b@.subrange(pos as int + 8, p as int)
                        + b@.subrange(p as int, p2 as int));
                }
                v.push(s);
                p = p2;
                i = i + 1;
            },
            None => {
                proof {
                    assert forall|fs: Seq<Seq<char>>| !#[trigger] texts_at(b@, pos as int, fs) by {
                        if texts_at(b@, pos as int, fs) {
                            assert(text_at(b@, p as int, fs[i as int]));
                        }
                    }
                }
                return None;
            },
        }
    }
    proof {
        assert forall|fs: Seq<Seq<char>>| #[trigger] texts_at(b@, pos as int, fs) implies strings_view(v@)
            == fs && p == pos + encode_texts(fs).len() by {
            assert(fs.take(i as int) =~= fs);
        }
        lemma_le_bytes_of_value(b@.subrange(pos as int, pos + 8));
        assert(b@.subrange(pos as int, p as int) =~= b@.subrange(pos as int, pos + 8) + b@.subrange(
            pos as int + 8,
            p as int,
        ));
    }
    Some((v, p))
}

proof fn lemma_document_at(b: Seq<u8>, d: DocumentView)
    requires
        encodable(d),
        encode_document(d) == b,
    ensures
        text_at(b, 0, d.0),
        texts_at(b, encode_text(d.0).len() as int, d.1),
        texts_at(b, (encode_text(d.0).len() + encode_texts(d.1).len()) as int, d.2),
        text_at(b, (encode_text(d.0).len() + encode_texts(d.1).len() + encode_texts(d.2).len()) as int, d.3),
        b.len() == encode_text(d.0).len() + encode_texts(d.1).len() + encode_texts(d.2).len()
            + encode_text(d.3).len() + 32,
        b.subrange(b.len() - 32, b.len() as int) == d.4,
{
    let l0 = encode_text(d.0).len() as int;
    let l1 = encode_texts(d.1).len() as int;
    let l2 = encode_texts(d.2).len() as int;
    let l3 = encode_text(d.3).len() as int;
    assert(b.subrange(0, l0) =~= encode_text(d.0));
    assert(b.subrange(l0, l0 + l1) =~= encode_texts(d.1));
    assert(b.subrange(l0 + l1, l0 + l1 + l2) =~= encode_texts(d.2));
    assert(b.subrange(l0 + l1 + l2, l0 + l1 + l2 + l3) =~= encode_text(d.3));
    assert(b.subrange(b.len() - 32, b.len() as int) =~= d.4);
}

/// Reads a document back from its stored form: it succeeds exactly on the
/// stored form of a document, and gives back that document.
pub fn decode(b: &[u8]) -> (r: Option<Document>)
    ensures
        r matches Some(d) ==> encodable(d@) && encode_document(d@) == b@,
        forall|d: DocumentView|
            encodable(d) && #[trigger] encode_document(d) == b@ ==> (r matches Some(x) && x@ == d),
{
    let (title, p1) = match read_text(b, 0) {
        Some(x) => x,
        None => {
            proof {
                assert forall|d: DocumentView| encodable(d) && #[trigger] encode_document(d) == b@ implies false by {
                    lemma_document_at(b@, d);
                }
            }
            return None;
        },
    };
    let (authors, p2) = match read_texts(b, p1) {
        Some(x) => x,
        None => {
            proof {
                assert forall|d: DocumentView| encodable(d) && #[trigger] encode_document(d) == b@ implies false by {
                    lemma_document_at(b@, d);
                }
            }
            return None;
        },
    };
    let (keywords, p3) = match read_texts(b, p2) {
        Some(x) => x,
        None => {
            proof {
                assert forall|d: DocumentView| encodable(d) && #[trigger] encode_document(d) == b@ implies false by {
                    lemma_document_at(b@, d);
                }
            }
            return None;
        },
    };
    let (extension, p4) = match read_text(b, p3) {
        Some(x) => x,
        None => {
            proof {
                assert forall|d: DocumentView| encodable(d) && #[trigger] encode_document(d) == b@ implies false by {
                    lemma_document_at(b@, d);
                }
            }
            return None;
        },
    };
    if b.len() - p4 != 32 {
        proof {
            assert forall|d: DocumentView| encodable(d) && #[trigger] encode_document(d) == b@ implies false by {
                lemma_document_at(b@, d);
            }
        }
        return None;
    }
    let mut hash: [u8; 32] = [0u8; 32];
    let mut i: usize = 0;
    while i < 32
        invariant
            p4 + 32 == b@.len(),
            b@.len() == b.len(),
            i <= 32,
            forall|j: int| 0 <= j < i ==> hash@[j] == b@[p4 + j],
        decreases 32 - i,
    {
        hash[i] = b[p4 + i];
        i = i + 1;
    }
    let d = Document { title, authors, keywords, extension, hash };
    proof {
        assert(hash@ =~= b@.subrange(p4 as int, b@.len() as int));
        assert forall|j: int| 0 <= j < d@.1.len() implies encode_utf8(#[trigger] d@.1[j]).len()
            < 0x1_0000_0000_0000_0000 by {
            assert(d@.1[j] == authors@[j]@);
        }
        assert forall|j: int| 0 <= j < d@.2.len() implies encode_utf8(#[trigger] d@.2[j]).len()
            < 0x1_0000_0000_0000_0000 by {
            assert(d@.2[j] == keywords@[j]@);
        }
        assert(b@ =~= b@.subrange(0, p1 as int) + b@.subrange(p1 as int, p2 as int) + b@.subrange(
            p2 as int,
            p3 as int,
        ) + b@.subrange(p3 as int, p4 as int) + b@.subrange(p4 as int, b@.len() as int));
        assert forall|e: DocumentView| encodable(e) && #[trigger] encode_document(e) == b@ implies d@
            == e by {
            lemma_document_at(b@, e);
        }
    }
    Some(d)
}

} // verus!
