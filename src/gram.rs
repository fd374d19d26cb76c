use vstd::prelude::*;
use vstd::utf8::encode_utf8;

use crate::document::Document;

verus! {

/// Three consecutive bytes of a text, each folded to ASCII lower case.
#[derive(Clone, Copy, Debug, PartialEq, Eq, Structural)]
pub struct Gram {
    pub b0: u8,
    pub b1: u8,
    pub b2: u8,
}

/// ASCII lower-case folding of one byte; other bytes are kept.
pub open spec fn fold_spec(b: u8) -> u8 {
    if 65 <= b && b <= 90 {
        (b + 32) as u8
    } else {
        b
    }
}

pub fn fold(b: u8) -> (r: u8)
    ensures
        r == fold_spec(b),
{
    if 65 <= b && b <= 90 {
        b + 32
    } else {
        b
    }
}

/// The gram that starts at byte `i` of `s`.
pub open spec fn gram_at(s: Seq<u8>, i: int) -> Gram {
    Gram { b0: fold_spec(s[i]), b1: fold_spec(s[i + 1]), b2: fold_spec(s[i + 2]) }
}

/// Every overlapping window of three bytes of `s`, in order.
pub open spec fn grams_of(s: Seq<u8>) -> Seq<Gram> {
    Seq::new(if s.len() >= 3 { (s.len() - 2) as nat } else { 0 }, |i: int| gram_at(s, i))
}

/// The bytes of a text field.
pub open spec fn text_bytes(s: String) -> Seq<u8> {
    encode_utf8(s@)
}

/// The grams of a list of fields, taken field by field.
pub open spec fn fields_grams(fields: Seq<String>) -> Seq<Gram>
    decreases fields.len(),
{
    if fields.len() == 0 {
        Seq::empty()
    } else {
        fields_grams(fields.drop_last()) + grams_of(text_bytes(fields.last()))
    }
}

/// The grams of a document: its title, then each author, then each keyword.
/// Windows never cross from one field into the next.
pub open spec fn document_grams(d: Document) -> Seq<Gram> {
    grams_of(text_bytes(d.title)) + fields_grams(d.authors@) + fields_grams(d.keywords@)
}

/// Appends the grams of `s` to `out`.
pub fn push_grams(out: &mut Vec<Gram>, s: &[u8])
    ensures
        final(out)@ == old(out)@ + grams_of(s@),
{
    let ghost start = old(out)@;
    if s.len() >= 3 {
        let n: usize = s.len() - 2;
        let mut i: usize = 0;
        while i < n
            invariant
                n == s@.len() - 2,
                i <= n,
                out@ =~= start + grams_of(s@).take(i as int),
            decreases n - i,
        {
            out.push(Gram { b0: fold(s[i]), b1: fold(s[i + 1]), b2: fold(s[i + 2]) });
            i = i + 1;
            assert(out@ =~= start + grams_of(s@).take(i as int));
        }
        assert(grams_of(s@).take(n as int) =~= grams_of(s@));
    } else {
        assert(grams_of(s@) =~= Seq::<Gram>::empty());
        assert(out@ =~= start + grams_of(s@));
    }
}

/// The grams of a single piece of text, such as a query.
pub fn grams(s: &[u8]) -> (r: Vec<Gram>)
    ensures
        r@ == grams_of(s@),
{
    let mut r: Vec<Gram> = Vec::new();
    push_grams(&mut r, s);
    assert(r@ =~= grams_of(s@));
    r
}

fn push_fields_grams(out: &mut Vec<Gram>, fields: &Vec<String>)
    ensures
        final(out)@ == old(out)@ + fields_grams(fields@),
{
    let ghost start = old(out)@;
    let mut i: usize = 0;
    while i < fields.len()
        invariant
            i <= fields@.len(),
            out@ =~= start + fields_grams(fields@.take(i as int)),
        decreases fields@.len() - i,
    {
        proof {
            assert(fields@.take(i as int + 1).drop_last() =~= fields@.take(i as int));
        }
        push_grams(out, fields[i].as_str().as_bytes());
        i = i + 1;
    }
    assert(fields@.take(i as int) =~= fields@);
}

/// The grams of a document, as `document_grams` gives them.
pub fn document_grams_of(d: &Document) -> (r: Vec<Gram>)
    ensures
        r@ == document_grams(*d),
{
    let mut r: Vec<Gram> = Vec::new();
    push_grams(&mut r, d.title.as_str().as_bytes());
    push_fields_grams(&mut r, &d.authors);
    push_fields_grams(&mut r, &d.keywords);
    assert(r@ =~= document_grams(*d));
    r
}

} // verus!
