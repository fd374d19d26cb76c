use vstd::prelude::*;

verus! {

/// A stored document's metadata. The `hash` is the 32-byte digest of the
/// document's file content and is the key under which duplicates are refused.
#[derive(Clone, Debug)]
pub struct Document {
    pub title: String,
    pub authors: Vec<String>,
    pub keywords: Vec<String>,
    pub extension: String,
    pub hash: [u8; 32],
}

impl Document {
    pub fn new(
        title: String,
        authors: Vec<String>,
        keywords: Vec<String>,
        hash: [u8; 32],
        extension: String,
    ) -> (r: Self)
        ensures
            r.title@ == title@,
            r.authors@ == authors@,
            r.keywords@ == keywords@,
            r.extension@ == extension@,
            r.hash@ == hash@,
    {
        Document { title, authors, keywords, extension, hash }
    }
}

} // verus!
