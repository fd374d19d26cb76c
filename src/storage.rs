use vstd::prelude::*;

use crate::codec::{decode, encodable, encode, encode_document, lemma_encoding_injective, DocumentView};
use crate::document::Document;

verus! {

/// An identifier handed out by the store: a counter value in big-endian bytes,
/// so that the byte order of identifiers is their numeric order.
#[derive(Clone, Copy, Debug, PartialEq, Eq, PartialOrd, Ord, Hash)]
pub struct DocumentId(pub [u8; 8]);

pub open spec fn be_value(b: Seq<u8>) -> u64 {
    ((b[0] as u64) << 56u64) | ((b[1] as u64) << 48u64) | ((b[2] as u64) << 40u64) | ((b[3] as u64)
        << 32u64) | ((b[4] as u64) << 24u64) | ((b[5] as u64) << 16u64) | ((b[6] as u64) << 8u64)
        | (b[7] as u64)
}

impl DocumentId {
    /// The counter value that the identifier's bytes stand for.
    pub open spec fn key(self) -> int {
        be_value(self.0@) as int
    }

    pub fn value(&self) -> (r: u64)
        ensures
            r == self.key(),
    {
        let b = self.0;
        ((b[0] as u64) << 56u64) | ((b[1] as u64) << 48u64) | ((b[2] as u64) << 40u64) | ((
        b[3] as u64) << 32u64) | ((b[4] as u64) << 24u64) | ((b[5] as u64) << 16u64) | ((
        b[6] as u64) << 8u64) | (b[7] as u64)
    }

    /// The identifier of counter value `n`.
    pub fn from_value(n: u64) -> (r: Self)
        ensures
            r.key() == n,
    {
        let r = DocumentId(
            [
                ((n >> 56u64) & 0xff) as u8,
                ((n >> 48u64) & 0xff) as u8,
                ((n >> 40u64) & 0xff) as u8,
                ((n >> 32u64) & 0xff) as u8,
                ((n >> 24u64) & 0xff) as u8,
                ((n >> 16u64) & 0xff) as u8,
                ((n >> 8u64) & 0xff) as u8,
                (n & 0xff) as u8,
            ],
        );
        assert(((((n >> 56u64) & 0xff) as u8 as u64) << 56u64) | ((((n >> 48u64) & 0xff) as u8
            as u64) << 48u64) | ((((n >> 40u64) & 0xff) as u8 as u64) << 40u64) | ((((n >> 32u64)
            & 0xff) as u8 as u64) << 32u64) | ((((n >> 24u64) & 0xff) as u8 as u64) << 24u64) | ((((n
            >> 16u64) & 0xff) as u8 as u64) << 16u64) | ((((n >> 8u64) & 0xff) as u8 as u64) << 8u64)
            | ((n & 0xff) as u8 as u64) == n) by (bit_vector);
        r
    }
}

/// Distinct identifiers have distinct counter values.
pub proof fn lemma_key_injective(a: DocumentId, b: DocumentId)
    requires
        a.key() == b.key(),
    ensures
        a.0@ == b.0@,
{
    let (a0, a1, a2, a3, a4, a5, a6, a7) = (a.0[0], a.0[1], a.0[2], a.0[3], a.0[4], a.0[5], a.0[6], a.0[7]);
    let (b0, b1, b2, b3, b4, b5, b6, b7) = (b.0[0], b.0[1], b.0[2], b.0[3], b.0[4], b.0[5], b.0[6], b.0[7]);
    assert(((a0 as u64) << 56u64) | ((a1 as u64) << 48u64) | ((a2 as u64) << 40u64) | ((a3 as u64)
        << 32u64) | ((a4 as u64) << 24u64) | ((a5 as u64) << 16u64) | ((a6 as u64) << 8u64) | (a7
        as u64) == ((b0 as u64) << 56u64) | ((b1 as u64) << 48u64) | ((b2 as u64) << 40u64) | ((
    b3 as u64) << 32u64) | ((b4 as u64) << 24u64) | ((b5 as u64) << 16u64) | ((b6 as u64) << 8u64)
        | (b7 as u64) ==> a0 == b0 && a1 == b1 && a2 == b2 && a3 == b3 && a4 == b4 && a5 == b5 && a6
        == b6 && a7 == b7) by (bit_vector);
    assert(a.0@ =~= b.0@);
}

/// Byte-wise order of identifiers is the order of their counter values.
pub proof fn lemma_bytes_before_key(a: DocumentId, b: DocumentId)
    requires
        bytes_before(a.0@, b.0@),
    ensures
        a.key() < b.key(),
{
    let i = choose|i: int|
        0 <= i <= a.0@.len() && i <= b.0@.len() && #[trigger] a.0@.take(i) == b.0@.take(i) && ((i
            == a.0@.len() && i < b.0@.len()) || (i < a.0@.len() && i < b.0@.len() && a.0@[i] < b.0@[i]));
    assert forall|j: int| 0 <= j < i implies a.0@[j] == b.0@[j] by {
        assert(a.0@.take(i)[j] == b.0@.take(i)[j]);
    }
    let (a0, a1, a2, a3, a4, a5, a6, a7) = (a.0[0], a.0[1], a.0[2], a.0[3], a.0[4], a.0[5], a.0[6], a.0[7]);
    let (b0, b1, b2, b3, b4, b5, b6, b7) = (b.0[0], b.0[1], b.0[2], b.0[3], b.0[4], b.0[5], b.0[6], b.0[7]);
    if i == 0 {
        assert(a0 < b0 ==> (((a0 as u64) << 56u64) | ((a1 as u64) << 48u64) | ((a2 as u64) << 40u64) | ((a3 as u64) << 32u64) | ((a4 as u64) << 24u64) | ((a5 as u64) << 16u64) | ((a6 as u64) << 8u64) | (a7 as u64)) < (((b0 as u64) << 56u64) | ((b1 as u64) << 48u64) | ((b2 as u64) << 40u64) | ((b3 as u64) << 32u64) | ((b4 as u64) << 24u64) | ((b5 as u64) << 16u64) | ((b6 as u64) << 8u64) | (b7 as u64))) by (bit_vector);
    }
    if i == 1 {
        assert(a0 == b0 && a1 < b1 ==> (((a0 as u64) << 56u64) | ((a1 as u64) << 48u64) | ((a2 as u64) << 40u64) | ((a3 as u64) << 32u64) | ((a4 as u64) << 24u64) | ((a5 as u64) << 16u64) | ((a6 as u64) << 8u64) | (a7 as u64)) < (((b0 as u64) << 56u64) | ((b1 as u64) << 48u64) | ((b2 as u64) << 40u64) | ((b3 as u64) << 32u64) | ((b4 as u64) << 24u64) | ((b5 as u64) << 16u64) | ((b6 as u64) << 8u64) | (b7 as u64))) by (bit_vector);
    }
    if i == 2 {
        assert(a0 == b0 && a1 == b1 && a2 < b2 ==> (((a0 as u64) << 56u64) | ((a1 as u64) << 48u64) | ((a2 as u64) << 40u64) | ((a3 as u64) << 32u64) | ((a4 as u64) << 24u64) | ((a5 as u64) << 16u64) | ((a6 as u64) << 8u64) | (a7 as u64)) < (((b0 as u64) << 56u64) | ((b1 as u64) << 48u64) | ((b2 as u64) << 40u64) | ((b3 as u64) << 32u64) | ((b4 as u64) << 24u64) | ((b5 as u64) << 16u64) | ((b6 as u64) << 8u64) | (b7 as u64))) by (bit_vector);
    }
    if i == 3 {
        assert(a0 == b0 && a1 == b1 && a2 == b2 && a3 < b3 ==> (((a0 as u64) << 56u64) | ((a1 as u64) << 48u64) | ((a2 as u64) << 40u64) | ((a3 as u64) << 32u64) | ((a4 as u64) << 24u64) | ((a5 as u64) << 16u64) | ((a6 as u64) << 8u64) | (a7 as u64)) < (((b0 as u64) << 56u64) | ((b1 as u64) << 48u64) | ((b2 as u64) << 40u64) | ((b3 as u64) << 32u64) | ((b4 as u64) << 24u64) | ((b5 as u64) << 16u64) | ((b6 as u64) << 8u64) | (b7 as u64))) by (bit_vector);
    }
    if i == 4 {
        assert(a0 == b0 && a1 == b1 && a2 == b2 && a3 == b3 && a4 < b4 ==> (((a0 as u64) << 56u64) | ((a1 as u64) << 48u64) | ((a2 as u64) << 40u64) | ((a3 as u64) << 32u64) | ((a4 as u64) << 24u64) | ((a5 as u64) << 16u64) | ((a6 as u64) << 8u64) | (a7 as u64)) < (((b0 as u64) << 56u64) | ((b1 as u64) << 48u64) | ((b2 as u64) << 40u64) | ((b3 as u64) << 32u64) | ((b4 as u64) << 24u64) | ((b5 as u64) << 16u64) | ((b6 as u64) << 8u64) | (b7 as u64))) by (bit_vector);
    }
    if i == 5 {
        assert(a0 == b0 && a1 == b1 && a2 == b2 && a3 == b3 && a4 == b4 && a5 < b5 ==> (((a0 as u64) << 56u64) | ((a1 as u64) << 48u64) | ((a2 as u64) << 40u64) | ((a3 as u64) << 32u64) | ((a4 as u64) << 24u64) | ((a5 as u64) << 16u64) | ((a6 as u64) << 8u64) | (a7 as u64)) < (((b0 as u64) << 56u64) | ((b1 as u64) << 48u64) | ((b2 as u64) << 40u64) | ((b3 as u64) << 32u64) | ((b4 as u64) << 24u64) | ((b5 as u64) << 16u64) | ((b6 as u64) << 8u64) | (b7 as u64))) by (bit_vector);
    }
    if i == 6 {
        assert(a0 == b0 && a1 == b1 && a2 == b2 && a3 == b3 && a4 == b4 && a5 == b5 && a6 < b6 ==> (((a0 as u64) << 56u64) | ((a1 as u64) << 48u64) | ((a2 as u64) << 40u64) | ((a3 as u64) << 32u64) | ((a4 as u64) << 24u64) | ((a5 as u64) << 16u64) | ((a6 as u64) << 8u64) | (a7 as u64)) < (((b0 as u64) << 56u64) | ((b1 as u64) << 48u64) | ((b2 as u64) << 40u64) | ((b3 as u64) << 32u64) | ((b4 as u64) << 24u64) | ((b5 as u64) << 16u64) | ((b6 as u64) << 8u64) | (b7 as u64))) by (bit_vector);
    }
    if i == 7 {
        assert(a0 == b0 && a1 == b1 && a2 == b2 && a3 == b3 && a4 == b4 && a5 == b5 && a6 == b6 && a7 < b7 ==> (((a0 as u64) << 56u64) | ((a1 as u64) << 48u64) | ((a2 as u64) << 40u64) | ((a3 as u64) << 32u64) | ((a4 as u64) << 24u64) | ((a5 as u64) << 16u64) | ((a6 as u64) << 8u64) | (a7 as u64)) < (((b0 as u64) << 56u64) | ((b1 as u64) << 48u64) | ((b2 as u64) << 40u64) | ((b3 as u64) << 32u64) | ((b4 as u64) << 24u64) | ((b5 as u64) << 16u64) | ((b6 as u64) << 8u64) | (b7 as u64))) by (bit_vector);
    }
}

proof fn lemma_chain(ids: Seq<DocumentId>, next: Seq<nat>, i: int, j: int)
    requires
        ids.len() == next.len(),
        forall|t: int| 0 <= t < ids.len() ==> #[trigger] ids[t].key() >= next[t],
        forall|t: int| 0 <= t < ids.len() - 1 ==> #[trigger] next[t + 1] >= ids[t].key() + 1,
        0 <= i < j < ids.len(),
    ensures
        ids[i].key() < ids[j].key(),
    decreases j - i,
{
    assert(next[j - 1 + 1] >= ids[j - 1].key() + 1);
    assert(ids[j].key() >= next[j]);
    if i < j - 1 {
        lemma_chain(ids, next, i, j - 1);
    }
}

/// The identifiers that a run of successful inserts hands out strictly
/// increase, and so are pairwise distinct. `next[i]` is the store's
/// `next_id()` just before the `i`-th of them; every insert returns at least
/// that value and leaves `next_id()` above what it returned, and no
/// operation of the store lowers it.
pub proof fn lemma_ids_increase(ids: Seq<DocumentId>, next: Seq<nat>)
    requires
        ids.len() == next.len(),
        forall|i: int| 0 <= i < ids.len() ==> #[trigger] ids[i].key() >= next[i],
        forall|i: int| 0 <= i < ids.len() - 1 ==> #[trigger] next[i + 1] >= ids[i].key() + 1,
    ensures
        forall|i: int, j: int|
            0 <= i < j < ids.len() ==> #[trigger] ids[i].key() < #[trigger] ids[j].key(),
{
    assert forall|i: int, j: int| 0 <= i < j < ids.len() implies #[trigger] ids[i].key()
        < #[trigger] ids[j].key() by {
        lemma_chain(ids, next, i, j);
    }
}

/// What a read returns under the identifier that an insert handed out is the
/// document that was inserted. `before` is the document tree before the
/// insert; the insert leaves it as `before.insert(id, stored form of d)`, and
/// a read that succeeds returns a document `got` whose stored form is there.
pub proof fn lemma_round_trip(
    before: Map<Seq<u8>, Seq<u8>>,
    id: DocumentId,
    d: DocumentView,
    got: DocumentView,
)
    requires
        encodable(d),
        encodable(got),
        encode_document(got) == before.insert(id.0@, encode_document(d))[id.0@],
    ensures
        got == d,
{
    lemma_encoding_injective(got, d);
}

#[verifier::external_type_specification]
#[verifier::external_body]
pub struct ExDb(sled::Db);

#[verifier::external_type_specification]
#[verifier::external_body]
pub struct ExTree(sled::Tree);

#[verifier::external_type_specification]
#[verifier::external_body]
pub struct ExSledError(sled::Error);

/// What a tree holds: key bytes to value bytes.
pub uninterp spec fn tree_contents(t: sled::Tree) -> Map<Seq<u8>, Seq<u8>>;

/// The least identifier that the database may still generate.
pub uninterp spec fn next_id(db: sled::Db) -> nat;

/// Some document has `b` as its stored form.
pub open spec fn is_stored_form(b: Seq<u8>) -> bool {
    exists|d: DocumentView| encodable(d) && #[trigger] encode_document(d) == b
}

/// `a` comes before `b` in byte-wise lexicographic order, the order in which
/// the storage engine keeps its keys.
pub open spec fn bytes_before(a: Seq<u8>, b: Seq<u8>) -> bool {
    exists|i: int|
        0 <= i <= a.len() && i <= b.len() && #[trigger] a.take(i) == b.take(i) && ((i == a.len() && i
            < b.len()) || (i < a.len() && i < b.len() && a[i] < b[i]))
}

/// Relies on sled::open: opens or creates the database at `path`.
#[verifier::external_body]
fn open_db(path: &str) -> (r: Result<sled::Db, sled::Error>) {
    sled::open(path)
}

/// Relies on sled::Db::open_tree: opens or creates the tree of that name.
#[verifier::external_body]
fn open_tree(db: &sled::Db, name: &str) -> (r: Result<sled::Tree, sled::Error>) {
    db.open_tree(name)
}

/// Relies on sled::Db::generate_id: the counter is advanced before anything
/// can fail, and no value is handed out twice.
#[verifier::external_body]
fn generate_id(db: &mut sled::Db) -> (r: Result<u64, sled::Error>)
    ensures
        next_id(*final(db)) >= next_id(*old(db)),
        r matches Ok(n) ==> n >= next_id(*old(db)) && next_id(*final(db)) == n + 1,
{
    db.generate_id()
}

/// Relies on sled::Tree::contains_key.
#[verifier::external_body]
fn tree_contains(t: &sled::Tree, key: &[u8]) -> (r: Result<bool, sled::Error>)
    ensures
        r matches Ok(b) ==> b == tree_contents(*t).contains_key(key@),
{
    t.contains_key(key)
}

/// Relies on sled::Tree::get: the value stored under `key`, if any.
#[verifier::external_body]
fn tree_get(t: &sled::Tree, key: &[u8]) -> (r: Result<Option<Vec<u8>>, sled::Error>)
    ensures
        r matches Ok(v) ==> (v is Some <==> tree_contents(*t).contains_key(key@)),
        r matches Ok(Some(v)) ==> v@ == tree_contents(*t)[key@],
{
    t.get(key).map(|v| v.map(|b| b.to_vec()))
}

/// Relies on sled::Tree::insert: `key` maps to `value` afterwards.
#[verifier::external_body]
fn tree_insert(t: &mut sled::Tree, key: &[u8], value: &[u8]) -> (r: Result<(), sled::Error>)
    ensures
        r is Ok ==> tree_contents(*final(t)) == tree_contents(*old(t)).insert(key@, value@),
{
    t.insert(key, value).map(|_| ())
}

/// Relies on sled::Tree::remove: `key` is gone afterwards, and the value it
/// had is handed back.
#[verifier::external_body]
fn tree_remove(t: &mut sled::Tree, key: &[u8]) -> (r: Result<Option<Vec<u8>>, sled::Error>)
    ensures
        r is Ok ==> tree_contents(*final(t)) == tree_contents(*old(t)).remove(key@),
        r matches Ok(v) ==> (v is Some <==> tree_contents(*old(t)).contains_key(key@)),
        r matches Ok(Some(v)) ==> v@ == tree_contents(*old(t))[key@],
{
    t.remove(key).map(|v| v.map(|b| b.to_vec()))
}

/// Relies on sled::Tree::iter: every entry of the tree, each as it is
/// stored, in increasing order of key.
#[verifier::external_body]
fn tree_entries(t: &sled::Tree) -> (r: Result<Vec<(Vec<u8>, Vec<u8>)>, sled::Error>)
    ensures
        r matches Ok(v) ==> forall|i: int|
            0 <= i < v@.len() ==> tree_contents(*t).contains_key((#[trigger] v@[i]).0@)
                && tree_contents(*t)[v@[i].0@] == v@[i].1@,
        r matches Ok(v) ==> forall|k: Seq<u8>|
            #[trigger] tree_contents(*t).contains_key(k) ==> exists|i: int|
                0 <= i < v@.len() && (#[trigger] v@[i]).0@ == k,
        r matches Ok(v) ==> forall|i: int, j: int|
            0 <= i < j < v@.len() ==> #[trigger] bytes_before(v@[i].0@, v@[j].0@),
{
    t.iter().map(|e| e.map(|(k, v)| (k.to_vec(), v.to_vec()))).collect()
}

/// What can go wrong in the store.
#[derive(Debug)]
pub enum StorageError {
    /// The storage engine failed.
    Sled(sled::Error),
    /// A stored record is not the stored form of a document.
    Decode,
    /// A document with this content hash is stored already.
    DuplicatedHash(Vec<u8>),
    /// No document is stored under the identifier.
    NotFound,
}

/// Durable, deduplicated storage of documents: one tree maps identifiers to
/// stored documents, the other maps content hashes to identifiers.
pub struct Storage {
    db: sled::Db,
    document_tree: sled::Tree,
    hash_tree: sled::Tree,
}

impl Storage {
    /// What the document tree holds: identifier bytes to stored documents.
    pub closed spec fn documents(&self) -> Map<Seq<u8>, Seq<u8>> {
        tree_contents(self.document_tree)
    }

    /// What the hash tree holds: content hashes to identifier bytes.
    pub closed spec fn hashes(&self) -> Map<Seq<u8>, Seq<u8>> {
        tree_contents(self.hash_tree)
    }

    /// The least identifier that a later insert may hand out.
    pub closed spec fn next_id(&self) -> nat {
        next_id(self.db)
    }

    /// Opens or creates the store at `path`, with its two trees.
    pub fn open(path: &str) -> (r: Result<Self, StorageError>)
        ensures
            r matches Err(e) ==> e is Sled,
    {
        let db = match open_db(path) {
            Ok(db) => db,
            Err(e) => {
                return Err(StorageError::Sled(e));
            },
        };
        let document_tree = match open_tree(&db, "documents") {
            Ok(t) => t,
            Err(e) => {
                return Err(StorageError::Sled(e));
            },
        };
        let hash_tree = match open_tree(&db, "hashes") {
            Ok(t) => t,
            Err(e) => {
                return Err(StorageError::Sled(e));
            },
        };
        Ok(Storage { db, document_tree, hash_tree })
    }

    /// The document stored under `id`.
    pub fn get(&self, id: DocumentId) -> (r: Result<Document, StorageError>)
        ensures
            r matches Ok(d) ==> self.documents().contains_key(id.0@) && encodable(d@)
                && encode_document(d@) == self.documents()[id.0@],
            r matches Err(StorageError::NotFound) ==> !self.documents().contains_key(id.0@),
            !self.documents().contains_key(id.0@) ==> r is Err,
            r matches Err(StorageError::Decode) ==> self.documents().contains_key(id.0@),
            forall|d0: DocumentView|
                encodable(d0) && self.documents().contains_key(id.0@) && #[trigger] encode_document(d0)
                    == self.documents()[id.0@] ==> (r matches Ok(d) && d@ == d0) || (r matches Err(
                    StorageError::Sled(_),
                )),
            !(r matches Err(StorageError::DuplicatedHash(_))),
    {
        match tree_get(&self.document_tree, id.0.as_slice()) {
            Ok(Some(bytes)) => match decode(bytes.as_slice()) {
                Some(d) => Ok(d),
                None => Err(StorageError::Decode),
            },
            Ok(None) => Err(StorageError::NotFound),
            Err(e) => Err(StorageError::Sled(e)),
        }
    }

    /// Every stored document with its identifier. A record that does not
    /// decode ends the walk with an error rather than being skipped.
    pub fn iter(&self) -> (r: Result<Vec<(DocumentId, Document)>, StorageError>)
        ensures
            r matches Ok(v) ==> forall|i: int|
                0 <= i < v@.len() ==> self.documents().contains_key((#[trigger] v@[i]).0.0@)
                    && encodable(v@[i].1@) && encode_document(v@[i].1@) == self.documents()[v@[i].0.0@],
            r matches Ok(v) ==> forall|k: Seq<u8>|
                #[trigger] self.documents().contains_key(k) ==> exists|i: int|
                    0 <= i < v@.len() && (#[trigger] v@[i]).0.0@ == k,
            r matches Ok(v) ==> forall|i: int, j: int|
                0 <= i < j < v@.len() ==> #[trigger] bytes_before(v@[i].0.0@, v@[j].0.0@),
            r matches Ok(v) ==> forall|i: int, j: int|
                0 <= i < j < v@.len() ==> #[trigger] v@[i].0.key() < #[trigger] v@[j].0.key(),
            r matches Err(StorageError::Decode) ==> exists|k: Seq<u8>|
                #[trigger] self.documents().contains_key(k) && (k.len() != 8 || !is_stored_form(
                    self.documents()[k],
                )),
            r matches Err(e) ==> e is Sled || e is Decode,
    {
        let entries = match tree_entries(&self.document_tree) {
            Ok(v) => v,
            Err(e) => {
                return Err(StorageError::Sled(e));
            },
        };
        let mut r: Vec<(DocumentId, Document)> = Vec::new();
        let mut i: usize = 0;
        while i < entries.len()
            invariant
                i <= entries@.len(),
                forall|j: int|
                    0 <= j < entries@.len() ==> self.documents().contains_key((#[trigger] entries@[j]).0@)
                        && self.documents()[entries@[j].0@] == entries@[j].1@,
                forall|j: int|
                    0 <= j < r@.len() ==> self.documents().contains_key((#[trigger] r@[j]).0.0@)
                        && encodable(r@[j].1@) && encode_document(r@[j].1@)
                        == self.documents()[r@[j].0.0@],
            r@.len() == i,
            forall|j: int| 0 <= j < i ==> (#[trigger] r@[j]).0.0@ == entries@[j].0@,
            forall|k: Seq<u8>|
                #[trigger] self.documents().contains_key(k) ==> exists|j: int|
                    0 <= j < entries@.len() && (#[trigger] entries@[j]).0@ == k,
            decreases entries@.len() - i,
        {
            let key = &entries[i].0;
            if key.len() != 8 {
                proof {
                    assert(self.documents().contains_key(entries@[i as int].0@));
                }
                return Err(StorageError::Decode);
            }
            let id = DocumentId([key[0], key[1], key[2], key[3], key[4], key[5], key[6], key[7]]);
            assert(id.0@ =~= key@);
            match decode(entries[i].1.as_slice()) {
                Some(d) => {
                    r.push((id, d));
                },
                None => {
                    proof {
                        assert(self.documents().contains_key(entries@[i as int].0@));
                        assert(!is_stored_form(self.documents()[entries@[i as int].0@]));
                    }
                    return Err(StorageError::Decode);
                },
            }
            i = i + 1;
        }
        proof {
            assert forall|k: Seq<u8>| #[trigger] self.documents().contains_key(k) implies exists|j: int|
                0 <= j < r@.len() && (#[trigger] r@[j]).0.0@ == k by {
                let j = choose|j: int| 0 <= j < entries@.len() && (#[trigger] entries@[j]).0@ == k;
                assert(r@[j].0.0@ == k);
            }
            assert forall|a: int, b: int| 0 <= a < b < r@.len() implies #[trigger] bytes_before(
                r@[a].0.0@,
                r@[b].0.0@,
            ) by {
                assert(bytes_before(entries@[a].0@, entries@[b].0@));
            }
            assert forall|a: int, b: int| 0 <= a < b < r@.len() implies #[trigger] r@[a].0.key()
                < #[trigger] r@[b].0.key() by {
                assert(bytes_before(r@[a].0.0@, r@[b].0.0@));
                lemma_bytes_before_key(r@[a].0, r@[b].0);
            }
        }
        Ok(r)
    }

    /// Stores `document` under a new identifier, unless a document with the
    /// same hash is stored already. The hash entry is written first, then
    /// the document.
    pub fn insert(&mut self, document: &Document) -> (r: Result<DocumentId, StorageError>)
        requires
            encodable(document@),
        ensures
            old(self).hashes().contains_key(document.hash@) ==> r is Err,
            r matches Err(StorageError::DuplicatedHash(h)) ==> {
                &&& h@ == document.hash@
                &&& old(self).hashes().contains_key(document.hash@)
                &&& final(self).hashes() == old(self).hashes()
                &&& final(self).documents() == old(self).documents()
            },
            r matches Ok(id) ==> {
                &&& !old(self).hashes().contains_key(document.hash@)
                &&& id.key() >= old(self).next_id()
                &&& final(self).next_id() == id.key() + 1
                &&& final(self).hashes() == old(self).hashes().insert(document.hash@, id.0@)
                &&& final(self).documents() == old(self).documents().insert(
                    id.0@,
                    encode_document(document@),
                )
            },
            old(self).hashes().contains_key(document.hash@) ==> final(self).hashes()
                == old(self).hashes() && final(self).documents() == old(self).documents()
                && final(self).next_id() == old(self).next_id(),
            final(self).next_id() >= old(self).next_id(),
            !(r matches Err(StorageError::NotFound)) && !(r matches Err(StorageError::Decode)),
    {
        match tree_contains(&self.hash_tree, document.hash.as_slice()) {
            Ok(true) => {
                let mut h: Vec<u8> = Vec::new();
                let mut i: usize = 0;
                while i < 32
                    invariant
                        i <= 32,
                        h@ =~= document.hash@.take(i as int),
                    decreases 32 - i,
                {
                    h.push(document.hash[i]);
                    i = i + 1;
                }
                assert(document.hash@.take(32) =~= document.hash@);
                return Err(StorageError::DuplicatedHash(h));
            },
            Ok(false) => {},
            Err(e) => {
                return Err(StorageError::Sled(e));
            },
        }
        let n = match generate_id(&mut self.db) {
            Ok(n) => n,
            Err(e) => {
                return Err(StorageError::Sled(e));
            },
        };
        let id = DocumentId::from_value(n);
        if let Err(e) = tree_insert(&mut self.hash_tree, document.hash.as_slice(), id.0.as_slice()) {
            return Err(StorageError::Sled(e));
        }
        let bytes = encode(document);
        if let Err(e) = tree_insert(&mut self.document_tree, id.0.as_slice(), bytes.as_slice()) {
            return Err(StorageError::Sled(e));
        }
        Ok(id)
    }

    /// Removes the document stored under `id` and its hash entry. Removing
    /// an identifier that is not stored changes nothing and succeeds.
    pub fn remove(&mut self, id: DocumentId) -> (r: Result<(), StorageError>)
        ensures
            final(self).next_id() == old(self).next_id(),
            r is Ok ==> final(self).documents() == old(self).documents().remove(id.0@),
            r is Ok && !old(self).documents().contains_key(id.0@) ==> final(self).hashes() == old(
                self,
            ).hashes(),
            r is Ok && !old(self).documents().contains_key(id.0@)
                ==> final(self).documents() == old(self).documents(),
            forall|d: DocumentView|
                r is Ok && old(self).documents().contains_key(id.0@) && encodable(d)
                    && #[trigger] encode_document(d) == old(self).documents()[id.0@]
                    ==> final(self).hashes() == old(self).hashes().remove(d.4),
            r matches Err(StorageError::Decode) ==> old(self).documents().contains_key(id.0@)
                && !is_stored_form(old(self).documents()[id.0@]),
            !old(self).documents().contains_key(id.0@) ==> r is Ok || r matches Err(
                StorageError::Sled(_),
            ),
            r matches Err(e) ==> e is Sled || e is Decode,
    {
        let ghost before = self.documents();
        let removed = match tree_remove(&mut self.document_tree, id.0.as_slice()) {
            Ok(v) => v,
            Err(e) => {
                return Err(StorageError::Sled(e));
            },
        };
        if let Some(bytes) = removed {
            match decode(bytes.as_slice()) {
                Some(d) => {
                    proof {
                        assert forall|e: DocumentView| encodable(e) && #[trigger] encode_document(e)
                            == before[id.0@] implies e.4 == d.hash@ by {
                            lemma_encoding_injective(e, d@);
                        }
                    }
                    if let Err(e) = tree_remove(&mut self.hash_tree, d.hash.as_slice()) {
                        return Err(StorageError::Sled(e));
                    }
                },
                None => {
                    return Err(StorageError::Decode);
                },
            }
        }
        proof {
            if !before.contains_key(id.0@) {
                assert(self.documents() =~= before);
            }
        }
        Ok(())
    }
}

} // verus!
