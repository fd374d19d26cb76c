use vstd::prelude::*;

use crate::codec::{encodable, encode_document, DocumentView};
use crate::document::Document;
use crate::gram::document_grams;
use crate::index::{ids_of, insert_sorted, remove_sorted, slot, sorted_ids, splits, Index, Indexed};
use crate::storage::{is_stored_form, DocumentId, Storage, StorageError};

verus! {

/// The entries that inserting `s` one after another into an empty index gives.
pub open spec fn built(s: Seq<Indexed>) -> Seq<Indexed>
    decreases s.len(),
{
    if s.len() == 0 {
        Seq::empty()
    } else {
        let last = s.last();
        insert_sorted(built(s.drop_last()), last.0, last.1)
    }
}

/// What the index holds of stored records: each identifier with its grams.
pub open spec fn indexed_records(records: Seq<(DocumentId, Document)>) -> Seq<Indexed> {
    records.map_values(|r: (DocumentId, Document)| (r.0, document_grams(r.1)))
}

/// `records` are what `storage` holds: each of them is stored, in its stored
/// form, and every stored identifier is among them.
pub open spec fn stored_exactly(storage: Storage, records: Seq<(DocumentId, Document)>) -> bool {
    &&& forall|i: int|
        0 <= i < records.len() ==> storage.documents().contains_key((#[trigger] records[i]).0.0@)
            && encodable(records[i].1@) && encode_document(records[i].1@)
            == storage.documents()[records[i].0.0@]
    &&& forall|k: Seq<u8>|
        #[trigger] storage.documents().contains_key(k) ==> exists|i: int|
            0 <= i < records.len() && (#[trigger] records[i]).0.0@ == k
}

/// The identifiers of `records`, as bytes.
pub open spec fn record_ids(records: Seq<(DocumentId, Document)>) -> Set<Seq<u8>> {
    Set::new(|k: Seq<u8>| exists|i: int| 0 <= i < records.len() && #[trigger] records[i].0.0@ == k)
}

/// Inserting documents in increasing order of identifier, as the store hands
/// them out both when they are first inserted and when they are read back,
/// gives an index that holds them in that very order. So an index rebuilt
/// from the store equals the one built while the documents came in, and
/// every search on the two gives the same ranking.
pub proof fn lemma_built_in_order(s: Seq<Indexed>)
    requires
        sorted_ids(s),
    ensures
        built(s) == s,
    decreases s.len(),
{
    if s.len() > 0 {
        let p = s.drop_last();
        assert(sorted_ids(p));
        lemma_built_in_order(p);
        let k = s.last().0.key();
        assert(splits(p, k, p.len() as int));
        let c = slot(p, k);
        assert(splits(p, k, c));
        if c < p.len() {
            assert(p[c].0.key() < s[s.len() - 1].0.key());
        }
        assert(c == p.len());
        assert(p.insert(p.len() as int, s.last()) =~= s);
    }
}

/// Builds an index of `records`, inserting them in the order given.
pub fn rebuild(records: &Vec<(DocumentId, Document)>) -> (r: Index)
    ensures
        r.wf(),
        r@ == built(indexed_records(records@)),
        ids_of(r@) == record_ids(records@),
{
    let mut index = Index::new();
    proof {
        assert(ids_of(index@) =~= record_ids(records@.take(0)));
    }
    let mut i: usize = 0;
    while i < records.len()
        invariant
            i <= records@.len(),
            index.wf(),
            index@ == built(indexed_records(records@).take(i as int)),
            ids_of(index@) == record_ids(records@.take(i as int)),
        decreases records@.len() - i,
    {
        proof {
            let s = indexed_records(records@).take(i as int + 1);
            assert(s.drop_last() =~= indexed_records(records@).take(i as int));
        }
        index.insert(records[i].0, &records[i].1);
        proof {
            let a = records@.take(i as int);
            let b = records@.take(i as int + 1);
            assert forall|k: Seq<u8>| record_ids(b).contains(k) <==> record_ids(a).insert(
                records@[i as int].0.0@,
            ).contains(k) by {
                if record_ids(b).contains(k) {
                    let t = choose|t: int| 0 <= t < b.len() && #[trigger] b[t].0.0@ == k;
                    if t < i {
                        assert(a[t].0.0@ == k);
                    }
                }
                if record_ids(a).contains(k) {
                    let t = choose|t: int| 0 <= t < a.len() && #[trigger] a[t].0.0@ == k;
                    assert(b[t].0.0@ == k);
                }
                if k == records@[i as int].0.0@ {
                    assert(b[i as int].0.0@ == k);
                }
            }
            assert(record_ids(b) =~= record_ids(a).insert(records@[i as int].0.0@));
        }
        i = i + 1;
    }
    assert(indexed_records(records@).take(i as int) =~= indexed_records(records@));
    assert(records@.take(i as int) =~= records@);
    index
}

/// The store together with the index derived from it.
pub struct Domain {
    pub storage: Storage,
    pub index: Index,
}

impl Domain {
    /// The index is well formed and holds exactly the stored identifiers.
    pub open spec fn synced(&self) -> bool {
        &&& self.index.wf()
        &&& ids_of(self.index@) == self.storage.documents().dom()
    }

    /// Opens the store at `path` and indexes every document in it, as
    /// `rebuild` does, in the order that the store hands them out: increasing
    /// identifier, which is also the order in which they were inserted. A stored
    /// record that does not decode fails the whole opening.
    pub fn open(path: &str) -> (r: Result<Self, StorageError>)
        ensures
            r matches Ok(d) ==> d.synced(),
            r matches Err(e) ==> e is Sled || e is Decode,
            r matches Ok(d) ==> exists|records: Seq<(DocumentId, Document)>|
                #![trigger indexed_records(records)]
                d.index@ == built(indexed_records(records)) && d.index@ == indexed_records(records)
                    && stored_exactly(d.storage, records),
    {
        let storage = Storage::open(path)?;
        let records = storage.iter()?;
        let index = rebuild(&records);
        proof {
            let s = indexed_records(records@);
            assert forall|a: int, b: int| 0 <= a < b < s.len() implies #[trigger] s[a].0.key()
                < #[trigger] s[b].0.key() by {
                assert(records@[a].0.key() < records@[b].0.key());
            }
            lemma_built_in_order(s);
        }
        let d = Domain { storage, index };
        assert(d.index@ == built(indexed_records(records@)) && d.index@ == indexed_records(records@)
            && stored_exactly(d.storage, records@));
        proof {
            assert forall|k: Seq<u8>| record_ids(records@).contains(k) <==> d.storage.documents().dom().contains(k) by {
                if record_ids(records@).contains(k) {
                    let i = choose|i: int| 0 <= i < records@.len() && #[trigger] records@[i].0.0@ == k;
                    assert(d.storage.documents().contains_key(records@[i].0.0@));
                }
            }
            assert(record_ids(records@) =~= d.storage.documents().dom());
        }
        Ok(d)
    }

    /// The document stored under `id`.
    pub fn get(&self, id: DocumentId) -> (r: Result<Document, StorageError>)
        ensures
            r matches Ok(d) ==> self.storage.documents().contains_key(id.0@) && encodable(d@)
                && encode_document(d@) == self.storage.documents()[id.0@],
            r matches Err(StorageError::NotFound) ==> !self.storage.documents().contains_key(id.0@),
            !self.storage.documents().contains_key(id.0@) ==> r is Err,
            r matches Err(StorageError::Decode) ==> self.storage.documents().contains_key(id.0@),
            forall|d0: DocumentView|
                encodable(d0) && self.storage.documents().contains_key(id.0@)
                    && #[trigger] encode_document(d0) == self.storage.documents()[id.0@]
                    ==> (r matches Ok(d) && d@ == d0) || (r matches Err(StorageError::Sled(_))),
            !(r matches Err(StorageError::DuplicatedHash(_))),
    {
        self.storage.get(id)
    }

    /// Stores `document` and, only once that succeeded, indexes it.
    pub fn insert(&mut self, document: &Document) -> (r: Result<DocumentId, StorageError>)
        requires
            old(self).index.wf(),
            encodable(document@),
        ensures
            final(self).index.wf(),
            old(self).storage.hashes().contains_key(document.hash@) ==> r is Err
                && final(self).storage.hashes() == old(self).storage.hashes()
                && final(self).storage.documents() == old(self).storage.documents(),
            r matches Err(StorageError::DuplicatedHash(h)) ==> h@ == document.hash@
                && old(self).storage.hashes().contains_key(document.hash@),
            r matches Ok(id) ==> {
                &&& !old(self).storage.hashes().contains_key(document.hash@)
                &&& final(self).index@ == insert_sorted(old(self).index@, id, document_grams(*document))
                &&& id.key() >= old(self).storage.next_id()
                &&& final(self).storage.next_id() == id.key() + 1
                &&& final(self).storage.hashes() == old(self).storage.hashes().insert(document.hash@, id.0@)
                &&& final(self).storage.documents() == old(self).storage.documents().insert(
                    id.0@,
                    encode_document(document@),
                )
            },
            r is Err ==> final(self).index@ == old(self).index@,
            !(r matches Err(StorageError::NotFound)) && !(r matches Err(StorageError::Decode)),
            old(self).synced() && (r is Ok || r matches Err(StorageError::DuplicatedHash(_)))
                ==> final(self).synced(),
    {
        let id = self.storage.insert(document)?;
        self.index.insert(id, document);
        proof {
            assert(self.storage.documents().dom() =~= old(self).storage.documents().dom().insert(id.0@));
        }
        Ok(id)
    }

    /// Removes the document stored under `id` from the store and then from
    /// the index. An identifier that is not stored is no error.
    pub fn remove(&mut self, id: DocumentId) -> (r: Result<(), StorageError>)
        requires
            old(self).index.wf(),
        ensures
            final(self).index.wf(),
            r is Ok ==> final(self).index@ == remove_sorted(old(self).index@, id)
                && final(self).storage.documents() == old(self).storage.documents().remove(id.0@),
            r is Ok && !old(self).storage.documents().contains_key(id.0@)
                ==> final(self).storage.documents() == old(self).storage.documents()
                && final(self).storage.hashes() == old(self).storage.hashes(),
            forall|d: DocumentView|
                r is Ok && old(self).storage.documents().contains_key(id.0@) && encodable(d)
                    && #[trigger] encode_document(d) == old(self).storage.documents()[id.0@]
                    ==> final(self).storage.hashes() == old(self).storage.hashes().remove(d.4),
            r matches Err(StorageError::Decode) ==> old(self).storage.documents().contains_key(id.0@)
                && !is_stored_form(old(self).storage.documents()[id.0@]),
            !old(self).storage.documents().contains_key(id.0@) ==> r is Ok || r matches Err(
                StorageError::Sled(_),
            ),
            r matches Err(e) ==> e is Sled || e is Decode,
            r is Err ==> final(self).index@ == old(self).index@,
            old(self).synced() && r is Ok ==> final(self).synced(),
    {
        self.storage.remove(id)?;
        self.index.remove(id);
        proof {
            assert(self.storage.documents().dom() =~= old(self).storage.documents().dom().remove(id.0@));
        }
        Ok(())
    }
}

} // verus!
