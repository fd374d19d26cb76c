use vstd::prelude::*;

use crate::document::Document;
use crate::gram::{document_grams, document_grams_of, grams, grams_of, Gram};
use crate::storage::{lemma_key_injective, DocumentId};

verus! {

/// How many times `g` occurs in `s`.
pub open spec fn occurrences(s: Seq<Gram>, g: Gram) -> nat
    decreases s.len(),
{
    if s.len() == 0 {
        0
    } else {
        occurrences(s.drop_last(), g) + if s.last() == g {
            1nat
        } else {
            0nat
        }
    }
}

/// The largest number of occurrences of one gram among the first `n` positions of `s`.
pub open spec fn max_occurrences_upto(s: Seq<Gram>, n: int) -> nat
    decreases n,
{
    if n <= 0 {
        0
    } else {
        let m = max_occurrences_upto(s, n - 1);
        let c = occurrences(s, s[n - 1]);
        if c > m {
            c
        } else {
            m
        }
    }
}

/// How many times the most frequent gram of `s` occurs; zero when `s` is empty.
pub open spec fn max_occurrences(s: Seq<Gram>) -> nat {
    max_occurrences_upto(s, s.len() as int)
}

/// An indexed document: its identifier and its grams.
pub type Indexed = (DocumentId, Seq<Gram>);

/// Strictly increasing identifiers.
pub open spec fn sorted_ids(s: Seq<Indexed>) -> bool {
    forall|i: int, j: int| 0 <= i < j < s.len() ==> #[trigger] s[i].0.key() < #[trigger] s[j].0.key()
}

/// `j` parts `s` into the entries whose key is below `k` and the others.
pub open spec fn splits(s: Seq<Indexed>, k: int, j: int) -> bool {
    &&& 0 <= j <= s.len()
    &&& forall|t: int| 0 <= t < j ==> #[trigger] s[t].0.key() < k
    &&& forall|t: int| j <= t < s.len() ==> #[trigger] s[t].0.key() >= k
}

/// Where an entry with key `k` stands, or would stand, in `s`.
pub open spec fn slot(s: Seq<Indexed>, k: int) -> int {
    choose|j: int| splits(s, k, j)
}

/// Whether the slot for `k` holds an entry with key `k`.
pub open spec fn holds_key(s: Seq<Indexed>, k: int) -> bool {
    let j = slot(s, k);
    j < s.len() && s[j].0.key() == k
}

/// `s` with `(id, g)` put in its place, replacing an entry with the same identifier.
pub open spec fn insert_sorted(s: Seq<Indexed>, id: DocumentId, g: Seq<Gram>) -> Seq<Indexed> {
    let j = slot(s, id.key());
    if holds_key(s, id.key()) {
        s.update(j, (id, g))
    } else {
        s.insert(j, (id, g))
    }
}

/// `s` without the entry of `id`, if it has one.
pub open spec fn remove_sorted(s: Seq<Indexed>, id: DocumentId) -> Seq<Indexed> {
    if holds_key(s, id.key()) {
        s.remove(slot(s, id.key()))
    } else {
        s
    }
}

/// How many documents of `s` hold `g` at least once.
pub open spec fn document_frequency(s: Seq<Indexed>, g: Gram) -> nat
    decreases s.len(),
{
    if s.len() == 0 {
        0
    } else {
        document_frequency(s.drop_last(), g) + if occurrences(s.last().1, g) > 0 {
            1nat
        } else {
            0nat
        }
    }
}

pub proof fn lemma_occurrences_bound(s: Seq<Gram>, g: Gram)
    ensures
        occurrences(s, g) <= s.len(),
    decreases s.len(),
{
    if s.len() > 0 {
        lemma_occurrences_bound(s.drop_last(), g);
    }
}

pub proof fn lemma_frequency_bound(s: Seq<Indexed>, g: Gram)
    ensures
        document_frequency(s, g) <= s.len(),
    decreases s.len(),
{
    if s.len() > 0 {
        lemma_frequency_bound(s.drop_last(), g);
    }
}

proof fn lemma_max_bound(s: Seq<Gram>, n: int)
    requires
        n <= s.len(),
    ensures
        max_occurrences_upto(s, n) <= s.len(),
    decreases n,
{
    if n > 0 {
        lemma_max_bound(s, n - 1);
        lemma_occurrences_bound(s, s[n - 1]);
    }
}

proof fn lemma_slot(s: Seq<Indexed>, k: int, j: int)
    requires
        sorted_ids(s),
        splits(s, k, j),
    ensures
        slot(s, k) == j,
{
    let c = slot(s, k);
    assert(splits(s, k, c));
    if c < j {
        assert(s[c].0.key() < k);
    } else if j < c {
        assert(s[j].0.key() < k);
    }
}


/// The grams of `q` that at least one document of `s` holds, in query order.
/// A gram that no document holds has no document frequency to divide by, so
/// it takes no part in scoring.
pub open spec fn known_grams(q: Seq<Gram>, s: Seq<Indexed>) -> Seq<Gram>
    decreases q.len(),
{
    if q.len() == 0 {
        Seq::empty()
    } else {
        let r = known_grams(q.drop_last(), s);
        if document_frequency(s, q.last()) > 0 {
            r.push(q.last())
        } else {
            r
        }
    }
}

/// What a score is computed from, for one query gram and one document:
/// `tf = 0.5 + 0.5 * count / max_count` and `idf = ln(total / doc_freq)`.
#[derive(Clone, Copy, Debug, PartialEq, Eq)]
pub struct TermWeight {
    pub count: usize,
    pub max_count: usize,
    pub doc_freq: usize,
    pub total: usize,
}

/// A document without grams is normalised as if its most frequent gram
/// occurred once; its counts are all zero, so this keeps `tf` at one half.
pub open spec fn normaliser(d: Seq<Gram>) -> nat {
    if max_occurrences(d) == 0 {
        1
    } else {
        max_occurrences(d)
    }
}

pub open spec fn term_weight(s: Seq<Indexed>, d: Seq<Gram>, g: Gram) -> TermWeight {
    TermWeight {
        count: occurrences(d, g) as usize,
        max_count: normaliser(d) as usize,
        doc_freq: document_frequency(s, g) as usize,
        total: s.len() as usize,
    }
}

/// The weights of each known query gram against document `d`.
pub open spec fn terms_of(s: Seq<Indexed>, q: Seq<u8>, d: Seq<Gram>) -> Seq<TermWeight> {
    let kg = known_grams(grams_of(q), s);
    Seq::new(kg.len(), |j: int| term_weight(s, d, kg[j]))
}

/// One indexed document as a query sees it.
pub struct Candidate {
    pub id: DocumentId,
    pub terms: Vec<TermWeight>,
}

pub proof fn lemma_known_grams_held(q: Seq<Gram>, s: Seq<Indexed>)
    ensures
        forall|j: int|
            0 <= j < known_grams(q, s).len() ==> document_frequency(s, #[trigger] known_grams(q, s)[j]) > 0,
    decreases q.len(),
{
    if q.len() > 0 {
        lemma_known_grams_held(q.drop_last(), s);
        let r = known_grams(q.drop_last(), s);
        assert forall|j: int| 0 <= j < known_grams(q, s).len() implies document_frequency(
            s,
            #[trigger] known_grams(q, s)[j],
        ) > 0 by {
            if j < r.len() {
                assert(known_grams(q, s)[j] == r[j]);
            }
        }
    }
}

proof fn lemma_occurrences_held(d: Seq<Gram>, g: Gram)
    ensures
        occurrences(d, g) > 0 ==> exists|i: int| 0 <= i < d.len() && d[i] == g,
    decreases d.len(),
{
    if d.len() > 0 {
        lemma_occurrences_held(d.drop_last(), g);
        if occurrences(d.drop_last(), g) > 0 {
            let i = choose|i: int| 0 <= i < d.drop_last().len() && d.drop_last()[i] == g;
            assert(d[i] == g);
        }
    }
}

proof fn lemma_max_upto(d: Seq<Gram>, n: int, i: int)
    requires
        0 <= i < n <= d.len(),
    ensures
        occurrences(d, d[i]) <= max_occurrences_upto(d, n),
    decreases n,
{
    if i < n - 1 {
        lemma_max_upto(d, n - 1, i);
    }
}

/// Under the unseen-gram policy every term of a score is finite: the document
/// frequency it divides by is at least one and at most the number of
/// documents, so `idf` is a finite non-negative logarithm, and the count never
/// exceeds the positive normaliser, so `tf` lies between one half and one.
pub proof fn lemma_terms_finite(s: Seq<Indexed>, q: Seq<u8>, d: Seq<Gram>)
    ensures
        normaliser(d) >= 1,
        forall|j: int|
            0 <= j < known_grams(grams_of(q), s).len() ==> {
                let g = #[trigger] known_grams(grams_of(q), s)[j];
                &&& 1 <= document_frequency(s, g) <= s.len()
                &&& occurrences(d, g) <= normaliser(d)
            },
{
    lemma_known_grams_held(grams_of(q), s);
    assert forall|j: int| 0 <= j < known_grams(grams_of(q), s).len() implies {
        let g = #[trigger] known_grams(grams_of(q), s)[j];
        &&& 1 <= document_frequency(s, g) <= s.len()
        &&& occurrences(d, g) <= normaliser(d)
    } by {
        let g = known_grams(grams_of(q), s)[j];
        lemma_frequency_bound(s, g);
        lemma_occurrences_held(d, g);
        if occurrences(d, g) > 0 {
            let i = choose|i: int| 0 <= i < d.len() && d[i] == g;
            lemma_max_upto(d, d.len() as int, i);
        }
    }
}

/// The identifiers that `s` holds, as bytes.
pub open spec fn ids_of(s: Seq<Indexed>) -> Set<Seq<u8>> {
    Set::new(|k: Seq<u8>| exists|i: int| 0 <= i < s.len() && #[trigger] s[i].0.0@ == k)
}

proof fn lemma_ids_after_insert(s: Seq<Indexed>, id: DocumentId, g: Seq<Gram>, j: int)
    requires
        sorted_ids(s),
        splits(s, id.key(), j),
    ensures
        ids_of(insert_sorted(s, id, g)) == ids_of(s).insert(id.0@),
{
    lemma_slot(s, id.key(), j);
    let n = insert_sorted(s, id, g);
    if holds_key(s, id.key()) {
        lemma_key_injective(s[j].0, id);
        assert forall|k: Seq<u8>| ids_of(n).contains(k) <==> ids_of(s).insert(id.0@).contains(k) by {
            if ids_of(n).contains(k) {
                let i = choose|i: int| 0 <= i < n.len() && #[trigger] n[i].0.0@ == k;
                if i != j {
                    assert(s[i].0.0@ == k);
                }
            }
            if ids_of(s).contains(k) {
                let i = choose|i: int| 0 <= i < s.len() && #[trigger] s[i].0.0@ == k;
                assert(n[i].0.0@ == k);
            }
            if k == id.0@ {
                assert(n[j].0.0@ == k);
            }
        }
    } else {
        assert forall|k: Seq<u8>| ids_of(n).contains(k) <==> ids_of(s).insert(id.0@).contains(k) by {
            if ids_of(n).contains(k) {
                let i = choose|i: int| 0 <= i < n.len() && #[trigger] n[i].0.0@ == k;
                if i < j {
                    assert(s[i].0.0@ == k);
                } else if i > j {
                    assert(s[i - 1].0.0@ == k);
                }
            }
            if ids_of(s).contains(k) {
                let i = choose|i: int| 0 <= i < s.len() && #[trigger] s[i].0.0@ == k;
                if i < j {
                    assert(n[i].0.0@ == k);
                } else {
                    assert(n[i + 1].0.0@ == k);
                }
            }
            if k == id.0@ {
                assert(n[j].0.0@ == k);
            }
        }
    }
    assert(ids_of(n) =~= ids_of(s).insert(id.0@));
}

proof fn lemma_ids_after_remove(s: Seq<Indexed>, id: DocumentId, j: int)
    requires
        sorted_ids(s),
        splits(s, id.key(), j),
    ensures
        ids_of(remove_sorted(s, id)) == ids_of(s).remove(id.0@),
{
    lemma_slot(s, id.key(), j);
    let n = remove_sorted(s, id);
    if holds_key(s, id.key()) {
        lemma_key_injective(s[j].0, id);
        assert forall|k: Seq<u8>| ids_of(n).contains(k) <==> ids_of(s).remove(id.0@).contains(k) by {
            if ids_of(n).contains(k) {
                let i = choose|i: int| 0 <= i < n.len() && #[trigger] n[i].0.0@ == k;
                let t = if i < j { i } else { i + 1 };
                assert(s[t].0.0@ == k);
                assert(s[t].0.key() != s[j].0.key());
            }
            if ids_of(s).contains(k) && k != id.0@ {
                let i = choose|i: int| 0 <= i < s.len() && #[trigger] s[i].0.0@ == k;
                if i < j {
                    assert(n[i].0.0@ == k);
                } else {
                    assert(n[i - 1].0.0@ == k);
                }
            }
        }
    } else {
        assert forall|i: int| 0 <= i < s.len() implies #[trigger] s[i].0.0@ != id.0@ by {
            if s[i].0.0@ == id.0@ {
                assert(s[i].0.key() == id.key());
                if i > j {
                    assert(s[j].0.key() < s[i].0.key());
                }
            }
        }
    }
    assert(ids_of(n) =~= ids_of(s).remove(id.0@));
}

proof fn lemma_insert_sorted(s: Seq<Indexed>, id: DocumentId, g: Seq<Gram>, j: int)
    requires
        sorted_ids(s),
        splits(s, id.key(), j),
    ensures
        sorted_ids(insert_sorted(s, id, g)),
{
    lemma_slot(s, id.key(), j);
    let n = insert_sorted(s, id, g);
    if holds_key(s, id.key()) {
        assert forall|a: int, b: int| 0 <= a < b < n.len() implies #[trigger] n[a].0.key()
            < #[trigger] n[b].0.key() by {
            if a == j {
                assert(s[j].0.key() < s[b].0.key());
            } else if b == j {
                assert(s[a].0.key() < s[j].0.key());
            }
        }
    } else {
        assert forall|a: int, b: int| 0 <= a < b < n.len() implies #[trigger] n[a].0.key()
            < #[trigger] n[b].0.key() by {
            if a < j && b > j {
                assert(n[a] == s[a]);
                assert(n[b] == s[b - 1]);
            } else if a == j {
                assert(n[b] == s[b - 1]);
            } else if b == j {
                assert(n[a] == s[a]);
            } else if a > j {
                assert(n[a] == s[a - 1]);
                assert(n[b] == s[b - 1]);
            } else {
                assert(n[a] == s[a]);
                assert(n[b] == s[b]);
            }
        }
    }
}

struct Entry {
    id: DocumentId,
    grams: Vec<Gram>,
    max_count: usize,
}

/// An in-memory index of the grams of each indexed document, kept in
/// increasing order of identifier. Per-gram counts, document frequencies and
/// per-document maxima are all derived from it, so they always agree with
/// the documents that it holds.
pub struct Index {
    entries: Vec<Entry>,
}

impl View for Index {
    type V = Seq<Indexed>;

    closed spec fn view(&self) -> Seq<Indexed> {
        Seq::new(self.entries.len() as nat, |k: int| (self.entries[k].id, self.entries[k].grams@))
    }
}

/// Counts the occurrences of `g` in `s`.
fn count_gram(s: &Vec<Gram>, g: Gram) -> (r: usize)
    ensures
        r == occurrences(s@, g),
{
    let mut r: usize = 0;
    let mut i: usize = 0;
    while i < s.len()
        invariant
            i <= s@.len(),
            r == occurrences(s@.take(i as int), g),
        decreases s@.len() - i,
    {
        proof {
            assert(s@.take(i as int + 1).drop_last() =~= s@.take(i as int));
            lemma_occurrences_bound(s@.take(i as int), g);
        }
        if s[i] == g {
            r = r + 1;
        }
        i = i + 1;
    }
    assert(s@.take(i as int) =~= s@);
    r
}

/// The number of occurrences of the most frequent gram of `s`.
fn max_count(s: &Vec<Gram>) -> (r: usize)
    ensures
        r == max_occurrences(s@),
{
    let mut m: usize = 0;
    let mut i: usize = 0;
    while i < s.len()
        invariant
            i <= s@.len(),
            m == max_occurrences_upto(s@, i as int),
        decreases s@.len() - i,
    {
        let c = count_gram(s, s[i]);
        if c > m {
            m = c;
        }
        i = i + 1;
    }
    m
}

impl Index {
    /// Every stored maximum agrees with its grams, and identifiers increase.
    pub closed spec fn wf(&self) -> bool {
        &&& sorted_ids(self@)
        &&& forall|k: int|
            0 <= k < self.entries.len() ==> #[trigger] self.entries[k].max_count
                == max_occurrences(self.entries[k].grams@)
    }

    pub fn new() -> (r: Self)
        ensures
            r.wf(),
            r@ == Seq::<Indexed>::empty(),
    {
        let r = Index { entries: Vec::new() };
        assert(r@ =~= Seq::<Indexed>::empty());
        r
    }

    /// Number of indexed documents.
    pub fn len(&self) -> (r: usize)
        ensures
            r == self@.len(),
    {
        self.entries.len()
    }

    /// How many indexed documents hold `g`.
    fn frequency(&self, g: Gram) -> (r: usize)
        ensures
            r == document_frequency(self@, g),
    {
        let mut r: usize = 0;
        let mut i: usize = 0;
        while i < self.entries.len()
            invariant
                i <= self@.len(),
                r == document_frequency(self@.take(i as int), g),
            decreases self@.len() - i,
        {
            proof {
                assert(self@.take(i as int + 1).drop_last() =~= self@.take(i as int));
                lemma_frequency_bound(self@.take(i as int), g);
            }
            if count_gram(&self.entries[i].grams, g) > 0 {
                r = r + 1;
            }
            i = i + 1;
        }
        assert(self@.take(i as int) =~= self@);
        r
    }

    /// For every indexed document, in increasing order of identifier, the
    /// weights of the query's grams. Query grams that no document holds are
    /// left out, so every `doc_freq` is at least one and at most `total`.
    pub fn candidates(&self, query: &[u8]) -> (r: Vec<Candidate>)
        requires
            self.wf(),
        ensures
            r@.len() == self@.len(),
            forall|k: int|
                0 <= k < r@.len() ==> (#[trigger] r@[k]).id == self@[k].0 && r@[k].terms@
                    == terms_of(self@, query@, self@[k].1),
    {
        let q = grams(query);
        let ghost kg = known_grams(q@, self@);
        let mut known: Vec<(Gram, usize)> = Vec::new();
        let mut i: usize = 0;
        while i < q.len()
            invariant
                i <= q@.len(),
                q@ == grams_of(query@),
                known@.len() == known_grams(q@.take(i as int), self@).len(),
                forall|j: int|
                    0 <= j < known@.len() ==> (#[trigger] known@[j]).0 == known_grams(
                        q@.take(i as int),
                        self@,
                    )[j] && known@[j].1 == document_frequency(self@, known@[j].0),
            decreases q@.len() - i,
        {
            proof {
                assert(q@.take(i as int + 1).drop_last() =~= q@.take(i as int));
            }
            let f = self.frequency(q[i]);
            if f > 0 {
                known.push((q[i], f));
            }
            i = i + 1;
        }
        assert(q@.take(i as int) =~= q@);
        let total = self.entries.len();
        proof {
            lemma_known_grams_held(q@, self@);
        }
        let mut r: Vec<Candidate> = Vec::new();
        let mut k: usize = 0;
        while k < self.entries.len()
            invariant
                self.wf(),
                k <= self@.len(),
                total == self@.len(),
                q@ == grams_of(query@),
                kg == known_grams(q@, self@),
                known@.len() == kg.len(),
                forall|j: int|
                    0 <= j < known@.len() ==> (#[trigger] known@[j]).0 == kg[j] && known@[j].1
                        == document_frequency(self@, known@[j].0),
                r@.len() == k,
                forall|t: int|
                    0 <= t < k ==> (#[trigger] r@[t]).id == self@[t].0 && r@[t].terms@ == terms_of(
                        self@,
                        query@,
                        self@[t].1,
                    ),
            decreases self@.len() - k,
        {
            let e = &self.entries[k];
            let m: usize = if e.max_count == 0 {
                1
            } else {
                e.max_count
            };
            let mut terms: Vec<TermWeight> = Vec::new();
            let mut j: usize = 0;
            while j < known.len()
                invariant
                    self.wf(),
                    k < self@.len(),
                    e == self.entries[k as int],
                    m == normaliser(self@[k as int].1),
                    total == self@.len(),
                    q@ == grams_of(query@),
                    kg == known_grams(q@, self@),
                    known@.len() == kg.len(),
                    forall|t: int|
                        0 <= t < known@.len() ==> (#[trigger] known@[t]).0 == kg[t] && known@[t].1
                            == document_frequency(self@, known@[t].0),
                    j <= known@.len(),
                    terms@ =~= terms_of(self@, query@, self@[k as int].1).take(j as int),
                decreases known@.len() - j,
            {
                let c = count_gram(&e.grams, known[j].0);
                terms.push(TermWeight { count: c, max_count: m, doc_freq: known[j].1, total });
                j = j + 1;
            }
            assert(terms@ =~= terms_of(self@, query@, self@[k as int].1));
            r.push(Candidate { id: e.id, terms });
            k = k + 1;
        }
        r
    }

    /// Finds the slot of `id`.
    fn find(&self, id: DocumentId) -> (r: usize)
        requires
            self.wf(),
        ensures
            r == slot(self@, id.key()),
            splits(self@, id.key(), r as int),
    {
        let k = id.value();
        let mut i: usize = 0;
        while i < self.entries.len() && self.entries[i].id.value() < k
            invariant
                self.wf(),
                k == id.key(),
                i <= self@.len(),
                forall|t: int| 0 <= t < i ==> #[trigger] self@[t].0.key() < k,
            decreases self@.len() - i,
        {
            i = i + 1;
        }
        proof {
            assert forall|t: int| i <= t < self@.len() implies #[trigger] self@[t].0.key() >= k by {
                if i < t {
                    assert(self@[i as int].0.key() < self@[t].0.key());
                }
            }
            lemma_slot(self@, id.key(), i as int);
        }
        i
    }

    /// Indexes `document` under `id`. An entry that `id` already had is replaced.
    pub fn insert(&mut self, id: DocumentId, document: &Document)
        requires
            old(self).wf(),
        ensures
            final(self).wf(),
            final(self)@ == insert_sorted(old(self)@, id, document_grams(*document)),
            ids_of(final(self)@) == ids_of(old(self)@).insert(id.0@),
    {
        let g = document_grams_of(document);
        let m = max_count(&g);
        let j = self.find(id);
        let ghost s = self@;
        let e = Entry { id, grams: g, max_count: m };
        if j < self.entries.len() && self.entries[j].id.value() == id.value() {
            self.entries.set(j, e);
            assert(self@ =~= s.update(j as int, (id, document_grams(*document))));
        } else {
            self.entries.insert(j, e);
            assert(self@ =~= s.insert(j as int, (id, document_grams(*document))));
        }
        proof {
            lemma_insert_sorted(s, id, document_grams(*document), j as int);
            lemma_ids_after_insert(s, id, document_grams(*document), j as int);
            assert forall|k: int| 0 <= k < self.entries.len() implies #[trigger] self.entries[k].max_count
                == max_occurrences(self.entries[k].grams@) by {
                if k != j {
                    assert(self@[k].1 == self.entries[k].grams@);
                }
            }
        }
    }

    /// Drops the entry of `id`; nothing happens where there is none. All that
    /// the index knows of the document goes with it, so every count that a
    /// search reads is over the remaining documents only.
    pub fn remove(&mut self, id: DocumentId)
        requires
            old(self).wf(),
        ensures
            final(self).wf(),
            final(self)@ == remove_sorted(old(self)@, id),
            ids_of(final(self)@) == ids_of(old(self)@).remove(id.0@),
    {
        let j = self.find(id);
        let ghost s = self@;
        proof {
            lemma_ids_after_remove(s, id, j as int);
        }
        if j < self.entries.len() && self.entries[j].id.value() == id.value() {
            self.entries.remove(j);
            assert(self@ =~= s.remove(j as int));
            assert forall|k: int| 0 <= k < self.entries.len() implies #[trigger] self.entries[k].max_count
                == max_occurrences(self.entries[k].grams@) by {
                assert(self@[k].1 == self.entries[k].grams@);
            }
        }
    }
}

} // verus!
