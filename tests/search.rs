use domain::document::Document;
use domain::gram::{grams, Gram};
use domain::index::{Index, TermWeight};
use domain::rank::top_k;
use domain::storage::DocumentId;

fn doc(title: &str, hash: u8) -> Document {
    Document::new(title.to_string(), vec![], vec![], [hash; 32], "pdf".to_string())
}

fn id(n: u64) -> DocumentId {
    DocumentId::from_value(n)
}

fn score(terms: &[TermWeight]) -> f32 {
    terms
        .iter()
        .map(|t| {
            let tf = 0.5 + 0.5 * (t.count as f32 / t.max_count as f32);
            let idf = (t.total as f32 / t.doc_freq as f32).ln();
            tf * idf
        })
        .sum()
}

fn search(index: &Index, query: &str, k: usize) -> Vec<(DocumentId, f32)> {
    let candidates = index.candidates(query.as_bytes());
    let keys: Vec<u32> = candidates.iter().map(|c| score(&c.terms).to_bits()).collect();
    top_k(&keys, k)
        .into_iter()
        .map(|p| (candidates[p].id, f32::from_bits(keys[p])))
        .collect()
}

#[test]
fn grams_fold_case_and_slide() {
    let g = grams(b"RuSt");
    assert_eq!(
        g,
        vec![
            Gram { b0: b'r', b1: b'u', b2: b's' },
            Gram { b0: b'u', b1: b's', b2: b't' }
        ]
    );
    assert!(grams(b"ab").is_empty());
    assert!(grams(b"").is_empty());
}

#[test]
fn rust_documents_rank_above_unrelated() {
    let mut index = Index::new();
    index.insert(id(1), &doc("Rust Programming", 1));
    index.insert(id(2), &doc("The Rust Book", 2));
    index.insert(id(3), &doc("Cooking with Rust", 3));
    index.insert(id(4), &doc("Unrelated Topic", 4));
    let results = search(&index, "rust", 5);
    assert_eq!(results.len(), 4);
    let ids: Vec<DocumentId> = results.iter().map(|r| r.0).collect();
    assert_eq!(ids[3], id(4));
    assert!(ids[..3].contains(&id(1)));
    assert!(ids[..3].contains(&id(2)));
    assert!(ids[..3].contains(&id(3)));
    assert!(results[2].1 > results[3].1);
}

#[test]
fn unseen_gram_gives_finite_scores() {
    let mut index = Index::new();
    index.insert(id(1), &doc("Rust Programming", 1));
    index.insert(id(2), &doc("ab", 2));
    let candidates = index.candidates(b"rust zzz");
    assert_eq!(candidates.len(), 2);
    for c in &candidates {
        // "rus", "ust" and "st " are held; "t z", " zz" and "zzz" are not
        assert_eq!(c.terms.len(), 3);
        for t in &c.terms {
            assert!(t.doc_freq >= 1 && t.doc_freq <= t.total);
            assert!(t.max_count >= 1);
        }
        assert!(score(&c.terms).is_finite());
    }
    let results = search(&index, "qqq", 3);
    for (_, s) in results {
        assert!(s.is_finite());
        assert_eq!(s, 0.0);
    }
}

#[test]
fn term_weights_are_exact() {
    let mut index = Index::new();
    index.insert(id(7), &doc("aaaa", 1));
    index.insert(id(9), &doc("xaaa", 2));
    let c = index.candidates(b"aaa");
    assert_eq!(c[0].id, id(7));
    assert_eq!(c[0].terms, vec![TermWeight { count: 2, max_count: 2, doc_freq: 2, total: 2 }]);
    assert_eq!(c[1].terms, vec![TermWeight { count: 1, max_count: 1, doc_freq: 2, total: 2 }]);
}

#[test]
fn authors_and_keywords_are_indexed_per_field() {
    let mut index = Index::new();
    let d = Document::new(
        "ab".to_string(),
        vec!["cd".to_string()],
        vec!["efg".to_string()],
        [0; 32],
        "pdf".to_string(),
    );
    index.insert(id(1), &d);
    // windows do not cross from one field into the next
    assert_eq!(index.candidates(b"bcd")[0].terms.len(), 0);
    assert_eq!(index.candidates(b"efg")[0].terms.len(), 1);
}

#[test]
fn remove_purges_document() {
    let mut index = Index::new();
    index.insert(id(1), &doc("Rust", 1));
    index.insert(id(2), &doc("Rust again", 2));
    index.remove(id(1));
    assert_eq!(index.len(), 1);
    let c = index.candidates(b"rust");
    assert_eq!(c.len(), 1);
    assert_eq!(c[0].id, id(2));
    assert_eq!(c[0].terms[0].doc_freq, 1);
    index.remove(id(1));
    assert_eq!(index.len(), 1);
}

#[test]
fn insert_same_id_replaces() {
    let mut index = Index::new();
    index.insert(id(1), &doc("Rust", 1));
    index.insert(id(1), &doc("Rust", 1));
    assert_eq!(index.len(), 1);
    assert_eq!(index.candidates(b"rust")[0].terms[0].doc_freq, 1);
}

#[test]
fn rebuilt_index_ranks_the_same() {
    let docs = vec![
        doc("Rust Programming", 1),
        doc("The Rust Book", 2),
        doc("Cooking with Rust", 3),
        doc("Unrelated Topic", 4),
    ];
    let mut live = Index::new();
    for (i, d) in docs.iter().enumerate() {
        live.insert(id(i as u64 + 10), d);
    }
    let records: Vec<(DocumentId, Document)> = docs
        .iter()
        .enumerate()
        .map(|(i, d)| (id(i as u64 + 10), d.clone()))
        .collect();
    let rebuilt = domain::domain::rebuild(&records);
    assert_eq!(search(&live, "rust book", 3), search(&rebuilt, "rust book", 3));
}

#[test]
fn top_k_bounds_and_orders() {
    let keys = vec![3u32, 9, 1, 9, 5];
    assert_eq!(top_k(&keys, 2), vec![1, 3]);
    assert_eq!(top_k(&keys, 3), vec![1, 3, 4]);
    assert_eq!(top_k(&keys, 10), vec![1, 3, 4, 0, 2]);
    assert_eq!(top_k(&Vec::new(), 4), Vec::<usize>::new());
}

#[test]
fn search_returns_whole_corpus_when_k_is_large() {
    let mut index = Index::new();
    index.insert(id(1), &doc("alpha", 1));
    index.insert(id(2), &doc("beta", 2));
    let r = search(&index, "alp", 10);
    assert_eq!(r.len(), 2);
    assert!(r[0].1 >= r[1].1);
    assert_eq!(r[0].0, id(1));
}
