use smolpuff::score::Score;
use smolpuff::selection::{select_top_k, QueryResult, TopK};

fn cosine(a: &[f32], b: &[f32]) -> f32 {
    if a.len() != b.len() || a.is_empty() {
        return 0.0;
    }
    let dot: f32 = a.iter().zip(b.iter()).map(|(x, y)| x * y).sum();
    let ma: f32 = a.iter().map(|x| x * x).sum::<f32>().sqrt();
    let mb: f32 = b.iter().map(|x| x * x).sum::<f32>().sqrt();
    if ma == 0.0 || mb == 0.0 {
        return 0.0;
    }
    dot / (ma * mb)
}

fn item(id: &str, score: f32) -> QueryResult {
    QueryResult {
        id: id.to_string(),
        score: Score::from_bits(score.to_bits()),
        metadata: None,
    }
}

fn score_of(r: &QueryResult) -> f32 {
    f32::from_bits(r.score.bits)
}

fn ids(rs: &[QueryResult]) -> Vec<String> {
    rs.iter().map(|r| r.id.clone()).collect()
}

fn five_docs(query: &[f32]) -> Vec<QueryResult> {
    let docs: Vec<(&str, Vec<f32>)> = vec![
        ("doc1", vec![1.0, 0.0, 0.0]),
        ("doc2", vec![0.9, 0.1, 0.0]),
        ("doc3", vec![0.0, 1.0, 0.0]),
        ("doc4", vec![0.0, 0.0, 1.0]),
        ("doc5", vec![0.5, 0.5, 0.0]),
    ];
    docs.iter().map(|(id, v)| item(id, cosine(query, v))).collect()
}

#[test]
fn five_documents_best_three() {
    let r = select_top_k(five_docs(&[1.0, 0.0, 0.0]), 3);
    assert_eq!(ids(&r), vec!["doc1", "doc2", "doc5"]);
    assert!((score_of(&r[0]) - 1.0).abs() < 1e-4);
    assert!((score_of(&r[1]) - 0.9939).abs() < 1e-4);
    assert!((score_of(&r[2]) - 0.7071).abs() < 1e-4);
}

#[test]
fn self_similarity_ranks_first() {
    let r = select_top_k(five_docs(&[0.5, 0.5, 0.0]), 1);
    assert_eq!(ids(&r), vec!["doc5"]);
    assert!((score_of(&r[0]) - 1.0).abs() < 1e-6);
}

#[test]
fn zero_k_gives_nothing() {
    let r = select_top_k(five_docs(&[1.0, 0.0, 0.0]), 0);
    assert!(r.is_empty());
}

#[test]
fn k_above_count_gives_all() {
    let r = select_top_k(five_docs(&[0.0, 1.0, 0.0]), 10);
    assert_eq!(r.len(), 5);
    assert_eq!(r[0].id, "doc3");
}

#[test]
fn empty_candidates() {
    let r = select_top_k(Vec::new(), 4);
    assert!(r.is_empty());
}

#[test]
fn results_descend() {
    let scores = [0.3f32, -0.5, 0.9, 0.0, -1.0, 0.7, 0.1, 0.9, -0.2];
    let cands: Vec<QueryResult> = scores
        .iter()
        .enumerate()
        .map(|(i, s)| item(&format!("d{}", i), *s))
        .collect();
    let r = select_top_k(cands, 6);
    assert_eq!(r.len(), 6);
    for w in r.windows(2) {
        assert!(score_of(&w[0]) >= score_of(&w[1]));
    }
}

#[test]
fn best_k_set_is_kept() {
    let scores = [0.2f32, 0.8, -0.4, 0.6, 0.1, 0.95, 0.5];
    let cands: Vec<QueryResult> = scores
        .iter()
        .enumerate()
        .map(|(i, s)| item(&format!("d{}", i), *s))
        .collect();
    let r = select_top_k(cands, 3);
    let mut got = ids(&r);
    got.sort();
    assert_eq!(got, vec!["d1", "d3", "d5"]);
}

#[test]
fn tie_at_boundary_keeps_first_seen() {
    let mut sel = TopK::new(2);
    sel.offer(item("a", 0.5));
    sel.offer(item("b", 0.2));
    sel.offer(item("c", 0.2));
    assert_eq!(sel.len(), 2);
    let r = sel.into_results();
    assert_eq!(ids(&r), vec!["a", "b"]);
}

#[test]
fn stronger_item_evicts_weakest() {
    let mut sel = TopK::new(2);
    sel.offer(item("a", 0.5));
    sel.offer(item("b", 0.2));
    sel.offer(item("c", 0.3));
    let r = sel.into_results();
    assert_eq!(ids(&r), vec!["a", "c"]);
}

#[test]
fn zero_capacity_holds_nothing() {
    let mut sel = TopK::new(0);
    sel.offer(item("a", 1.0));
    assert_eq!(sel.len(), 0);
    assert!(sel.into_results().is_empty());
}

#[test]
fn degenerate_scores_are_eligible() {
    let cands = vec![
        item("mismatch", cosine(&[1.0, 0.0], &[1.0, 0.0, 0.0])),
        item("zero", cosine(&[0.0, 0.0], &[1.0, 1.0])),
        item("neg", -0.5),
    ];
    let r = select_top_k(cands, 2);
    let mut got = ids(&r);
    got.sort();
    assert_eq!(got, vec!["mismatch", "zero"]);
    assert_eq!(score_of(&r[0]), 0.0);
}

#[test]
fn metadata_travels_with_result() {
    let mut a = item("a", 0.4);
    a.metadata = Some(serde_json::Value::from("Document A"));
    let b = item("b", 0.9);
    let r = select_top_k(vec![a, b], 2);
    assert_eq!(r[1].id, "a");
    assert_eq!(r[1].metadata, Some(serde_json::Value::from("Document A")));
    assert_eq!(r[0].metadata, None);
}

#[test]
fn held_nan_is_not_displaced() {
    let mut sel = TopK::new(1);
    sel.offer(item("nan", f32::NAN));
    sel.offer(item("half", 0.5));
    let r = sel.into_results();
    assert_eq!(ids(&r), vec!["nan"]);
}

#[test]
fn nan_does_not_displace_a_number() {
    let mut sel = TopK::new(1);
    sel.offer(item("low", -0.9));
    sel.offer(item("nan", f32::NAN));
    let r = sel.into_results();
    assert_eq!(ids(&r), vec!["low"]);
}

#[test]
fn numbers_beside_a_held_nan_stay_best() {
    let mut sel = TopK::new(3);
    sel.offer(item("a", 0.1));
    sel.offer(item("nan", f32::NAN));
    sel.offer(item("b", 0.4));
    sel.offer(item("c", 0.9));
    sel.offer(item("d", 0.05));
    let r = sel.into_results();
    assert_eq!(ids(&r), vec!["nan", "c", "b"]);
}
