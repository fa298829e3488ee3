use sightnet_core::collection::Collection;
use sightnet_core::document::Document;
use sightnet_core::error::EngineError;
use sightnet_core::field::{FieldType, FieldValue};
use sightnet_core::file::{File, TokenType};
use sightnet_core::ranker::{Bm25, Rank, Ranker, Score};
use sightnet_core::search::rank_top;
use sightnet_core::term::Term;

fn text(s: &str) -> FieldValue {
    FieldValue::String(s.to_string(), None)
}

fn title_collection() -> Collection {
    let mut c = Collection::new();
    c.push_field("title", FieldType::String).unwrap();
    for (i, t) in ["the quick fox", "the lazy dog", "quick quick fox"].iter().enumerate() {
        let mut d = Document::new();
        d.push("title", text(t));
        c.push(d, Some(i as i32)).unwrap();
    }
    c
}

fn bm25_score(b: &Bm25) -> f32 {
    let n = b.doc_count as f32;
    let nt = b.docs_with_term as f32;
    let idf = ((n - nt + 0.5) / (nt + 0.5) + 1.0).ln();
    let avgdl = b.total_tokens as f32 / n;
    let f = b.freq as f32;
    idf * (f * 2.2) / (f + 1.2 * (1.0 - 0.75 + 0.75 * (n / avgdl)))
}

fn total(scores: &[Score]) -> f32 {
    scores
        .iter()
        .map(|s| match s {
            Score::Exact => 1.0,
            Score::Bm25(b) => bm25_score(b),
        })
        .sum()
}

fn order_key(x: f32) -> i64 {
    let b = x.to_bits() as i32;
    (b ^ ((((b >> 31) as u32) >> 1) as i32)) as i64
}

#[test]
fn field_values_have_text_forms() {
    assert_eq!(FieldValue::Int(-42).as_string(), "-42");
    assert_eq!(FieldValue::Int(0).as_string(), "0");
    assert_eq!(FieldValue::Bool(true).as_string(), "true");
    assert_eq!(text("abc").as_string(), "abc");
}

#[test]
fn field_values_convert() {
    assert_eq!(text("17").as_int(), Some(17));
    assert_eq!(text("-5").as_int(), Some(-5));
    assert_eq!(text("x1").as_int(), None);
    assert_eq!(FieldValue::Bool(true).as_int(), Some(1));
    assert_eq!(FieldValue::Int(3).as_bool(), Some(true));
    assert_eq!(FieldValue::Int(0).as_bool(), Some(false));
    assert_eq!(text("false").as_bool(), Some(false));
    assert_eq!(text("yes").as_bool(), None);
}

#[test]
fn field_values_compare_by_text() {
    assert!(FieldValue::Int(42) == text("42"));
    assert!(FieldValue::Bool(true) == text("true"));
    assert!(FieldValue::Int(42) != FieldValue::Int(43));
}

#[test]
fn field_types_have_codes_and_names() {
    assert_eq!(FieldType::from_u32(0), Some(FieldType::Int));
    assert_eq!(FieldType::from_u32(2), Some(FieldType::String));
    assert_eq!(FieldType::from_u32(3), None);
    assert_eq!(FieldType::Bool.to_u32(), 1);
    assert_eq!(FieldType::from_name("bool"), Some(FieldType::Bool));
    assert_eq!(FieldType::from_name("float"), None);
    assert_eq!(FieldType::String.name(), "string");
    assert_eq!(TokenType::from_u32(6), Some(TokenType::DocumentFieldValue));
    assert_eq!(TokenType::from_u32(7), None);
}

#[test]
fn prototype_values() {
    assert!(matches!(FieldValue::new(FieldType::Int), FieldValue::Int(0)));
    assert!(matches!(FieldValue::new(FieldType::Bool), FieldValue::Bool(false)));
    assert!(matches!(FieldValue::new(FieldType::String), FieldValue::String(s, None) if s.is_empty()));
}

#[test]
fn document_push_upserts() {
    let mut d = Document::new();
    d.push("a", FieldValue::Int(1));
    d.push("b", FieldValue::Int(2));
    d.push("a", FieldValue::Int(3));
    assert_eq!(d.len(), 2);
    assert_eq!(d.get("a").unwrap().as_int(), Some(3));
    assert!(d.get("c").is_none());
    if let Some(v) = d.get_mut("b") {
        *v = FieldValue::Int(9);
    }
    assert_eq!(d.get("b").unwrap().as_int(), Some(9));
}

#[test]
fn process_field_caches_tokens() {
    let mut d = Document::new();
    d.push("t", text("Quick Foxes"));
    d.push("n", FieldValue::Int(4));
    let toks = d.process_field("t").unwrap();
    assert_eq!(toks, vec![Term::from("quick"), Term::from("fox")]);
    match d.get("t").unwrap() {
        FieldValue::String(_, Some(ts)) => assert_eq!(ts.len(), 2),
        _ => panic!("tokens not cached"),
    }
    assert!(d.process_field("n").is_none());
    assert!(d.process_field("missing").is_none());
}

#[test]
fn duplicate_field_name_is_a_schema_error() {
    let mut c = Collection::new();
    assert_eq!(c.push_field("title", FieldType::String), Ok(()));
    assert_eq!(c.push_field("title", FieldType::Int), Err(EngineError::SchemaError));
    assert_eq!(c.fields().len(), 1);
}

#[test]
fn same_explicit_id_is_an_identity_conflict() {
    let mut c = Collection::new();
    c.push_field("n", FieldType::Int).unwrap();
    let mut a = Document::new();
    a.push("n", FieldValue::Int(1));
    let mut b = Document::new();
    b.push("n", FieldValue::Int(2));
    assert_eq!(c.push(a, Some(5)), Ok(5));
    assert_eq!(c.push(b, Some(5)), Err(EngineError::IdentityConflict));
    assert_eq!(c.len(), 1);
    assert_eq!(c.get(5).unwrap().get("n").unwrap().as_int(), Some(1));
}

#[test]
fn automatic_ids_count_up() {
    let mut c = Collection::default();
    assert_eq!(c.push(Document::new(), None), Ok(0));
    assert_eq!(c.push(Document::new(), None), Ok(1));
    assert_eq!(c.push(Document::new(), Some(2)), Ok(2));
    assert_eq!(c.push(Document::new(), None), Err(EngineError::IdentityConflict));
    assert_eq!(c.len(), 3);
    assert!(!c.is_empty());
}

#[test]
fn remove_deletes_or_reports_not_found() {
    let mut c = Collection::new();
    c.push(Document::new(), Some(7)).unwrap();
    assert_eq!(c.remove(8), Err(EngineError::NotFound));
    assert_eq!(c.remove(7), Ok(()));
    assert!(c.is_empty());
    assert!(c.get(7).is_none());
}

#[test]
fn commit_builds_postings_with_term_frequency() {
    let mut c = title_collection();
    c.commit();
    let idx = &c.get_field(&"title".to_string()).unwrap().inverted_index;
    assert_eq!(idx.get(&Term::from("quick")).unwrap(), &vec![0, 2, 2]);
    assert_eq!(idx.get(&Term::from("the")).unwrap(), &vec![0, 1]);
    assert!(idx.get(&Term::from("cat")).is_none());
}

#[test]
fn commit_twice_gives_the_same_index() {
    let mut c = title_collection();
    c.commit();
    c.commit();
    let idx = &c.get_field(&"title".to_string()).unwrap().inverted_index;
    assert_eq!(idx.get(&Term::from("quick")).unwrap(), &vec![0, 2, 2]);
    assert_eq!(idx.get(&Term::from("fox")).unwrap(), &vec![0, 2]);
}

#[test]
fn int_field_matches_exactly() {
    let mut c = Collection::new();
    c.push_field("n", FieldType::Int).unwrap();
    for (i, v) in [42i64, 7, 42].iter().enumerate() {
        let mut d = Document::new();
        d.push("n", FieldValue::Int(*v));
        c.push(d, Some(i as i32)).unwrap();
    }
    let f = c.get_field(&"n".to_string()).unwrap();
    let ranks = Ranker::rank_int(&Term::from("42"), &c, f);
    assert_eq!(
        ranks,
        vec![
            Rank { id: 0, score: Score::Exact },
            Rank { id: 2, score: Score::Exact }
        ]
    );
    assert!(Ranker::rank_int(&Term::from("8"), &c, f).is_empty());
    assert_eq!(Ranker::rank(&Term::from("7"), false, &c, f), vec![Rank { id: 1, score: Score::Exact }]);
}

#[test]
fn bool_and_strict_string_fields_match_exactly() {
    let mut c = Collection::new();
    c.push_field("b", FieldType::Bool).unwrap();
    c.push_field("s", FieldType::String).unwrap();
    let mut d = Document::new();
    d.push("b", FieldValue::Bool(true));
    d.push("s", text("exact"));
    c.push(d, None).unwrap();
    let b = c.get_field(&"b".to_string()).unwrap();
    let s = c.get_field(&"s".to_string()).unwrap();
    assert_eq!(Ranker::rank_bool(&Term::from("true"), &c, b), vec![Rank { id: 0, score: Score::Exact }]);
    assert!(Ranker::rank_bool(&Term::from("false"), &c, b).is_empty());
    assert_eq!(Ranker::rank_string(&Term::from("exact"), true, &c, s), vec![Rank { id: 0, score: Score::Exact }]);
    assert!(Ranker::rank_string(&Term::from("exac"), true, &c, s).is_empty());
}

#[test]
fn bm25_counts_for_the_scenario() {
    let mut c = title_collection();
    c.commit();
    let f = c.get_field(&"title".to_string()).unwrap();
    let ranks = Ranker::rank(&Term::from("quick"), false, &c, f);
    let expect = |id: i32, freq: usize| Rank {
        id,
        score: Score::Bm25(Bm25 { freq, doc_count: 3, docs_with_term: 2, total_tokens: 9 }),
    };
    assert_eq!(ranks, vec![expect(0, 1), expect(2, 2)]);
    assert!(Ranker::rank(&Term::from("cat"), false, &c, f).is_empty());
}

#[test]
fn bm25_counts_each_document_once() {
    let mut c = Collection::new();
    c.push_field("t", FieldType::String).unwrap();
    let mut d = Document::new();
    d.push("t", text("echo echo"));
    c.push(d, None).unwrap();
    c.commit();
    let f = c.get_field(&"t".to_string()).unwrap();
    let ranks = Ranker::rank(&Term::from("echo"), false, &c, f);
    assert_eq!(
        ranks,
        vec![Rank {
            id: 0,
            score: Score::Bm25(Bm25 { freq: 2, doc_count: 1, docs_with_term: 1, total_tokens: 2 })
        }]
    );
    if let Score::Bm25(b) = ranks[0].score {
        assert!(bm25_score(&b) > 0.0);
    }
}

#[test]
fn removed_documents_leave_the_counts() {
    let mut c = title_collection();
    c.commit();
    c.remove(0).unwrap();
    let f = c.get_field(&"title".to_string()).unwrap();
    let ranks = Ranker::rank(&Term::from("quick"), false, &c, f);
    assert_eq!(ranks.len(), 1);
    assert_eq!(ranks[0].id, 2);
    match ranks[0].score {
        Score::Bm25(b) => {
            assert_eq!(b.doc_count, 2);
            assert_eq!(b.docs_with_term, 1);
        }
        _ => panic!("expected a BM25 score"),
    }
}

#[test]
fn loaded_collections_are_uncommitted() {
    let mut c = title_collection();
    c.commit();
    let back = File::decode(&File::encode(&c)).unwrap();
    let idx = &back.get_field(&"title".to_string()).unwrap().inverted_index;
    assert!(idx.get(&Term::from("quick")).is_none());
    assert!(matches!(back.get(0).unwrap().get("title").unwrap(), FieldValue::String(_, None)));
}

#[test]
fn bm25_grows_with_frequency() {
    let a = Bm25 { freq: 1, doc_count: 3, docs_with_term: 2, total_tokens: 9 };
    let b = Bm25 { freq: 2, ..a };
    let c = Bm25 { freq: 50, ..a };
    assert!(bm25_score(&a) < bm25_score(&b));
    assert!(bm25_score(&b) < bm25_score(&c));
    let idf = ((3.0f32 - 2.0 + 0.5) / (2.0 + 0.5) + 1.0).ln();
    assert!(bm25_score(&c) < idf * 2.2);
}

#[test]
fn search_scenario_ranks_two_above_zero() {
    let mut c = title_collection();
    c.commit();
    let hits = c.search_hits("quick", false, None).unwrap();
    assert_eq!(hits.len(), 2);
    assert!(hits.iter().all(|h| h.id != 1));
    let scored: Vec<(i32, i64)> = hits.iter().map(|h| (h.id, order_key(total(&h.scores)))).collect();
    let top = rank_top(scored, Some(10));
    let ids: Vec<i32> = top.iter().map(|p| p.0).collect();
    assert_eq!(ids, vec![2, 0]);
}

#[test]
fn search_with_unknown_field_is_a_schema_error() {
    let c = title_collection();
    let r = c.search_hits("quick", false, Some(vec!["body".to_string()]));
    assert_eq!(r.err(), Some(EngineError::SchemaError));
}

#[test]
fn search_sums_scores_over_terms_and_fields() {
    let mut c = Collection::new();
    c.push_field("n", FieldType::Int).unwrap();
    c.push_field("m", FieldType::Int).unwrap();
    let mut d = Document::new();
    d.push("n", FieldValue::Int(5));
    d.push("m", FieldValue::Int(5));
    c.push(d, None).unwrap();
    c.commit();
    let hits = c.search_hits("5 5", true, None).unwrap();
    assert_eq!(hits.len(), 1);
    assert_eq!(hits[0].scores.len(), 4);
    let only_n = c.search_hits("5", true, Some(vec!["n".to_string()])).unwrap();
    assert_eq!(only_n[0].scores, vec![Score::Exact]);
}

#[test]
fn ranking_breaks_ties_by_id_and_is_repeatable() {
    let scored = vec![(5, 10), (3, 10), (9, 20), (1, -4)];
    let once = rank_top(scored.clone(), None);
    let twice = rank_top(scored, None);
    assert_eq!(once, vec![(9, 20), (3, 10), (5, 10), (1, -4)]);
    assert_eq!(once, twice);
}

#[test]
fn ranking_keeps_at_most_max() {
    let scored: Vec<(i32, i64)> = (0..12).map(|i| (i, i as i64)).collect();
    assert_eq!(rank_top(scored.clone(), None).len(), 10);
    let two = rank_top(scored.clone(), Some(2));
    assert_eq!(two, vec![(11, 11), (10, 10)]);
    assert_eq!(rank_top(scored, Some(40)).len(), 12);
}

#[test]
fn save_then_load_gives_the_same_documents() {
    let mut c = Collection::new();
    c.push_field("title", FieldType::String).unwrap();
    c.push_field("year", FieldType::Int).unwrap();
    c.push_field("done", FieldType::Bool).unwrap();
    let mut d = Document::new();
    d.push("title", text("Café, crème"));
    d.push("year", FieldValue::Int(-1999));
    d.push("done", FieldValue::Bool(true));
    c.push(d, Some(12)).unwrap();
    let mut e = Document::new();
    e.push("year", FieldValue::Int(2024));
    c.push(e, Some(-3)).unwrap();
    c.commit();
    let bytes = File::encode(&c);
    let back = File::decode(&bytes).unwrap();
    assert_eq!(back.len(), 2);
    assert_eq!(back.fields().len(), 3);
    assert_eq!(back.fields()[1].name, "year");
    assert_eq!(back.fields()[2].field_type, FieldType::Bool);
    let d = back.get(12).unwrap();
    assert_eq!(d.get("title").unwrap().as_string(), "Café, crème");
    assert!(matches!(d.get("year").unwrap(), FieldValue::Int(-1999)));
    assert!(matches!(d.get("done").unwrap(), FieldValue::Bool(true)));
    assert!(matches!(d.get("title").unwrap(), FieldValue::String(_, None)));
    assert!(matches!(back.get(-3).unwrap().get("year").unwrap(), FieldValue::Int(2024)));
    assert_eq!(File::encode(&back), bytes);
}

#[test]
fn encoding_has_the_documented_layout() {
    let mut c = Collection::new();
    c.push_field("a", FieldType::Bool).unwrap();
    let bytes = File::encode(&c);
    let mut expect = Vec::new();
    for s in ["0", "a", "1", "1"] {
        expect.extend_from_slice(&(s.len() as u64).to_be_bytes());
        expect.extend_from_slice(s.as_bytes());
    }
    assert_eq!(bytes, expect);
}

#[test]
fn loading_resets_next_id_to_the_count() {
    let mut c = Collection::new();
    c.push(Document::new(), Some(40)).unwrap();
    let mut back = File::decode(&File::encode(&c)).unwrap();
    assert_eq!(back.push(Document::new(), None), Ok(1));
}

#[test]
fn malformed_bytes_are_decode_errors() {
    assert_eq!(File::decode(&vec![0, 0, 0]).err(), Some(EngineError::DecodeError));
    let mut c = Collection::new();
    c.push_field("x", FieldType::Int).unwrap();
    let mut bytes = File::encode(&c);
    bytes.pop();
    assert_eq!(File::decode(&bytes).err(), Some(EngineError::DecodeError));
    let mut bad = Vec::new();
    for s in ["9", "x"] {
        bad.extend_from_slice(&(s.len() as u64).to_be_bytes());
        bad.extend_from_slice(s.as_bytes());
    }
    assert_eq!(File::decode(&bad).err(), Some(EngineError::DecodeError));
    let mut untyped = Vec::new();
    for s in ["1", "2"] {
        untyped.extend_from_slice(&(s.len() as u64).to_be_bytes());
        untyped.extend_from_slice(s.as_bytes());
    }
    assert_eq!(File::decode(&untyped).err(), Some(EngineError::DecodeError));
    let mut not_utf8 = Vec::new();
    not_utf8.extend_from_slice(&1u64.to_be_bytes());
    not_utf8.push(0xff);
    not_utf8.extend_from_slice(&1u64.to_be_bytes());
    not_utf8.push(b'x');
    assert_eq!(File::decode(&not_utf8).err(), Some(EngineError::DecodeError));
    assert!(File::decode(&Vec::new()).unwrap().is_empty());
}

#[test]
fn documents_compare_by_fields_in_any_order() {
    let mut a = Document::new();
    a.push("x", FieldValue::Int(1));
    a.push("y", text("two"));
    let mut b = Document::new();
    b.push("y", text("two"));
    b.push("x", text("1"));
    assert!(a == b);
    b.push("x", FieldValue::Int(3));
    assert!(a != b);
    let mut c = Document::new();
    c.push("x", FieldValue::Int(1));
    assert!(a != c);
}

#[test]
fn values_come_back_read_under_the_declared_type() {
    let mut c = Collection::new();
    c.push_field("s", FieldType::String).unwrap();
    c.push_field("n", FieldType::Int).unwrap();
    let mut d = Document::new();
    d.push("s", FieldValue::Int(42));
    d.push("n", text("17"));
    c.push(d, Some(1)).unwrap();
    let back = File::decode(&File::encode(&c)).unwrap();
    let d = back.get(1).unwrap();
    assert!(matches!(d.get("s").unwrap(), FieldValue::String(s, None) if s == "42"));
    assert!(matches!(d.get("n").unwrap(), FieldValue::Int(17)));
    assert!(*d == *c.get(1).unwrap());
}
