use gel::analyzer::analyze;
use gel::index::{Document, Index, IndexError, IndexWriter, Reader};
use gel::query::parse;
use gel::search::{FieldName, Hit, Searcher};

fn terms(words: &[&str]) -> Vec<Vec<char>> {
    words.iter().map(|w| w.chars().collect()).collect()
}

fn doc(title: &str, body: &str) -> Document {
    Document { title: title.to_string(), body: body.to_string() }
}

fn build(docs: &[(&str, &str)]) -> (Index, Vec<u64>) {
    let mut index = Index::new();
    let mut w = IndexWriter::open(&mut index).unwrap();
    let ids = docs.iter().map(|(t, b)| w.add(&doc(t, b))).collect();
    w.commit(&mut index);
    w.close(&mut index);
    (index, ids)
}

fn searcher(index: &Index) -> Searcher {
    Reader::open(index).searcher()
}

fn hit_ids(hits: &[Hit]) -> Vec<u64> {
    hits.iter().map(|h| h.doc_id).collect()
}

#[test]
fn analyzer_lowercases_and_splits() {
    assert_eq!(analyze("Hello, World! 42"), terms(&["hello", "world", "42"]));
    assert_eq!(analyze("  --a-b--  "), terms(&["a", "b"]));
    assert_eq!(analyze(""), terms(&[]));
    assert_eq!(analyze("!!!"), terms(&[]));
    assert_eq!(analyze("ÉCOLE Straße"), terms(&["école", "straße"]));
}

#[test]
fn analyzer_is_deterministic() {
    let text = "The Quick, brown fox -- jumps";
    assert_eq!(analyze(text), analyze(text));
}

#[test]
fn round_trip_keeps_stored_title() {
    let (index, ids) = build(&[("Rust Systems", "ownership and borrowing")]);
    let hits = searcher(&index).query("rust", 10).unwrap();
    assert_eq!(hits.len(), 1);
    assert_eq!(hits[0].doc_id, ids[0]);
    assert_eq!(hits[0].title, "Rust Systems");
}

#[test]
fn committed_terms_are_found() {
    let (index, ids) = build(&[
        ("Alpha", "one two three"),
        ("Beta", "three four"),
        ("Gamma Delta", "five"),
    ]);
    let s = searcher(&index);
    assert_eq!(hit_ids(&s.query("alpha", 10).unwrap()), vec![ids[0]]);
    assert_eq!(hit_ids(&s.query("FOUR", 10).unwrap()), vec![ids[1]]);
    assert_eq!(hit_ids(&s.query("delta", 10).unwrap()), vec![ids[2]]);
    assert!(s.query("missing", 10).unwrap().is_empty());
}

#[test]
fn phrase_needs_consecutive_positions() {
    let (index, ids) = build(&[("Fox", "the quick brown fox")]);
    let s = searcher(&index);
    assert_eq!(hit_ids(&s.query("\"quick brown\"", 10).unwrap()), vec![ids[0]]);
    assert!(s.query("\"brown quick\"", 10).unwrap().is_empty());
    assert!(s.query("\"quick fox\"", 10).unwrap().is_empty());
}

#[test]
fn deleted_document_is_not_returned() {
    let (mut index, ids) = build(&[("Rust one", "a"), ("Rust two", "b")]);
    assert_eq!(searcher(&index).query("rust", 10).unwrap().len(), 2);
    let mut w = IndexWriter::open(&mut index).unwrap();
    w.delete(ids[0]);
    w.commit(&mut index);
    w.close(&mut index);
    assert_eq!(hit_ids(&searcher(&index).query("rust", 10).unwrap()), vec![ids[1]]);
}

#[test]
fn delete_of_buffered_document_drops_it() {
    let mut index = Index::new();
    let mut w = IndexWriter::open(&mut index).unwrap();
    let a = w.add(&doc("Rust", "x"));
    let b = w.add(&doc("Rust", "y"));
    w.delete(a);
    assert!(w.deletes.is_empty());
    assert_eq!(w.buffer.len(), 1);
    w.commit(&mut index);
    assert_eq!(hit_ids(&searcher(&index).query("rust", 10).unwrap()), vec![b]);
}

#[test]
fn top_three_are_a_prefix_of_top_ten() {
    let mut docs = Vec::new();
    let bodies = [
        "rust", "rust rust", "rust rust rust", "go", "rust", "rust rust", "other", "rust", "rust x",
        "rust rust rust rust",
    ];
    for b in bodies.iter() {
        docs.push(("t", *b));
    }
    let (index, _) = build(&docs);
    let s = searcher(&index);
    let top3 = s.query("rust", 3).unwrap();
    let top10 = s.query("rust", 10).unwrap();
    assert_eq!(top3.len(), 3);
    assert_eq!(top10.len(), 8);
    assert_eq!(hit_ids(&top3), hit_ids(&top10[..3]));
    for w in top10.windows(2) {
        assert!(w[0].score > w[1].score || (w[0].score == w[1].score && w[0].doc_id < w[1].doc_id));
    }
}

#[test]
fn searcher_keeps_its_snapshot() {
    let (mut index, _) = build(&[("Old", "nothing here")]);
    let mut reader = Reader::open(&index);
    let before = reader.searcher();
    let mut w = IndexWriter::open(&mut index).unwrap();
    let id = w.add(&doc("New", "fresh matching words"));
    let generation = w.commit(&mut index);
    assert_eq!(generation, 2);
    assert!(before.query("fresh", 10).unwrap().is_empty());
    reader.reload(&index);
    assert_eq!(reader.generation, 2);
    let after = reader.searcher();
    assert_eq!(hit_ids(&after.query("fresh", 10).unwrap()), vec![id]);
    assert!(before.query("fresh", 10).unwrap().is_empty());
}

#[test]
fn second_writer_is_refused() {
    let mut index = Index::new();
    let w = IndexWriter::open(&mut index).unwrap();
    assert!(matches!(IndexWriter::open(&mut index), Err(IndexError::LockHeld)));
    w.close(&mut index);
    assert!(IndexWriter::open(&mut index).is_ok());
}

#[test]
fn scores_follow_frequency_and_rarity() {
    let (index, ids) = build(&[("a", "rust rust"), ("b", "go"), ("c", "go"), ("d", "go")]);
    let s = searcher(&index);
    // four documents, one holds the term: idf = floor(log2(4)) = 2
    let hits = s.query("rust", 10).unwrap();
    assert_eq!(hit_ids(&hits), vec![ids[0]]);
    assert_eq!(hits[0].score, 4);
    // three of four hold it: idf = floor(log2(4 / 3)) = 0, so matches score nothing
    let hits = s.query("go", 10).unwrap();
    assert_eq!(hit_ids(&hits), vec![ids[1], ids[2], ids[3]]);
    assert!(hits.iter().all(|h| h.score == 0));
}

#[test]
fn equal_scores_rank_by_ascending_id() {
    let (index, ids) = build(&[("x", "tie"), ("y", "tie"), ("z", "tie tie"), ("w", "other"), ("v", "other"), ("u", "o")]);
    // six documents, three hold the term: idf = 1
    let hits = searcher(&index).query("tie", 10).unwrap();
    assert_eq!(hits.iter().map(|h| h.score).collect::<Vec<_>>(), vec![2, 1, 1]);
    assert_eq!(hit_ids(&hits), vec![ids[2], ids[0], ids[1]]);
}

#[test]
fn field_clause_and_or() {
    let (index, ids) = build(&[("Rust", "systems"), ("Other", "rust talk"), ("Go", "gophers")]);
    let s = searcher(&index);
    assert_eq!(hit_ids(&s.query("title:rust", 10).unwrap()), vec![ids[0]]);
    assert_eq!(hit_ids(&s.query("body:rust", 10).unwrap()), vec![ids[1]]);
    assert_eq!(hit_ids(&s.query("rust systems", 10).unwrap()), vec![ids[0]]);
    let mut both = hit_ids(&s.query("systems OR gophers", 10).unwrap());
    both.sort();
    assert_eq!(both, vec![ids[0], ids[2]]);
}

#[test]
fn malformed_queries_are_syntax_errors() {
    for text in ["\"open phrase", "OR rust", "rust OR", "a OR OR b", "author:x"].iter() {
        assert!(matches!(parse(text), Err(IndexError::SyntaxError)), "{}", text);
    }
    let (index, _) = build(&[("Rust", "x")]);
    let s = searcher(&index);
    assert!(matches!(s.query("\"x", 10), Err(IndexError::SyntaxError)));
    assert_eq!(s.query("rust", 10).unwrap().len(), 1);
}

#[test]
fn parser_builds_groups_and_fields() {
    let q = parse("title:Rust \"Quick Brown\" OR go").unwrap();
    assert_eq!(q.groups.len(), 2);
    assert_eq!(q.groups[0].len(), 2);
    assert_eq!(q.groups[0][0].field, Some(FieldName::Title));
    assert_eq!(q.groups[0][0].terms, terms(&["rust"]));
    assert_eq!(q.groups[0][1].field, None);
    assert_eq!(q.groups[0][1].terms, terms(&["quick", "brown"]));
    assert_eq!(q.groups[1][0].terms, terms(&["go"]));
    assert!(parse("").unwrap().groups.is_empty());
    assert!(parse("!!!").unwrap().groups.is_empty());
}

#[test]
fn empty_commit_advances_generation_only() {
    let mut index = Index::new();
    let mut w = IndexWriter::open(&mut index).unwrap();
    assert_eq!(w.commit(&mut index), 1);
    assert!(index.segments.is_empty());
    assert_eq!(w.commit(&mut index), 2);
}
