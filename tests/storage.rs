use gel::codec::{decode_manifest, decode_segment, encode_manifest, encode_segment, Manifest};
use gel::index::{Document, Index, IndexError, IndexWriter, Reader};
use gel::storage::{FileName, FileOp};

fn committed(docs: &[(&str, &str)]) -> Index {
    let mut index = Index::new();
    let mut w = IndexWriter::open(&mut index).unwrap();
    for (t, b) in docs.iter() {
        w.add(&Document { title: t.to_string(), body: b.to_string() });
    }
    w.commit(&mut index);
    w.close(&mut index);
    index
}

#[test]
fn segment_words_round_trip() {
    let index = committed(&[("Rust Systems", "ownership and borrowing"), ("Ünïcödé ✓", "")]);
    let seg = &index.segments[0];
    let words = encode_segment(seg.segment_id, &seg.docs);
    let (id, docs) = decode_segment(&words).unwrap();
    assert_eq!(id, seg.segment_id);
    assert_eq!(docs.len(), 2);
    for (a, b) in docs.iter().zip(seg.docs.iter()) {
        assert_eq!(a.doc_id, b.doc_id);
        assert_eq!(a.title, b.title);
        assert_eq!(a.title_terms, b.title_terms);
        assert_eq!(a.body_terms, b.body_terms);
    }
}

#[test]
fn corrupt_segment_is_rejected() {
    let index = committed(&[("Rust", "borrowing")]);
    let seg = &index.segments[0];
    let words = encode_segment(seg.segment_id, &seg.docs);
    let mut bad = words.clone();
    bad[4] ^= 1;
    assert!(decode_segment(&bad).is_none());
    let cut: Vec<u64> = words[..words.len() - 2].to_vec();
    assert!(decode_segment(&cut).is_none());
    assert!(decode_segment(&Vec::new()).is_none());
}

#[test]
fn manifest_round_trip_and_restore() {
    let mut index = committed(&[("Rust one", "a"), ("Rust two", "b")]);
    let mut w = IndexWriter::open(&mut index).unwrap();
    w.delete(0);
    w.add(&Document { title: "Rust three".to_string(), body: "c".to_string() });
    w.commit(&mut index);
    let words = encode_manifest(&index.manifest());
    let m = decode_manifest(&words).unwrap();
    assert_eq!(m.generation, 2);
    assert_eq!(m.segment_ids.len(), 2);
    assert_eq!(m.tombstones[0], vec![true, false]);
    let files: Vec<_> = index
        .segments
        .iter()
        .map(|s| decode_segment(&encode_segment(s.segment_id, &s.docs)))
        .collect();
    let (restored, skipped) = Index::restore(m, files);
    assert!(skipped.is_empty());
    let hits = Reader::open(&restored).searcher().query("rust", 10).unwrap();
    assert_eq!(hits.iter().map(|h| h.doc_id).collect::<Vec<_>>(), vec![1, 2]);
}

#[test]
fn corrupt_segment_is_skipped_on_restore() {
    let mut index = committed(&[("Rust one", "a")]);
    let mut w = IndexWriter::open(&mut index).unwrap();
    w.add(&Document { title: "Rust two".to_string(), body: "b".to_string() });
    w.commit(&mut index);
    let m = decode_manifest(&encode_manifest(&index.manifest())).unwrap();
    let second = &index.segments[1];
    let files = vec![None, decode_segment(&encode_segment(second.segment_id, &second.docs))];
    let (restored, skipped) = Index::restore(m, files);
    assert_eq!(skipped, vec![index.segments[0].segment_id]);
    let hits = Reader::open(&restored).searcher().query("rust", 10).unwrap();
    assert_eq!(hits.iter().map(|h| h.doc_id).collect::<Vec<_>>(), vec![1]);
}

#[test]
fn commit_writes_segment_then_renames_manifest() {
    let index = committed(&[("Rust", "x")]);
    let ops = index.commit_files(0);
    assert_eq!(ops.len(), 5);
    assert!(matches!(ops[0], FileOp::Write(FileName::Segment(0), _)));
    assert!(matches!(ops[1], FileOp::Sync(FileName::Segment(0))));
    assert!(matches!(ops[2], FileOp::Write(FileName::ManifestTemp, _)));
    assert!(matches!(ops[3], FileOp::Sync(FileName::ManifestTemp)));
    assert!(matches!(ops[4], FileOp::Rename(FileName::ManifestTemp, FileName::Manifest)));
    let ops = index.commit_files(1);
    assert_eq!(ops.len(), 3);
    if let FileOp::Write(_, words) = &ops[0] {
        let m: Manifest = decode_manifest(words).unwrap();
        assert_eq!(m.generation, 1);
        assert_eq!(m.segment_ids, vec![0]);
    } else {
        panic!("first step must write the manifest");
    }
}

#[test]
fn other_schema_is_refused() {
    let index = committed(&[("Rust", "x")]);
    let mut words = encode_manifest(&index.manifest());
    let n = words.len();
    words[1] ^= 0x10;
    words[n - 1] = words[..n - 1].iter().fold(0u64, |a, w| a.wrapping_add(*w));
    assert!(matches!(decode_manifest(&words), Err(IndexError::SchemaMismatch)));
    words[2] ^= 1;
    assert!(matches!(decode_manifest(&words), Err(IndexError::CorruptSegment)));
}

#[test]
fn merge_drops_tombstoned_documents() {
    let mut index = committed(&[("Rust one", "a"), ("Rust two", "b")]);
    let mut w = IndexWriter::open(&mut index).unwrap();
    w.add(&Document { title: "Rust three".to_string(), body: "c".to_string() });
    w.delete(1);
    w.commit(&mut index);
    assert_eq!(index.segments.len(), 2);
    let generation = w.merge(&mut index);
    assert_eq!(generation, 3);
    assert_eq!(index.segments.len(), 1);
    assert_eq!(index.segments[0].docs.len(), 2);
    assert_eq!(index.tombstones[0], vec![false, false]);
    let hits = Reader::open(&index).searcher().query("rust", 10).unwrap();
    assert_eq!(hits.iter().map(|h| h.doc_id).collect::<Vec<_>>(), vec![0, 2]);
}
