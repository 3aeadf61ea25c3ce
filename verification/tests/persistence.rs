use tfindex::codec::{deserialize, serialize};
use tfindex::index::{build_index, Index};

fn index_of(docs: &[(&str, &str)]) -> Index {
    let sources: Vec<(String, Option<String>)> = docs
        .iter()
        .map(|(id, text)| (id.to_string(), Some(text.to_string())))
        .collect();
    build_index(&sources).unwrap()
}

fn assert_same_index(a: &Index, b: &Index) {
    assert_eq!(a.doc_count(), b.doc_count());
    let da = a.docs();
    let db = b.docs();
    for i in 0..da.len() {
        assert_eq!(da[i].0, db[i].0);
        assert_eq!(da[i].1.total_count(), db[i].1.total_count());
        let ea = da[i].1.entries();
        let eb = db[i].1.entries();
        assert_eq!(ea.len(), eb.len());
        for j in 0..ea.len() {
            assert_eq!(ea[j], eb[j]);
        }
    }
}

#[test]
fn round_trip_preserves_documents_tokens_and_counts() {
    let ix = index_of(&[
        ("docs/a.xml", "the cat sat on the mat"),
        ("docs/b.xml", "Log4j CVE-2021-44228 log4j"),
        ("docs/empty.xml", ""),
    ]);
    let encoded = serialize(&ix);
    let restored = deserialize(&encoded).expect("a serialized index deserializes");
    assert_same_index(&ix, &restored);
}

#[test]
fn round_trip_of_empty_index() {
    let ix = Index::new();
    let restored = deserialize(&serialize(&ix)).unwrap();
    assert_eq!(restored.doc_count(), 0);
}

#[test]
fn round_trip_keeps_unusual_identifiers_and_tokens() {
    let ix = index_of(&[
        ("path with spaces/:;1.xml", "semi;colon co:lon 10:20;30"),
        ("", "unicode tokens naive cafe"),
    ]);
    let restored = deserialize(&serialize(&ix)).unwrap();
    assert_same_index(&ix, &restored);
}

#[test]
fn malformed_streams_are_rejected() {
    assert!(deserialize("").is_none());
    assert!(deserialize("x").is_none());
    assert!(deserialize("1;").is_none());
    assert!(deserialize("0;trailing").is_none());
    assert!(deserialize("2;0:0;").is_none());
    assert!(deserialize("99999999999999999999999999;").is_none());
}

#[test]
fn duplicate_document_identifiers_are_rejected() {
    // two documents under the same identifier, each with no entries
    let stream = "2;1:a0;1:a0;";
    assert!(deserialize(stream).is_none());
}

#[test]
fn zero_counts_are_rejected() {
    // one document, one entry whose count is zero
    let stream = "1;1:a1;1:t0;";
    assert!(deserialize(stream).is_none());
}

#[test]
fn a_hand_written_stream_parses() {
    // one document "d" holding the single token "T" twice
    let stream = "1;1:d1;1:T2;";
    let ix = deserialize(stream).unwrap();
    assert_eq!(ix.doc_count(), 1);
    let docs = ix.docs();
    assert_eq!(docs[0].0, "d");
    assert_eq!(docs[0].1.count(&"T".to_string()), 2);
    assert_eq!(docs[0].1.total_count(), 2);
}
