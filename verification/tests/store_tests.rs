use coi::fqa_store::FQAStore;
use coi::splitter::TextChunk;
use coi::vector_store::{FileMetadata, VectorStore};

#[test]
fn test_new_with_nonexistent_file() {
    let store: FQAStore<Vec<f32>> = FQAStore::new("/tmp/coi_fqa_test/fqa.json", Vec::new());
    assert!(store.entries.is_empty());
}

#[test]
fn test_add_new_entry() {
    let mut store = FQAStore::new("/tmp/coi_fqa_test/fqa.json", Vec::new());
    let result = store.add("问题1", "答案1", vec![0.1f32, 0.2], "2024-01-01T12:00:00");

    assert!(!result);
    assert_eq!(store.entries.len(), 1);
    assert_eq!(store.entries[0].question, "问题1");
    assert_eq!(store.entries[0].answer, "答案1");
}

#[test]
fn test_add_update_existing_entry() {
    let mut store = FQAStore::new("/tmp/coi_fqa_test/fqa.json", Vec::new());
    store.add("问题1", "答案1", vec![0.1f32, 0.2], "2024-01-01T12:00:00");
    let result = store.add("问题1", "新答案", vec![0.3f32, 0.4], "2024-01-02T08:00:00");

    assert!(result);
    assert_eq!(store.entries.len(), 1);
    assert_eq!(store.entries[0].answer, "新答案");
    assert_eq!(store.entries[0].embedding, vec![0.3f32, 0.4]);
}

#[test]
fn update_keeps_creation_time_and_position() {
    let mut store = FQAStore::new("fqa.json", Vec::new());
    store.add("a", "1", 1u8, "t1");
    store.add("b", "2", 2u8, "t2");
    assert!(store.add("a", "3", 3u8, "t3"));
    assert_eq!(store.entries.len(), 2);
    assert_eq!(store.entries[0].question, "a");
    assert_eq!(store.entries[0].answer, "3");
    assert_eq!(store.entries[0].created_at, "t1");
    assert_eq!(store.entries[0].updated_at, "t3");
    assert_eq!(store.entries[1].question, "b");
    assert!(!store.add("A", "4", 4u8, "t4"));
    assert_eq!(store.entries.len(), 3);
}

#[test]
fn test_new_vector_store() {
    let store = VectorStore::new("/tmp/coi_vector_db", None);
    assert_eq!(store.db_path, "/tmp/coi_vector_db");
    assert!(store.file_status.is_empty());
}

#[test]
fn store_paths_are_joined() {
    let store = VectorStore::new("/tmp/db", None);
    assert_eq!(store.embeddings_path(), "/tmp/db/embeddings.bin");
    assert_eq!(store.metadata_path(), "/tmp/db/metadata.json");
    let store = VectorStore::new("/tmp/db/", None);
    assert_eq!(store.embeddings_path(), "/tmp/db/embeddings.bin");
    let store = VectorStore::new("", None);
    assert_eq!(store.metadata_path(), "metadata.json");
}

#[test]
fn file_hash_is_sha256_hex() {
    assert_eq!(
        VectorStore::compute_file_hash(b"hello"),
        "2cf24dba5fb0a30e26e83b2ac5b9e29e1b161e5c1fa7425e73043362938b9824"
    );
    let m = VectorStore::create_file_metadata("docs/a.txt", b"hello", 1700000000, 5);
    assert_eq!(
        m,
        FileMetadata {
            file_path: "docs/a.txt".to_string(),
            file_hash: "2cf24dba5fb0a30e26e83b2ac5b9e29e1b161e5c1fa7425e73043362938b9824".to_string(),
            modified_at: 1700000000,
            file_size: 5,
        }
    );
}

#[test]
fn saved_file_status_is_kept() {
    let m = VectorStore::create_file_metadata("a.txt", b"", 1, 0);
    let store = VectorStore::new("db", Some(vec![m.clone()]));
    assert_eq!(store.file_status, vec![m]);
}

#[test]
fn metadata_entries_follow_the_chunks() {
    let chunks = vec![
        TextChunk { content: "Rust 是一门系统编程语言".to_string(), source_file: "docs/rust.md".to_string(), chunk_index: 0 },
        TextChunk { content: "Python 是一门脚本语言".to_string(), source_file: "docs/python.md".to_string(), chunk_index: 0 },
        TextChunk { content: "向量检索用于语义搜索".to_string(), source_file: "docs/search.md".to_string(), chunk_index: 1 },
    ];
    let hashes = vec![
        ("docs/rust.md".to_string(), "h1".to_string()),
        ("docs/rust.md".to_string(), "h2".to_string()),
        ("docs/search.md".to_string(), "h3".to_string()),
    ];
    let entries = VectorStore::metadata_entries(&chunks, &hashes);
    assert_eq!(entries.len(), 3);
    assert_eq!(entries[0].content, "Rust 是一门系统编程语言");
    assert_eq!(entries[0].file_hash, "h2");
    assert_eq!(entries[1].source_file, "docs/python.md");
    assert_eq!(entries[1].file_hash, "");
    assert_eq!(entries[2].chunk_index, 1);
    assert_eq!(entries[2].file_hash, "h3");
}

#[test]
fn saved_file_status_keeps_one_record_per_path() {
    let a1 = VectorStore::create_file_metadata("a.txt", b"1", 1, 1);
    let b = VectorStore::create_file_metadata("b.txt", b"", 2, 0);
    let a2 = VectorStore::create_file_metadata("a.txt", b"22", 3, 2);
    let store = VectorStore::new("db", Some(vec![a1, b.clone(), a2.clone()]));
    assert_eq!(store.file_status, vec![b, a2]);
}
