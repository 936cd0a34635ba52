use coi::error::CoiError;
use coi::handlers::init::{record_parse, InitAction, InitProgress, BATCH_SIZE};
use coi::parser::ParseResult;
use coi::splitter::ChunkSplitter;

fn parsed(text: &str) -> Result<ParseResult, CoiError> {
    Ok(ParseResult { content: text.to_string() })
}

#[test]
fn blank_text_is_recorded_as_failed() {
    let mut state = InitProgress::new();
    let splitter = ChunkSplitter::default();
    let a = record_parse(&mut state, &splitter, "a.txt", "docs/a.txt", parsed(" \n\t "));
    assert_eq!(a, InitAction::Continue);
    assert_eq!(state.failed_files, vec![("a.txt".to_string(), "解析后内容为空".to_string())]);
    assert_eq!(state.success_count, 0);
    assert!(state.batch.is_empty());
}

#[test]
fn parse_errors_keep_their_reason() {
    let mut state = InitProgress::new();
    let splitter = ChunkSplitter::default();
    let err = Err(CoiError::ParseError { file: "b.pdf".to_string(), reason: "PDF 解析失败: bad".to_string() });
    let a = record_parse(&mut state, &splitter, "b.pdf", "docs/b.pdf", err);
    assert_eq!(a, InitAction::Continue);
    assert_eq!(state.failed_files, vec![("b.pdf".to_string(), "PDF 解析失败: bad".to_string())]);
    assert_eq!(state.total_chunks, 0);
}

#[test]
fn texts_are_counted_and_batched() {
    let mut state = InitProgress::new();
    let splitter = ChunkSplitter::new(10, 0);
    let a = record_parse(&mut state, &splitter, "c.txt", "docs/c.txt", parsed("中文字符共有十二个字符了"));
    assert_eq!(a, InitAction::Continue);
    assert_eq!(state.success_count, 1);
    assert_eq!(state.total_chars, 12);
    assert_eq!(state.total_chunks, 2);
    assert_eq!(state.batch.len(), 2);
    assert_eq!(state.batch[1].content, "符了");
    assert_eq!(state.batch[1].source_file, "docs/c.txt");
    assert_eq!(state.batch[1].chunk_index, 1);
    let long: String = std::iter::repeat('x').take(300).collect();
    let a = record_parse(&mut state, &splitter, "d.txt", "docs/d.txt", parsed(&long));
    assert_eq!(state.batch.len(), 32);
    assert_eq!(BATCH_SIZE, 32);
    assert_eq!(a, InitAction::EmbedBatch);
    assert_eq!(state.total_chunks, 32);
    assert_eq!(state.total_chars, 312);
    assert!(state.failed_files.is_empty());
}
