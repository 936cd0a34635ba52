use coi::encoding::{decode_bytes, text_with_fallback};
use coi::error::CoiError;
use coi::handlers::add_fqa::validate_fqa_input;
use coi::handlers::ask::{empty_store_error, group_by_source, truncate_content, validate_question};
use coi::handlers::init::{count_skipped, extension_counts};
use coi::paths::{extension_of, extension_of_name, file_name_of};
use coi::scanner::{FileInfo, SkipInfo};
use coi::splitter::ChunkSplitter;

fn invalid_reason<T>(r: Result<T, CoiError>) -> String {
    match r {
        Err(CoiError::InvalidInput { reason }) => reason,
        _ => panic!("expected an input error"),
    }
}

#[test]
fn questions_are_trimmed_and_checked() {
    assert_eq!(validate_question("  什么是COI？ \n").unwrap(), "什么是COI？");
    assert_eq!(invalid_reason(validate_question(" \t\u{3000}")), "问题内容不能为空");
    assert_eq!(
        invalid_reason::<()>(Err(empty_store_error())),
        "向量库为空，请先执行 tell-me init 构建知识库"
    );
}

#[test]
fn fqa_input_is_trimmed_and_checked() {
    assert_eq!(
        validate_fqa_input(" 问题 ", "\t答案\n").unwrap(),
        ("问题".to_string(), "答案".to_string())
    );
    assert_eq!(invalid_reason(validate_fqa_input("  ", "答案")), "问题不能为空白");
    assert_eq!(invalid_reason(validate_fqa_input("问题", " ")), "答案不能为空白");
    assert_eq!(invalid_reason(validate_fqa_input("", "")), "问题不能为空白");
}

#[test]
fn previews_are_single_line_and_cut() {
    assert_eq!(truncate_content("a\nb\rc", 10), "a b c");
    assert_eq!(truncate_content("一二三四五", 3), "一二三...");
    assert_eq!(truncate_content("一二三", 3), "一二三");
    assert_eq!(truncate_content("", 0), "");
}

#[test]
fn results_are_grouped_by_first_appearance() {
    let items = vec![
        ("b.md".to_string(), 1),
        ("a.md".to_string(), 2),
        ("b.md".to_string(), 3),
    ];
    let groups = group_by_source(items);
    assert_eq!(groups, vec![("b.md".to_string(), vec![1, 3]), ("a.md".to_string(), vec![2])]);
}

#[test]
fn skipped_entries_are_counted_by_reason() {
    let skipped = vec![
        SkipInfo { reason: "跳过隐藏文件".to_string() },
        SkipInfo { reason: "跳过隐藏目录".to_string() },
        SkipInfo { reason: "跳过隐藏文件".to_string() },
    ];
    assert_eq!(count_skipped(&skipped, "跳过隐藏文件"), 2);
    assert_eq!(count_skipped(&skipped, "跳过隐藏目录"), 1);
    assert_eq!(count_skipped(&skipped, "文件为空（0字节）"), 0);
}

#[test]
fn extensions_are_tallied_in_order() {
    let file = |p: &str| FileInfo { relative_path: p.to_string(), absolute_path: format!("/d/{}", p) };
    let files = vec![file("a.txt"), file("b.md"), file("c.txt"), file("d.TXT")];
    assert_eq!(
        extension_counts(&files, false),
        vec![("txt".to_string(), 2), ("md".to_string(), 1), ("TXT".to_string(), 1)]
    );
}

#[test]
fn path_pieces_follow_std() {
    for p in ["/a/b.txt", "a/b/", "a/.", "/", ".", "..", "a/..", "", "x//y.tar.gz", ".bashrc", "a.", "dir/.hidden.txt"] {
        let std_name = std::path::Path::new(p).file_name().map(|n| n.to_string_lossy().to_string());
        let bs = std::path::is_separator('\\');
        assert_eq!(file_name_of(p, bs), std_name, "file name of {:?}", p);
        let std_ext = std::path::Path::new(p).extension().map(|n| n.to_string_lossy().to_string());
        assert_eq!(extension_of(p, bs), std_ext, "extension of {:?}", p);
    }
    assert_eq!(extension_of_name("archive.tar.gz"), Some("gz".to_string()));
}

#[test]
fn bytes_decode_with_fallbacks() {
    assert_eq!(decode_bytes("héllo".as_bytes()), "héllo");
    assert_eq!(decode_bytes(&[0xD6, 0xD0, 0xCE, 0xC4]), "中文");
    assert_eq!(text_with_fallback(b""), Some(String::new()));
    assert_eq!(text_with_fallback(&[0xFF, 0xFE]), None);
    assert_eq!(text_with_fallback(&[0x80]), Some("€".to_string()));
}

#[test]
fn chunks_cover_the_text_with_overlap() {
    let text: String = "abcdefghijklmnopqrstuvwxyz".to_string();
    let chunks = ChunkSplitter::new(7, 3).split(&text, "x.txt");
    let step = 4;
    for (i, c) in chunks.iter().enumerate() {
        let start = i * step;
        assert_eq!(c.content, text[start..(start + 7).min(26)]);
        if i + 1 < chunks.len() {
            assert_eq!(&c.content[step..], &chunks[i + 1].content[..c.content.len() - step]);
        }
    }
    assert_eq!(chunks.last().unwrap().content.chars().last(), Some('z'));
}

#[test]
fn zero_chunk_size_gives_empty_chunks() {
    let chunks = ChunkSplitter::new(0, 0).split("ab", "x");
    assert_eq!(chunks.len(), 2);
    assert!(chunks.iter().all(|c| c.content.is_empty()));
}

#[test]
fn backslashes_separate_only_where_the_platform_says() {
    assert_eq!(file_name_of("C:\\docs\\报告.TXT", true), Some("报告.TXT".to_string()));
    assert_eq!(extension_of("C:\\docs\\报告.TXT", true), Some("TXT".to_string()));
    assert_eq!(extension_of("D:\\my.docs\\README", true), None);
    assert_eq!(file_name_of("docs\\sub/a.md", true), Some("a.md".to_string()));
    assert_eq!(file_name_of("docs/a\\b.txt", false), Some("a\\b.txt".to_string()));
    assert_eq!(extension_of("docs/my.d\\README", false), Some("d\\README".to_string()));
    let bs = std::path::is_separator('\\');
    assert_eq!(coi::parser::DocumentParser::new().backslash_separates, bs);
}
