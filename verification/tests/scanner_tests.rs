use coi::scanner::{too_large_reason, walk_error_reason, DocumentScanner, EntryCheck, MAX_FILE_SIZE};

#[test]
fn test_default_trait() {
    let scanner = DocumentScanner::default();
    assert_eq!(scanner.supported_extensions.len(), 8);
    assert_eq!(scanner.max_file_size, MAX_FILE_SIZE);
}

#[test]
fn test_supported_extensions_method() {
    let scanner = DocumentScanner::new();
    let exts = scanner.supported_extensions();
    assert!(exts.contains(&"txt"));
    assert!(exts.contains(&"md"));
    assert!(exts.contains(&"pdf"));
    assert!(exts.contains(&"docx"));
    assert!(exts.contains(&"doc"));
    assert!(exts.contains(&"xlsx"));
    assert!(exts.contains(&"xls"));
    assert!(exts.contains(&"csv"));
}

fn skip_reason(c: EntryCheck) -> String {
    match c {
        EntryCheck::Skip(r) => r,
        _ => panic!("not skipped"),
    }
}

#[test]
fn entries_are_checked_in_order() {
    let s = DocumentScanner::new();
    assert!(matches!(s.check_entry("doc.txt", true, Ok(5), "/d/doc.txt", false), EntryCheck::Keep));
    assert!(matches!(s.check_entry("caps.PDF", true, Ok(3), "/d/caps.PDF", false), EntryCheck::Keep));
    assert!(matches!(s.check_entry("sub", false, Ok(0), "/d/sub", false), EntryCheck::Pass));
    assert_eq!(skip_reason(s.check_entry(".git", false, Ok(0), "/d/.git", false)), "跳过隐藏目录");
    assert_eq!(skip_reason(s.check_entry(".hidden.txt", true, Ok(9), "/d/.hidden.txt", false)), "跳过隐藏文件");
    assert_eq!(
        skip_reason(s.check_entry("a.txt", true, Err("denied".to_string()), "/d/a.txt", false)),
        "无法读取文件元数据: denied"
    );
    assert_eq!(skip_reason(s.check_entry("empty.txt", true, Ok(0), "/d/empty.txt", false)), "文件为空（0字节）");
    assert!(matches!(
        s.check_entry("big.txt", true, Ok(MAX_FILE_SIZE + 1), "/d/big.txt", false),
        EntryCheck::TooLarge(n) if n == MAX_FILE_SIZE + 1
    ));
    assert_eq!(skip_reason(s.check_entry("image.png", true, Ok(8), "/d/image.png", false)), "不支持的文件格式: .png");
    assert_eq!(skip_reason(s.check_entry("Makefile", true, Ok(8), "/d/Makefile", false)), "文件无扩展名");
}

#[test]
fn a_custom_limit_is_honoured() {
    let s = DocumentScanner { supported_extensions: vec!["txt"], max_file_size: 512 };
    assert!(matches!(s.check_entry("big.txt", true, Ok(1024), "/d/big.txt", false), EntryCheck::TooLarge(1024)));
    assert!(matches!(s.check_entry("small.txt", true, Ok(512), "/d/small.txt", false), EntryCheck::Keep));
    assert_eq!(skip_reason(s.check_entry("a.md", true, Ok(2), "/d/a.md", false)), "不支持的文件格式: .md");
}

#[test]
fn reasons_are_worded() {
    assert_eq!(too_large_reason("120.5"), "文件过大（120.5MB），超过 100MB 限制");
    assert_eq!(walk_error_reason("loop"), "遍历错误: loop");
}
