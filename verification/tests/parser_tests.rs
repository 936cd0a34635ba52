use coi::error::CoiError;
use std::io::Write;

use coi::formats::{DocxChildren, SheetRows};
use coi::parser::{DocumentFormat, DocumentParser, Extracted, FileContent, PdfOutcome};

fn parse_bytes(path: &str, bytes: &[u8]) -> Result<String, CoiError> {
    DocumentParser::new()
        .parse(path, FileContent::Bytes(bytes.to_vec()))
        .map(|r| r.content)
}

fn reason_of(r: Result<String, CoiError>) -> (String, String) {
    match r {
        Err(CoiError::ParseError { file, reason }) => (file, reason),
        Err(_) => panic!("not a parse error"),
        Ok(t) => panic!("parsed: {}", t),
    }
}

#[test]
fn test_parse_txt_basic() {
    let content = "这是一段测试文本\n第二行内容";
    let result = parse_bytes("/tmp/sample.txt", content.as_bytes()).unwrap();
    assert_eq!(result, content);
}

#[test]
fn test_parse_md_preserves_headings() {
    let content = "# 一级标题\n\n## 二级标题\n\n正文内容\n\n### 三级标题\n\n更多内容";
    let result = parse_bytes("/tmp/notes.md", content.as_bytes()).unwrap();
    assert!(result.contains("# 一级标题"));
    assert!(result.contains("## 二级标题"));
    assert!(result.contains("### 三级标题"));
    assert!(result.contains("正文内容"));
}

#[test]
fn test_parse_csv_basic() {
    let csv_content = "姓名,年龄,城市\n张三,25,北京\n李四,30,上海";
    let result = parse_bytes("/tmp/table.csv", csv_content.as_bytes()).unwrap();
    assert!(result.contains("姓名"));
    assert!(result.contains("张三"));
    assert!(result.contains("李四"));
    assert!(result.contains("北京"));
    assert!(result.contains("上海"));
}

#[test]
fn test_parse_unsupported_format() {
    let result = parse_bytes("/tmp/data.xyz", b"some content");
    assert!(result.is_err());
    if let Err(CoiError::ParseError { reason, .. }) = result {
        assert!(reason.contains("不支持的文件格式"));
    }
}

#[test]
fn test_parse_nonexistent_file() {
    let parser = DocumentParser::new();
    let result = parser.parse(
        "/nonexistent/file.txt",
        FileContent::Unreadable("No such file or directory (os error 2)".to_string()),
    );
    assert!(result.is_err());
    if let Err(CoiError::ParseError { reason, .. }) = result {
        assert!(reason.contains("读取文本文件失败"));
    }
}

#[test]
fn test_parse_txt_empty_content() {
    let result = parse_bytes("/tmp/empty.txt", b"").unwrap();
    assert_eq!(result, "");
}

#[test]
fn csv_is_joined_with_tabs_and_newlines() {
    let result = parse_bytes("a.csv", "姓名,年龄\n张三,25\n李四,30".as_bytes()).unwrap();
    assert_eq!(result, "姓名\t年龄\n张三\t25\n李四\t30");
}

#[test]
fn csv_with_a_short_record_fails_on_that_record() {
    let (file, reason) = reason_of(parse_bytes("dir/t.csv", b"a,b\n1,2\n3\n"));
    assert_eq!(file, "t.csv");
    assert!(reason.starts_with("CSV 行解析失败: "), "{}", reason);
}

#[test]
fn unsupported_reason_names_the_lowercase_extension() {
    let (file, reason) = reason_of(parse_bytes("/a/b/Photo.PNG", b"x"));
    assert_eq!(file, "Photo.PNG");
    assert_eq!(reason, "不支持的文件格式: .png");
}

#[test]
fn file_without_extension_is_unsupported() {
    let (_, reason) = reason_of(parse_bytes("/a/README", b"x"));
    assert_eq!(reason, "不支持的文件格式: .");
}

#[test]
fn extension_is_matched_without_case() {
    assert_eq!(DocumentParser::new().format_of("/x/NOTES.TXT").unwrap(), DocumentFormat::Txt);
    assert_eq!(DocumentParser::new().format_of("/x/a.Md").unwrap(), DocumentFormat::Md);
    assert_eq!(DocumentParser::new().format_of("/x/a.wps").unwrap(), DocumentFormat::Docx);
    assert_eq!(DocumentParser::new().format_of("/x/a.et").unwrap(), DocumentFormat::Xlsx);
    assert_eq!(DocumentParser::new().format_of("/x/a.dps").unwrap(), DocumentFormat::Pptx);
    assert_eq!(DocumentParser::new().format_of("/x/a.ppt").unwrap(), DocumentFormat::Ppt);
    assert!(DocumentParser::new().format_of("/x/.txt").is_err());
}

#[test]
fn gbk_text_is_decoded() {
    // "中文" in GBK
    let bytes = [0xD6u8, 0xD0, 0xCE, 0xC4];
    assert_eq!(parse_bytes("a.txt", &bytes).unwrap(), "中文");
}

#[test]
fn read_error_reasons_name_the_format() {
    let p = DocumentParser::new();
    let cases = [
        ("a.md", "读取 Markdown 文件失败: boom"),
        ("a.docx", "读取 DOCX 文件失败: boom"),
        ("a.doc", "DOC 解析失败: boom"),
        ("a.xlsx", "XLSX 打开失败: boom"),
        ("a.xls", "XLS 打开失败: boom"),
        ("a.csv", "CSV 打开失败: boom"),
        ("a.rtf", "读取 RTF 文件失败: boom"),
        ("a.pptx", "读取 PPTX 文件失败: boom"),
        ("a.ppt", "读取 PPT 文件失败: boom"),
    ];
    for (path, expected) in cases {
        let r = p.parse(path, FileContent::Unreadable("boom".to_string()));
        let (_, reason) = reason_of(r.map(|x| x.content));
        assert_eq!(reason, expected);
    }
}

#[test]
fn pdf_outcomes_are_reported() {
    let p = DocumentParser::new();
    let ok = p.parse("a.pdf", FileContent::Pdf(PdfOutcome::Text("page text".to_string())));
    assert_eq!(ok.unwrap().content, "page text");
    let failed = p.parse("a.pdf", FileContent::Pdf(PdfOutcome::Failed("bad xref".to_string())));
    assert_eq!(reason_of(failed.map(|x| x.content)).1, "PDF 解析失败: bad xref");
    let crashed = p.parse("a.pdf", FileContent::Pdf(PdfOutcome::Crashed));
    assert_eq!(
        reason_of(crashed.map(|x| x.content)).1,
        "PDF 解析失败: 文件格式不兼容（编码不支持）"
    );
}

#[test]
fn rtf_keeps_body_text_and_breaks() {
    let rtf = r"{\rtf1\ansi{\fonttbl\f0\fswiss Helvetica;}\f0\pard Hello \b world\b0\par Second\tab line \{x\}}";
    let text = parse_bytes("doc.rtf", rtf.as_bytes()).unwrap();
    assert_eq!(text, "Hello world\nSecond line {x}");
}

#[test]
fn rtf_without_text_fails() {
    let (_, reason) = reason_of(parse_bytes("doc.rtf", br"{\rtf1{\fonttbl x}}"));
    assert_eq!(reason, "RTF 文件内容为空或无法提取文本");
}

#[test]
fn ppt_fragments_are_recovered() {
    let mut bytes = vec![0u8, 1, 2];
    bytes.extend_from_slice(b"Quarterly Report");
    bytes.extend_from_slice(&[0u8, 0, 5]);
    bytes.extend_from_slice(b"a!");
    bytes.extend_from_slice(&[0u8]);
    bytes.extend_from_slice(b"  Sales 2024");
    bytes.push(0);
    bytes.extend_from_slice(b"ends in space ");
    bytes.push(0);
    let text = parse_bytes("slides.ppt", &bytes).unwrap();
    // a run counts only when its last two characters are letters or digits
    assert_eq!(text, "Quarterly Report\nSales 2024");
}

#[test]
fn ppt_without_text_fails() {
    let (_, reason) = reason_of(parse_bytes("slides.ppt", &[0u8, 1, 2, b'a', 0]));
    assert_eq!(reason, "PPT 文件中未找到可提取的文本内容（可能需要手动转换为 PPTX 格式）");
}

fn parse_content(path: &str, content: FileContent) -> Result<String, CoiError> {
    DocumentParser::new().parse(path, content).map(|r| r.content)
}

#[test]
fn reader_failures_are_reported() {
    let cases = [
        ("a.docx", FileContent::Docx(Extracted::Failed("bad".to_string())), "DOCX 解析失败: bad"),
        ("a.xlsx", FileContent::Workbook(Extracted::Failed("bad".to_string())), "XLSX 打开失败: bad"),
        ("a.xls", FileContent::Workbook(Extracted::Failed("bad".to_string())), "XLS 打开失败: bad"),
        ("a.doc", FileContent::Doc(Extracted::Failed("bad".to_string())), "DOC 解析失败: bad"),
    ];
    for (path, content, expected) in cases {
        let (_, reason) = reason_of(parse_content(path, content));
        assert_eq!(reason, expected);
    }
}

#[test]
fn reader_crashes_are_reported() {
    let cases = [
        ("a.docx", FileContent::Docx(Extracted::Crashed), "DOCX 解析失败: 解析器异常退出"),
        ("a.et", FileContent::Workbook(Extracted::Crashed), "XLSX 打开失败: 解析器异常退出"),
        ("a.xls", FileContent::Workbook(Extracted::Crashed), "XLS 打开失败: 解析器异常退出"),
        ("a.doc", FileContent::Doc(Extracted::Crashed), "DOC 解析失败: 解析器异常退出"),
    ];
    for (path, content, expected) in cases {
        let (file, reason) = reason_of(parse_content(path, content));
        assert_eq!(file, path);
        assert_eq!(reason, expected);
    }
}

#[test]
fn doc_text_is_taken_as_read() {
    let text = parse_content("old.DOC", FileContent::Doc(Extracted::Read("旧文档\n正文".to_string())));
    assert_eq!(text.unwrap(), "旧文档\n正文");
}

fn runs(texts: &[&str]) -> Option<Vec<Option<String>>> {
    Some(texts.iter().map(|t| Some(t.to_string())).collect())
}

#[test]
fn docx_paragraphs_are_joined() {
    let body: DocxChildren = vec![
        Some(vec![runs(&["第一段"]), runs(&["续"])]),
        Some(vec![]),
        None,
        Some(vec![runs(&["Second"]), None]),
    ];
    let text = parse_content("a.docx", FileContent::Docx(Extracted::Read(body))).unwrap();
    assert_eq!(text, "第一段续\nSecond");
}

fn zip_of(entries: &[(&str, &str)]) -> Vec<u8> {
    let mut buf = std::io::Cursor::new(Vec::new());
    {
        let mut w = zip::ZipWriter::new(&mut buf);
        for (name, body) in entries {
            w.start_file(*name, zip::write::SimpleFileOptions::default()).unwrap();
            w.write_all(body.as_bytes()).unwrap();
        }
        w.finish().unwrap();
    }
    buf.into_inner()
}

fn parse_zip(path: &str, entries: &[(&str, &str)]) -> Result<String, CoiError> {
    parse_bytes(path, &zip_of(entries))
}

#[test]
fn broken_pptx_archives_are_reported() {
    let (_, reason) = reason_of(parse_bytes("a.pptx", b"not a zip"));
    assert!(reason.starts_with("PPTX 文件损坏: "), "{}", reason);
}

#[test]
fn pptx_slides_are_read_in_order() {
    let text = parse_zip(
        "deck.pptx",
        &[
            ("ppt/slides/slide2.xml", "<p:sld><a:t>Second</a:t></p:sld>"),
            ("ppt/slides/slide1.xml", "<p:sld><a:t>First</a:t><a:t>slide</a:t></p:sld>"),
            ("ppt/slides/slide4.xml", "<a:t>unreached</a:t>"),
        ],
    )
    .unwrap();
    assert_eq!(text, "=== 第 1 页 ===\nFirst slide\n\n=== 第 2 页 ===\nSecond");
}

#[test]
fn pptx_falls_back_to_slide_like_entries() {
    let text = parse_zip("deck.pptx", &[("a/slideLayout1.xml", "<x>Layout text</x>"), ("other.xml", "<x>no</x>")]).unwrap();
    assert_eq!(text, "Layout text");
    let (_, reason) = reason_of(parse_zip("deck.pptx", &[("ppt/slides/slide1.xml", "<x> </x>")]));
    assert_eq!(reason, "PPTX 文件中未找到可提取的文本内容");
}

#[test]
fn pptx_chinese_slide_text_is_kept() {
    let text = parse_zip("deck.dps", &[("ppt/slides/slide1.xml", "<p:sld><a:t>你好</a:t><a:t>世界</a:t></p:sld>")]).unwrap();
    assert_eq!(text, "=== 第 1 页 ===\n你好 世界");
}

#[test]
fn clean_text_squeezes_whitespace_per_line() {
    assert_eq!(DocumentParser::clean_text("  a \t b  \r\n\n  c\u{3000}d \n\n"), "a b\nc d");
    assert_eq!(DocumentParser::clean_text(""), "");
    assert_eq!(DocumentParser::clean_text(" \n \r "), "");
}

#[test]
fn clean_text_is_idempotent_on_examples() {
    for s in ["  a \t b  \r\n\n  c d \n", "x", "\n\n y  z\n"] {
        let once = DocumentParser::clean_text(s);
        assert_eq!(DocumentParser::clean_text(&once), once);
    }
}

#[test]
fn xml_text_nodes_are_joined() {
    assert_eq!(
        DocumentParser::extract_text_from_xml("<a><b> Hello </b><c>World</c>  </a>tail"),
        "Hello World tail"
    );
    assert_eq!(DocumentParser::extract_text_from_xml("<a/>"), "");
}

#[test]
fn xml_text_keeps_non_ascii_text() {
    assert_eq!(DocumentParser::extract_text_from_xml("<a:t>你好</a:t>"), "你好");
    assert_eq!(DocumentParser::extract_text_from_xml("<r><t> 中文 </t><t>émoji ✓</t></r>"), "中文 émoji ✓");
}

#[test]
fn xlsx_rows_become_tab_separated_lines() {
    let sheets: SheetRows = vec![
        Some(vec![
            vec!["名称".to_string(), "42".to_string()],
            vec!["".to_string(), "x".to_string()],
            vec!["".to_string()],
        ]),
        None,
    ];
    let text = parse_content("book.xlsx", FileContent::Workbook(Extracted::Read(sheets))).unwrap();
    assert_eq!(text, "名称\t42\nx");
}

#[test]
fn clean_text_lines_are_trimmed_and_single_spaced() {
    assert_eq!(DocumentParser::clean_text("  a \t b\r\n\r\n c  "), "a b\nc");
    let r = DocumentParser::clean_text(" x\u{3000}\u{3000}y \n\n\t z\r\n");
    assert_eq!(r, "x y\nz");
    assert!(r.lines().all(|l| !l.is_empty() && l == l.trim()));
    assert!(!r.contains("  "));
}

#[test]
fn rtf_text_keeps_only_letters_ideographs_and_punctuation() {
    let text = parse_bytes("a.rtf", br"{\rtf1\pard Price: 42 euros!\par}").unwrap();
    assert_eq!(text, "Price: euros!");
}
