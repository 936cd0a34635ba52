//! Reading documents into plain text, by format.
use vstd::prelude::*;

pub mod docx;
pub mod ppt;
pub mod pptx;
pub mod rtf;
pub mod tables;

use crate::encoding::{fallback_text, text_with_fallback, decode_bytes, decoded_text};
use crate::error::CoiError;
use crate::formats::{
    csv_records, docx_view, read_csv_records, read_zip_entries, sheets_view, zip_read,
    DocxChildren, SheetRows,
};
use crate::paths::{backslash_separates, extension_of, file_name_of, path_extension, path_file_name};
use crate::text::{
    all_ascii, ascii_lower, char_views, chars_of, clean_chars, cleaned, is_blank, join, join_parts,
    lowercase, range_equals, string_from_chars, to_lowercase, trim, trimmed,
};

verus! {

/// The text a parse produced.
pub struct ParseResult {
    /// The extracted text.
    pub content: String,
}

/// Extracts text from documents, choosing the method by file extension.
pub struct DocumentParser {
    /// Whether a backslash separates path components (on Windows).
    pub backslash_separates: bool,
}

/// The state of the scan over an XML document's characters: the text nodes
/// found so far, the node being read, and whether the scan is inside a tag.
pub open spec fn xml_scan(x: Seq<char>) -> (Seq<Seq<char>>, Seq<char>, bool)
    decreases x.len(),
{
    if x.len() == 0 {
        (Seq::empty(), Seq::empty(), false)
    } else {
        let (nodes, cur, in_tag) = xml_scan(x.drop_last());
        let c = x.last();
        if c == '<' {
            (if trim(cur).len() > 0 {
                nodes.push(trim(cur))
            } else {
                nodes
            }, Seq::empty(), true)
        } else if c == '>' {
            (nodes, cur, false)
        } else if !in_tag {
            (nodes, cur.push(c), in_tag)
        } else {
            (nodes, cur, in_tag)
        }
    }
}

/// The trimmed, non-empty text nodes of an XML document: the runs of text
/// outside `<...>` tags.
pub open spec fn xml_text_nodes(x: Seq<char>) -> Seq<Seq<char>> {
    let (nodes, cur, _) = xml_scan(x);
    if trim(cur).len() > 0 {
        nodes.push(trim(cur))
    } else {
        nodes
    }
}

/// The text `extract_text_from_xml` gives: the text nodes joined by spaces, cleaned.
pub open spec fn xml_text(xml: Seq<char>) -> Seq<char> {
    cleaned(join(xml_text_nodes(xml), seq![' ']))
}

/// Pushes the trimmed node onto `nodes` when it is not empty.
fn push_trimmed(nodes: &mut Vec<Vec<char>>, cur: &Vec<char>)
    ensures
        char_views(final(nodes)@) == if trim(cur@).len() > 0 {
            char_views(old(nodes)@).push(trim(cur@))
        } else {
            char_views(old(nodes)@)
        },
{
    let t = trimmed(cur);
    if t.len() > 0 {
        nodes.push(t);
        assert(char_views(nodes@) =~= char_views(old(nodes)@).push(trim(cur@)));
    }
}

impl DocumentParser {
    /// A parser for the paths of this platform: whether a backslash
    /// separates path components is the platform's answer, of which nothing
    /// is stated.
    pub fn new() -> (r: Self) {
        DocumentParser { backslash_separates: backslash_separates() }
    }

    /// Normalises text: every piece between line breaks becomes its words
    /// separated by single spaces, and the non-empty pieces are joined by `'\n'`.
    pub fn clean_text(text: &str) -> (r: String)
        ensures
            r@ == cleaned(text@),
    {
        let v = chars_of(text);
        let c = clean_chars(&v);
        string_from_chars(&c)
    }

    /// The text content of an XML document (see `xml_text`).
    pub fn extract_text_from_xml(xml: &str) -> (r: String)
        ensures
            r@ == xml_text(xml@),
    {
        let x = chars_of(xml);
        let mut nodes: Vec<Vec<char>> = Vec::new();
        let mut cur: Vec<char> = Vec::new();
        let mut in_tag = false;
        let mut i: usize = 0;
        assert(x@.take(0) =~= Seq::<char>::empty());
        while i < x.len()
            invariant
                i <= x@.len(),
                (char_views(nodes@), cur@, in_tag) == xml_scan(x@.take(i as int)),
            decreases x@.len() - i,
        {
            let c = x[i];
            proof {
                assert(x@.take(i + 1).drop_last() =~= x@.take(i as int));
            }
            if c == '<' {
                push_trimmed(&mut nodes, &cur);
                cur = Vec::new();
                in_tag = true;
            } else if c == '>' {
                in_tag = false;
            } else if !in_tag {
                cur.push(c);
            }
            i = i + 1;
        }
        push_trimmed(&mut nodes, &cur);
        assert(x@.take(x@.len() as int) =~= x@);
        let mut sep: Vec<char> = Vec::new();
        sep.push(' ');
        assert(sep@ =~= seq![' ']);
        let joined = join_parts(&nodes, &sep);
        let c = clean_chars(&joined);
        string_from_chars(&c)
    }
}

/// The document formats the parser reads.
#[derive(PartialEq, Eq, Structural, Clone, Copy, Debug)]
pub enum DocumentFormat {
    Txt,
    Md,
    Pdf,
    Docx,
    Doc,
    Xlsx,
    Xls,
    Csv,
    Rtf,
    Pptx,
    Ppt,
}

/// The format a lowercase extension stands for: `txt`, `md`, `pdf`, `docx`
/// (and WPS's `wps`), `doc`, `xlsx` (and `et`), `xls`, `csv`, `rtf`, `pptx`
/// (and `dps`), `ppt`.
pub open spec fn format_for(e: Seq<char>) -> Option<DocumentFormat> {
    if e == seq!['t', 'x', 't'] {
        Some(DocumentFormat::Txt)
    } else if e == seq!['m', 'd'] {
        Some(DocumentFormat::Md)
    } else if e == seq!['p', 'd', 'f'] {
        Some(DocumentFormat::Pdf)
    } else if e == seq!['d', 'o', 'c', 'x'] || e == seq!['w', 'p', 's'] {
        Some(DocumentFormat::Docx)
    } else if e == seq!['d', 'o', 'c'] {
        Some(DocumentFormat::Doc)
    } else if e == seq!['x', 'l', 's', 'x'] || e == seq!['e', 't'] {
        Some(DocumentFormat::Xlsx)
    } else if e == seq!['x', 'l', 's'] {
        Some(DocumentFormat::Xls)
    } else if e == seq!['c', 's', 'v'] {
        Some(DocumentFormat::Csv)
    } else if e == seq!['r', 't', 'f'] {
        Some(DocumentFormat::Rtf)
    } else if e == seq!['p', 'p', 't', 'x'] || e == seq!['d', 'p', 's'] {
        Some(DocumentFormat::Pptx)
    } else if e == seq!['p', 'p', 't'] {
        Some(DocumentFormat::Ppt)
    } else {
        None
    }
}

/// The extension of a path, or the empty text when it has none.
pub open spec fn extension_or_empty(path: Seq<char>, bs: bool) -> Seq<char> {
    match path_extension(path, bs) {
        Some(e) => e,
        None => Seq::empty(),
    }
}

/// The lowercase extension of a path, or the lowercase of the empty text when it has none.
pub open spec fn lowercase_extension(path: Seq<char>, bs: bool) -> Seq<char> {
    lowercase(extension_or_empty(path, bs))
}

/// The file name shown in parse errors: the path's file name, or empty.
pub open spec fn shown_file_name(path: Seq<char>, bs: bool) -> Seq<char> {
    match path_file_name(path, bs) {
        Some(n) => n,
        None => Seq::empty(),
    }
}

/// What the PDF extractor made of a file, which the caller runs apart from the library.
pub enum PdfOutcome {
    /// The extracted text.
    Text(String),
    /// The extractor's error message.
    Failed(String),
    /// The extractor crashed on the file.
    Crashed,
}

/// What a document reader made of a file, which the caller runs apart from
/// the library because the reader may crash on a malformed file.
pub enum Extracted<T> {
    /// What the reader read.
    Read(T),
    /// The reader's error message.
    Failed(String),
    /// The reader crashed on the file.
    Crashed,
}

/// What the caller could read of a file.
pub enum FileContent {
    /// The file's bytes (plain text, Markdown, CSV, RTF, PPTX and PPT files).
    Bytes(Vec<u8>),
    /// The file could not be read; the error's message.
    Unreadable(String),
    /// The file is a PDF, and this is what the extractor made of it.
    Pdf(PdfOutcome),
    /// The file is a legacy Word document, and this is the plain text the
    /// document reader made of it.
    Doc(Extracted<String>),
    /// The file is a Word document, and this is the body the reader made of it.
    Docx(Extracted<DocxChildren>),
    /// The file is a workbook, and these are the sheets the reader made of it.
    Workbook(Extracted<SheetRows>),
}

/// What follows a reader's name when the reader crashed on a file.
pub open spec fn crash_reason() -> Seq<char> {
    "解析器异常退出"@
}

/// The outcome for a format read from bytes: a read error is reported after
/// `prefix`, and bytes go through `f`.
pub open spec fn bytes_outcome(
    prefix: Seq<char>,
    content: FileContent,
    f: spec_fn(Seq<u8>) -> Result<Seq<char>, Seq<char>>,
) -> Result<Seq<char>, Seq<char>> {
    match content {
        FileContent::Unreadable(e) => Err(prefix + e@),
        FileContent::Bytes(b) => f(b@),
        _ => Err(prefix),
    }
}

/// The text of a plain-text file's bytes, or the encoding failure after `prefix`.
pub open spec fn plain_outcome(prefix: Seq<char>, b: Seq<u8>) -> Result<Seq<char>, Seq<char>> {
    match fallback_text(b) {
        Some(t) => Ok(t),
        None => Err(prefix + "无法识别文件编码"@),
    }
}

/// Text that must not be blank, else the failure `reason`.
pub open spec fn non_blank(t: Seq<char>, reason: Seq<char>) -> Result<Seq<char>, Seq<char>> {
    if trim(t).len() == 0 {
        Err(reason)
    } else {
        Ok(t)
    }
}

/// What parsing a workbook gives: its sheets' text, or the failure after `prefix`.
pub open spec fn workbook_outcome(prefix: Seq<char>, content: FileContent) -> Result<Seq<char>, Seq<char>> {
    match content {
        FileContent::Workbook(Extracted::Read(w)) => Ok(tables::workbook_text(sheets_view(w))),
        FileContent::Workbook(Extracted::Failed(e)) => Err(prefix + e@),
        FileContent::Workbook(Extracted::Crashed) => Err(prefix + crash_reason()),
        FileContent::Unreadable(e) => Err(prefix + e@),
        _ => Err(prefix),
    }
}

/// What parsing a file of the given format gives: its text, or the reason it failed.
pub open spec fn format_outcome(f: DocumentFormat, content: FileContent) -> Result<Seq<char>, Seq<char>> {
    match f {
        DocumentFormat::Txt => bytes_outcome(
            "读取文本文件失败: "@,
            content,
            |b: Seq<u8>| plain_outcome("读取文本文件失败: "@, b),
        ),
        DocumentFormat::Md => bytes_outcome(
            "读取 Markdown 文件失败: "@,
            content,
            |b: Seq<u8>| plain_outcome("读取 Markdown 文件失败: "@, b),
        ),
        DocumentFormat::Pdf => match content {
            FileContent::Pdf(PdfOutcome::Text(t)) => Ok(t@),
            FileContent::Pdf(PdfOutcome::Failed(e)) => Err("PDF 解析失败: "@ + e@),
            _ => Err("PDF 解析失败: 文件格式不兼容（编码不支持）"@),
        },
        DocumentFormat::Docx => match content {
            FileContent::Docx(Extracted::Read(d)) => Ok(docx::docx_text(docx_view(d))),
            FileContent::Docx(Extracted::Failed(e)) => Err("DOCX 解析失败: "@ + e@),
            FileContent::Docx(Extracted::Crashed) => Err("DOCX 解析失败: "@ + crash_reason()),
            FileContent::Unreadable(e) => Err("读取 DOCX 文件失败: "@ + e@),
            _ => Err("读取 DOCX 文件失败: "@),
        },
        DocumentFormat::Doc => match content {
            FileContent::Doc(Extracted::Read(t)) => Ok(t@),
            FileContent::Doc(Extracted::Failed(e)) => Err("DOC 解析失败: "@ + e@),
            FileContent::Doc(Extracted::Crashed) => Err("DOC 解析失败: "@ + crash_reason()),
            FileContent::Unreadable(e) => Err("DOC 解析失败: "@ + e@),
            _ => Err("DOC 解析失败: "@),
        },
        DocumentFormat::Xlsx => workbook_outcome("XLSX 打开失败: "@, content),
        DocumentFormat::Xls => workbook_outcome("XLS 打开失败: "@, content),
        DocumentFormat::Csv => bytes_outcome(
            "CSV 打开失败: "@,
            content,
            |b: Seq<u8>| match tables::csv_text(csv_records(b)) {
                Ok(t) => Ok(t),
                Err(e) => Err("CSV 行解析失败: "@ + e),
            },
        ),
        DocumentFormat::Rtf => bytes_outcome(
            "读取 RTF 文件失败: "@,
            content,
            |b: Seq<u8>| non_blank(rtf::rtf_text(decoded_text(b)), "RTF 文件内容为空或无法提取文本"@),
        ),
        DocumentFormat::Pptx => bytes_outcome(
            "读取 PPTX 文件失败: "@,
            content,
            |b: Seq<u8>| match zip_read(b) {
                Ok(z) => non_blank(pptx::pptx_text(z), "PPTX 文件中未找到可提取的文本内容"@),
                Err(e) => Err("PPTX 文件损坏: "@ + e),
            },
        ),
        DocumentFormat::Ppt => bytes_outcome(
            "读取 PPT 文件失败: "@,
            content,
            |b: Seq<u8>| if trim(ppt::ppt_joined(b)).len() == 0 {
                Err("PPT 文件中未找到可提取的文本内容（可能需要手动转换为 PPTX 格式）"@)
            } else {
                Ok(cleaned(ppt::ppt_joined(b)))
            },
        ),
    }
}

/// What parsing the file at `path` gives: the outcome for the format its
/// lowercase extension names, or, for any other extension, that the format is
/// not supported.
pub open spec fn parse_outcome(path: Seq<char>, bs: bool, content: FileContent) -> Result<
    Seq<char>,
    Seq<char>,
> {
    match format_for(lowercase_extension(path, bs)) {
        Some(f) => format_outcome(f, content),
        None => Err("不支持的文件格式: ."@ + lowercase_extension(path, bs)),
    }
}

/// `prefix` followed by `detail`.
fn message(prefix: &str, detail: &str) -> (r: String)
    ensures
        r@ == prefix@ + detail@,
{
    let mut r = prefix.to_owned();
    r.append(detail);
    r
}

/// A parse error for `file` with the given reason.
fn failure(file: &String, reason: String) -> (e: CoiError)
    ensures
        e matches CoiError::ParseError { file: f, reason: r } && f@ == file@ && r@ == reason@,
{
    CoiError::ParseError { file: file.clone(), reason }
}

/// Whether an executable outcome is the given outcome.
pub open spec fn same_outcome(r: Result<String, String>, o: Result<Seq<char>, Seq<char>>) -> bool {
    match r {
        Ok(t) => o == Ok::<_, Seq<char>>(t@),
        Err(e) => o == Err::<Seq<char>, _>(e@),
    }
}

/// The text of a plain-text file's bytes, or the failure after `prefix`.
fn plain_bytes(prefix: &str, b: &Vec<u8>) -> (r: Result<String, String>)
    requires
        b@.len() <= usize::MAX / 16,
    ensures
        same_outcome(r, plain_outcome(prefix@, b@)),
{
    match text_with_fallback(b.as_slice()) {
        Some(t) => Ok(t),
        None => Err(message(prefix, "无法识别文件编码")),
    }
}

/// Parses a file of the given format (see `format_outcome`).
fn parse_format(f: DocumentFormat, content: FileContent) -> (r: Result<String, String>)
    requires
        content matches FileContent::Bytes(b) ==> b@.len() <= usize::MAX / 16,
    ensures
        same_outcome(r, format_outcome(f, content)),
{
    let prefix = match f {
        DocumentFormat::Txt => "读取文本文件失败: ",
        DocumentFormat::Md => "读取 Markdown 文件失败: ",
        DocumentFormat::Pdf => "PDF 解析失败: ",
        DocumentFormat::Docx => "读取 DOCX 文件失败: ",
        DocumentFormat::Doc => "DOC 解析失败: ",
        DocumentFormat::Xlsx => "XLSX 打开失败: ",
        DocumentFormat::Xls => "XLS 打开失败: ",
        DocumentFormat::Csv => "CSV 打开失败: ",
        DocumentFormat::Rtf => "读取 RTF 文件失败: ",
        DocumentFormat::Pptx => "读取 PPTX 文件失败: ",
        DocumentFormat::Ppt => "读取 PPT 文件失败: ",
    };
    let crashed = "解析器异常退出";
    proof {
        reveal_strlit("解析器异常退出");
    }
    match f {
        DocumentFormat::Pdf => {
            return match content {
                FileContent::Pdf(PdfOutcome::Text(t)) => Ok(t),
                FileContent::Pdf(PdfOutcome::Failed(e)) => Err(message("PDF 解析失败: ", e.as_str())),
                _ => Err("PDF 解析失败: 文件格式不兼容（编码不支持）".to_owned()),
            };
        },
        DocumentFormat::Docx => {
            return match content {
                FileContent::Docx(Extracted::Read(d)) => Ok(docx::docx_body_text(&d)),
                FileContent::Docx(Extracted::Failed(e)) => Err(message("DOCX 解析失败: ", e.as_str())),
                FileContent::Docx(Extracted::Crashed) => Err(message("DOCX 解析失败: ", crashed)),
                FileContent::Unreadable(e) => Err(message(prefix, e.as_str())),
                _ => Err(prefix.to_owned()),
            };
        },
        DocumentFormat::Doc => {
            return match content {
                FileContent::Doc(Extracted::Read(t)) => Ok(t),
                FileContent::Doc(Extracted::Failed(e)) => Err(message("DOC 解析失败: ", e.as_str())),
                FileContent::Doc(Extracted::Crashed) => Err(message("DOC 解析失败: ", crashed)),
                FileContent::Unreadable(e) => Err(message(prefix, e.as_str())),
                _ => Err(prefix.to_owned()),
            };
        },
        DocumentFormat::Xlsx | DocumentFormat::Xls => {
            return match content {
                FileContent::Workbook(Extracted::Read(w)) => Ok(tables::workbook_string(&w)),
                FileContent::Workbook(Extracted::Failed(e)) => Err(message(prefix, e.as_str())),
                FileContent::Workbook(Extracted::Crashed) => Err(message(prefix, crashed)),
                FileContent::Unreadable(e) => Err(message(prefix, e.as_str())),
                _ => Err(prefix.to_owned()),
            };
        },
        _ => {},
    }
    let b = match content {
        FileContent::Unreadable(e) => {
            return Err(message(prefix, e.as_str()));
        },
        FileContent::Bytes(b) => b,
        _ => {
            return Err(prefix.to_owned());
        },
    };
    let bytes = b.as_slice();
    match f {
        DocumentFormat::Csv => {
            let t = read_csv_records(bytes);
            match tables::csv_string(&t) {
                Ok(s) => Ok(s),
                Err(e) => Err(message("CSV 行解析失败: ", e.as_str())),
            }
        },
        DocumentFormat::Rtf => {
            let text = decode_bytes(bytes);
            let chars = chars_of(text.as_str());
            let out = string_from_chars(&rtf::rtf_text_exec(&chars));
            if is_blank(out.as_str()) {
                Err("RTF 文件内容为空或无法提取文本".to_owned())
            } else {
                Ok(out)
            }
        },
        DocumentFormat::Pptx => match read_zip_entries(bytes) {
            Ok(z) => {
                let out = pptx::pptx_string(&z);
                if is_blank(out.as_str()) {
                    Err("PPTX 文件中未找到可提取的文本内容".to_owned())
                } else {
                    Ok(out)
                }
            },
            Err(e) => Err(message("PPTX 文件损坏: ", e.as_str())),
        },
        DocumentFormat::Ppt => {
            let joined = ppt::ppt_joined_exec(bytes);
            let (lo, hi) = crate::text::trim_range(&joined, 0, joined.len());
            assert(joined@.subrange(0, joined@.len() as int) =~= joined@);
            if lo == hi {
                Err("PPT 文件中未找到可提取的文本内容（可能需要手动转换为 PPTX 格式）".to_owned())
            } else {
                Ok(string_from_chars(&clean_chars(&joined)))
            }
        },
        _ => plain_bytes(prefix, &b),
    }
}

impl DocumentParser {
    /// The format of the file at `file_path`, from its lowercase extension; a
    /// parse error when the extension names no supported format.
    pub fn format_of(&self, file_path: &str) -> (r: Result<DocumentFormat, CoiError>)
        ensures
            match r {
                Ok(f) => format_for(lowercase_extension(file_path@, self.backslash_separates)) == Some(f),
                Err(CoiError::ParseError { file, reason }) => format_for(
                    lowercase_extension(file_path@, self.backslash_separates),
                ) is None && file@ == shown_file_name(file_path@, self.backslash_separates) && reason@ == "不支持的文件格式: ."@
                    + lowercase_extension(file_path@, self.backslash_separates),
                Err(_) => false,
            },
            all_ascii(extension_or_empty(file_path@, self.backslash_separates)) ==> lowercase_extension(file_path@, self.backslash_separates)
                == extension_or_empty(file_path@, self.backslash_separates).map_values(|c: char| ascii_lower(c)),
    {
        let file_name = match file_name_of(file_path, self.backslash_separates) {
            Some(n) => n,
            None => String::new(),
        };
        proof {
            reveal_strlit("");
        }
        assert(""@ =~= Seq::<char>::empty());
        let ext = match extension_of(file_path, self.backslash_separates) {
            Some(e) => to_lowercase(e.as_str()),
            None => to_lowercase(""),
        };
        let e = chars_of(ext.as_str());
        let n = e.len();
        let f = if range_equals(&e, 0, n, &vec!['t', 'x', 't']) {
            Some(DocumentFormat::Txt)
        } else if range_equals(&e, 0, n, &vec!['m', 'd']) {
            Some(DocumentFormat::Md)
        } else if range_equals(&e, 0, n, &vec!['p', 'd', 'f']) {
            Some(DocumentFormat::Pdf)
        } else if range_equals(&e, 0, n, &vec!['d', 'o', 'c', 'x']) || range_equals(
            &e,
            0,
            n,
            &vec!['w', 'p', 's'],
        ) {
            Some(DocumentFormat::Docx)
        } else if range_equals(&e, 0, n, &vec!['d', 'o', 'c']) {
            Some(DocumentFormat::Doc)
        } else if range_equals(&e, 0, n, &vec!['x', 'l', 's', 'x']) || range_equals(
            &e,
            0,
            n,
            &vec!['e', 't'],
        ) {
            Some(DocumentFormat::Xlsx)
        } else if range_equals(&e, 0, n, &vec!['x', 'l', 's']) {
            Some(DocumentFormat::Xls)
        } else if range_equals(&e, 0, n, &vec!['c', 's', 'v']) {
            Some(DocumentFormat::Csv)
        } else if range_equals(&e, 0, n, &vec!['r', 't', 'f']) {
            Some(DocumentFormat::Rtf)
        } else if range_equals(&e, 0, n, &vec!['p', 'p', 't', 'x']) || range_equals(
            &e,
            0,
            n,
            &vec!['d', 'p', 's'],
        ) {
            Some(DocumentFormat::Pptx)
        } else if range_equals(&e, 0, n, &vec!['p', 'p', 't']) {
            Some(DocumentFormat::Ppt)
        } else {
            None
        };
        assert(e@.subrange(0, n as int) =~= e@);
        assert(ext@ == lowercase_extension(file_path@, self.backslash_separates));
        match f {
            Some(f) => Ok(f),
            None => Err(failure(&file_name, message("不支持的文件格式: .", ext.as_str()))),
        }
    }
}

impl DocumentParser {
    /// Reads a file into text by the format its extension names (see
    /// `parse_outcome`); every failure is a parse error naming the file.
    /// What the outside readers made of PDF, Word, workbook and presentation
    /// files is handed over by the caller (see `FileContent`).
    pub fn parse(&self, file_path: &str, content: FileContent) -> (r: Result<ParseResult, CoiError>)
        requires
            content matches FileContent::Bytes(b) ==> b@.len() <= usize::MAX / 16,
        ensures
            match r {
                Ok(p) => parse_outcome(file_path@, self.backslash_separates, content) == Ok::<_, Seq<char>>(p.content@),
                Err(CoiError::ParseError { file, reason }) => file@ == shown_file_name(file_path@, self.backslash_separates)
                    && parse_outcome(file_path@, self.backslash_separates, content) == Err::<Seq<char>, _>(reason@),
                Err(_) => false,
            },
    {
        let file_name = match file_name_of(file_path, self.backslash_separates) {
            Some(n) => n,
            None => String::new(),
        };
        proof {
            reveal_strlit("");
        }
        assert(""@ =~= Seq::<char>::empty());
        let format = match self.format_of(file_path) {
            Ok(f) => f,
            Err(e) => {
                return Err(e);
            },
        };
        let outcome = parse_format(format, content);
        match outcome {
            Ok(t) => Ok(ParseResult { content: t }),
            Err(reason) => Err(failure(&file_name, reason)),
        }
    }
}

/// A plain-text or Markdown file in valid UTF-8 is read exactly as it is
/// (Markdown keeps its heading marks and blank lines).
pub proof fn lemma_utf8_text_is_kept(path: Seq<char>, bs: bool, bytes: Vec<u8>)
    requires
        vstd::utf8::valid_utf8(bytes@),
        format_for(lowercase_extension(path, bs)) == Some(DocumentFormat::Txt) || format_for(
            lowercase_extension(path, bs),
        ) == Some(DocumentFormat::Md),
    ensures
        parse_outcome(path, bs, FileContent::Bytes(bytes)) == Ok::<_, Seq<char>>(
            vstd::utf8::decode_utf8(bytes@),
        ),
{
}

/// Files whose extensions differ only in letter case are parsed alike.
pub proof fn lemma_extension_case_is_ignored(
    path1: Seq<char>,
    path2: Seq<char>,
    bs: bool,
    content: FileContent,
)
    requires
        lowercase_extension(path1, bs) == lowercase_extension(path2, bs),
    ensures
        parse_outcome(path1, bs, content) == parse_outcome(path2, bs, content),
{
}

/// An extension that names no supported format is always refused, with a
/// reason that names it, whatever the content (so the file need not be read).
pub proof fn lemma_unsupported_is_refused(path: Seq<char>, bs: bool, content: FileContent)
    requires
        format_for(lowercase_extension(path, bs)) is None,
    ensures
        parse_outcome(path, bs, content) == Err::<Seq<char>, _>(
            "不支持的文件格式: ."@ + lowercase_extension(path, bs),
        ),
{
}

/// A path without backslashes is parsed alike on every platform, whether or
/// not a backslash separates path components there.
pub proof fn lemma_platform_matters_only_for_backslashes(path: Seq<char>, content: FileContent)
    requires
        !path.contains('\\'),
    ensures
        parse_outcome(path, true, content) == parse_outcome(path, false, content),
        shown_file_name(path, true) == shown_file_name(path, false),
{
    crate::paths::lemma_split_path_without_backslash(path);
}

} // verus!
