//! Deciding which files of a document folder get indexed: supported formats
//! only, no hidden files, no empty files and none over the size limit.
use vstd::prelude::*;

use crate::paths::{extension_of, path_extension};
use crate::text::{all_ascii, ascii_lower, lowercase, to_lowercase};

verus! {

/// The largest file that gets indexed: 100MB.
pub const MAX_FILE_SIZE: u64 = 100 * 1024 * 1024;

/// Picks the files of a folder that can be indexed.
pub struct DocumentScanner {
    /// The extensions (lowercase, without the dot) of the formats that are read.
    pub supported_extensions: Vec<&'static str>,
    /// The largest file size, in bytes, that is indexed.
    pub max_file_size: u64,
}

/// A file to index.
#[derive(Clone, Debug)]
pub struct FileInfo {
    /// Its path relative to the scanned folder.
    pub relative_path: String,
    /// Its full path.
    pub absolute_path: String,
}

/// The outcome of scanning a folder.
pub struct ScanResult {
    /// The files to index.
    pub files: Vec<FileInfo>,
    /// The entries passed over, each with the reason.
    pub skipped: Vec<SkipInfo>,
}

/// An entry passed over during a scan.
pub struct SkipInfo {
    /// Why it was passed over.
    pub reason: String,
}

/// The formats that are read by default: txt, md, pdf, docx, doc, xlsx, xls, csv.
pub open spec fn default_extensions() -> Seq<Seq<char>> {
    seq!["txt"@, "md"@, "pdf"@, "docx"@, "doc"@, "xlsx"@, "xls"@, "csv"@]
}

/// The extensions a scanner accepts, as character sequences.
pub open spec fn extension_views(exts: Seq<&'static str>) -> Seq<Seq<char>> {
    exts.map_values(|e: &'static str| e@)
}

/// What to do with one entry of the folder.
pub enum EntryCheck {
    /// Index the file.
    Keep,
    /// A directory (or other non-file) that is not hidden: nothing to record.
    Pass,
    /// Pass over the entry, for this reason.
    Skip(String),
    /// Pass over the file because it has this many bytes, over the limit; the
    /// reason (see `too_large_reason`) shows the size in MB.
    TooLarge(u64),
}

/// Whether a name starts with a dot.
pub open spec fn is_hidden(name: Seq<char>) -> bool {
    name.len() > 0 && name[0] == '.'
}

/// The lowercase extension of a path, if it has one.
pub open spec fn lower_extension(path: Seq<char>, bs: bool) -> Option<Seq<char>> {
    match path_extension(path, bs) {
        Some(e) => Some(lowercase(e)),
        None => None,
    }
}

/// What a scanner does with an entry named `name` at `path` (where a
/// backslash separates components when `bs`), given whether it
/// is a file and its size (or the error reading its metadata): a non-file is
/// recorded only when hidden; a file is passed over when hidden, unreadable,
/// empty, over `max_size`, without an extension or of an unsupported format,
/// in that order of checks; else it is kept.
pub open spec fn entry_check_spec(
    exts: Seq<Seq<char>>,
    max_size: u64,
    name: Seq<char>,
    is_file: bool,
    size: Result<u64, Seq<char>>,
    path: Seq<char>,
    bs: bool,
) -> (EntryCheckView) {
    if !is_file {
        if is_hidden(name) {
            EntryCheckView::Skip("跳过隐藏目录"@)
        } else {
            EntryCheckView::Pass
        }
    } else if is_hidden(name) {
        EntryCheckView::Skip("跳过隐藏文件"@)
    } else {
        match size {
            Err(e) => EntryCheckView::Skip("无法读取文件元数据: "@ + e),
            Ok(s) => if s == 0 {
                EntryCheckView::Skip("文件为空（0字节）"@)
            } else if s > max_size {
                EntryCheckView::TooLarge(s)
            } else {
                match lower_extension(path, bs) {
                    Some(e) => if exts.contains(e) {
                        EntryCheckView::Keep
                    } else {
                        EntryCheckView::Skip("不支持的文件格式: ."@ + e)
                    },
                    None => EntryCheckView::Skip("文件无扩展名"@),
                }
            },
        }
    }
}

/// `EntryCheck` with its text as a character sequence.
pub enum EntryCheckView {
    Keep,
    Pass,
    Skip(Seq<char>),
    TooLarge(u64),
}

/// An `EntryCheck` seen as an `EntryCheckView`.
pub open spec fn check_view(c: EntryCheck) -> EntryCheckView {
    match c {
        EntryCheck::Keep => EntryCheckView::Keep,
        EntryCheck::Pass => EntryCheckView::Pass,
        EntryCheck::Skip(r) => EntryCheckView::Skip(r@),
        EntryCheck::TooLarge(s) => EntryCheckView::TooLarge(s),
    }
}

/// The reason recorded for a file over the size limit, given its size in MB
/// written with one decimal.
pub fn too_large_reason(size_in_mb: &str) -> (r: String)
    ensures
        r@ == "文件过大（"@ + size_in_mb@ + "MB），超过 100MB 限制"@,
{
    let mut r = "文件过大（".to_owned();
    r.append(size_in_mb);
    r.append("MB），超过 100MB 限制");
    r
}

/// The reason recorded for an entry the folder walk could not reach.
pub fn walk_error_reason(error: &str) -> (r: String)
    ensures
        r@ == "遍历错误: "@ + error@,
{
    let mut r = "遍历错误: ".to_owned();
    r.append(error);
    r
}

impl DocumentScanner {
    /// A scanner for the default formats with the 100MB limit.
    pub fn new() -> (r: Self)
        ensures
            extension_views(r.supported_extensions@) == default_extensions(),
            r.max_file_size == MAX_FILE_SIZE,
    {
        let exts: Vec<&'static str> = vec!["txt", "md", "pdf", "docx", "doc", "xlsx", "xls", "csv"];
        assert(extension_views(exts@) =~= default_extensions());
        Self { supported_extensions: exts, max_file_size: MAX_FILE_SIZE }
    }

    /// The extensions this scanner accepts.
    pub fn supported_extensions(&self) -> (r: &[&'static str])
        ensures
            r@ == self.supported_extensions@,
    {
        self.supported_extensions.as_slice()
    }

    /// Whether `ext` is one of the accepted extensions.
    fn accepts(&self, ext: &String) -> (b: bool)
        ensures
            b == extension_views(self.supported_extensions@).contains(ext@),
    {
        let ghost views = extension_views(self.supported_extensions@);
        let mut i: usize = 0;
        while i < self.supported_extensions.len()
            invariant
                i <= self.supported_extensions.len(),
                views == extension_views(self.supported_extensions@),
                forall|k: int| 0 <= k < i ==> views[k] != ext@,
            decreases self.supported_extensions.len() - i,
        {
            let candidate: &str = self.supported_extensions[i];
            let owned = candidate.to_owned();
            if owned == *ext {
                assert(views[i as int] == ext@);
                return true;
            }
            i = i + 1;
        }
        assert(!views.contains(ext@)) by {
            if views.contains(ext@) {
                let k = choose|k: int| 0 <= k < views.len() && views[k] == ext@;
                assert(views[k] != ext@);
            }
        }
        false
    }

    /// What to do with one entry of the folder (see `entry_check_spec`).
    pub fn check_entry(
        &self,
        name: &str,
        is_file: bool,
        size: Result<u64, String>,
        path: &str,
        backslash_separates: bool,
    ) -> (r: EntryCheck)
        ensures
            check_view(r) == entry_check_spec(
                extension_views(self.supported_extensions@),
                self.max_file_size,
                name@,
                is_file,
                match size {
                    Ok(s) => Ok::<u64, Seq<char>>(s),
                    Err(e) => Err(e@),
                },
                path@,
                backslash_separates,
            ),
            is_file && !is_hidden(name@) && (size matches Ok(n) && 0 < n <= self.max_file_size)
                ==> match path_extension(path@, backslash_separates) {
                Some(e) => all_ascii(e) ==> lowercase(e) == e.map_values(|c: char| ascii_lower(c)),
                None => true,
            },
    {
        let name_chars = crate::text::chars_of(name);
        let hidden = name_chars.len() > 0 && name_chars[0] == '.';
        if !is_file {
            if hidden {
                return EntryCheck::Skip("跳过隐藏目录".to_owned());
            }
            return EntryCheck::Pass;
        }
        if hidden {
            return EntryCheck::Skip("跳过隐藏文件".to_owned());
        }
        let s = match size {
            Err(e) => {
                let mut r = "无法读取文件元数据: ".to_owned();
                r.append(e.as_str());
                return EntryCheck::Skip(r);
            },
            Ok(s) => s,
        };
        if s == 0 {
            return EntryCheck::Skip("文件为空（0字节）".to_owned());
        }
        if s > self.max_file_size {
            return EntryCheck::TooLarge(s);
        }
        match extension_of(path, backslash_separates) {
            Some(e) => {
                let lower = to_lowercase(e.as_str());
                if self.accepts(&lower) {
                    EntryCheck::Keep
                } else {
                    let mut r = "不支持的文件格式: .".to_owned();
                    r.append(lower.as_str());
                    EntryCheck::Skip(r)
                }
            },
            None => EntryCheck::Skip("文件无扩展名".to_owned()),
        }
    }
}

impl Default for DocumentScanner {
    /// The same scanner as `DocumentScanner::new`.
    fn default() -> (r: Self)
        ensures
            extension_views(r.supported_extensions@) == default_extensions(),
            r.max_file_size == MAX_FILE_SIZE,
    {
        Self::new()
    }
}

/// An entry is kept only when it is a file that is not hidden, whose size
/// could be read and is neither zero nor over the limit, and whose lowercase
/// extension is one of the accepted ones.
pub proof fn lemma_kept_entries_qualify(
    exts: Seq<Seq<char>>,
    max_size: u64,
    name: Seq<char>,
    is_file: bool,
    size: Result<u64, Seq<char>>,
    path: Seq<char>,
    bs: bool,
)
    requires
        entry_check_spec(exts, max_size, name, is_file, size, path, bs) == EntryCheckView::Keep,
    ensures
        is_file,
        !is_hidden(name),
        size matches Ok(s) && 0 < s <= max_size,
        lower_extension(path, bs) matches Some(e) && exts.contains(e),
{
}

/// Hidden entries, files and directories alike, are never kept, and every
/// hidden one is recorded as skipped.
pub proof fn lemma_hidden_entries_are_skipped(
    exts: Seq<Seq<char>>,
    max_size: u64,
    name: Seq<char>,
    is_file: bool,
    size: Result<u64, Seq<char>>,
    path: Seq<char>,
    bs: bool,
)
    requires
        is_hidden(name),
    ensures
        entry_check_spec(exts, max_size, name, is_file, size, path, bs) is Skip,
{
}

} // verus!
