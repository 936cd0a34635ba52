//! What the outside document readers give, as plain values: a Word body, a
//! workbook's sheets, a CSV table and a ZIP archive's entries. The CSV and
//! ZIP readers are called from here.
use std::io::Read;
use vstd::prelude::*;

verus! {

/// The texts of one Word run: `Some(text)` for each text child, `None` for any other child.
pub type RunTexts = Vec<Option<String>>;

/// The children of one Word paragraph: `Some(run)` for each run, `None` for any other child.
pub type ParagraphRuns = Vec<Option<RunTexts>>;

/// The children of a Word document's body: `Some(paragraph)` for each
/// paragraph, `None` for any other child (tables, sections, ...).
pub type DocxChildren = Vec<Option<ParagraphRuns>>;

/// A run's texts as character sequences.
pub open spec fn run_view(r: RunTexts) -> Seq<Option<Seq<char>>> {
    r@.map_values(|t: Option<String>| match t {
        Some(s) => Some(s@),
        None => None,
    })
}

/// A paragraph's children as character sequences.
pub open spec fn paragraph_view(p: ParagraphRuns) -> Seq<Option<Seq<Option<Seq<char>>>>> {
    p@.map_values(|c: Option<RunTexts>| match c {
        Some(r) => Some(run_view(r)),
        None => None,
    })
}

/// A document body as character sequences.
pub open spec fn docx_view(d: DocxChildren) -> Seq<Option<Seq<Option<Seq<Option<Seq<char>>>>>>> {
    d@.map_values(|c: Option<ParagraphRuns>| match c {
        Some(p) => Some(paragraph_view(p)),
        None => None,
    })
}

/// The sheets of a workbook: for each sheet, in workbook order, its rows of
/// cells as text, or `None` when the sheet could not be read.
pub type SheetRows = Vec<Option<Vec<Vec<String>>>>;

/// A workbook's sheets as character sequences.
pub open spec fn sheets_view(w: SheetRows) -> Seq<Option<Seq<Seq<Seq<char>>>>> {
    w@.map_values(|s: Option<Vec<Vec<String>>>| match s {
        Some(rows) => Some(
            rows@.map_values(|row: Vec<String>| row@.map_values(|cell: String| cell@)),
        ),
        None => None,
    })
}

/// A CSV file as read: the header record (`None` when it could not be read)
/// and every following record, or the message of the error reading it.
pub type CsvTable = (Option<Vec<String>>, Vec<Result<Vec<String>, String>>);

/// A field list as character sequences.
pub open spec fn fields_view(f: Vec<String>) -> Seq<Seq<char>> {
    f@.map_values(|s: String| s@)
}

/// A CSV table as character sequences.
pub open spec fn csv_view(t: CsvTable) -> (Option<Seq<Seq<char>>>, Seq<Result<Seq<Seq<char>>, Seq<char>>>) {
    (
        match t.0 {
            Some(h) => Some(fields_view(h)),
            None => None,
        },
        t.1@.map_values(|r: Result<Vec<String>, String>| match r {
            Ok(f) => Ok(fields_view(f)),
            Err(e) => Err(e@),
        }),
    )
}

/// What the `csv` crate reads from the bytes of a CSV file whose first record
/// is a header.
pub uninterp spec fn csv_records(bytes: Seq<u8>) -> (Option<Seq<Seq<char>>>, Seq<Result<Seq<Seq<char>>, Seq<char>>>);

/// Reads a CSV file's bytes with `csv::ReaderBuilder` (headers on): the
/// header record and all records; the outcome is named `csv_records`.
#[verifier::external_body]
pub(crate) fn read_csv_records(bytes: &[u8]) -> (r: CsvTable)
    ensures
        csv_records(bytes@) == csv_view(r),
{
    let mut rdr = csv::ReaderBuilder::new().has_headers(true).from_reader(bytes);
    let headers = rdr.headers().ok().map(|h| h.iter().map(|f| f.to_string()).collect());
    let records = rdr.records().map(|r| r.map(|rec| rec.iter().map(|f| f.to_string()).collect()).map_err(|e| e.to_string())).collect();
    (headers, records)
}

/// The entries of a ZIP archive, in archive order: each entry's name (`None`
/// when it is not valid text), and whether it could be opened and then read
/// as UTF-8 text (`Some(Some(text))`), opened only (`Some(None)`), or not opened (`None`).
pub type ZipEntries = Vec<(Option<String>, Option<Option<String>>)>;

/// Archive entries as character sequences.
pub open spec fn zip_view(z: ZipEntries) -> Seq<(Option<Seq<char>>, Option<Option<Seq<char>>>)> {
    z@.map_values(|e: (Option<String>, Option<Option<String>>)| (
        match e.0 {
            Some(n) => Some(n@),
            None => None,
        },
        match e.1 {
            Some(Some(t)) => Some(Some(t@)),
            Some(None) => Some(None),
            None => None,
        },
    ))
}

/// The entries the `zip` crate reads from an archive's bytes, or the opening
/// error's message.
pub uninterp spec fn zip_read(bytes: Seq<u8>) -> Result<
    Seq<(Option<Seq<char>>, Option<Option<Seq<char>>>)>,
    Seq<char>,
>;

/// Opens an archive's bytes with `zip::ZipArchive::new` and reads, for every
/// entry in archive order, its name (`name_for_index`) and its text
/// (`by_index`, then `read_to_string`); the outcome is named `zip_read`.
#[verifier::external_body]
pub(crate) fn read_zip_entries(bytes: &[u8]) -> (r: Result<ZipEntries, String>)
    ensures
        zip_read(bytes@) == match r {
            Ok(z) => Ok::<_, Seq<char>>(zip_view(z)),
            Err(e) => Err(e@),
        },
{
    let mut zip = zip::ZipArchive::new(std::io::Cursor::new(bytes.to_vec())).map_err(|e| e.to_string())?;
    Ok((0..zip.len()).map(|i| {
        let name = zip.name_for_index(i).and_then(|n| n.ok()).map(|n| n.into_owned());
        let text = zip.by_index(i).ok().map(|mut f| { let mut s = String::new(); f.read_to_string(&mut s).ok().map(|_| s) });
        (name, text)
    }).collect())
}

} // verus!
