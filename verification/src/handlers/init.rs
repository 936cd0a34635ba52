//! Summaries that `init` reports about a scan, and its decisions on each parsed file.
use vstd::prelude::*;

use crate::error::CoiError;
use crate::handlers::ask::{group_by_source, grouped, groups_view, items_view};
use crate::parser::ParseResult;
use crate::paths::{extension_of, path_extension};
use crate::scanner::{FileInfo, SkipInfo};
use crate::splitter::{split_contents, ChunkSplitter, TextChunk};
use vstd::wrapping::usize_specs::wrapping_add;
use crate::text::{chars_of, is_blank, trim};

verus! {

/// How many of the reasons are exactly `reason`.
pub open spec fn reason_count(reasons: Seq<Seq<char>>, reason: Seq<char>) -> nat
    decreases reasons.len(),
{
    if reasons.len() == 0 {
        0
    } else {
        reason_count(reasons.drop_last(), reason) + if reasons.last() == reason {
            1nat
        } else {
            0nat
        }
    }
}

/// The reasons of skipped entries.
pub open spec fn skip_reasons(skipped: Seq<SkipInfo>) -> Seq<Seq<char>> {
    skipped.map_values(|s: SkipInfo| s.reason@)
}

/// How many skipped entries were skipped for exactly `reason` (such as the
/// hidden directories and the hidden files).
pub fn count_skipped(skipped: &Vec<SkipInfo>, reason: &str) -> (n: usize)
    ensures
        n == reason_count(skip_reasons(skipped@), reason@),
{
    let ghost v = skip_reasons(skipped@);
    let target = reason.to_owned();
    let mut n: usize = 0;
    let mut i: usize = 0;
    assert(v.take(0) =~= Seq::<Seq<char>>::empty());
    while i < skipped.len()
        invariant
            i <= skipped.len(),
            v == skip_reasons(skipped@),
            target@ == reason@,
            n == reason_count(v.take(i as int), reason@),
            n <= i,
        decreases skipped.len() - i,
    {
        assert(v.take(i + 1).drop_last() =~= v.take(i as int));
        assert(v.take(i + 1).last() == skipped[i as int].reason@);
        if skipped[i].reason == target {
            n = n + 1;
        }
        i = i + 1;
    }
    assert(v.take(skipped.len() as int) =~= v);
    n
}

/// The extension of each file that has one, in order, paired with nothing.
pub open spec fn extension_items(files: Seq<FileInfo>, bs: bool) -> Seq<(Seq<char>, ())>
    decreases files.len(),
{
    if files.len() == 0 {
        Seq::empty()
    } else {
        let rest = extension_items(files.drop_last(), bs);
        match path_extension(files.last().absolute_path@, bs) {
            Some(e) => rest.push((e, ())),
            None => rest,
        }
    }
}

/// How many files have each extension, extensions in order of first
/// appearance (case kept as found).
pub open spec fn extension_tally(files: Seq<FileInfo>, bs: bool) -> Seq<(Seq<char>, nat)> {
    grouped(extension_items(files, bs)).map_values(|g: (Seq<char>, Seq<()>)| (g.0, g.1.len()))
}

/// How many files have each extension (see `extension_tally`).
pub fn extension_counts(files: &Vec<FileInfo>, backslash_separates: bool) -> (r: Vec<
    (String, usize),
>)
    ensures
        r@.map_values(|p: (String, usize)| (p.0@, p.1 as nat)) == extension_tally(
            files@,
            backslash_separates,
        ),
{
    let mut items: Vec<(String, ())> = Vec::new();
    let mut i: usize = 0;
    assert(files@.take(0) =~= Seq::<FileInfo>::empty());
    while i < files.len()
        invariant
            i <= files.len(),
            items_view(items@) == extension_items(files@.take(i as int), backslash_separates),
        decreases files.len() - i,
    {
        assert(files@.take(i + 1).drop_last() =~= files@.take(i as int));
        let ghost before = items_view(items@);
        match extension_of(files[i].absolute_path.as_str(), backslash_separates) {
            Some(e) => {
                items.push((e, ()));
                assert(items_view(items@) =~= before.push((e@, ())));
            },
            None => {},
        }
        i = i + 1;
    }
    assert(files@.take(files.len() as int) =~= files@);
    let groups = group_by_source(items);
    let ghost gv = groups_view(groups@);
    let mut r: Vec<(String, usize)> = Vec::new();
    for g in it: groups
        invariant
            gv == groups_view(it.seq()),
            r@.map_values(|p: (String, usize)| (p.0@, p.1 as nat)) == gv.take(it.index() as int).map_values(
                |g: (Seq<char>, Seq<()>)| (g.0, g.1.len()),
            ),
    {
        let ghost j = it.index();
        let ghost before = r@.map_values(|p: (String, usize)| (p.0@, p.1 as nat));
        let (name, members) = g;
        r.push((name, members.len()));
        assert(r@.map_values(|p: (String, usize)| (p.0@, p.1 as nat)) =~= before.push((name@, members@.len())));
        assert(gv.take(j + 1).map_values(|g: (Seq<char>, Seq<()>)| (g.0, g.1.len())) =~= gv.take(j as int).map_values(|g: (Seq<char>, Seq<()>)| (g.0, g.1.len())).push((gv[j as int].0, gv[j as int].1.len())));
    }
    assert(gv.take(gv.len() as int) =~= gv);
    r
}

/// Chunks are embedded this many at a time.
pub const BATCH_SIZE: usize = 32;

/// The reason recorded for a file whose text is blank once parsed.
pub open spec fn blank_reason() -> Seq<char> {
    "解析后内容为空"@
}

/// What `init` has counted and collected so far, file by file.
pub struct InitProgress {
    /// How many files gave text.
    pub success_count: usize,
    /// How many characters those files' texts hold.
    pub total_chars: usize,
    /// How many chunks those texts were split into.
    pub total_chunks: usize,
    /// Each file that gave no text, with the reason.
    pub failed_files: Vec<(String, String)>,
    /// The chunks waiting to be embedded.
    pub batch: Vec<TextChunk>,
}

/// What `init` does after recording a file.
#[derive(PartialEq, Eq, Structural, Clone, Copy, Debug)]
pub enum InitAction {
    /// Go on with the next file.
    Continue,
    /// Embed the waiting chunks first: the batch is full.
    EmbedBatch,
}

impl InitProgress {
    /// Nothing counted or collected yet.
    pub fn new() -> (r: Self)
        ensures
            r.success_count == 0,
            r.total_chars == 0,
            r.total_chunks == 0,
            r.failed_files@.len() == 0,
            r.batch@.len() == 0,
    {
        InitProgress {
            success_count: 0,
            total_chars: 0,
            total_chunks: 0,
            failed_files: Vec::new(),
            batch: Vec::new(),
        }
    }
}

/// Records what parsing the file `file_name` (chunked under `source`) gave.
/// A failure is recorded with the parser's reason; a text that is blank once
/// trimmed is recorded as a failure with the reason "解析后内容为空"; any other
/// text counts as a success, adds its characters and chunks to the totals
/// (which wrap around past `usize::MAX`, as release builds of plain `+=` do),
/// and its chunks join the batch. The batch is to be embedded once it holds
/// `BATCH_SIZE` chunks or more.
pub fn record_parse(
    state: &mut InitProgress,
    splitter: &ChunkSplitter,
    file_name: &str,
    source: &str,
    outcome: Result<ParseResult, CoiError>,
) -> (a: InitAction)
    requires
        outcome matches Err(e) ==> e is ParseError,
    ensures
        match outcome {
            Err(CoiError::ParseError { reason, .. }) => {
                &&& a == InitAction::Continue
                &&& final(state).failed_files@.len() == old(state).failed_files@.len() + 1
                &&& final(state).failed_files@.drop_last() == old(state).failed_files@
                &&& final(state).failed_files@.last().0@ == file_name@
                &&& final(state).failed_files@.last().1@ == reason@
                &&& final(state).success_count == old(state).success_count
                &&& final(state).total_chars == old(state).total_chars
                &&& final(state).total_chunks == old(state).total_chunks
                &&& final(state).batch@ == old(state).batch@
            },
            Err(_) => false,
            Ok(p) => if trim(p.content@).len() == 0 {
                &&& a == InitAction::Continue
                &&& final(state).failed_files@.len() == old(state).failed_files@.len() + 1
                &&& final(state).failed_files@.drop_last() == old(state).failed_files@
                &&& final(state).failed_files@.last().0@ == file_name@
                &&& final(state).failed_files@.last().1@ == blank_reason()
                &&& final(state).success_count == old(state).success_count
                &&& final(state).total_chars == old(state).total_chars
                &&& final(state).total_chunks == old(state).total_chunks
                &&& final(state).batch@ == old(state).batch@
            } else {
                let pieces = split_contents(
                    p.content@,
                    splitter.chunk_size as nat,
                    splitter.overlap as nat,
                );
                let n = old(state).batch@.len();
                &&& final(state).failed_files@ == old(state).failed_files@
                &&& final(state).success_count == wrapping_add(old(state).success_count, 1)
                &&& final(state).total_chars == wrapping_add(
                    old(state).total_chars,
                    p.content@.len() as usize,
                )
                &&& final(state).total_chunks == wrapping_add(
                    old(state).total_chunks,
                    pieces.len() as usize,
                )
                &&& final(state).batch@.len() == n + pieces.len()
                &&& final(state).batch@.take(n as int) == old(state).batch@
                &&& forall|i: int|
                    0 <= i < pieces.len() ==> {
                        &&& (#[trigger] final(state).batch@[n + i]).content@ == pieces[i]
                        &&& final(state).batch@[n + i].source_file@ == source@
                        &&& final(state).batch@[n + i].chunk_index == i
                    }
                &&& (a == InitAction::EmbedBatch) == (final(state).batch@.len() >= BATCH_SIZE)
            },
        },
{
    match outcome {
        Err(CoiError::ParseError { reason, .. }) => {
            state.failed_files.push((file_name.to_owned(), reason));
            assert(state.failed_files@.drop_last() =~= old(state).failed_files@);
            InitAction::Continue
        },
        Err(_) => {
            InitAction::Continue
        },
        Ok(p) => {
            if is_blank(p.content.as_str()) {
                let reason = "解析后内容为空".to_owned();
                proof {
                    reveal_strlit("解析后内容为空");
                }
                state.failed_files.push((file_name.to_owned(), reason));
                assert(state.failed_files@.drop_last() =~= old(state).failed_files@);
                return InitAction::Continue;
            }
            let chunks = splitter.split(p.content.as_str(), source);
            let count = chars_of(p.content.as_str()).len();
            let ghost n = state.batch@.len();
            assert(count == p.content@.len());
            let ghost before = state.batch@;
            state.success_count = state.success_count.wrapping_add(1);
            state.total_chars = state.total_chars.wrapping_add(count);
            state.total_chunks = state.total_chunks.wrapping_add(chunks.len());
            let mut k: usize = 0;
            let total = chunks.len();
            for c in it: chunks
                invariant
                    total == split_contents(
                        p.content@,
                        splitter.chunk_size as nat,
                        splitter.overlap as nat,
                    ).len(),
                    it.seq().len() == total,
                    forall|i: int|
                        0 <= i < total ==> {
                            &&& (#[trigger] it.seq()[i]).content@ == split_contents(
                                p.content@,
                                splitter.chunk_size as nat,
                                splitter.overlap as nat,
                            )[i]
                            &&& it.seq()[i].source_file@ == source@
                            &&& it.seq()[i].chunk_index == i
                        },
                    state.failed_files@ == old(state).failed_files@,
                    state.success_count == wrapping_add(old(state).success_count, 1),
                    state.total_chars == wrapping_add(
                        old(state).total_chars,
                        p.content@.len() as usize,
                    ),
                    state.total_chunks == wrapping_add(old(state).total_chunks, total as usize),
                    state.batch@.len() == n + it.index(),
                    state.batch@.take(n as int) == before,
                    forall|i: int| 0 <= i < it.index() ==> #[trigger] state.batch@[n + i] == it.seq()[i],
            {
                state.batch.push(c);
            }
            if state.batch.len() >= BATCH_SIZE {
                InitAction::EmbedBatch
            } else {
                InitAction::Continue
            }
        },
    }
}

} // verus!
