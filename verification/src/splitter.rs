//! Splitting text into overlapping chunks, counted in characters (not bytes).
use vstd::prelude::*;

use crate::text::{chars_of, string_from_range};

verus! {

/// One piece of a split text.
pub struct TextChunk {
    /// The chunk's text.
    pub content: String,
    /// The file the text came from.
    pub source_file: String,
    /// The chunk's position in the sequence of chunks, from 0.
    pub chunk_index: usize,
}

/// Splits text into chunks of at most `chunk_size` characters, where each chunk
/// starts `chunk_size - overlap` characters (at least one) after the previous one.
pub struct ChunkSplitter {
    /// The largest number of characters in a chunk (500 by default).
    pub chunk_size: usize,
    /// How many characters neighbouring chunks share (50 by default).
    pub overlap: usize,
}

/// How far apart the starts of neighbouring chunks are: `chunk_size - overlap`,
/// but never less than one character.
pub open spec fn chunk_step(chunk_size: nat, overlap: nat) -> nat {
    if chunk_size > overlap {
        (chunk_size - overlap) as nat
    } else {
        1
    }
}

/// The window of at most `size` characters of `s` that starts at `start`.
pub open spec fn window(s: Seq<char>, start: int, size: int) -> Seq<char> {
    s.subrange(start, if start + size <= s.len() { start + size } else { s.len() as int })
}

/// The number of windows `0, step, 2*step, ...` that start inside a text of `n` characters.
pub open spec fn window_count(n: nat, step: nat) -> nat
    recommends
        step > 0,
{
    ((n + step - 1) / (step as int)) as nat
}

/// The most chunks one file is split into.
pub const MAX_CHUNKS: usize = 1000;

/// Every window of a text: none for an empty text, the whole text when it fits
/// in one chunk, else the windows of `chunk_size` characters that start at
/// every multiple of the step inside the text.
pub open spec fn all_windows(s: Seq<char>, chunk_size: nat, overlap: nat) -> Seq<Seq<char>> {
    if s.len() == 0 {
        Seq::empty()
    } else if s.len() <= chunk_size {
        seq![s]
    } else {
        let step = chunk_step(chunk_size, overlap);
        Seq::new(
            window_count(s.len(), step),
            |i: int| window(s, i * step, chunk_size as int),
        )
    }
}

/// The contents of the chunks that splitting `s` gives: its windows (see
/// `all_windows`), of which at most the first `MAX_CHUNKS` are kept.
pub open spec fn split_contents(s: Seq<char>, chunk_size: nat, overlap: nat) -> Seq<Seq<char>> {
    let w = all_windows(s, chunk_size, overlap);
    if w.len() <= MAX_CHUNKS {
        w
    } else {
        w.take(MAX_CHUNKS as int)
    }
}

impl ChunkSplitter {
    /// A splitter with the given chunk size and overlap.
    pub fn new(chunk_size: usize, overlap: usize) -> (r: Self)
        ensures
            r.chunk_size == chunk_size,
            r.overlap == overlap,
    {
        Self { chunk_size, overlap }
    }

    /// A splitter with chunks of 500 characters that overlap by 50.
    pub fn default() -> (r: Self)
        ensures
            r.chunk_size == 500,
            r.overlap == 50,
    {
        Self { chunk_size: 500, overlap: 50 }
    }

    /// Splits `text` into chunks (see `split_contents`), each tagged with
    /// `source_file` and its index.
    pub fn split(&self, text: &str, source_file: &str) -> (chunks: Vec<TextChunk>)
        ensures
            chunks.len() == split_contents(text@, self.chunk_size as nat, self.overlap as nat).len(),
            forall|i: int|
                0 <= i < chunks.len() ==> {
                    &&& (#[trigger] chunks[i]).content@ == split_contents(
                        text@,
                        self.chunk_size as nat,
                        self.overlap as nat,
                    )[i]
                    &&& chunks[i].source_file@ == source_file@
                    &&& chunks[i].chunk_index == i
                },
    {
        let chars = chars_of(text);
        let total = chars.len();
        let ghost s = text@;
        let ghost cs = self.chunk_size as nat;
        let ghost ov = self.overlap as nat;
        if total == 0 {
            return Vec::new();
        }
        if total <= self.chunk_size {
            let mut one: Vec<TextChunk> = Vec::new();
            one.push(
                TextChunk { content: text.to_owned(), source_file: source_file.to_owned(), chunk_index: 0 },
            );
            return one;
        }
        let step: usize = if self.chunk_size > self.overlap {
            self.chunk_size - self.overlap
        } else {
            1
        };
        let ghost count = window_count(total as nat, step as nat);
        let ghost cap: nat = if count <= MAX_CHUNKS {
            count
        } else {
            MAX_CHUNKS as nat
        };
        let mut chunks: Vec<TextChunk> = Vec::new();
        let mut start: usize = 0;
        let mut index: usize = 0;
        proof {
            lemma_count_bounds(total as nat, step as nat, 0);
        }
        loop
            invariant_except_break
                start < total,
                index < cap,
                chunks.len() == index,
            invariant
                total == chars@.len() == s.len(),
                chars@ == s,
                total > self.chunk_size,
                step == chunk_step(cs, ov),
                step >= 1,
                cs == self.chunk_size,
                ov == self.overlap,
                count == window_count(total as nat, step as nat),
                cap == if count <= MAX_CHUNKS {
                    count
                } else {
                    MAX_CHUNKS as nat
                },
                start == index * step,
                forall|i: int|
                    0 <= i < chunks.len() ==> {
                        &&& (#[trigger] chunks[i]).content@ == window(s, i * step, cs as int)
                        &&& chunks[i].source_file@ == source_file@
                        &&& chunks[i].chunk_index == i
                    },
            ensures
                chunks.len() == cap,
                forall|i: int|
                    0 <= i < cap ==> {
                        &&& (#[trigger] chunks[i]).content@ == window(s, i * step, cs as int)
                        &&& chunks[i].source_file@ == source_file@
                        &&& chunks[i].chunk_index == i
                    },
            decreases total - start,
        {
            let end: usize = if self.chunk_size <= total - start {
                start + self.chunk_size
            } else {
                total
            };
            let content = string_from_range(&chars, start, end);
            chunks.push(TextChunk { content, source_file: source_file.to_owned(), chunk_index: index });
            assert(chunks[index as int].content@ == window(s, index * step, cs as int));
            if step >= total - start || index + 1 == MAX_CHUNKS {
                proof {
                    lemma_count_bounds(total as nat, step as nat, index as nat);
                    lemma_count_bounds(total as nat, step as nat, (index + 1) as nat);
                    assert((index + 1) * step == index * step + step) by (nonlinear_arith);
                }
                break;
            }
            proof {
                lemma_count_bounds(total as nat, step as nat, index as nat);
                lemma_count_bounds(total as nat, step as nat, (index + 1) as nat);
                assert((index + 1) * step == index * step + step) by (nonlinear_arith);
                assert(index <= index * step) by (nonlinear_arith)
                    requires
                        step >= 1,
                ;
            }
            start = start + step;
            index = index + 1;
        }
        assert(split_contents(s, cs, ov) =~= Seq::new(cap, |i: int| window(s, i * step, cs as int)));
        chunks
    }
}

/// Window `k` starts inside the text exactly when `k` is below the window count.
proof fn lemma_count_bounds(n: nat, step: nat, k: nat)
    requires
        step >= 1,
    ensures
        k * step < n <==> k < window_count(n, step),
{
    let c = window_count(n, step) as int;
    let m = (n + step - 1) as int;
    assert(c * step <= m && m < c * step + step) by (nonlinear_arith)
        requires
            step >= 1,
            c == m / (step as int),
    ;
    if k < c {
        assert(k * step <= (c - 1) * step) by (nonlinear_arith)
            requires
                k < c,
                step >= 1,
        ;
        assert((c - 1) * step == c * step - step) by (nonlinear_arith);
    } else {
        assert(k * step >= c * step) by (nonlinear_arith)
            requires
                k >= c,
                step >= 1,
        ;
    }
}

/// Where chunk `i` of a split starts in the text.
pub open spec fn chunk_start(s: Seq<char>, chunk_size: nat, overlap: nat, i: int) -> int {
    if s.len() <= chunk_size {
        0
    } else {
        i * chunk_step(chunk_size, overlap)
    }
}

/// The chunks are the first windows of the text, at most `MAX_CHUNKS` of them.
proof fn lemma_split_prefix(s: Seq<char>, chunk_size: nat, overlap: nat)
    ensures
        split_contents(s, chunk_size, overlap).len() == if all_windows(s, chunk_size, overlap).len()
            <= MAX_CHUNKS {
            all_windows(s, chunk_size, overlap).len()
        } else {
            MAX_CHUNKS as nat
        },
        forall|i: int|
            0 <= i < split_contents(s, chunk_size, overlap).len() ==> #[trigger] split_contents(
                s,
                chunk_size,
                overlap,
            )[i] == all_windows(s, chunk_size, overlap)[i],
{
}

/// Every chunk is the piece of the text that starts at its start, and has at
/// most `chunk_size` characters (and at least one, when `chunk_size` is not
/// zero); a non-empty text gives at least one chunk.
pub proof fn lemma_chunks_are_pieces(s: Seq<char>, chunk_size: nat, overlap: nat)
    ensures
        s.len() > 0 ==> split_contents(s, chunk_size, overlap).len() > 0,
        forall|i: int|
            0 <= i < split_contents(s, chunk_size, overlap).len() ==> {
                let c = #[trigger] split_contents(s, chunk_size, overlap)[i];
                let st = chunk_start(s, chunk_size, overlap, i);
                &&& c.len() <= chunk_size
                &&& (chunk_size > 0 ==> c.len() > 0)
                &&& 0 <= st
                &&& st + c.len() <= s.len()
                &&& c == s.subrange(st, st + c.len())
            },
{
    let step = chunk_step(chunk_size, overlap);
    let w = all_windows(s, chunk_size, overlap);
    let contents = split_contents(s, chunk_size, overlap);
    lemma_split_prefix(s, chunk_size, overlap);
    if s.len() > chunk_size {
        lemma_count_bounds(s.len(), step, 0);
        assert forall|i: int| 0 <= i < contents.len() implies {
            let c = #[trigger] contents[i];
            let st = chunk_start(s, chunk_size, overlap, i);
            &&& c.len() <= chunk_size
            &&& (chunk_size > 0 ==> c.len() > 0)
            &&& 0 <= st
            &&& st + c.len() <= s.len()
            &&& c == s.subrange(st, st + c.len())
        } by {
            assert(contents[i] == w[i]);
            lemma_count_bounds(s.len(), step, i as nat);
            assert(0 <= i * step) by (nonlinear_arith)
                requires
                    0 <= i,
            ;
        }
    } else if s.len() > 0 {
        assert(contents[0] == s);
        assert(s.subrange(0, s.len() as int) =~= s);
    }
}

/// How many chunks a split gives: none for an empty text, one when the text
/// fits in a chunk, else one for each multiple of the step inside the text,
/// but never more than `MAX_CHUNKS`.
pub proof fn lemma_chunk_count(s: Seq<char>, chunk_size: nat, overlap: nat)
    ensures
        split_contents(s, chunk_size, overlap).len() == if s.len() == 0 {
            0
        } else if s.len() <= chunk_size {
            1
        } else if window_count(s.len(), chunk_step(chunk_size, overlap)) <= MAX_CHUNKS {
            window_count(s.len(), chunk_step(chunk_size, overlap))
        } else {
            MAX_CHUNKS as nat
        },
        split_contents(s, chunk_size, overlap).len() <= MAX_CHUNKS,
{
}

/// The offset in chunk `i` at which character `k` of the text lies, when it lies there.
pub open spec fn holds_char(s: Seq<char>, chunk_size: nat, overlap: nat, i: int, k: int) -> bool {
    let contents = split_contents(s, chunk_size, overlap);
    let off = k - chunk_start(s, chunk_size, overlap, i);
    &&& 0 <= i < contents.len()
    &&& 0 <= off < contents[i].len()
    &&& contents[i][off] == s[k]
}

/// With chunks of at least one character, and a text that needs no more than
/// `MAX_CHUNKS` windows, every character of the text lies in some chunk, at its
/// offset from that chunk's start: nothing is lost.
pub proof fn lemma_chunks_cover_text(s: Seq<char>, chunk_size: nat, overlap: nat)
    requires
        chunk_size > 0,
        all_windows(s, chunk_size, overlap).len() <= MAX_CHUNKS,
    ensures
        forall|k: int| 0 <= k < s.len() ==> #[trigger] char_is_covered(s, chunk_size, overlap, k),
{
    assert forall|k: int| 0 <= k < s.len() implies #[trigger] char_is_covered(
        s,
        chunk_size,
        overlap,
        k,
    ) by {
        let i = chunk_of_char(s, chunk_size, overlap, k);
        assert(holds_char(s, chunk_size, overlap, i, k));
    }
}

/// Some chunk holds character `k` of the text.
pub open spec fn char_is_covered(s: Seq<char>, chunk_size: nat, overlap: nat, k: int) -> bool {
    exists|i: int| #[trigger] holds_char(s, chunk_size, overlap, i, k)
}

/// The chunk that holds character `k`: number `k / step`, or the only one.
proof fn chunk_of_char(s: Seq<char>, chunk_size: nat, overlap: nat, k: int) -> (i: int)
    requires
        chunk_size > 0,
        all_windows(s, chunk_size, overlap).len() <= MAX_CHUNKS,
        0 <= k < s.len(),
    ensures
        holds_char(s, chunk_size, overlap, i, k),
{
    let step = chunk_step(chunk_size, overlap);
    let contents = split_contents(s, chunk_size, overlap);
    if s.len() <= chunk_size {
        assert(contents[0] == s);
        0
    } else {
        let i = k / (step as int);
        assert(i * step <= k < i * step + step && 0 <= i) by (nonlinear_arith)
            requires
                step >= 1,
                0 <= k,
                i == k / (step as int),
        ;
        assert(step <= chunk_size);
        lemma_count_bounds(s.len(), step, i as nat);
        assert(contents[i] == window(s, i * step, chunk_size as int));
        i
    }
}

/// Neighbouring chunks overlap: what follows the first `step` characters of a
/// chunk is where the next chunk begins (with `overlap` characters in common
/// between full chunks when `overlap < chunk_size`).
pub proof fn lemma_chunks_overlap(s: Seq<char>, chunk_size: nat, overlap: nat, i: int)
    requires
        chunk_size > 0,
        0 <= i,
        i + 1 < split_contents(s, chunk_size, overlap).len(),
    ensures
        ({
            let step = chunk_step(chunk_size, overlap) as int;
            let c = split_contents(s, chunk_size, overlap);
            &&& step <= c[i].len()
            &&& c[i].len() - step <= c[i + 1].len()
            &&& c[i].skip(step) == c[i + 1].take(c[i].len() - step)
            &&& (overlap < chunk_size && c[i].len() == chunk_size ==> c[i].len() - step == overlap)
        }),
{
    let step = chunk_step(chunk_size, overlap);
    let c = split_contents(s, chunk_size, overlap);
    lemma_split_prefix(s, chunk_size, overlap);
    assert(s.len() > chunk_size);
    lemma_count_bounds(s.len(), step, (i + 1) as nat);
    assert((i + 1) * step == i * step + step) by (nonlinear_arith);
    assert(0 <= i * step) by (nonlinear_arith)
        requires
            0 <= i,
    ;
    assert(c[i] == window(s, i * step, chunk_size as int));
    assert(c[i + 1] == window(s, (i + 1) * step, chunk_size as int));
    assert(c[i].skip(step as int) =~= c[i + 1].take(c[i].len() - step));
}

} // verus!
