//! Plain text out of Rich Text Format: control words are dropped (except
//! paragraph, line and tab breaks), as are nested groups and the font table,
//! colour table and generator groups.
use vstd::prelude::*;

use crate::text::{
    ascii_alpha, ascii_digit, ascii_punct, is_ascii_alpha, is_ascii_digit, is_ascii_punct, is_ws,
    is_whitespace, range_equals,
};

verus! {

/// The end of the run of ASCII letters that starts at `j`.
pub open spec fn alpha_end(c: Seq<char>, j: int) -> int
    decreases c.len() - j,
{
    if 0 <= j < c.len() && is_ascii_alpha(c[j]) {
        alpha_end(c, j + 1)
    } else {
        j
    }
}

/// The end of the run of digits and `'-'` (a control word's parameter) that starts at `j`.
pub open spec fn param_end(c: Seq<char>, j: int) -> int
    decreases c.len() - j,
{
    if 0 <= j < c.len() && (is_ascii_digit(c[j]) || c[j] == '-') {
        param_end(c, j + 1)
    } else {
        j
    }
}

/// A run ends no earlier than it starts, and no later than the text.
pub proof fn lemma_run_ends(c: Seq<char>, j: int)
    ensures
        alpha_end(c, j) >= j,
        param_end(c, j) >= j,
        0 <= j <= c.len() ==> alpha_end(c, j) <= c.len() && param_end(c, j) <= c.len(),
    decreases c.len() - j,
{
    if 0 <= j < c.len() {
        lemma_run_ends(c, j + 1);
    }
}

/// The groups whose text is skipped: `\fonttbl`, `\colortbl`, `\generator`
/// (and `\*`, which a run of letters never spells).
pub open spec fn is_skipped_group(w: Seq<char>) -> bool {
    w == seq!['f', 'o', 'n', 't', 't', 'b', 'l'] || w == seq!['c', 'o', 'l', 'o', 'r', 't', 'b', 'l']
        || w == seq!['g', 'e', 'n', 'e', 'r', 'a', 't', 'o', 'r'] || w == seq!['*']
}

/// The text a control word stands for: `\par` and `\line` a line break, `\tab`
/// a tab, any other nothing.
pub open spec fn control_word_text(w: Seq<char>) -> Seq<char> {
    if w == seq!['p', 'a', 'r'] || w == seq!['l', 'i', 'n', 'e'] {
        seq!['\n']
    } else if w == seq!['t', 'a', 'b'] {
        seq!['\t']
    } else {
        Seq::empty()
    }
}

/// Where reading resumes after a control word that ends at `j`: past its
/// numeric parameter and one following space.
pub open spec fn after_control_word(c: Seq<char>, j: int) -> int {
    let k = param_end(c, j);
    if 0 <= k < c.len() && c[k] == ' ' {
        k + 1
    } else {
        k
    }
}

/// The text read from position `i` on, at group depth `depth`, with `skip`
/// telling whether the current group is one whose text is skipped. Text is
/// kept only at depth at most one outside skipped groups; `\\`, `\{` and `\}`
/// stand for the character they escape, and a backslash before any other
/// non-letter is dropped.
pub open spec fn rtf_text_from(c: Seq<char>, i: int, depth: nat, skip: bool) -> Seq<char>
    decreases c.len() - i,
{
    if i < 0 || i >= c.len() {
        Seq::empty()
    } else {
        let ch = c[i];
        if ch == '{' {
            let skip2 = if i + 1 < c.len() && c[i + 1] == '\\' && is_skipped_group(
                c.subrange(i + 2, alpha_end(c, i + 2)),
            ) {
                true
            } else {
                skip
            };
            rtf_text_from(c, i + 1, depth + 1, skip2)
        } else if ch == '}' {
            rtf_text_from(c, i + 1, if depth > 0 {
                (depth - 1) as nat
            } else {
                0
            }, false)
        } else if depth > 1 || skip {
            rtf_text_from(c, i + 1, depth, skip)
        } else if ch == '\\' && i + 1 < c.len() {
            let nx = c[i + 1];
            if is_ascii_alpha(nx) {
                let j = alpha_end(c, i + 1);
                proof {
                    lemma_run_ends(c, i + 1);
                    lemma_run_ends(c, j);
                }
                control_word_text(c.subrange(i + 1, j)) + rtf_text_from(
                    c,
                    after_control_word(c, j),
                    depth,
                    skip,
                )
            } else if nx == '\\' || nx == '{' || nx == '}' {
                seq![nx] + rtf_text_from(c, i + 2, depth, skip)
            } else {
                rtf_text_from(c, i + 1, depth, skip)
            }
        } else {
            seq![ch] + rtf_text_from(c, i + 1, depth, skip)
        }
    }
}

/// The characters that survive the final filter: CJK unified ideographs,
/// ASCII letters and punctuation, and White_Space.
pub open spec fn rtf_keeps(c: char) -> bool {
    (0x4E00 <= c as u32 && c as u32 <= 0x9FFF) || is_ascii_alpha(c) || is_ascii_punct(c) || is_ws(c)
}

/// The end of the run of ASCII letters that starts at `j`.
fn alpha_end_exec(v: &Vec<char>, j: usize) -> (r: usize)
    requires
        j <= v.len(),
    ensures
        r as int == alpha_end(v@, j as int),
        j <= r <= v.len(),
{
    let mut k = j;
    while k < v.len() && ascii_alpha(v[k])
        invariant
            j <= k <= v.len(),
            alpha_end(v@, j as int) == alpha_end(v@, k as int),
        decreases v.len() - k,
    {
        k = k + 1;
    }
    k
}

/// The end of the parameter run that starts at `j`.
fn param_end_exec(v: &Vec<char>, j: usize) -> (r: usize)
    requires
        j <= v.len(),
    ensures
        r as int == param_end(v@, j as int),
        j <= r <= v.len(),
{
    let mut k = j;
    while k < v.len() && (ascii_digit(v[k]) || v[k] == '-')
        invariant
            j <= k <= v.len(),
            param_end(v@, j as int) == param_end(v@, k as int),
        decreases v.len() - k,
    {
        k = k + 1;
    }
    k
}

/// The text of an RTF document's characters before filtering (see `rtf_text_from`).
pub fn rtf_raw_text(c: &Vec<char>) -> (r: Vec<char>)
    ensures
        r@ == rtf_text_from(c@, 0, 0, false),
{
    let n = c.len();
    let mut out: Vec<char> = Vec::new();
    let mut depth: usize = 0;
    let mut skip = false;
    let mut i: usize = 0;
    let fonttbl: Vec<char> = vec!['f', 'o', 'n', 't', 't', 'b', 'l'];
    let colortbl: Vec<char> = vec!['c', 'o', 'l', 'o', 'r', 't', 'b', 'l'];
    let generator: Vec<char> = vec!['g', 'e', 'n', 'e', 'r', 'a', 't', 'o', 'r'];
    let star: Vec<char> = vec!['*'];
    let par: Vec<char> = vec!['p', 'a', 'r'];
    let line: Vec<char> = vec!['l', 'i', 'n', 'e'];
    let tab: Vec<char> = vec!['t', 'a', 'b'];
    while i < n
        invariant
            n == c.len(),
            i <= n,
            depth <= i,
            out@ + rtf_text_from(c@, i as int, depth as nat, skip) == rtf_text_from(
                c@,
                0,
                0,
                false,
            ),
            fonttbl@ == seq!['f', 'o', 'n', 't', 't', 'b', 'l'],
            colortbl@ == seq!['c', 'o', 'l', 'o', 'r', 't', 'b', 'l'],
            generator@ == seq!['g', 'e', 'n', 'e', 'r', 'a', 't', 'o', 'r'],
            star@ == seq!['*'],
            par@ == seq!['p', 'a', 'r'],
            line@ == seq!['l', 'i', 'n', 'e'],
            tab@ == seq!['t', 'a', 'b'],
        decreases n - i,
    {
        let ghost before = out@;
        let ghost rest = rtf_text_from(c@, i as int, depth as nat, skip);
        let ch = c[i];
        if ch == '{' {
            if i + 1 < n && c[i + 1] == '\\' {
                let e = alpha_end_exec(c, i + 2);
                if range_equals(c, i + 2, e, &fonttbl) || range_equals(c, i + 2, e, &colortbl)
                    || range_equals(c, i + 2, e, &generator) || range_equals(c, i + 2, e, &star) {
                    skip = true;
                }
            }
            depth = depth + 1;
            i = i + 1;
        } else if ch == '}' {
            depth = if depth > 0 {
                depth - 1
            } else {
                0
            };
            skip = false;
            i = i + 1;
        } else if depth > 1 || skip {
            i = i + 1;
        } else if ch == '\\' && i + 1 < n {
            let nx = c[i + 1];
            if ascii_alpha(nx) {
                let j = alpha_end_exec(c, i + 1);
                if range_equals(c, i + 1, j, &par) || range_equals(c, i + 1, j, &line) {
                    out.push('\n');
                } else if range_equals(c, i + 1, j, &tab) {
                    out.push('\t');
                }
                let k = param_end_exec(c, j);
                i = if k < n && c[k] == ' ' {
                    k + 1
                } else {
                    k
                };
                assert(out@ + rtf_text_from(c@, i as int, depth as nat, skip) =~= before + rest);
            } else if nx == '\\' || nx == '{' || nx == '}' {
                out.push(nx);
                i = i + 2;
                assert(out@ + rtf_text_from(c@, i as int, depth as nat, skip) =~= before + rest);
            } else {
                i = i + 1;
            }
        } else {
            out.push(ch);
            i = i + 1;
            assert(out@ + rtf_text_from(c@, i as int, depth as nat, skip) =~= before + rest);
        }
    }
    assert(out@ =~= out@ + rtf_text_from(c@, i as int, depth as nat, skip));
    out
}

} // verus!
verus! {

/// The text of an RTF document's characters: the kept text, filtered to
/// `rtf_keeps` characters, then cleaned line by line.
pub open spec fn rtf_text(c: Seq<char>) -> Seq<char> {
    crate::text::cleaned(rtf_text_from(c, 0, 0, false).filter(kept_by_rtf()))
}

/// `rtf_keeps` as a predicate to filter with.
pub open spec fn kept_by_rtf() -> spec_fn(char) -> bool {
    |x: char| rtf_keeps(x)
}

/// The text of an RTF document's characters (see `rtf_text`).
pub fn rtf_text_exec(c: &Vec<char>) -> (r: Vec<char>)
    ensures
        r@ == rtf_text(c@),
{
    let raw = rtf_raw_text(c);
    let mut kept: Vec<char> = Vec::new();
    let mut i: usize = 0;
    assert(raw@.take(0) =~= Seq::<char>::empty());
    proof {
        reveal(Seq::filter);
    }
    while i < raw.len()
        invariant
            i <= raw.len(),
            kept@ == raw@.take(i as int).filter(kept_by_rtf()),
        decreases raw.len() - i,
    {
        let ch = raw[i];
        assert(raw@.take(i + 1).drop_last() =~= raw@.take(i as int));
        assert(raw@.take(i + 1).last() == ch);
        assert(raw@.take(i + 1) =~= raw@.take(i as int).push(ch));
        proof {
            raw@.take(i as int).lemma_filter_push(ch, kept_by_rtf());
        }
        assert(raw@.take(i + 1).filter(kept_by_rtf()) == if rtf_keeps(ch) {
            raw@.take(i as int).filter(kept_by_rtf()).push(ch)
        } else {
            raw@.take(i as int).filter(kept_by_rtf())
        });
        let u = ch as u32;
        if (0x4E00 <= u && u <= 0x9FFF) || ascii_alpha(ch) || ascii_punct(ch) || is_whitespace(ch) {
            kept.push(ch);
        }
        i = i + 1;
    }
    assert(raw@.take(raw.len() as int) =~= raw@);
    crate::text::clean_chars(&kept)
}

/// The characters RTF text may hold: CJK unified ideographs, ASCII letters
/// and punctuation, spaces and line breaks.
pub open spec fn rtf_output_char(x: char) -> bool {
    (0x4E00 <= x as u32 && x as u32 <= 0x9FFF) || is_ascii_alpha(x) || is_ascii_punct(x) || x == ' '
        || x == '\n'
}

/// The text read from an RTF document holds only CJK ideographs, ASCII
/// letters and punctuation, spaces and line breaks, and cleaning it again
/// changes nothing.
pub proof fn lemma_rtf_text_chars(c: Seq<char>)
    ensures
        forall|i: int| 0 <= i < rtf_text(c).len() ==> rtf_output_char(#[trigger] rtf_text(c)[i]),
        crate::text::cleaned(rtf_text(c)) == rtf_text(c),
{
    let kept = rtf_text_from(c, 0, 0, false).filter(kept_by_rtf());
    crate::text::lemma_cleaned_chars(kept);
    crate::text::lemma_cleaned_idempotent(kept);
    assert forall|i: int| 0 <= i < rtf_text(c).len() implies rtf_output_char(
        #[trigger] rtf_text(c)[i],
    ) by {
        let x = rtf_text(c)[i];
        if x != ' ' && x != '\n' {
            let j = choose|j: int| 0 <= j < kept.len() && kept[j] == x;
            rtf_text_from(c, 0, 0, false).lemma_filter_pred(kept_by_rtf(), j);
        }
    }
}

/// A run of `m` ASCII letters from `j`, followed by a non-letter, ends at `j + m`.
proof fn lemma_alpha_run(c: Seq<char>, j: int, m: int)
    requires
        0 <= j,
        0 <= m,
        j + m < c.len(),
        forall|k: int| j <= k < j + m ==> is_ascii_alpha(#[trigger] c[k]),
        !is_ascii_alpha(c[j + m]),
    ensures
        alpha_end(c, j) == j + m,
    decreases m,
{
    if m > 0 {
        lemma_alpha_run(c, j + 1, m - 1);
    }
}

/// At the top group level, outside skipped groups, the control words `\par`
/// and `\line` (with their delimiting space) both stand for one line break,
/// and `\tab` for one tab, after which reading goes on right behind them.
pub proof fn lemma_par_and_line_break_lines(c: Seq<char>, i: int, depth: nat, w: Seq<char>)
    requires
        w == seq!['p', 'a', 'r'] || w == seq!['l', 'i', 'n', 'e'] || w == seq!['t', 'a', 'b'],
        depth <= 1,
        0 <= i,
        i + w.len() + 2 <= c.len(),
        c.subrange(i, i + w.len() + 2) == seq!['\\'] + w + seq![' '],
    ensures
        rtf_text_from(c, i, depth, false) == (if w == seq!['t', 'a', 'b'] {
            seq!['\t']
        } else {
            seq!['\n']
        }) + rtf_text_from(c, i + w.len() + 2, depth, false),
{
    let m = w.len() as int;
    let pat = seq!['\\'] + w + seq![' '];
    assert forall|k: int| 0 <= k < m + 2 implies c[i + k] == #[trigger] pat[k] by {
        assert(c.subrange(i, i + m + 2)[k] == c[i + k]);
    }
    assert(c[i] == pat[0]);
    assert(c[i + m + 1] == pat[m + 1]);
    assert forall|k: int| i + 1 <= k < i + 1 + m implies is_ascii_alpha(#[trigger] c[k]) by {
        assert(c[k] == pat[k - i]);
        assert(pat[k - i] == w[k - i - 1]);
    }
    lemma_alpha_run(c, i + 1, m);
    assert(is_ascii_alpha(c[i + 1]));
    assert(c.subrange(i + 1, i + 1 + m) =~= w) by {
        assert forall|k: int| 0 <= k < m implies c.subrange(i + 1, i + 1 + m)[k] == w[k] by {
            assert(c[i + 1 + k] == pat[k + 1]);
        }
    }
    assert(param_end(c, i + 1 + m) == i + 1 + m);
    assert(after_control_word(c, i + 1 + m) == i + m + 2);
}

} // verus!
