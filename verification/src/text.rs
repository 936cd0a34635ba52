//! Character-level helpers shared by the splitter and the parsers.
use vstd::prelude::*;

verus! {

broadcast use vstd::string::group_string_axioms;

/// The Unicode `White_Space` property, which `char::is_whitespace` tests.
pub open spec fn is_ws(c: char) -> bool {
    let u = c as u32;
    (0x09 <= u && u <= 0x0D) || u == 0x20 || u == 0x85 || u == 0xA0 || u == 0x1680
        || (0x2000 <= u && u <= 0x200A) || u == 0x2028 || u == 0x2029 || u == 0x202F
        || u == 0x205F || u == 0x3000
}

/// Executable test of the `White_Space` property.
pub fn is_whitespace(c: char) -> (b: bool)
    ensures
        b == is_ws(c),
{
    let u = c as u32;
    (0x09 <= u && u <= 0x0D) || u == 0x20 || u == 0x85 || u == 0xA0 || u == 0x1680
        || (0x2000 <= u && u <= 0x200A) || u == 0x2028 || u == 0x2029 || u == 0x202F
        || u == 0x205F || u == 0x3000
}

/// The characters of a string slice, in order.
pub fn chars_of(s: &str) -> (v: Vec<char>)
    ensures
        v@ == s@,
{
    let mut v: Vec<char> = Vec::new();
    for c in it: s.chars()
        invariant
            v@ == it.seq().take(it.index() as int),
            it.seq() == s@,
    {
        v.push(c);
    }
    v
}

/// Appends one character to a `String` (`String::push`).
#[verifier::external_body]
pub(crate) fn push_char(s: &mut String, c: char)
    ensures
        final(s)@ == old(s)@.push(c),
{
    s.push(c);
}

/// The string made of the characters `v[lo..hi]`.
pub fn string_from_range(v: &Vec<char>, lo: usize, hi: usize) -> (s: String)
    requires
        lo <= hi <= v.len(),
    ensures
        s@ == v@.subrange(lo as int, hi as int),
{
    let mut s = String::new();
    let mut i = lo;
    while i < hi
        invariant
            lo <= i <= hi <= v.len(),
            s@ == v@.subrange(lo as int, i as int),
        decreases hi - i,
    {
        push_char(&mut s, v[i]);
        i = i + 1;
        assert(s@ =~= v@.subrange(lo as int, i as int));
    }
    s
}

/// The string made of all the characters of `v`.
pub fn string_from_chars(v: &Vec<char>) -> (s: String)
    ensures
        s@ == v@,
{
    let s = string_from_range(v, 0, v.len());
    assert(v@.subrange(0, v@.len() as int) =~= v@);
    s
}

/// `s` without its leading White_Space characters.
pub open spec fn trim_start(s: Seq<char>) -> Seq<char>
    decreases s.len(),
{
    if s.len() > 0 && is_ws(s[0]) {
        trim_start(s.drop_first())
    } else {
        s
    }
}

/// `s` without its trailing White_Space characters.
pub open spec fn trim_end(s: Seq<char>) -> Seq<char>
    decreases s.len(),
{
    if s.len() > 0 && is_ws(s.last()) {
        trim_end(s.drop_last())
    } else {
        s
    }
}

/// `s` without leading and trailing White_Space characters, as `str::trim` gives it.
pub open spec fn trim(s: Seq<char>) -> Seq<char> {
    trim_end(trim_start(s))
}

/// Dropping the first `lo` characters, all White_Space, does not change `trim_start`.
proof fn lemma_trim_start_skip(s: Seq<char>, lo: int)
    requires
        0 <= lo <= s.len(),
        forall|k: int| 0 <= k < lo ==> is_ws(#[trigger] s[k]),
    ensures
        trim_start(s) == trim_start(s.skip(lo)),
    decreases lo,
{
    if lo > 0 {
        assert(s.drop_first().skip(lo - 1) =~= s.skip(lo));
        lemma_trim_start_skip(s.drop_first(), lo - 1);
    } else {
        assert(s.skip(0) =~= s);
    }
}

/// Dropping the last characters from `hi` on, all White_Space, does not change `trim_end`.
proof fn lemma_trim_end_take(s: Seq<char>, hi: int)
    requires
        0 <= hi <= s.len(),
        forall|k: int| hi <= k < s.len() ==> is_ws(#[trigger] s[k]),
    ensures
        trim_end(s) == trim_end(s.take(hi)),
    decreases s.len() - hi,
{
    if hi < s.len() {
        assert(s.drop_last().take(hi) =~= s.take(hi));
        lemma_trim_end_take(s.drop_last(), hi);
    } else {
        assert(s.take(hi) =~= s);
    }
}

/// The characters of `v[lo..hi]` with White_Space removed from both ends.
pub fn trim_range(v: &Vec<char>, lo: usize, hi: usize) -> (r: (usize, usize))
    requires
        lo <= hi <= v.len(),
    ensures
        lo <= r.0 <= r.1 <= hi,
        v@.subrange(r.0 as int, r.1 as int) == trim(v@.subrange(lo as int, hi as int)),
{
    let ghost s = v@.subrange(lo as int, hi as int);
    let mut a = lo;
    while a < hi && is_whitespace(v[a])
        invariant
            lo <= a <= hi <= v.len(),
            forall|k: int| lo <= k < a ==> is_ws(#[trigger] v@[k]),
        decreases hi - a,
    {
        a = a + 1;
    }
    proof {
        assert forall|k: int| 0 <= k < a - lo implies is_ws(#[trigger] s[k]) by {
            assert(s[k] == v@[lo + k]);
        }
        lemma_trim_start_skip(s, a - lo);
        assert(s.skip(a - lo) =~= v@.subrange(a as int, hi as int));
        let t = v@.subrange(a as int, hi as int);
        assert(a == hi || !is_ws(t[0]));
        if a < hi {
            assert(!is_ws(t[0]));
        }
        assert(trim_start(t) == t);
    }
    let mut b = hi;
    while b > a && is_whitespace(v[b - 1])
        invariant
            lo <= a <= b <= hi <= v.len(),
            forall|k: int| b <= k < hi ==> is_ws(#[trigger] v@[k]),
        decreases b,
    {
        b = b - 1;
    }
    proof {
        let t = v@.subrange(a as int, hi as int);
        assert forall|k: int| b - a <= k < t.len() implies is_ws(#[trigger] t[k]) by {
            assert(t[k] == v@[a + k]);
        }
        lemma_trim_end_take(t, b - a);
        assert(t.take(b - a) =~= v@.subrange(a as int, b as int));
        let u = v@.subrange(a as int, b as int);
        if b > a {
            assert(!is_ws(u.last()));
        }
        assert(trim_end(u) == u);
    }
    (a, b)
}

/// `parts` joined with `sep` between neighbours.
pub open spec fn join(parts: Seq<Seq<char>>, sep: Seq<char>) -> Seq<char>
    decreases parts.len(),
{
    if parts.len() == 0 {
        Seq::empty()
    } else if parts.len() == 1 {
        parts[0]
    } else {
        join(parts.drop_last(), sep) + sep + parts.last()
    }
}

/// Joining one more part appends the separator and the part (or the part alone
/// when there was none before).
pub proof fn lemma_join_push(parts: Seq<Seq<char>>, sep: Seq<char>, p: Seq<char>)
    ensures
        join(parts.push(p), sep) == if parts.len() == 0 {
            p
        } else {
            join(parts, sep) + sep + p
        },
{
    assert(parts.push(p).drop_last() =~= parts);
}

/// The join of non-empty parts is empty exactly when there are no parts.
pub proof fn lemma_join_empty(parts: Seq<Seq<char>>, sep: Seq<char>)
    requires
        forall|i: int| 0 <= i < parts.len() ==> (#[trigger] parts[i]).len() > 0,
    ensures
        (join(parts, sep).len() == 0) == (parts.len() == 0),
    decreases parts.len(),
{
    if parts.len() > 1 {
        lemma_join_empty(parts.drop_last(), sep);
        assert(parts.last() == parts[parts.len() - 1]);
    }
}

/// The words of `s`: its maximal runs of characters that are not White_Space.
pub open spec fn words(s: Seq<char>) -> Seq<Seq<char>>
    decreases s.len(),
{
    if s.len() == 0 {
        Seq::empty()
    } else {
        let p = s.drop_last();
        let c = s.last();
        if is_ws(c) {
            words(p)
        } else if p.len() > 0 && !is_ws(p.last()) {
            let w = words(p);
            w.update(w.len() - 1, w.last().push(c))
        } else {
            words(p).push(seq![c])
        }
    }
}

/// A text that ends in a character that is not White_Space has at least one word.
proof fn lemma_words_nonempty(s: Seq<char>)
    requires
        s.len() > 0,
        !is_ws(s.last()),
    ensures
        words(s).len() > 0,
    decreases s.len(),
{
    let p = s.drop_last();
    if p.len() > 0 && !is_ws(p.last()) {
        lemma_words_nonempty(p);
    }
}

/// The words of `s` separated by single spaces: `s` with each run of
/// White_Space turned into one space and both ends trimmed.
pub open spec fn squeeze(s: Seq<char>) -> Seq<char> {
    join(words(s), seq![' '])
}

/// The line-break characters that `clean_text` splits on.
pub open spec fn is_break(c: char) -> bool {
    c == '\n' || c == '\r'
}

/// The pieces of `s` between line breaks (`'\n'` or `'\r'`); there is always at
/// least one, possibly empty.
pub open spec fn segments(s: Seq<char>) -> Seq<Seq<char>>
    decreases s.len(),
{
    if s.len() == 0 {
        seq![Seq::empty()]
    } else {
        let p = segments(s.drop_last());
        let c = s.last();
        if is_break(c) {
            p.push(Seq::empty())
        } else {
            p.update(p.len() - 1, p.last().push(c))
        }
    }
}

/// `segments` always yields at least one piece.
pub proof fn lemma_segments_len(s: Seq<char>)
    ensures
        segments(s).len() > 0,
    decreases s.len(),
{
    if s.len() > 0 {
        lemma_segments_len(s.drop_last());
    }
}

/// The parts that are not empty, in order.
pub open spec fn nonempty_parts(parts: Seq<Seq<char>>) -> Seq<Seq<char>>
    decreases parts.len(),
{
    if parts.len() == 0 {
        Seq::empty()
    } else {
        let r = nonempty_parts(parts.drop_last());
        if parts.last().len() == 0 {
            r
        } else {
            r.push(parts.last())
        }
    }
}

/// `nonempty_parts` keeps only non-empty parts.
pub proof fn lemma_nonempty_parts(parts: Seq<Seq<char>>)
    ensures
        forall|i: int|
            0 <= i < nonempty_parts(parts).len() ==> (#[trigger] nonempty_parts(parts)[i]).len()
                > 0,
    decreases parts.len(),
{
    if parts.len() > 0 {
        let r = nonempty_parts(parts.drop_last());
        lemma_nonempty_parts(parts.drop_last());
        assert forall|i: int| 0 <= i < nonempty_parts(parts).len() implies (
        #[trigger] nonempty_parts(parts)[i]).len() > 0 by {
            if i < r.len() {
                assert(r[i].len() > 0);
            }
        }
    }
}

/// Text cleaned line by line: the text is cut at every `'\n'` and `'\r'`, each
/// piece becomes its words separated by single spaces, pieces left empty are
/// dropped, and the rest are joined with `'\n'`.
pub open spec fn cleaned(s: Seq<char>) -> Seq<char> {
    join(nonempty_parts(segments(s).map_values(|p: Seq<char>| squeeze(p))), seq!['\n'])
}

/// Appends all of `src` to `out`.
pub fn append_chars(out: &mut Vec<char>, src: &Vec<char>)
    ensures
        final(out)@ == old(out)@ + src@,
{
    let mut i: usize = 0;
    while i < src.len()
        invariant
            i <= src.len(),
            out@ == old(out)@ + src@.take(i as int),
        decreases src.len() - i,
    {
        out.push(src[i]);
        i = i + 1;
        assert(out@ =~= old(out)@ + src@.take(i as int));
    }
    assert(src@.take(src.len() as int) =~= src@);
}

/// Adds one cleaned line to the cleaned text built so far: an empty line adds
/// nothing, a first line stands alone, a later one follows a `'\n'`.
fn add_line(out: &mut Vec<char>, line: &Vec<char>)
    ensures
        final(out)@ == if line@.len() == 0 {
            old(out)@
        } else if old(out)@.len() == 0 {
            line@
        } else {
            old(out)@ + seq!['\n'] + line@
        },
{
    if line.len() > 0 {
        if out.len() > 0 {
            out.push('\n');
        }
        append_chars(out, line);
    }
    assert(old(out)@.len() == 0 ==> old(out)@ + line@ =~= line@);
    assert(old(out)@.push('\n') =~= old(out)@ + seq!['\n']);
}

/// Joining, after a part grew by one character, grows the join by that character.
proof fn lemma_join_extend_last(parts: Seq<Seq<char>>, sep: Seq<char>, c: char)
    requires
        parts.len() > 0,
    ensures
        join(parts.update(parts.len() - 1, parts.last().push(c)), sep) == join(parts, sep).push(c),
{
    let q = parts.update(parts.len() - 1, parts.last().push(c));
    assert(q.drop_last() =~= parts.drop_last());
    if parts.len() > 1 {
        assert(join(q, sep) == join(parts.drop_last(), sep) + sep + parts.last().push(c));
        assert(join(parts.drop_last(), sep) + sep + parts.last().push(c) =~= (join(
            parts.drop_last(),
            sep,
        ) + sep + parts.last()).push(c));
    }
}

/// What the cleaned text of the finished lines is, given the pieces.
spec fn cleaned_lines(done: Seq<Seq<char>>) -> Seq<char> {
    join(nonempty_parts(done.map_values(|p: Seq<char>| squeeze(p))), seq!['\n'])
}

/// Finishing one more piece adds its squeezed form as in `add_line`.
proof fn lemma_cleaned_lines_push(done: Seq<Seq<char>>, cur: Seq<char>)
    ensures
        cleaned_lines(done.push(cur)) == if squeeze(cur).len() == 0 {
            cleaned_lines(done)
        } else if cleaned_lines(done).len() == 0 {
            squeeze(cur)
        } else {
            cleaned_lines(done) + seq!['\n'] + squeeze(cur)
        },
{
    let m = done.map_values(|p: Seq<char>| squeeze(p));
    assert(done.push(cur).map_values(|p: Seq<char>| squeeze(p)) =~= m.push(squeeze(cur)));
    let r = nonempty_parts(m);
    assert(m.push(squeeze(cur)).drop_last() =~= m);
    lemma_nonempty_parts(m);
    lemma_join_empty(r, seq!['\n']);
    lemma_join_push(r, seq!['\n'], squeeze(cur));
}

/// The squeezed form of a piece after one more character that is not a line break.
proof fn lemma_squeeze_push(cur: Seq<char>, c: char)
    ensures
        is_ws(c) ==> squeeze(cur.push(c)) == squeeze(cur),
        is_ws(c) ==> words(cur.push(c)) == words(cur),
        !is_ws(c) ==> squeeze(cur.push(c)) == if cur.len() > 0 && !is_ws(cur.last()) {
            squeeze(cur).push(c)
        } else if words(cur).len() == 0 {
            seq![c]
        } else {
            squeeze(cur) + seq![' '] + seq![c]
        },
        !is_ws(c) ==> words(cur.push(c)).len() > 0,
{
    let s = cur.push(c);
    assert(s.drop_last() =~= cur);
    if !is_ws(c) {
        if cur.len() > 0 && !is_ws(cur.last()) {
            lemma_words_nonempty(cur);
            lemma_join_extend_last(words(cur), seq![' '], c);
        } else {
            lemma_join_push(words(cur), seq![' '], seq![c]);
        }
    }
}

/// The text cleaned line by line (see `cleaned`).
pub fn clean_chars(v: &Vec<char>) -> (r: Vec<char>)
    ensures
        r@ == cleaned(v@),
{
    let mut out: Vec<char> = Vec::new();
    let mut line: Vec<char> = Vec::new();
    let mut pending = false;
    let mut i: usize = 0;
    assert(v@.take(0) =~= Seq::<char>::empty());
    while i < v.len()
        invariant
            i <= v.len(),
            ({
                let segs = segments(v@.take(i as int));
                let cur = segs.last();
                &&& segs.len() > 0
                &&& out@ == cleaned_lines(segs.drop_last())
                &&& line@ == squeeze(cur)
                &&& pending == (words(cur).len() > 0 && is_ws(cur.last()))
            }),
        decreases v.len() - i,
    {
        let ghost p = v@.take(i as int);
        let ghost segs = segments(p);
        let ghost cur = segs.last();
        let c = v[i];
        proof {
            lemma_segments_len(p);
            assert(v@.take(i + 1).drop_last() =~= p);
            assert(v@.take(i + 1).last() == c);
        }
        if c == '\n' || c == '\r' {
            proof {
                lemma_cleaned_lines_push(segs.drop_last(), cur);
                assert(segs.drop_last().push(cur) =~= segs);
                assert(segments(v@.take(i + 1)) == segs.push(Seq::empty()));
                assert(segs.push(Seq::<char>::empty()).drop_last() =~= segs);
            }
            add_line(&mut out, &line);
            line = Vec::new();
            pending = false;
        } else {
            proof {
                lemma_squeeze_push(cur, c);
                let segs2 = segs.update(segs.len() - 1, cur.push(c));
                assert(segments(v@.take(i + 1)) == segs2);
                assert(segs2.drop_last() =~= segs.drop_last());
                assert(segs2.last() == cur.push(c));
                assert(cur.push(c).last() == c);
                if words(cur).len() > 0 {
                    assert(cur.len() > 0);
                }
            }
            if is_whitespace(c) {
                if line.len() > 0 {
                    pending = true;
                }
                proof {
                    if line@.len() > 0 {
                        assert(words(cur).len() > 0);
                    } else {
                        lemma_words_parts_nonempty(cur);
                        lemma_join_empty(words(cur), seq![' ']);
                    }
                }
            } else {
                proof {
                    lemma_words_parts_nonempty(cur);
                    lemma_join_empty(words(cur), seq![' ']);
                    if cur.len() > 0 && !is_ws(cur.last()) {
                        lemma_words_nonempty(cur);
                    }
                }
                if pending {
                    line.push(' ');
                    pending = false;
                }
                line.push(c);
                proof {
                    assert(line@ == squeeze(cur.push(c))) by {
                        if cur.len() > 0 && !is_ws(cur.last()) {
                        } else if words(cur).len() == 0 {
                            assert(line@ =~= seq![c]);
                        } else {
                            assert(squeeze(cur) + seq![' '] + seq![c] =~= squeeze(cur).push(
                                ' ',
                            ).push(c));
                        }
                    }
                }
            }
        }
        i = i + 1;
    }
    proof {
        let segs = segments(v@.take(i as int));
        lemma_cleaned_lines_push(segs.drop_last(), segs.last());
        assert(segs.drop_last().push(segs.last()) =~= segs);
        assert(v@.take(i as int) =~= v@);
    }
    add_line(&mut out, &line);
    out
}

/// Every word is non-empty.
proof fn lemma_words_parts_nonempty(s: Seq<char>)
    ensures
        forall|i: int| 0 <= i < words(s).len() ==> (#[trigger] words(s)[i]).len() > 0,
    decreases s.len(),
{
    if s.len() > 0 {
        let p = s.drop_last();
        lemma_words_parts_nonempty(p);
        let w = words(p);
        assert forall|i: int| 0 <= i < words(s).len() implies (#[trigger] words(s)[i]).len()
            > 0 by {
            let c = s.last();
            if is_ws(c) {
                assert(words(s) == w);
            } else if p.len() > 0 && !is_ws(p.last()) {
                lemma_words_nonempty(p);
                assert(words(s) == w.update(w.len() - 1, w.last().push(c)));
                if i < w.len() - 1 {
                    assert(w[i].len() > 0);
                }
            } else {
                assert(words(s) == w.push(seq![c]));
                if i < w.len() {
                    assert(w[i].len() > 0);
                }
            }
        }
    }
}

/// ASCII letters.
pub open spec fn is_ascii_alpha(c: char) -> bool {
    ('a' <= c && c <= 'z') || ('A' <= c && c <= 'Z')
}

/// ASCII decimal digits.
pub open spec fn is_ascii_digit(c: char) -> bool {
    '0' <= c && c <= '9'
}

/// ASCII punctuation, as `char::is_ascii_punctuation` tests it.
pub open spec fn is_ascii_punct(c: char) -> bool {
    ('!' <= c && c <= '/') || (':' <= c && c <= '@') || ('[' <= c && c <= '`') || ('{' <= c
        && c <= '~')
}

/// Executable `is_ascii_alpha`.
pub fn ascii_alpha(c: char) -> (b: bool)
    ensures
        b == is_ascii_alpha(c),
{
    ('a' <= c && c <= 'z') || ('A' <= c && c <= 'Z')
}

/// Executable `is_ascii_digit`.
pub fn ascii_digit(c: char) -> (b: bool)
    ensures
        b == is_ascii_digit(c),
{
    '0' <= c && c <= '9'
}

/// Executable `is_ascii_punct`.
pub fn ascii_punct(c: char) -> (b: bool)
    ensures
        b == is_ascii_punct(c),
{
    ('!' <= c && c <= '/') || (':' <= c && c <= '@') || ('[' <= c && c <= '`') || ('{' <= c
        && c <= '~')
}

/// Whether `v[lo..hi]` holds exactly the characters of `pat`.
pub fn range_equals(v: &Vec<char>, lo: usize, hi: usize, pat: &Vec<char>) -> (b: bool)
    requires
        lo <= hi <= v.len(),
    ensures
        b == (v@.subrange(lo as int, hi as int) == pat@),
{
    if hi - lo != pat.len() {
        assert(v@.subrange(lo as int, hi as int).len() != pat@.len());
        return false;
    }
    let mut k: usize = 0;
    while k < pat.len()
        invariant
            hi - lo == pat.len(),
            lo <= hi <= v.len(),
            k <= pat.len(),
            forall|m: int| 0 <= m < k ==> v@[lo + m] == pat@[m],
        decreases pat.len() - k,
    {
        if v[lo + k] != pat[k] {
            assert(v@.subrange(lo as int, hi as int)[k as int] != pat@[k as int]);
            return false;
        }
        k = k + 1;
    }
    assert(v@.subrange(lo as int, hi as int) =~= pat@);
    true
}

/// The character sequences that a vector of character vectors holds.
pub open spec fn char_views(parts: Seq<Vec<char>>) -> Seq<Seq<char>> {
    parts.map_values(|p: Vec<char>| p@)
}

/// Joins the parts with a separator between neighbours.
pub fn join_parts(parts: &Vec<Vec<char>>, sep: &Vec<char>) -> (r: Vec<char>)
    ensures
        r@ == join(char_views(parts@), sep@),
{
    let mut r: Vec<char> = Vec::new();
    let mut i: usize = 0;
    while i < parts.len()
        invariant
            i <= parts.len(),
            r@ == join(char_views(parts@).take(i as int), sep@),
        decreases parts.len() - i,
    {
        proof {
            lemma_join_push(char_views(parts@).take(i as int), sep@, parts[i as int]@);
            assert(char_views(parts@).take(i + 1) =~= char_views(parts@).take(i as int).push(
                parts[i as int]@,
            ));
        }
        if i > 0 {
            append_chars(&mut r, sep);
        }
        append_chars(&mut r, &parts[i]);
        i = i + 1;
    }
    assert(char_views(parts@).take(parts.len() as int) =~= char_views(parts@));
    r
}

/// A copy of `v` without White_Space at either end.
pub fn trimmed(v: &Vec<char>) -> (r: Vec<char>)
    ensures
        r@ == trim(v@),
{
    let (a, b) = trim_range(v, 0, v.len());
    assert(v@.subrange(0, v@.len() as int) =~= v@);
    let mut t: Vec<char> = Vec::new();
    let mut k = a;
    while k < b
        invariant
            a <= k <= b <= v.len(),
            t@ == v@.subrange(a as int, k as int),
        decreases b - k,
    {
        t.push(v[k]);
        k = k + 1;
        assert(t@ =~= v@.subrange(a as int, k as int));
    }
    t
}

/// The character sequences that a vector of strings holds.
pub open spec fn string_views(parts: Seq<String>) -> Seq<Seq<char>> {
    parts.map_values(|p: String| p@)
}

/// Joins the strings with `sep` between neighbours, as `[String]::join` does.
pub fn join_strings(parts: &Vec<String>, sep: &str) -> (r: String)
    ensures
        r@ == join(string_views(parts@), sep@),
{
    let mut r = String::new();
    let mut i: usize = 0;
    while i < parts.len()
        invariant
            i <= parts.len(),
            r@ == join(string_views(parts@).take(i as int), sep@),
        decreases parts.len() - i,
    {
        proof {
            lemma_join_push(string_views(parts@).take(i as int), sep@, parts[i as int]@);
            assert(string_views(parts@).take(i + 1) =~= string_views(parts@).take(i as int).push(
                parts[i as int]@,
            ));
        }
        if i > 0 {
            r.append(sep);
        }
        r.append(parts[i].as_str());
        i = i + 1;
    }
    assert(string_views(parts@).take(parts.len() as int) =~= string_views(parts@));
    r
}

/// Whether the string is empty once trimmed (`s.trim().is_empty()`).
pub fn is_blank(s: &str) -> (b: bool)
    ensures
        b == (trim(s@).len() == 0),
{
    let v = chars_of(s);
    let (a, c) = trim_range(&v, 0, v.len());
    assert(v@.subrange(0, v@.len() as int) =~= v@);
    a == c
}

/// What `str::to_lowercase` gives for a text: its Unicode lowercase mapping.
pub uninterp spec fn lowercase(s: Seq<char>) -> Seq<char>;

/// An ASCII character's lowercase: `A`-`Z` become `a`-`z`, all else stays.
pub open spec fn ascii_lower(c: char) -> char {
    if 'A' <= c && c <= 'Z' {
        ((c as u32) + 32) as char
    } else {
        c
    }
}

/// Every character is ASCII.
pub open spec fn all_ascii(s: Seq<char>) -> bool {
    forall|i: int| 0 <= i < s.len() ==> (#[trigger] s[i] as u32) < 128
}

/// `str::to_lowercase`; its result is named `lowercase`. Of ASCII text the
/// Unicode lowercase mapping is the ASCII one, character by character
/// (`A`-`Z` to `a`-`z`, every other ASCII character unchanged), which is
/// stated; what it does to other characters is only named.
#[verifier::external_body]
pub(crate) fn to_lowercase(s: &str) -> (r: String)
    ensures
        r@ == lowercase(s@),
        all_ascii(s@) ==> r@ == s@.map_values(|c: char| ascii_lower(c)),
{
    s.to_lowercase()
}

/// The string without White_Space at either end (`str::trim`).
pub fn trim_str(s: &str) -> (r: String)
    ensures
        r@ == trim(s@),
{
    let v = chars_of(s);
    let (a, b) = trim_range(&v, 0, v.len());
    assert(v@.subrange(0, v@.len() as int) =~= v@);
    string_from_range(&v, a, b)
}

/// Words hold no White_Space.
proof fn lemma_words_have_no_ws(s: Seq<char>)
    ensures
        forall|i: int, k: int|
            0 <= i < words(s).len() && 0 <= k < words(s)[i].len() ==> !is_ws(
                #[trigger] words(s)[i][k],
            ),
    decreases s.len(),
{
    if s.len() > 0 {
        let p = s.drop_last();
        let c = s.last();
        lemma_words_have_no_ws(p);
        let w = words(p);
        assert forall|i: int, k: int|
            0 <= i < words(s).len() && 0 <= k < words(s)[i].len() implies !is_ws(
            #[trigger] words(s)[i][k],
        ) by {
            if is_ws(c) {
                assert(words(s) == w);
            } else if p.len() > 0 && !is_ws(p.last()) {
                lemma_words_nonempty(p);
                assert(words(s) == w.update(w.len() - 1, w.last().push(c)));
                if i == w.len() - 1 && k < w.last().len() {
                    assert(words(s)[i][k] == w[i][k]);
                } else if i < w.len() - 1 {
                    assert(words(s)[i] == w[i]);
                }
            } else {
                assert(words(s) == w.push(seq![c]));
                if i < w.len() {
                    assert(words(s)[i] == w[i]);
                }
            }
        }
    }
}

/// Text that is empty or ends in White_Space, followed by a word, has that
/// word as its last word.
proof fn lemma_words_append_word(z: Seq<char>, y: Seq<char>)
    requires
        z.len() == 0 || is_ws(z.last()),
        y.len() > 0,
        forall|k: int| 0 <= k < y.len() ==> !is_ws(#[trigger] y[k]),
    ensures
        words(z + y) == words(z).push(y),
    decreases y.len(),
{
    let c = y.last();
    let y1 = y.drop_last();
    assert((z + y).drop_last() =~= z + y1);
    assert((z + y).last() == c);
    if y1.len() == 0 {
        assert(z + y1 =~= z);
        assert(y =~= seq![c]);
    } else {
        lemma_words_append_word(z, y1);
        assert((z + y1).last() == y1.last());
        assert(words(z + y1).last() == y1);
        assert(y1.push(c) =~= y);
        assert(words(z).push(y1).update(words(z).len() as int, y1.push(c)) =~= words(z).push(y));
    }
}

/// Words joined by single spaces split back into the same words.
proof fn lemma_words_of_join(parts: Seq<Seq<char>>)
    requires
        forall|i: int| 0 <= i < parts.len() ==> (#[trigger] parts[i]).len() > 0,
        forall|i: int, k: int|
            0 <= i < parts.len() && 0 <= k < parts[i].len() ==> !is_ws(#[trigger] parts[i][k]),
    ensures
        words(join(parts, seq![' '])) == parts,
    decreases parts.len(),
{
    if parts.len() == 1 {
        lemma_words_append_word(Seq::empty(), parts[0]);
        assert(Seq::<char>::empty() + parts[0] =~= parts[0]);
        assert(seq![parts[0]] =~= parts);
    } else if parts.len() > 1 {
        let q = parts.drop_last();
        lemma_words_of_join(q);
        let z = join(q, seq![' ']) + seq![' '];
        assert(z.last() == ' ');
        assert forall|k: int| 0 <= k < parts.last().len() implies !is_ws(
            #[trigger] parts.last()[k],
        ) by {
            assert(parts.last()[k] == parts[parts.len() - 1][k]);
        }
        lemma_words_append_word(z, parts.last());
        assert(z.drop_last() =~= join(q, seq![' ']));
        assert(words(z) == words(join(q, seq![' '])));
        assert(q.push(parts.last()) =~= parts);
    }
}

/// Squeezing twice is squeezing once.
proof fn lemma_squeeze_idempotent(s: Seq<char>)
    ensures
        squeeze(squeeze(s)) == squeeze(s),
{
    lemma_words_parts_nonempty(s);
    lemma_words_have_no_ws(s);
    lemma_words_of_join(words(s));
}

/// A squeezed piece holds no line break.
proof fn lemma_squeeze_has_no_break(s: Seq<char>)
    ensures
        forall|k: int| 0 <= k < squeeze(s).len() ==> !is_break(#[trigger] squeeze(s)[k]),
{
    lemma_squeeze_idempotent(s);
    let t = squeeze(s);
    lemma_words_have_no_ws(t);
    lemma_words_parts_nonempty(s);
    lemma_words_have_no_ws(s);
    lemma_join_no_break(words(s));
}

/// Parts without White_Space joined by spaces hold no line break.
proof fn lemma_join_no_break(parts: Seq<Seq<char>>)
    requires
        forall|i: int, k: int|
            0 <= i < parts.len() && 0 <= k < parts[i].len() ==> !is_ws(#[trigger] parts[i][k]),
    ensures
        forall|k: int|
            0 <= k < join(parts, seq![' ']).len() ==> !is_break(#[trigger] join(parts, seq![' '])[k]),
    decreases parts.len(),
{
    if parts.len() == 1 {
        assert forall|k: int| 0 <= k < join(parts, seq![' ']).len() implies !is_break(
            #[trigger] join(parts, seq![' '])[k],
        ) by {
            assert(!is_ws(parts[0][k]));
        }
    } else if parts.len() > 1 {
        let q = parts.drop_last();
        assert forall|i: int, k: int| 0 <= i < q.len() && 0 <= k < q[i].len() implies !is_ws(
            #[trigger] q[i][k],
        ) by {
            assert(q[i] == parts[i]);
        }
        lemma_join_no_break(q);
        let a = join(q, seq![' ']);
        let j = join(parts, seq![' ']);
        assert(j == a + seq![' '] + parts.last());
        assert forall|k: int| 0 <= k < j.len() implies !is_break(#[trigger] j[k]) by {
            if k < a.len() {
                assert(j[k] == a[k]);
            } else if k == a.len() {
                assert(j[k] == ' ');
            } else {
                assert(j[k] == parts[parts.len() - 1][k - a.len() - 1]);
            }
        }
    }
}

/// Text followed by a piece without line breaks: the piece extends the last segment.
proof fn lemma_segments_append(z: Seq<char>, y: Seq<char>)
    requires
        forall|k: int| 0 <= k < y.len() ==> !is_break(#[trigger] y[k]),
    ensures
        segments(z + y) == segments(z).update(
            segments(z).len() - 1,
            segments(z).last() + y,
        ),
    decreases y.len(),
{
    lemma_segments_len(z);
    if y.len() == 0 {
        assert(z + y =~= z);
        assert(segments(z).last() + y =~= segments(z).last());
        assert(segments(z).update(segments(z).len() - 1, segments(z).last()) =~= segments(z));
    } else {
        let y1 = y.drop_last();
        lemma_segments_append(z, y1);
        assert((z + y).drop_last() =~= z + y1);
        assert((z + y).last() == y.last());
        assert(!is_break(y[y.len() - 1]));
        assert((segments(z).last() + y1).push(y.last()) =~= segments(z).last() + y);
        lemma_segments_len(z + y1);
        assert(segments(z + y) =~= segments(z).update(
            segments(z).len() - 1,
            segments(z).last() + y,
        ));
    }
}

/// Pieces without line breaks joined by `'\n'` split back into the same pieces.
proof fn lemma_segments_of_join(parts: Seq<Seq<char>>)
    requires
        parts.len() > 0,
        forall|i: int, k: int|
            0 <= i < parts.len() && 0 <= k < parts[i].len() ==> !is_break(#[trigger] parts[i][k]),
    ensures
        segments(join(parts, seq!['\n'])) == parts,
    decreases parts.len(),
{
    if parts.len() == 1 {
        assert forall|k: int| 0 <= k < parts[0].len() implies !is_break(#[trigger] parts[0][k]) by {}
        lemma_segments_append(Seq::empty(), parts[0]);
        assert(Seq::<char>::empty() + parts[0] =~= parts[0]);
        assert(seq![Seq::<char>::empty()].update(0, Seq::<char>::empty() + parts[0]) =~= parts);
    } else {
        let q = parts.drop_last();
        assert forall|i: int, k: int| 0 <= i < q.len() && 0 <= k < q[i].len() implies !is_break(
            #[trigger] q[i][k],
        ) by {
            assert(q[i] == parts[i]);
        }
        lemma_segments_of_join(q);
        let z = join(q, seq!['\n']) + seq!['\n'];
        assert(z.drop_last() =~= join(q, seq!['\n']));
        assert(z.last() == '\n');
        assert(segments(z) == q.push(Seq::empty()));
        let y = parts.last();
        assert forall|k: int| 0 <= k < y.len() implies !is_break(#[trigger] y[k]) by {
            assert(y[k] == parts[parts.len() - 1][k]);
        }
        lemma_segments_append(z, y);
        assert(q.push(Seq::empty()).update(q.len() as int, Seq::<char>::empty() + y) =~= parts);
    }
}

/// A cleaned line: its own squeezed form, without line breaks.
spec fn is_clean_line(l: Seq<char>) -> bool {
    squeeze(l) == l && forall|k: int| 0 <= k < l.len() ==> !is_break(#[trigger] l[k])
}

/// Keeping the non-empty parts keeps clean lines clean, and keeps all parts
/// when none is empty.
proof fn lemma_nonempty_parts_clean(xs: Seq<Seq<char>>)
    requires
        forall|i: int| 0 <= i < xs.len() ==> is_clean_line(#[trigger] xs[i]),
    ensures
        forall|i: int|
            0 <= i < nonempty_parts(xs).len() ==> is_clean_line(#[trigger] nonempty_parts(xs)[i]),
        (forall|i: int| 0 <= i < xs.len() ==> (#[trigger] xs[i]).len() > 0) ==> nonempty_parts(xs)
            == xs,
    decreases xs.len(),
{
    if xs.len() > 0 {
        let p = xs.drop_last();
        assert forall|i: int| 0 <= i < p.len() implies is_clean_line(#[trigger] p[i]) by {
            assert(p[i] == xs[i]);
        }
        lemma_nonempty_parts_clean(p);
        let r = nonempty_parts(p);
        assert(is_clean_line(xs[xs.len() - 1]));
        assert forall|i: int| 0 <= i < nonempty_parts(xs).len() implies is_clean_line(
            #[trigger] nonempty_parts(xs)[i],
        ) by {
            if i < r.len() {
                assert(nonempty_parts(xs)[i] == r[i]);
            }
        }
        if forall|i: int| 0 <= i < xs.len() ==> (#[trigger] xs[i]).len() > 0 {
            assert forall|i: int| 0 <= i < p.len() implies (#[trigger] p[i]).len() > 0 by {
                assert(p[i] == xs[i]);
            }
            assert(xs[xs.len() - 1].len() > 0);
            assert(p.push(xs.last()) =~= xs);
        }
    }
}

/// Cleaning is idempotent: cleaning cleaned text changes nothing.
pub proof fn lemma_cleaned_idempotent(s: Seq<char>)
    ensures
        cleaned(cleaned(s)) == cleaned(s),
{
    let m = segments(s).map_values(|p: Seq<char>| squeeze(p));
    assert forall|i: int| 0 <= i < m.len() implies is_clean_line(#[trigger] m[i]) by {
        lemma_squeeze_idempotent(segments(s)[i]);
        lemma_squeeze_has_no_break(segments(s)[i]);
    }
    lemma_nonempty_parts_clean(m);
    let lines = nonempty_parts(m);
    lemma_nonempty_parts(m);
    let c = join(lines, seq!['\n']);
    assert(c == cleaned(s));
    if lines.len() == 0 {
        assert(c =~= Seq::<char>::empty());
        assert(segments(c) == seq![Seq::<char>::empty()]);
        let m2 = segments(c).map_values(|p: Seq<char>| squeeze(p));
        assert(words(Seq::<char>::empty()) =~= Seq::<Seq<char>>::empty());
        assert(squeeze(Seq::<char>::empty()) =~= Seq::<char>::empty());
        assert(m2[0] == squeeze(segments(c)[0]));
        assert(m2 =~= seq![Seq::<char>::empty()]);
        assert(nonempty_parts(m2) =~= Seq::<Seq<char>>::empty()) by {
            assert(m2.drop_last() =~= Seq::<Seq<char>>::empty());
            assert(nonempty_parts(m2.drop_last()) =~= Seq::<Seq<char>>::empty());
            assert(m2.last().len() == 0);
        }
    } else {
        lemma_segments_of_join(lines);
        let m2 = lines.map_values(|p: Seq<char>| squeeze(p));
        assert(m2 =~= lines);
        lemma_nonempty_parts_clean(lines);
    }
}

} // verus!
verus! {

/// The shape of cleaned text: every White_Space character in it is a space or
/// a line break, is neither its first nor its last character, and is followed
/// by a character that is not White_Space. So its lines are non-empty and
/// trimmed, and no two spaces or breaks meet.
pub open spec fn tidy(t: Seq<char>) -> bool {
    forall|i: int|
        0 <= i < t.len() && is_ws(#[trigger] t[i]) ==> {
            &&& (t[i] == ' ' || t[i] == '\n')
            &&& 0 < i < t.len() - 1
            &&& !is_ws(t[i + 1])
        }
}

/// Non-empty tidy parts joined by a space or a line break are tidy.
proof fn lemma_join_tidy(parts: Seq<Seq<char>>, c: char)
    requires
        c == ' ' || c == '\n',
        forall|i: int| 0 <= i < parts.len() ==> (#[trigger] parts[i]).len() > 0 && tidy(parts[i]),
    ensures
        tidy(join(parts, seq![c])),
        parts.len() > 0 ==> join(parts, seq![c]).len() > 0,
    decreases parts.len(),
{
    if parts.len() == 1 {
        assert(join(parts, seq![c]) == parts[0]);
    } else if parts.len() > 1 {
        let q = parts.drop_last();
        assert forall|i: int| 0 <= i < q.len() implies (#[trigger] q[i]).len() > 0 && tidy(q[i]) by {
            assert(q[i] == parts[i]);
        }
        lemma_join_tidy(q, c);
        let a = join(q, seq![c]);
        let b = parts[parts.len() - 1];
        assert(b.len() > 0 && tidy(b));
        let j = join(parts, seq![c]);
        assert(j == a + seq![c] + b);
        assert(!is_ws(b[0]));
        assert forall|i: int| 0 <= i < j.len() && is_ws(#[trigger] j[i]) implies {
            &&& (j[i] == ' ' || j[i] == '\n')
            &&& 0 < i < j.len() - 1
            &&& !is_ws(j[i + 1])
        } by {
            if i < a.len() {
                assert(j[i] == a[i]);
                assert(is_ws(a[i]));
                assert(j[i + 1] == a[i + 1]);
            } else if i == a.len() {
                assert(j[i] == c);
                assert(j[i + 1] == b[0]);
            } else {
                let k = i - a.len() - 1;
                assert(j[i] == b[k]);
                assert(is_ws(b[k]));
                assert(j[i + 1] == b[k + 1]);
            }
        }
    }
}

/// A squeezed text is tidy.
proof fn lemma_squeeze_tidy(s: Seq<char>)
    ensures
        tidy(squeeze(s)),
{
    let w = words(s);
    lemma_words_parts_nonempty(s);
    lemma_words_have_no_ws(s);
    assert forall|i: int| 0 <= i < w.len() implies (#[trigger] w[i]).len() > 0 && tidy(w[i]) by {
        assert forall|k: int| 0 <= k < w[i].len() && is_ws(#[trigger] w[i][k]) implies false by {}
    }
    lemma_join_tidy(w, ' ');
}

/// Cleaned text is tidy (see `tidy`): its lines are non-empty and trimmed, no
/// two spaces or breaks meet, and the only White_Space left is spaces and
/// line breaks.
pub proof fn lemma_cleaned_is_tidy(s: Seq<char>)
    ensures
        tidy(cleaned(s)),
{
    let m = segments(s).map_values(|p: Seq<char>| squeeze(p));
    assert forall|i: int| 0 <= i < m.len() implies is_clean_line(#[trigger] m[i]) by {
        lemma_squeeze_idempotent(segments(s)[i]);
        lemma_squeeze_has_no_break(segments(s)[i]);
    }
    lemma_nonempty_parts_clean(m);
    let lines = nonempty_parts(m);
    lemma_nonempty_parts(m);
    assert forall|i: int| 0 <= i < lines.len() implies (#[trigger] lines[i]).len() > 0 && tidy(
        lines[i],
    ) by {
        assert(is_clean_line(lines[i]));
        lemma_squeeze_tidy(lines[i]);
    }
    lemma_join_tidy(lines, '\n');
}

/// The characters of `s` that are not White_Space, in order.
pub open spec fn solid(s: Seq<char>) -> Seq<char>
    decreases s.len(),
{
    if s.len() == 0 {
        Seq::empty()
    } else if is_ws(s.last()) {
        solid(s.drop_last())
    } else {
        solid(s.drop_last()).push(s.last())
    }
}

/// The characters of all parts that are not White_Space, in order.
pub open spec fn solid_concat(parts: Seq<Seq<char>>) -> Seq<char>
    decreases parts.len(),
{
    if parts.len() == 0 {
        Seq::empty()
    } else {
        solid_concat(parts.drop_last()) + solid(parts.last())
    }
}

/// `solid` of a concatenation.
proof fn lemma_solid_add(a: Seq<char>, b: Seq<char>)
    ensures
        solid(a + b) == solid(a) + solid(b),
    decreases b.len(),
{
    if b.len() == 0 {
        assert(a + b =~= a);
        assert(solid(a) + solid(b) =~= solid(a));
    } else {
        lemma_solid_add(a, b.drop_last());
        assert((a + b).drop_last() =~= a + b.drop_last());
        assert((a + b).last() == b.last());
        if !is_ws(b.last()) {
            assert((solid(a) + solid(b.drop_last())).push(b.last()) =~= solid(a) + solid(b.drop_last()).push(b.last()));
        }
    }
}

/// Parts joined by a White_Space character keep just their own solid characters.
proof fn lemma_solid_join(parts: Seq<Seq<char>>, c: char)
    requires
        is_ws(c),
    ensures
        solid(join(parts, seq![c])) == solid_concat(parts),
    decreases parts.len(),
{
    if parts.len() == 0 {
        assert(solid(Seq::<char>::empty()) =~= Seq::<char>::empty());
    } else if parts.len() == 1 {
        assert(parts.drop_last() =~= Seq::<Seq<char>>::empty());
        assert(solid_concat(parts.drop_last()) =~= Seq::<char>::empty());
        assert(Seq::<char>::empty() + solid(parts.last()) =~= solid(parts[0]));
    } else {
        let q = parts.drop_last();
        lemma_solid_join(q, c);
        let a = join(q, seq![c]);
        lemma_solid_add(a + seq![c], parts.last());
        lemma_solid_add(a, seq![c]);
        assert(seq![c].drop_last() =~= Seq::<char>::empty());
        assert(seq![c].last() == c);
        assert(solid(Seq::<char>::empty()) =~= Seq::<char>::empty());
        assert(solid(seq![c]) =~= Seq::<char>::empty());
        assert(solid(a) + solid(seq![c]) =~= solid(a));
    }
}

/// Changing the last part to one with the same solid characters keeps the total.
proof fn lemma_solid_concat_update_last(parts: Seq<Seq<char>>, x: Seq<char>)
    requires
        parts.len() > 0,
    ensures
        solid_concat(parts.update(parts.len() - 1, x)) == solid_concat(parts.drop_last()) + solid(x),
{
    let u = parts.update(parts.len() - 1, x);
    assert(u.drop_last() =~= parts.drop_last());
}

/// A text's words hold all its solid characters.
proof fn lemma_solid_words(s: Seq<char>)
    ensures
        solid_concat(words(s)) == solid(s),
    decreases s.len(),
{
    if s.len() > 0 {
        let p = s.drop_last();
        let c = s.last();
        lemma_solid_words(p);
        let w = words(p);
        if is_ws(c) {
        } else if p.len() > 0 && !is_ws(p.last()) {
            lemma_words_nonempty(p);
            lemma_solid_concat_update_last(w, w.last().push(c));
            assert(w.last().push(c).drop_last() =~= w.last());
            assert(solid_concat(w) == solid_concat(w.drop_last()) + solid(w.last()));
            assert(solid_concat(w.drop_last()) + solid(w.last()).push(c) =~= (solid_concat(
                w.drop_last(),
            ) + solid(w.last())).push(c));
        } else {
            assert(w.push(seq![c]).drop_last() =~= w);
            assert(seq![c].drop_last() =~= Seq::<char>::empty());
            assert(solid(Seq::<char>::empty()) =~= Seq::<char>::empty());
            assert(solid(seq![c]) =~= seq![c]);
            assert(solid_concat(w) + seq![c] =~= solid_concat(w).push(c));
        }
    }
}

/// A text's pieces between line breaks hold all its solid characters.
proof fn lemma_solid_segments(s: Seq<char>)
    ensures
        solid_concat(segments(s)) == solid(s),
    decreases s.len(),
{
    if s.len() == 0 {
        let e = seq![Seq::<char>::empty()];
        assert(e.drop_last() =~= Seq::<Seq<char>>::empty());
        assert(e.last() == Seq::<char>::empty());
        assert(solid(Seq::<char>::empty()) =~= Seq::<char>::empty());
        assert(solid_concat(Seq::<Seq<char>>::empty()) =~= Seq::<char>::empty());
        assert(Seq::<char>::empty() + Seq::<char>::empty() =~= Seq::<char>::empty());
        assert(segments(s) == e);
    } else {
        let p = s.drop_last();
        let c = s.last();
        lemma_solid_segments(p);
        lemma_segments_len(p);
        let g = segments(p);
        if is_break(c) {
            assert(is_ws(c));
            assert(g.push(Seq::empty()).drop_last() =~= g);
            assert(g.push(Seq::empty()).last() == Seq::<char>::empty());
            assert(solid(Seq::<char>::empty()) =~= Seq::<char>::empty());
            assert(solid_concat(g) + Seq::<char>::empty() =~= solid_concat(g));
        } else {
            lemma_solid_concat_update_last(g, g.last().push(c));
            assert(g.last().push(c).drop_last() =~= g.last());
            assert(solid_concat(g) == solid_concat(g.drop_last()) + solid(g.last()));
            if !is_ws(c) {
                assert(solid_concat(g.drop_last()) + solid(g.last()).push(c) =~= (solid_concat(
                    g.drop_last(),
                ) + solid(g.last())).push(c));
            }
        }
    }
}

/// Squeezing each part keeps the parts' solid characters.
proof fn lemma_solid_squeezed(parts: Seq<Seq<char>>)
    ensures
        solid_concat(parts.map_values(|p: Seq<char>| squeeze(p))) == solid_concat(parts),
    decreases parts.len(),
{
    if parts.len() > 0 {
        let q = parts.drop_last();
        lemma_solid_squeezed(q);
        assert(parts.map_values(|p: Seq<char>| squeeze(p)).drop_last() =~= q.map_values(
            |p: Seq<char>| squeeze(p),
        ));
        lemma_solid_words(parts.last());
        lemma_words_parts_nonempty(parts.last());
        lemma_solid_join(words(parts.last()), ' ');
    }
}

/// Dropping empty parts keeps the parts' solid characters.
proof fn lemma_solid_nonempty(parts: Seq<Seq<char>>)
    ensures
        solid_concat(nonempty_parts(parts)) == solid_concat(parts),
    decreases parts.len(),
{
    if parts.len() > 0 {
        let q = parts.drop_last();
        lemma_solid_nonempty(q);
        if parts.last().len() == 0 {
            assert(parts.last() =~= Seq::<char>::empty());
            assert(solid(parts.last()) =~= Seq::<char>::empty());
            assert(solid_concat(q) + solid(parts.last()) =~= solid_concat(q));
        } else {
            assert(nonempty_parts(q).push(parts.last()).drop_last() =~= nonempty_parts(q));
        }
    }
}

/// Cleaning keeps every character that is not White_Space, in order, and
/// adds none.
pub proof fn lemma_cleaned_keeps_solid(s: Seq<char>)
    ensures
        solid(cleaned(s)) == solid(s),
{
    let g = segments(s);
    let m = g.map_values(|p: Seq<char>| squeeze(p));
    lemma_solid_join(nonempty_parts(m), '\n');
    lemma_solid_nonempty(m);
    lemma_solid_squeezed(g);
    lemma_solid_segments(s);
}

/// A character of `t` that is not White_Space is among its solid characters.
proof fn lemma_solid_contains(t: Seq<char>, i: int)
    requires
        0 <= i < t.len(),
        !is_ws(t[i]),
    ensures
        solid(t).contains(t[i]),
    decreases t.len(),
{
    let p = t.drop_last();
    if i == t.len() - 1 {
        assert(solid(t) == solid(p).push(t[i]));
        assert(solid(t)[solid(p).len() as int] == t[i]);
    } else {
        assert(p[i] == t[i]);
        lemma_solid_contains(p, i);
        let k = choose|k: int| 0 <= k < solid(p).len() && solid(p)[k] == t[i];
        if !is_ws(t.last()) {
            assert(solid(t)[k] == solid(p)[k]);
        }
    }
}

/// The solid characters of `t` are characters of `t`.
proof fn lemma_solid_within(t: Seq<char>, x: char)
    requires
        solid(t).contains(x),
    ensures
        t.contains(x),
    decreases t.len(),
{
    if t.len() > 0 {
        let p = t.drop_last();
        if !is_ws(t.last()) && solid(t)[solid(t).len() - 1] == x {
            assert(t[t.len() - 1] == x);
        } else {
            let k = choose|k: int| 0 <= k < solid(t).len() && solid(t)[k] == x;
            if !is_ws(t.last()) {
                assert(solid(p)[k] == x);
            }
            assert(solid(p).contains(x));
            lemma_solid_within(p, x);
            let j = choose|j: int| 0 <= j < p.len() && p[j] == x;
            assert(t[j] == x);
        }
    } else {
        assert(solid(t).len() == 0);
    }
}

/// Every character of cleaned text is a space, a line break, or a character
/// of the text that is not White_Space.
pub proof fn lemma_cleaned_chars(s: Seq<char>)
    ensures
        forall|i: int|
            0 <= i < cleaned(s).len() ==> {
                let x = #[trigger] cleaned(s)[i];
                x == ' ' || x == '\n' || (!is_ws(x) && s.contains(x))
            },
{
    lemma_cleaned_is_tidy(s);
    lemma_cleaned_keeps_solid(s);
    let t = cleaned(s);
    assert forall|i: int| 0 <= i < t.len() implies {
        let x = #[trigger] t[i];
        x == ' ' || x == '\n' || (!is_ws(x) && s.contains(x))
    } by {
        if !is_ws(t[i]) {
            lemma_solid_contains(t, i);
            lemma_solid_within(s, t[i]);
        }
    }
}

/// Keeping the non-empty parts keeps each non-empty part, in order, and drops
/// each empty one: over two lists one after the other it keeps the one's
/// parts followed by the other's, and a single part is kept exactly when it
/// is not empty.
pub proof fn lemma_nonempty_parts_concat(a: Seq<Seq<char>>, b: Seq<Seq<char>>)
    ensures
        nonempty_parts(a + b) == nonempty_parts(a) + nonempty_parts(b),
        forall|x: Seq<char>| #[trigger] nonempty_parts(seq![x]) == if x.len() > 0 {
            seq![x]
        } else {
            Seq::<Seq<char>>::empty()
        },
    decreases b.len(),
{
    assert forall|x: Seq<char>| #[trigger] nonempty_parts(seq![x]) == if x.len() > 0 {
        seq![x]
    } else {
        Seq::<Seq<char>>::empty()
    } by {
        assert(seq![x].drop_last() =~= Seq::<Seq<char>>::empty());
        assert(seq![x].last() == x);
        assert(nonempty_parts(Seq::<Seq<char>>::empty()) == Seq::<Seq<char>>::empty());
        assert(Seq::<Seq<char>>::empty().push(x) =~= seq![x]);
    }
    if b.len() == 0 {
        assert(a + b =~= a);
        assert(nonempty_parts(a) + Seq::<Seq<char>>::empty() =~= nonempty_parts(a));
    } else {
        lemma_nonempty_parts_concat(a, b.drop_last());
        assert((a + b).drop_last() =~= a + b.drop_last());
        assert((a + b).last() == b.last());
        if b.last().len() > 0 {
            assert((nonempty_parts(a) + nonempty_parts(b.drop_last())).push(b.last())
                =~= nonempty_parts(a) + nonempty_parts(b.drop_last()).push(b.last()));
        }
    }
}

} // verus!
