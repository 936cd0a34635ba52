//! The text of a PowerPoint (`.pptx`) archive: the slides `ppt/slides/slide1.xml`,
//! `slide2.xml`, ... in order, each under a page heading; or, when none of them
//! has text, every `.xml` entry whose name mentions `slide`.
use vstd::prelude::*;

use crate::formats::{zip_view, ZipEntries};
use crate::parser::{xml_text, DocumentParser};
use crate::text::{join, join_strings, range_equals, string_views, trim, trim_range, chars_of};

verus! {

broadcast use vstd::string::group_string_axioms;

/// The character of a decimal digit.
pub open spec fn digit_char(d: nat) -> char {
    if d == 0 { '0' } else if d == 1 { '1' } else if d == 2 { '2' } else if d == 3 { '3' }
    else if d == 4 { '4' } else if d == 5 { '5' } else if d == 6 { '6' } else if d == 7 { '7' }
    else if d == 8 { '8' } else { '9' }
}

/// The decimal digits of `n`, without leading zeros.
pub open spec fn decimal(n: nat) -> Seq<char>
    decreases n,
{
    if n < 10 {
        seq![digit_char(n)]
    } else {
        decimal(n / 10).push(digit_char(n % 10))
    }
}

/// Executable `digit_char`.
fn digit_exec(d: u64) -> (c: char)
    requires
        d < 10,
    ensures
        c == digit_char(d as nat),
{
    if d == 0 { '0' } else if d == 1 { '1' } else if d == 2 { '2' } else if d == 3 { '3' }
    else if d == 4 { '4' } else if d == 5 { '5' } else if d == 6 { '6' } else if d == 7 { '7' }
    else if d == 8 { '8' } else { '9' }
}

/// The decimal digits of `n`.
pub fn decimal_string(n: u64) -> (s: String)
    ensures
        s@ == decimal(n as nat),
    decreases n,
{
    if n < 10 {
        let mut s = String::new();
        crate::text::push_char(&mut s, digit_exec(n));
        s
    } else {
        let mut s = decimal_string(n / 10);
        crate::text::push_char(&mut s, digit_exec(n % 10));
        s
    }
}

/// The name of slide `i` in the archive.
pub open spec fn slide_name(i: nat) -> Seq<char> {
    "ppt/slides/slide"@ + decimal(i) + ".xml"@
}

/// The heading put before slide `i`'s text.
pub open spec fn slide_heading(i: nat) -> Seq<char> {
    "=== 第 "@ + decimal(i) + " 页 ===\n"@
}

/// Looking an entry up by name, as `ZipArchive::by_name` does: `None` when
/// no entry has that name, else the first such entry's open-and-read state.
pub open spec fn zip_lookup(
    z: Seq<(Option<Seq<char>>, Option<Option<Seq<char>>>)>,
    name: Seq<char>,
) -> Option<Option<Option<Seq<char>>>>
    decreases z.len(),
{
    if z.len() == 0 {
        None
    } else if z[0].0 == Some(name) {
        Some(z[0].1)
    } else {
        zip_lookup(z.drop_first(), name)
    }
}

/// The headed texts of slides `i`, `i + 1`, ... up to slide 100, stopping at
/// the first slide that is missing or cannot be opened; slides whose XML cannot
/// be read or has no text are passed over.
pub open spec fn slide_texts(z: Seq<(Option<Seq<char>>, Option<Option<Seq<char>>>)>, i: nat) -> Seq<
    Seq<char>,
>
    decreases 101 - i,
{
    if i > 100 {
        Seq::empty()
    } else {
        match zip_lookup(z, slide_name(i)) {
            Some(Some(read)) => {
                let here: Seq<Seq<char>> = match read {
                    Some(xml) => if trim(xml_text(xml)).len() > 0 {
                        seq![slide_heading(i) + xml_text(xml)]
                    } else {
                        Seq::empty()
                    },
                    None => Seq::empty(),
                };
                here + slide_texts(z, i + 1)
            },
            _ => Seq::empty(),
        }
    }
}

/// Whether `p` occurs in `s`.
pub open spec fn has_infix(s: Seq<char>, p: Seq<char>) -> bool {
    exists|k: int| 0 <= k && k + p.len() <= s.len() && #[trigger] s.subrange(k, k + p.len()) == p
}

/// Whether `s` ends with `p`.
pub open spec fn has_suffix(s: Seq<char>, p: Seq<char>) -> bool {
    p.len() <= s.len() && s.subrange(s.len() - p.len(), s.len() as int) == p
}

/// The entry names that the fallback reads: `.xml` names that mention `slide`.
pub open spec fn is_slide_like(n: Seq<char>) -> bool {
    has_infix(n, "slide"@) && has_suffix(n, ".xml"@)
}

/// The texts found by the fallback over entries `z[..k]`: each slide-like
/// entry, looked up by its name, whose XML can be read and has text.
pub open spec fn fallback_texts(
    z: Seq<(Option<Seq<char>>, Option<Option<Seq<char>>>)>,
    k: int,
) -> Seq<Seq<char>>
    decreases k,
{
    if k <= 0 || k > z.len() {
        Seq::empty()
    } else {
        let rest = fallback_texts(z, k - 1);
        match z[k - 1].0 {
            Some(n) => if is_slide_like(n) {
                match zip_lookup(z, n) {
                    Some(Some(Some(xml))) => if trim(xml_text(xml)).len() > 0 {
                        rest.push(xml_text(xml))
                    } else {
                        rest
                    },
                    _ => rest,
                }
            } else {
                rest
            },
            None => rest,
        }
    }
}

/// The text pieces of a presentation: the headed slides, or the fallback when
/// there are none.
pub open spec fn pptx_pieces(z: Seq<(Option<Seq<char>>, Option<Option<Seq<char>>>)>) -> Seq<
    Seq<char>,
> {
    if slide_texts(z, 1).len() > 0 {
        slide_texts(z, 1)
    } else {
        fallback_texts(z, z.len() as int)
    }
}

/// The text of a presentation: its pieces separated by blank lines.
pub open spec fn pptx_text(z: Seq<(Option<Seq<char>>, Option<Option<Seq<char>>>)>) -> Seq<char> {
    join(pptx_pieces(z), "\n\n"@)
}

} // verus!
verus! {

/// The first entry with the given name, as `zip_lookup` finds it.
fn find_entry(z: &ZipEntries, name: &String) -> (r: Option<usize>)
    ensures
        match r {
            None => zip_lookup(zip_view(*z), name@) is None,
            Some(k) => k < z.len() && zip_lookup(zip_view(*z), name@) == Some(zip_view(*z)[k as int].1),
        },
{
    let ghost v = zip_view(*z);
    let mut k: usize = 0;
    assert(v.skip(0) =~= v);
    while k < z.len()
        invariant
            k <= z.len(),
            v == zip_view(*z),
            zip_lookup(v, name@) == zip_lookup(v.skip(k as int), name@),
        decreases z.len() - k,
    {
        assert(v.skip(k as int).drop_first() =~= v.skip(k + 1));
        assert(v.skip(k as int)[0] == v[k as int]);
        match &z[k].0 {
            Some(n) => {
                assert(v[k as int].0 == Some(n@));
                if *n == *name {
                    return Some(k);
                }
            },
            None => {
                assert(v[k as int].0 == None::<Seq<char>>);
            },
        }
        k = k + 1;
    }
    None
}

/// Whether `p` occurs in `s`.
fn contains_chars(s: &Vec<char>, p: &Vec<char>) -> (b: bool)
    ensures
        b == has_infix(s@, p@),
{
    if p.len() > s.len() {
        return false;
    }
    let last = s.len() - p.len();
    let mut k: usize = 0;
    loop
        invariant
            last == s.len() - p.len(),
            p.len() <= s.len(),
            k <= last,
            forall|m: int| 0 <= m < k ==> #[trigger] s@.subrange(m, m + p@.len()) != p@,
        decreases last - k,
    {
        if range_equals(s, k, k + p.len(), p) {
            return true;
        }
        if k >= last {
            return false;
        }
        k = k + 1;
    }
}

/// Whether `s` ends with `p`.
fn ends_with_chars(s: &Vec<char>, p: &Vec<char>) -> (b: bool)
    ensures
        b == has_suffix(s@, p@),
{
    if p.len() > s.len() {
        return false;
    }
    range_equals(s, s.len() - p.len(), s.len(), p)
}

/// The headed slides (see `slide_texts`).
fn slide_pieces(z: &ZipEntries) -> (r: Vec<String>)
    ensures
        string_views(r@) == slide_texts(zip_view(*z), 1),
{
    let ghost v = zip_view(*z);
    let mut out: Vec<String> = Vec::new();
    let mut i: u64 = 1;
    let prefix = "ppt/slides/slide";
    let suffix = ".xml";
    let head = "=== 第 ";
    let tail = " 页 ===\n";
    while i <= 100
        invariant
            1 <= i <= 101,
            v == zip_view(*z),
            prefix@ == "ppt/slides/slide"@,
            suffix@ == ".xml"@,
            head@ == "=== 第 "@,
            tail@ == " 页 ===\n"@,
            string_views(out@) + slide_texts(v, i as nat) == slide_texts(v, 1),
        decreases 101 - i,
    {
        let digits = decimal_string(i);
        let mut name = prefix.to_owned();
        assert(name@ == "ppt/slides/slide"@);
        name.append(digits.as_str());
        assert(name@ == "ppt/slides/slide"@ + decimal(i as nat));
        name.append(suffix);
        assert(name@ =~= slide_name(i as nat));
        let ghost rest = slide_texts(v, (i + 1) as nat);
        match find_entry(z, &name) {
            None => {
                assert(slide_texts(v, i as nat) =~= Seq::<Seq<char>>::empty());
                assert(string_views(out@) =~= string_views(out@) + slide_texts(v, i as nat));
                return out;
            },
            Some(k) => {
                match &z[k].1 {
                    None => {
                        assert(slide_texts(v, i as nat) =~= Seq::<Seq<char>>::empty());
                        assert(string_views(out@) =~= string_views(out@) + slide_texts(v, i as nat));
                        return out;
                    },
                    Some(read) => {
                        let ghost before = string_views(out@);
                        match read {
                            Some(xml) => {
                                let text = DocumentParser::extract_text_from_xml(xml.as_str());
                                if !crate::text::is_blank(text.as_str()) {
                                    let mut piece = head.to_owned();
                                    piece.append(digits.as_str());
                                    piece.append(tail);
                                    piece.append(text.as_str());
                                    out.push(piece);
                                    assert(string_views(out@) =~= before.push(piece@));
                                    assert(piece@ == slide_heading(i as nat) + xml_text(xml@));
                                    assert(slide_texts(v, i as nat) == seq![piece@] + rest);
                                    assert(string_views(out@) + rest =~= before + (seq![piece@]
                                        + rest));
                                } else {
                                    assert(slide_texts(v, i as nat) =~= rest);
                                }
                            },
                            None => {
                                assert(slide_texts(v, i as nat) =~= rest);
                            },
                        }
                    },
                }
            },
        }
        i = i + 1;
    }
    assert(slide_texts(v, 101) =~= Seq::<Seq<char>>::empty());
    assert(string_views(out@) =~= string_views(out@) + slide_texts(v, 101));
    out
}

/// The fallback texts (see `fallback_texts`).
fn fallback_pieces(z: &ZipEntries) -> (r: Vec<String>)
    ensures
        string_views(r@) == fallback_texts(zip_view(*z), z.len() as int),
{
    let ghost v = zip_view(*z);
    let mut out: Vec<String> = Vec::new();
    let slide: Vec<char> = vec!['s', 'l', 'i', 'd', 'e'];
    let xml_ext: Vec<char> = vec!['.', 'x', 'm', 'l'];
    proof {
        reveal_strlit("slide");
        reveal_strlit(".xml");
    }
    assert(slide@ =~= "slide"@);
    assert(xml_ext@ =~= ".xml"@);
    let mut k: usize = 0;
    while k < z.len()
        invariant
            k <= z.len(),
            v == zip_view(*z),
            slide@ == "slide"@,
            xml_ext@ == ".xml"@,
            string_views(out@) == fallback_texts(v, k as int),
        decreases z.len() - k,
    {
        let ghost before = string_views(out@);
        match &z[k].0 {
            Some(n) => {
                let nc = chars_of(n.as_str());
                if contains_chars(&nc, &slide) && ends_with_chars(&nc, &xml_ext) {
                    match find_entry(z, n) {
                        Some(j) => {
                            match &z[j].1 {
                                Some(Some(xml)) => {
                                    let text = DocumentParser::extract_text_from_xml(xml.as_str());
                                    if !crate::text::is_blank(text.as_str()) {
                                        out.push(text);
                                        assert(string_views(out@) =~= before.push(text@));
                                    }
                                },
                                _ => {},
                            }
                        },
                        None => {},
                    }
                }
            },
            None => {},
        }
        k = k + 1;
    }
    out
}

/// The text of a presentation's archive entries (see `pptx_text`).
pub fn pptx_string(z: &ZipEntries) -> (s: String)
    ensures
        s@ == pptx_text(zip_view(*z)),
{
    let pieces = slide_pieces(z);
    let pieces = if pieces.len() > 0 {
        pieces
    } else {
        fallback_pieces(z)
    };
    join_strings(&pieces, "\n\n")
}

/// Slides `from` to `i` are all in the archive and can be opened.
pub open spec fn slides_open(
    z: Seq<(Option<Seq<char>>, Option<Option<Seq<char>>>)>,
    from: nat,
    i: nat,
) -> bool {
    forall|j: nat| from <= j <= i ==> (#[trigger] zip_lookup(z, slide_name(j))) matches Some(Some(_))
}

/// From slide `from` on, a slide reached through open slides whose XML has
/// text gives its headed text.
proof fn lemma_slide_text_from(
    z: Seq<(Option<Seq<char>>, Option<Option<Seq<char>>>)>,
    from: nat,
    i: nat,
    xml: Seq<char>,
)
    requires
        from <= i <= 100,
        slides_open(z, from, i),
        zip_lookup(z, slide_name(i)) == Some(Some(Some(xml))),
        trim(xml_text(xml)).len() > 0,
    ensures
        slide_texts(z, from).contains(slide_heading(i) + xml_text(xml)),
    decreases i - from,
{
    let piece = slide_heading(i) + xml_text(xml);
    assert(zip_lookup(z, slide_name(from)) matches Some(Some(_)));
    let here: Seq<Seq<char>> = match zip_lookup(z, slide_name(from)) {
        Some(Some(Some(x))) => if trim(xml_text(x)).len() > 0 {
            seq![slide_heading(from) + xml_text(x)]
        } else {
            Seq::empty()
        },
        _ => Seq::empty(),
    };
    assert(slide_texts(z, from) == here + slide_texts(z, from + 1));
    if from == i {
        assert(here == seq![piece]);
        assert(slide_texts(z, from)[0] == piece);
    } else {
        assert(slides_open(z, from + 1, i)) by {
            assert forall|j: nat| from + 1 <= j <= i implies (#[trigger] zip_lookup(
                z,
                slide_name(j),
            )) matches Some(Some(_)) by {}
        }
        lemma_slide_text_from(z, from + 1, i, xml);
        let rest = slide_texts(z, from + 1);
        let k = choose|k: int| 0 <= k < rest.len() && #[trigger] rest[k] == piece;
        assert((here + rest)[here.len() + k] == piece);
    }
}

/// No slide's text is lost: every slide among slides 1 to 100 that is reached
/// through slides that are all in the archive, and whose XML has text, gives
/// its headed text among the presentation's pieces, whatever the slides
/// before it held.
pub proof fn lemma_slides_with_text_are_kept(
    z: Seq<(Option<Seq<char>>, Option<Option<Seq<char>>>)>,
    i: nat,
    xml: Seq<char>,
)
    requires
        1 <= i <= 100,
        slides_open(z, 1, i),
        zip_lookup(z, slide_name(i)) == Some(Some(Some(xml))),
        trim(xml_text(xml)).len() > 0,
    ensures
        pptx_pieces(z).contains(slide_heading(i) + xml_text(xml)),
{
    lemma_slide_text_from(z, 1, i, xml);
}

/// Slide `i`, reached through open slides from `from`, has XML with text
/// whose headed text is `piece`.
pub open spec fn is_slide_piece(
    z: Seq<(Option<Seq<char>>, Option<Option<Seq<char>>>)>,
    from: nat,
    i: nat,
    piece: Seq<char>,
) -> bool {
    &&& from <= i <= 100
    &&& slides_open(z, from, i)
    &&& exists|xml: Seq<char>|
        #![trigger xml_text(xml)]
        zip_lookup(z, slide_name(i)) == Some(Some(Some(xml))) && trim(xml_text(xml)).len() > 0
            && piece == slide_heading(i) + xml_text(xml)
}

/// The slide that piece `k` of the headed texts from slide `from` comes from.
proof fn slide_of_piece(
    z: Seq<(Option<Seq<char>>, Option<Option<Seq<char>>>)>,
    from: nat,
    k: int,
) -> (i: nat)
    requires
        0 <= k < slide_texts(z, from).len(),
    ensures
        is_slide_piece(z, from, i, slide_texts(z, from)[k]),
    decreases 101 - from,
{
    let read = zip_lookup(z, slide_name(from))->0->0;
    let here: Seq<Seq<char>> = match read {
        Some(xml) => if trim(xml_text(xml)).len() > 0 {
            seq![slide_heading(from) + xml_text(xml)]
        } else {
            Seq::empty()
        },
        None => Seq::empty(),
    };
    assert(from <= 100);
    assert(zip_lookup(z, slide_name(from)) matches Some(Some(_)));
    let rest = slide_texts(z, from + 1);
    let t = slide_texts(z, from);
    assert(t == here + rest);
    if k < here.len() {
        let xml = read->0;
        assert(t[k] == slide_heading(from) + xml_text(xml));
        assert(slides_open(z, from, from));
        from
    } else {
        assert(t[k] == rest[k - here.len()]);
        let i = slide_of_piece(z, from + 1, k - here.len());
        assert(slides_open(z, from, i)) by {
            assert forall|j: nat| from <= j <= i implies (#[trigger] zip_lookup(
                z,
                slide_name(j),
            )) matches Some(Some(_)) by {
                if j > from {
                    assert(slides_open(z, from + 1, i));
                }
            }
        }
        i
    }
}

/// `piece` is the headed text of some slide from `from` on (see `is_slide_piece`).
pub open spec fn comes_from_a_slide(
    z: Seq<(Option<Seq<char>>, Option<Option<Seq<char>>>)>,
    from: nat,
    piece: Seq<char>,
) -> bool {
    exists|i: nat| #[trigger] is_slide_piece(z, from, i, piece)
}

/// Every headed text of the slides is that of a slide reached through open
/// slides whose XML has text: nothing else is made up.
pub proof fn lemma_slide_pieces_come_from_slides(
    z: Seq<(Option<Seq<char>>, Option<Option<Seq<char>>>)>,
    from: nat,
)
    ensures
        forall|k: int|
            0 <= k < slide_texts(z, from).len() ==> comes_from_a_slide(
                z,
                from,
                #[trigger] slide_texts(z, from)[k],
            ),
{
    assert forall|k: int| 0 <= k < slide_texts(z, from).len() implies comes_from_a_slide(
        z,
        from,
        #[trigger] slide_texts(z, from)[k],
    ) by {
        let i = slide_of_piece(z, from, k);
        assert(is_slide_piece(z, from, i, slide_texts(z, from)[k]));
    }
}

} // verus!
