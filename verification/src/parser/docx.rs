//! The text of a Word document: its non-empty paragraphs, one per line.
use vstd::prelude::*;

use crate::formats::{docx_view, paragraph_view, run_view, DocxChildren, ParagraphRuns, RunTexts};
use crate::text::{join, join_strings, string_views};

verus! {

/// The text of a run: its texts, one after another.
pub open spec fn run_text(r: Seq<Option<Seq<char>>>) -> Seq<char>
    decreases r.len(),
{
    if r.len() == 0 {
        Seq::empty()
    } else {
        run_text(r.drop_last()) + match r.last() {
            Some(t) => t,
            None => Seq::empty(),
        }
    }
}

/// The text of a paragraph: the texts of its runs, one after another.
pub open spec fn paragraph_text(p: Seq<Option<Seq<Option<Seq<char>>>>>) -> Seq<char>
    decreases p.len(),
{
    if p.len() == 0 {
        Seq::empty()
    } else {
        paragraph_text(p.drop_last()) + match p.last() {
            Some(r) => run_text(r),
            None => Seq::empty(),
        }
    }
}

/// The texts of the body's paragraphs that are not empty, in order.
pub open spec fn docx_paragraphs(d: Seq<Option<Seq<Option<Seq<Option<Seq<char>>>>>>>) -> Seq<Seq<char>>
    decreases d.len(),
{
    if d.len() == 0 {
        Seq::empty()
    } else {
        let rest = docx_paragraphs(d.drop_last());
        match d.last() {
            Some(p) => if paragraph_text(p).len() > 0 {
                rest.push(paragraph_text(p))
            } else {
                rest
            },
            None => rest,
        }
    }
}

/// The text of a Word document body: its non-empty paragraphs joined by `'\n'`.
pub open spec fn docx_text(d: Seq<Option<Seq<Option<Seq<Option<Seq<char>>>>>>>) -> Seq<char> {
    join(docx_paragraphs(d), seq!['\n'])
}

/// The text of a run.
fn run_string(r: &RunTexts) -> (s: String)
    ensures
        s@ == run_text(run_view(*r)),
{
    let mut s = String::new();
    let mut i: usize = 0;
    while i < r.len()
        invariant
            i <= r.len(),
            s@ == run_text(run_view(*r).take(i as int)),
        decreases r.len() - i,
    {
        assert(run_view(*r).take(i + 1).drop_last() =~= run_view(*r).take(i as int));
        match &r[i] {
            Some(t) => s.append(t.as_str()),
            None => {},
        }
        i = i + 1;
        assert(s@ =~= run_text(run_view(*r).take(i as int)));
    }
    assert(run_view(*r).take(r.len() as int) =~= run_view(*r));
    s
}

/// The text of a paragraph.
fn paragraph_string(p: &ParagraphRuns) -> (s: String)
    ensures
        s@ == paragraph_text(paragraph_view(*p)),
{
    let mut s = String::new();
    let mut i: usize = 0;
    while i < p.len()
        invariant
            i <= p.len(),
            s@ == paragraph_text(paragraph_view(*p).take(i as int)),
        decreases p.len() - i,
    {
        assert(paragraph_view(*p).take(i + 1).drop_last() =~= paragraph_view(*p).take(i as int));
        match &p[i] {
            Some(r) => {
                let t = run_string(r);
                s.append(t.as_str());
            },
            None => {},
        }
        i = i + 1;
        assert(s@ =~= paragraph_text(paragraph_view(*p).take(i as int)));
    }
    assert(paragraph_view(*p).take(p.len() as int) =~= paragraph_view(*p));
    s
}

/// The text of a Word document body (see `docx_text`).
pub fn docx_body_text(d: &DocxChildren) -> (s: String)
    ensures
        s@ == docx_text(docx_view(*d)),
{
    let mut paras: Vec<String> = Vec::new();
    let mut i: usize = 0;
    while i < d.len()
        invariant
            i <= d.len(),
            string_views(paras@) == docx_paragraphs(docx_view(*d).take(i as int)),
        decreases d.len() - i,
    {
        assert(docx_view(*d).take(i + 1).drop_last() =~= docx_view(*d).take(i as int));
        let ghost before = string_views(paras@);
        match &d[i] {
            Some(p) => {
                let t = paragraph_string(p);
                if !t.as_str().is_empty() {
                    paras.push(t);
                    assert(string_views(paras@) =~= before.push(t@));
                }
            },
            None => {},
        }
        i = i + 1;
    }
    assert(docx_view(*d).take(d.len() as int) =~= docx_view(*d));
    let nl = "\n";
    proof {
        reveal_strlit("\n");
    }
    let s = join_strings(&paras, nl);
    assert(nl@ =~= seq!['\n']);
    s
}

/// A run's text is the texts of its text children, in order: the text of two
/// runs of children one after the other is the one text followed by the
/// other, a text child stands for its text, and any other child for nothing.
pub proof fn lemma_run_text_concat(r1: Seq<Option<Seq<char>>>, r2: Seq<Option<Seq<char>>>)
    ensures
        run_text(r1 + r2) == run_text(r1) + run_text(r2),
        forall|t: Seq<char>| #[trigger] run_text(seq![Some(t)]) == t,
        run_text(seq![None::<Seq<char>>]) == Seq::<char>::empty(),
    decreases r2.len(),
{
    assert forall|t: Seq<char>| #[trigger] run_text(seq![Some(t)]) == t by {
        assert(seq![Some(t)].drop_last() =~= Seq::<Option<Seq<char>>>::empty());
        assert(seq![Some(t)].last() == Some(t));
        assert(run_text(Seq::<Option<Seq<char>>>::empty()) == Seq::<char>::empty());
        assert(Seq::<char>::empty() + t =~= t);
    }
    assert(seq![None::<Seq<char>>].drop_last() =~= Seq::<Option<Seq<char>>>::empty());
    assert(seq![None::<Seq<char>>].last() == None::<Seq<char>>);
    assert(run_text(Seq::<Option<Seq<char>>>::empty()) == Seq::<char>::empty());
    assert(Seq::<char>::empty() + Seq::<char>::empty() =~= Seq::<char>::empty());
    if r2.len() == 0 {
        assert(r1 + r2 =~= r1);
        assert(run_text(r1) + Seq::<char>::empty() =~= run_text(r1));
    } else {
        lemma_run_text_concat(r1, r2.drop_last());
        assert((r1 + r2).drop_last() =~= r1 + r2.drop_last());
        assert((r1 + r2).last() == r2.last());
        let tail = match r2.last() {
            Some(t) => t,
            None => Seq::<char>::empty(),
        };
        assert(run_text(r1) + run_text(r2.drop_last()) + tail =~= run_text(r1) + (run_text(
            r2.drop_last(),
        ) + tail));
    }
}

/// A paragraph's text is the texts of its runs, in order: the text of two
/// lists of children one after the other is the one text followed by the
/// other, a run stands for its text, and any other child for nothing.
pub proof fn lemma_paragraph_text_concat(
    p1: Seq<Option<Seq<Option<Seq<char>>>>>,
    p2: Seq<Option<Seq<Option<Seq<char>>>>>,
)
    ensures
        paragraph_text(p1 + p2) == paragraph_text(p1) + paragraph_text(p2),
        forall|r: Seq<Option<Seq<char>>>| #[trigger] paragraph_text(seq![Some(r)]) == run_text(r),
        paragraph_text(seq![None::<Seq<Option<Seq<char>>>>]) == Seq::<char>::empty(),
    decreases p2.len(),
{
    assert forall|r: Seq<Option<Seq<char>>>| #[trigger] paragraph_text(seq![Some(r)]) == run_text(
        r,
    ) by {
        assert(seq![Some(r)].drop_last() =~= Seq::<Option<Seq<Option<Seq<char>>>>>::empty());
        assert(seq![Some(r)].last() == Some(r));
        assert(paragraph_text(Seq::<Option<Seq<Option<Seq<char>>>>>::empty()) == Seq::<char>::empty());
        assert(Seq::<char>::empty() + run_text(r) =~= run_text(r));
    }
    assert(seq![None::<Seq<Option<Seq<char>>>>].drop_last()
        =~= Seq::<Option<Seq<Option<Seq<char>>>>>::empty());
    assert(seq![None::<Seq<Option<Seq<char>>>>].last() == None::<Seq<Option<Seq<char>>>>);
    assert(paragraph_text(Seq::<Option<Seq<Option<Seq<char>>>>>::empty()) == Seq::<char>::empty());
    assert(Seq::<char>::empty() + Seq::<char>::empty() =~= Seq::<char>::empty());
    if p2.len() == 0 {
        assert(p1 + p2 =~= p1);
        assert(paragraph_text(p1) + Seq::<char>::empty() =~= paragraph_text(p1));
    } else {
        lemma_paragraph_text_concat(p1, p2.drop_last());
        assert((p1 + p2).drop_last() =~= p1 + p2.drop_last());
        assert((p1 + p2).last() == p2.last());
        let tail = match p2.last() {
            Some(r) => run_text(r),
            None => Seq::<char>::empty(),
        };
        assert(paragraph_text(p1) + paragraph_text(p2.drop_last()) + tail =~= paragraph_text(p1) + (
        paragraph_text(p2.drop_last()) + tail));
    }
}

/// A body's paragraphs are kept in order, one line each, when their text is
/// not empty: the lines of two lists of children one after the other are the
/// one's lines followed by the other's, a paragraph gives its text when that
/// is not empty and nothing otherwise, and any other child gives nothing.
pub proof fn lemma_docx_paragraphs_concat(
    d1: Seq<Option<Seq<Option<Seq<Option<Seq<char>>>>>>>,
    d2: Seq<Option<Seq<Option<Seq<Option<Seq<char>>>>>>>,
)
    ensures
        docx_paragraphs(d1 + d2) == docx_paragraphs(d1) + docx_paragraphs(d2),
        forall|p: Seq<Option<Seq<Option<Seq<char>>>>>|
            #[trigger] docx_paragraphs(seq![Some(p)]) == if paragraph_text(p).len() > 0 {
                seq![paragraph_text(p)]
            } else {
                Seq::<Seq<char>>::empty()
            },
        docx_paragraphs(seq![None::<Seq<Option<Seq<Option<Seq<char>>>>>>]) == Seq::<Seq<char>>::empty(),
    decreases d2.len(),
{
    let e = Seq::<Option<Seq<Option<Seq<Option<Seq<char>>>>>>>::empty();
    assert forall|p: Seq<Option<Seq<Option<Seq<char>>>>>|
        #[trigger] docx_paragraphs(seq![Some(p)]) == if paragraph_text(p).len() > 0 {
            seq![paragraph_text(p)]
        } else {
            Seq::<Seq<char>>::empty()
        } by {
        assert(seq![Some(p)].drop_last() =~= e);
        assert(seq![Some(p)].last() == Some(p));
        assert(docx_paragraphs(e) == Seq::<Seq<char>>::empty());
        assert(Seq::<Seq<char>>::empty().push(paragraph_text(p)) =~= seq![paragraph_text(p)]);
    }
    assert(seq![None::<Seq<Option<Seq<Option<Seq<char>>>>>>].drop_last() =~= e);
    assert(seq![None::<Seq<Option<Seq<Option<Seq<char>>>>>>].last() == None::<Seq<Option<Seq<Option<Seq<char>>>>>>);
    assert(docx_paragraphs(e) == Seq::<Seq<char>>::empty());
    if d2.len() == 0 {
        assert(d1 + d2 =~= d1);
        assert(docx_paragraphs(d1) + Seq::<Seq<char>>::empty() =~= docx_paragraphs(d1));
    } else {
        lemma_docx_paragraphs_concat(d1, d2.drop_last());
        assert((d1 + d2).drop_last() =~= d1 + d2.drop_last());
        assert((d1 + d2).last() == d2.last());
        let a = docx_paragraphs(d1);
        let b = docx_paragraphs(d2.drop_last());
        match d2.last() {
            Some(p) => if paragraph_text(p).len() > 0 {
                assert((a + b).push(paragraph_text(p)) =~= a + b.push(paragraph_text(p)));
            },
            None => {},
        }
    }
}

} // verus!
