//! Standard answers: question-answer pairs that the user records, each with
//! the question's embedding (of whatever type the caller computes).
use vstd::prelude::*;

verus! {

/// One recorded question and its answer.
#[derive(Clone, Debug)]
pub struct FQAEntry<E> {
    /// The question.
    pub question: String,
    /// Its standard answer.
    pub answer: String,
    /// The question's embedding, for semantic lookup.
    pub embedding: E,
    /// When the pair was first recorded (ISO 8601).
    pub created_at: String,
    /// When it was last changed (ISO 8601).
    pub updated_at: String,
}

/// The recorded pairs, kept in `fqa.json`.
pub struct FQAStore<E> {
    /// Where the pairs are saved.
    pub fqa_path: String,
    /// The pairs, in the order they were first recorded.
    pub entries: Vec<FQAEntry<E>>,
}

/// An entry seen as plain values.
pub struct EntryView<E> {
    pub question: Seq<char>,
    pub answer: Seq<char>,
    pub embedding: E,
    pub created_at: Seq<char>,
    pub updated_at: Seq<char>,
}

/// The entries as plain values.
pub open spec fn entries_view<E>(entries: Seq<FQAEntry<E>>) -> Seq<EntryView<E>> {
    entries.map_values(|e: FQAEntry<E>| EntryView {
        question: e.question@,
        answer: e.answer@,
        embedding: e.embedding,
        created_at: e.created_at@,
        updated_at: e.updated_at@,
    })
}

/// The position of the first entry with exactly this question, or -1.
pub open spec fn question_index<E>(entries: Seq<EntryView<E>>, question: Seq<char>) -> int
    decreases entries.len(),
{
    if entries.len() == 0 {
        -1
    } else if entries[0].question == question {
        0
    } else {
        let k = question_index(entries.drop_first(), question);
        if k < 0 {
            -1
        } else {
            k + 1
        }
    }
}

/// No two entries share a question.
pub open spec fn questions_distinct<E>(entries: Seq<EntryView<E>>) -> bool {
    forall|i: int, j: int|
        0 <= i < entries.len() && 0 <= j < entries.len() && i != j ==> #[trigger] entries[i].question
            != #[trigger] entries[j].question
}

/// What `add` makes of the entries: the first entry with the same question
/// gets the new answer, embedding and update time; when there is none, a new
/// entry created and updated `now` goes at the end.
pub open spec fn added<E>(
    entries: Seq<EntryView<E>>,
    question: Seq<char>,
    answer: Seq<char>,
    embedding: E,
    now: Seq<char>,
) -> Seq<EntryView<E>> {
    let k = question_index(entries, question);
    if k < 0 {
        entries.push(
            EntryView { question, answer, embedding, created_at: now, updated_at: now },
        )
    } else {
        entries.update(
            k,
            EntryView {
                question,
                answer,
                embedding,
                created_at: entries[k].created_at,
                updated_at: now,
            },
        )
    }
}

/// `question_index` finds the first entry with the question, or none has it.
pub proof fn lemma_question_index<E>(entries: Seq<EntryView<E>>, question: Seq<char>)
    ensures
        -1 <= question_index(entries, question) < entries.len(),
        question_index(entries, question) >= 0 ==> entries[question_index(entries, question)].question
            == question,
        question_index(entries, question) < 0 ==> forall|i: int|
            0 <= i < entries.len() ==> #[trigger] entries[i].question != question,
        forall|i: int|
            0 <= i < question_index(entries, question) ==> #[trigger] entries[i].question != question,
    decreases entries.len(),
{
    if entries.len() > 0 && entries[0].question != question {
        let rest = entries.drop_first();
        lemma_question_index(rest, question);
        assert forall|i: int| 0 < i < entries.len() implies entries[i] == rest[i - 1] by {}
    }
}

impl<E> FQAStore<E> {
    /// A store for `fqa_path` holding the pairs read from it (none when the
    /// file does not exist).
    pub fn new(fqa_path: &str, entries: Vec<FQAEntry<E>>) -> (r: Self)
        ensures
            r.fqa_path@ == fqa_path@,
            r.entries@ == entries@,
    {
        Self { fqa_path: fqa_path.to_owned(), entries }
    }

    /// Records an answer to a question, at time `now`: a question already
    /// recorded (exactly the same text) gets the new answer and embedding and
    /// `true` comes back; a new question is added at the end and `false`
    /// comes back.
    pub fn add(&mut self, question: &str, answer: &str, embedding: E, now: &str) -> (updated: bool)
        ensures
            updated == (question_index(entries_view(old(self).entries@), question@) >= 0),
            entries_view(final(self).entries@) == added(
                entries_view(old(self).entries@),
                question@,
                answer@,
                embedding,
                now@,
            ),
            final(self).fqa_path == old(self).fqa_path,
    {
        let ghost v = entries_view(self.entries@);
        proof {
            lemma_question_index(v, question@);
        }
        let q = question.to_owned();
        let mut k: usize = 0;
        while k < self.entries.len()
            invariant
                k <= self.entries.len(),
                v == entries_view(self.entries@),
                self.entries@ == old(self).entries@,
                self.fqa_path == old(self).fqa_path,
                q@ == question@,
                forall|i: int| 0 <= i < k ==> #[trigger] v[i].question != question@,
                -1 <= question_index(v, question@) < v.len(),
                question_index(v, question@) >= 0 ==> v[question_index(v, question@)].question
                    == question@,
                forall|i: int|
                    0 <= i < question_index(v, question@) ==> #[trigger] v[i].question
                        != question@,
                question_index(v, question@) < 0 ==> forall|i: int|
                    0 <= i < v.len() ==> #[trigger] v[i].question != question@,
            decreases self.entries.len() - k,
        {
            if self.entries[k].question == q {
                assert(v[k as int].question == self.entries@[k as int].question@);
                assert(v[k as int].question == question@);
                assert(question_index(v, question@) == k);
                let old_entry = self.entries.remove(k);
                self.entries.insert(
                    k,
                    FQAEntry {
                        question: q,
                        answer: answer.to_owned(),
                        embedding,
                        created_at: old_entry.created_at,
                        updated_at: now.to_owned(),
                    },
                );
                assert(entries_view(self.entries@) =~= added(v, question@, answer@, embedding, now@));
                return true;
            }
            k = k + 1;
        }
        assert(question_index(v, question@) < 0);
        self.entries.push(
            FQAEntry {
                question: q,
                answer: answer.to_owned(),
                embedding,
                created_at: now.to_owned(),
                updated_at: now.to_owned(),
            },
        );
        assert(entries_view(self.entries@) =~= added(v, question@, answer@, embedding, now@));
        false
    }
}

/// Adding keeps the questions distinct: each question is recorded once, so
/// adding the same question again updates its entry instead of repeating it.
pub proof fn lemma_add_keeps_questions_distinct<E>(
    entries: Seq<EntryView<E>>,
    question: Seq<char>,
    answer: Seq<char>,
    embedding: E,
    now: Seq<char>,
)
    requires
        questions_distinct(entries),
    ensures
        questions_distinct(added(entries, question, answer, embedding, now)),
        question_index(added(entries, question, answer, embedding, now), question) >= 0,
        added(entries, question, answer, embedding, now).len() == entries.len() + if question_index(
            entries,
            question,
        ) < 0 {
            1int
        } else {
            0int
        },
{
    lemma_question_index(entries, question);
    let r = added(entries, question, answer, embedding, now);
    lemma_question_index(r, question);
    let k = question_index(entries, question);
    if k < 0 {
        assert(r[entries.len() as int].question == question);
    } else {
        assert(r[k].question == question);
    }
}

} // verus!
