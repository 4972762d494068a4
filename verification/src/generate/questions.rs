//! The question shape the quiz and session generators share, and the check that drops what
//! the model got structurally wrong.
use vstd::prelude::*;

use crate::quiz::{Difficulty, Question, QuestionKind};
use crate::study::positions_where;
use crate::text::{chars_of, decimal, push_decimal, string_of, strings_view, trim, trim_string};

verus! {

/// The generator only ever labels a question easy/medium/hard; `mixed` is a request, not a
/// property of a question.
#[derive(Clone, Copy, Debug, PartialEq, Eq, Structural)]
pub enum DraftDifficulty {
    Easy,
    Medium,
    Hard,
}

pub open spec fn difficulty_of(d: DraftDifficulty) -> Difficulty {
    match d {
        DraftDifficulty::Easy => Difficulty::Easy,
        DraftDifficulty::Medium => Difficulty::Medium,
        DraftDifficulty::Hard => Difficulty::Hard,
    }
}

impl From<DraftDifficulty> for Difficulty {
    fn from(value: DraftDifficulty) -> (r: Difficulty) {
        match value {
            DraftDifficulty::Easy => Difficulty::Easy,
            DraftDifficulty::Medium => Difficulty::Medium,
            DraftDifficulty::Hard => Difficulty::Hard,
        }
    }
}

impl vstd::std_specs::convert::FromSpecImpl<DraftDifficulty> for Difficulty {
    open spec fn obeys_from_spec() -> bool {
        true
    }

    open spec fn from_spec(value: DraftDifficulty) -> Difficulty {
        difficulty_of(value)
    }
}

/// A question as the generator wrote it, before any check.
pub struct QuestionDraft {
    pub topic_id: String,
    pub kind: QuestionKind,
    pub question: String,
    pub options: Vec<String>,
    pub correct: Vec<usize>,
    pub explanation: String,
    pub difficulty: DraftDifficulty,
}

/// The options a draft marks correct that exist, each once, in ascending order.
pub open spec fn valid_answers(correct: Seq<usize>, n: nat) -> Seq<int> {
    positions_where(n, |k: int| correct.contains(k as usize))
}

/// A draft can be asked: at least two options, a question that is not blank, and a set of
/// correct options that is neither empty nor all of them.
pub open spec fn answerable(d: QuestionDraft) -> bool {
    let c = valid_answers(d.correct@, d.options@.len());
    &&& d.options@.len() >= 2
    &&& trim(d.question@).len() > 0
    &&& c.len() > 0
    &&& c.len() != d.options@.len()
}

/// The question made of draft `d` at position `i` of the generator's list.
pub open spec fn question_from(d: QuestionDraft, i: nat, topic_ids: Seq<Seq<char>>) -> QuestionView {
    let c = valid_answers(d.correct@, d.options@.len());
    QuestionView {
        id: seq!['q'] + decimal(i + 1),
        topic_id: if topic_ids.contains(d.topic_id@) {
            d.topic_id@
        } else if topic_ids.len() > 0 {
            topic_ids[0]
        } else {
            seq![]
        },
        kind: if c.len() > 1 {
            QuestionKind::Multi
        } else {
            QuestionKind::Single
        },
        question: trim(d.question@),
        options: d.options@.map_values(|o: String| trim(o@)),
        correct: c,
        explanation: trim(d.explanation@),
        difficulty: difficulty_of(d.difficulty),
    }
}

/// A question as plain values.
pub struct QuestionView {
    pub id: Seq<char>,
    pub topic_id: Seq<char>,
    pub kind: QuestionKind,
    pub question: Seq<char>,
    pub options: Seq<Seq<char>>,
    pub correct: Seq<int>,
    pub explanation: Seq<char>,
    pub difficulty: Difficulty,
}

pub open spec fn question_view(q: Question) -> QuestionView {
    QuestionView {
        id: q.id@,
        topic_id: q.topic_id@,
        kind: q.kind,
        question: q.question@,
        options: strings_view(q.options@),
        correct: q.correct@.map_values(|k: usize| k as int),
        explanation: q.explanation@,
        difficulty: q.difficulty,
    }
}

/// The questions kept from `drafts`, in order: each answerable draft, numbered by its place
/// among all the drafts.
pub open spec fn sanitized(drafts: Seq<QuestionDraft>, topic_ids: Seq<Seq<char>>) -> Seq<QuestionView>
    decreases drafts.len(),
{
    if drafts.len() == 0 {
        seq![]
    } else {
        let d = drafts.last();
        let i = (drafts.len() - 1) as nat;
        sanitized(drafts.drop_last(), topic_ids) + if answerable(d) {
            seq![question_from(d, i, topic_ids)]
        } else {
            seq![]
        }
    }
}

fn answers_in_range(correct: &Vec<usize>, n: usize) -> (r: Vec<usize>)
    ensures
        r@.map_values(|k: usize| k as int) == valid_answers(correct@, n as nat),
{
    let ghost p = |k: int| correct@.contains(k as usize);
    let mut r: Vec<usize> = Vec::new();
    let mut k: usize = 0;
    while k < n
        invariant
            k <= n,
            p == (|k: int| correct@.contains(k as usize)),
            r@.map_values(|x: usize| x as int) == positions_where(k as nat, p),
        decreases n - k,
    {
        let mut j: usize = 0;
        let mut found = false;
        while j < correct.len()
            invariant
                j <= correct@.len(),
                found == (exists|i: int| 0 <= i < j && correct@[i] == k),
            decreases correct@.len() - j,
        {
            if correct[j] == k {
                found = true;
            }
            j += 1;
        }
        let ghost before = r@.map_values(|x: usize| x as int);
        if found {
            r.push(k);
            proof {
                let i = choose|i: int| 0 <= i < correct@.len() && correct@[i] == k;
                assert(correct@.contains(k));
                assert(r@.map_values(|x: usize| x as int) =~= before.push(k as int));
            }
        } else {
            proof {
                assert(!correct@.contains(k));
            }
        }
        assert(r@.map_values(|x: usize| x as int) =~= positions_where((k + 1) as nat, p));
        k += 1;
    }
    r
}

fn trim_all(v: &Vec<String>) -> (r: Vec<String>)
    ensures
        strings_view(r@) == v@.map_values(|o: String| trim(o@)),
{
    let mut r: Vec<String> = Vec::new();
    let mut i: usize = 0;
    while i < v.len()
        invariant
            i <= v@.len(),
            strings_view(r@) == v@.take(i as int).map_values(|o: String| trim(o@)),
        decreases v@.len() - i,
    {
        let ghost before = strings_view(r@);
        r.push(trim_string(v[i].as_str()));
        proof {
            assert(strings_view(r@) =~= before.push(trim(v@[i as int]@)));
            assert(v@.take(i + 1) =~= v@.take(i as int).push(v@[i as int]));
        }
        i += 1;
    }
    assert(v@.take(v@.len() as int) =~= v@);
    r
}

fn contains_id(ids: &[String], id: &String) -> (b: bool)
    ensures
        b == strings_view(ids@).contains(id@),
{
    let mut k: usize = 0;
    while k < ids.len()
        invariant
            k <= ids@.len(),
            forall|j: int| 0 <= j < k ==> ids@[j]@ != id@,
        decreases ids@.len() - k,
    {
        if ids[k] == *id {
            assert(strings_view(ids@)[k as int] == id@);
            return true;
        }
        k += 1;
    }
    assert forall|j: int| 0 <= j < strings_view(ids@).len() implies strings_view(ids@)[j] != id@ by {
        assert(strings_view(ids@)[j] == ids@[j]@);
    }
    false
}

/// Drop questions the model got structurally wrong rather than shipping a quiz that cannot
/// be answered correctly. Kept questions are numbered `q1`, `q2`, … by their place among the
/// drafts; their correct options are the valid ones, each once, ascending; their kind follows
/// the shape of that answer rather than the model's own label; and a topic the request did not
/// name falls back to the first one it did.
pub fn sanitize_questions(drafts: Vec<QuestionDraft>, topic_ids: &[String]) -> (r: Vec<Question>)
    requires
        drafts@.len() < u64::MAX,
    ensures
        r@.map_values(|q: Question| question_view(q)) == sanitized(drafts@, strings_view(topic_ids@)),
{
    let ghost ids = strings_view(topic_ids@);
    let ghost all = drafts@;
    let mut out: Vec<Question> = Vec::new();
    let mut index: usize = 0;
    while index < drafts.len()
        invariant
            ids == strings_view(topic_ids@),
            all == drafts@,
            drafts@.len() < u64::MAX,
            index <= drafts@.len(),
            out@.map_values(|q: Question| question_view(q)) == sanitized(all.take(index as int), ids),
        decreases drafts@.len() - index,
    {
        let d = &drafts[index];
        proof {
            assert(all.take(index + 1).drop_last() =~= all.take(index as int));
            assert(all.take(index + 1).last() == *d);
        }
        let question_chars = crate::text::trim_chars(&chars_of(d.question.as_str()));
        let correct = answers_in_range(&d.correct, d.options.len());
        if d.options.len() >= 2 && question_chars.len() > 0 && correct.len() > 0 && correct.len()
            != d.options.len() {
            let mut id: Vec<char> = Vec::new();
            id.push('q');
            push_decimal(&mut id, (index + 1) as u64);
            let topic_id = if contains_id(topic_ids, &d.topic_id) {
                d.topic_id.clone()
            } else if topic_ids.len() > 0 {
                topic_ids[0].clone()
            } else {
                String::new()
            };
            let kind = if correct.len() > 1 {
                QuestionKind::Multi
            } else {
                QuestionKind::Single
            };
            let q = Question {
                id: string_of(&id),
                topic_id,
                kind,
                question: string_of(&question_chars),
                options: trim_all(&d.options),
                correct,
                explanation: trim_string(d.explanation.as_str()),
                difficulty: Difficulty::from(d.difficulty),
            };
            let ghost before = out@.map_values(|q: Question| question_view(q));
            out.push(q);
            proof {
                assert(ids.len() > 0 ==> ids[0] == topic_ids@[0]@);
                assert(question_view(q) == question_from(*d, index as nat, ids));
                assert(out@.map_values(|q: Question| question_view(q)) =~= before.push(question_view(q)));
            }
        } else {
            proof {
                assert(!answerable(*d));
            }
        }
        index += 1;
    }
    assert(all.take(drafts@.len() as int) =~= all);
    out
}

/// Every question kept can be answered correctly: it offers at least two options, names at
/// least one of them and not all of them as correct, each existing option once in ascending
/// order; it is `Multi` exactly when more than one option is correct; and it belongs to one of
/// the requested topics whenever any was requested.
pub proof fn lemma_kept_questions_can_be_answered(drafts: Seq<QuestionDraft>, topic_ids: Seq<Seq<char>>, k: int)
    requires
        0 <= k < sanitized(drafts, topic_ids).len(),
    ensures
        ({
            let q = sanitized(drafts, topic_ids)[k];
            &&& q.options.len() >= 2
            &&& 0 < q.correct.len() < q.options.len()
            &&& forall|i: int| 0 <= i < q.correct.len() ==> 0 <= #[trigger] q.correct[i] < q.options.len()
            &&& forall|i: int, j: int| 0 <= i < j < q.correct.len() ==> q.correct[i] < q.correct[j]
            &&& (q.kind == QuestionKind::Multi) == (q.correct.len() > 1)
            &&& topic_ids.len() > 0 ==> topic_ids.contains(q.topic_id)
        }),
    decreases drafts.len(),
{
    let prev = sanitized(drafts.drop_last(), topic_ids);
    if k < prev.len() {
        lemma_kept_questions_can_be_answered(drafts.drop_last(), topic_ids, k);
        assert(sanitized(drafts, topic_ids)[k] == prev[k]);
    } else {
        let d = drafts.last();
        let n = d.options@.len();
        let p = |x: int| d.correct@.contains(x as usize);
        let q = sanitized(drafts, topic_ids)[k];
        assert(answerable(d));
        assert(q == question_from(d, (drafts.len() - 1) as nat, topic_ids));
        assert(q.correct == positions_where(n, p));
        assert(q.options.len() == n);
        assert(valid_answers(d.correct@, n) == positions_where(n, p));
        crate::study::lemma_positions_where_bounds(n, p);
        assert forall|i: int| 0 <= i < q.correct.len() implies 0 <= #[trigger] q.correct[i] < q.options.len() by {
            crate::study::lemma_positions_where_holds(n, p, i);
        }
        assert forall|i: int, j: int| 0 <= i < j < q.correct.len() implies q.correct[i] < q.correct[j] by {
            crate::study::lemma_positions_where_ascending(n, p, i, j);
        }
        if topic_ids.len() > 0 && !topic_ids.contains(d.topic_id@) {
            assert(topic_ids[0] == topic_ids[0]);
            assert(topic_ids.contains(topic_ids[0]));
        }
    }
}

} // verus!
