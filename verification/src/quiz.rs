//! Quizzes: their questions, how an answer is graded, and what a listing shows of them.
use vstd::prelude::*;

use crate::text::{clone_strings, strings_view};

verus! {

#[derive(Clone, Copy, Debug, PartialEq, Eq, Structural)]
pub enum QuestionKind {
    Single,
    Multi,
}

#[derive(Clone, Copy, Debug, PartialEq, Eq, Structural)]
pub enum Difficulty {
    Easy,
    Medium,
    Hard,
    /// Let the generator mix all three.
    Mixed,
}

/// How each difficulty is described to the question generator.
pub open spec fn difficulty_prompt(d: Difficulty) -> Seq<char> {
    match d {
        Difficulty::Easy => "easy — recall of definitions and basic facts"@,
        Difficulty::Medium => "medium — understanding, comparison and application"@,
        Difficulty::Hard => "hard — subtle distinctions, edge cases and multi-step reasoning"@,
        Difficulty::Mixed => "mixed — roughly one third easy, one third medium, one third hard"@,
    }
}

impl Difficulty {
    pub fn as_prompt(self) -> (r: &'static str)
        ensures
            r@ == difficulty_prompt(self),
    {
        match self {
            Difficulty::Easy => "easy — recall of definitions and basic facts",
            Difficulty::Medium => "medium — understanding, comparison and application",
            Difficulty::Hard => "hard — subtle distinctions, edge cases and multi-step reasoning",
            Difficulty::Mixed => "mixed — roughly one third easy, one third medium, one third hard",
        }
    }
}

pub struct Question {
    pub id: String,
    pub topic_id: String,
    pub kind: QuestionKind,
    pub question: String,
    pub options: Vec<String>,
    /// 0-based indices into `options`.
    pub correct: Vec<usize>,
    pub explanation: String,
    pub difficulty: Difficulty,
}

impl Clone for Question {
    fn clone(&self) -> (r: Self)
        ensures
            r.id == self.id,
            r.topic_id == self.topic_id,
            r.kind == self.kind,
            r.question == self.question,
            r.options@ == self.options@,
            r.correct@ == self.correct@,
            r.explanation == self.explanation,
            r.difficulty == self.difficulty,
    {
        Question {
            id: self.id.clone(),
            topic_id: self.topic_id.clone(),
            kind: self.kind,
            question: self.question.clone(),
            options: clone_strings(&self.options),
            correct: self.correct.clone(),
            explanation: self.explanation.clone(),
            difficulty: self.difficulty,
        }
    }
}

/// Two answers name the same options, whatever their order and however often each is named.
pub open spec fn same_choice(expected: Seq<usize>, got: Seq<usize>) -> bool {
    expected.to_set() == got.to_set()
}

/// Grading looks only at which options were chosen: two selections naming the same options,
/// in any order and with any repeats, are graded alike, and the correct options themselves are
/// always graded right.
pub proof fn lemma_grading_ignores_order_and_duplicates(q: Question, a: Seq<usize>, b: Seq<usize>)
    requires
        a.to_set() == b.to_set(),
    ensures
        same_choice(q.correct@, a) == same_choice(q.correct@, b),
        same_choice(q.correct@, q.correct@),
{
}

/// Every index of `a` occurs in `b`.
fn all_within(a: &[usize], b: &[usize]) -> (r: bool)
    ensures
        r == (forall|i: int| 0 <= i < a@.len() ==> b@.contains(#[trigger] a@[i])),
{
    let mut i: usize = 0;
    while i < a.len()
        invariant
            i <= a@.len(),
            forall|k: int| 0 <= k < i ==> b@.contains(#[trigger] a@[k]),
        decreases a@.len() - i,
    {
        let mut j: usize = 0;
        let mut found = false;
        while j < b.len()
            invariant
                i < a@.len(),
                j <= b@.len(),
                found == (exists|k: int| 0 <= k < j && b@[k] == a@[i as int]),
            decreases b@.len() - j,
        {
            if b[j] == a[i] {
                found = true;
            }
            j += 1;
        }
        if !found {
            assert(!b@.contains(a@[i as int]));
            return false;
        }
        i += 1;
    }
    true
}

impl Question {
    /// Whether `selected` names exactly the correct options.
    pub fn is_correct(&self, selected: &[usize]) -> (r: bool)
        ensures
            r == same_choice(self.correct@, selected@),
    {
        let forward = all_within(self.correct.as_slice(), selected);
        let backward = all_within(selected, self.correct.as_slice());
        proof {
            let e = self.correct@.to_set();
            let g = selected@.to_set();
            if forward && backward {
                assert forall|x: usize| e.contains(x) <==> g.contains(x) by {
                    if e.contains(x) {
                        let i = self.correct@.index_of(x);
                        assert(selected@.contains(self.correct@[i]));
                    }
                    if g.contains(x) {
                        let i = selected@.index_of(x);
                        assert(self.correct@.contains(selected@[i]));
                    }
                }
                assert(e =~= g);
            } else if !forward {
                let i = choose|i: int| 0 <= i < self.correct@.len() && !selected@.contains(self.correct@[i]);
                assert(e.contains(self.correct@[i]));
                assert(!g.contains(self.correct@[i]));
            } else {
                let i = choose|i: int| 0 <= i < selected@.len() && !self.correct@.contains(selected@[i]);
                assert(g.contains(selected@[i]));
                assert(!e.contains(selected@[i]));
            }
        }
        forward && backward
    }
}

pub struct Quiz {
    pub id: String,
    pub subject: String,
    pub title: String,
    pub created_at: String,
    pub model: String,
    pub difficulty: Difficulty,
    pub topic_ids: Vec<String>,
    pub questions: Vec<Question>,
}

/// Enough to render a quiz list without loading every question.
pub struct QuizSummary {
    pub id: String,
    pub subject: String,
    pub title: String,
    pub created_at: String,
    pub question_count: usize,
    pub difficulty: Difficulty,
}

impl<'a> From<&'a Quiz> for QuizSummary {
    fn from(quiz: &'a Quiz) -> (r: Self) {
        QuizSummary {
            id: quiz.id.clone(),
            subject: quiz.subject.clone(),
            title: quiz.title.clone(),
            created_at: quiz.created_at.clone(),
            question_count: quiz.questions.len(),
            difficulty: quiz.difficulty,
        }
    }
}

impl<'a> vstd::std_specs::convert::FromSpecImpl<&'a Quiz> for QuizSummary {
    open spec fn obeys_from_spec() -> bool {
        true
    }

    open spec fn from_spec(quiz: &'a Quiz) -> Self {
        QuizSummary {
            id: quiz.id,
            subject: quiz.subject,
            title: quiz.title,
            created_at: quiz.created_at,
            question_count: quiz.questions@.len() as usize,
            difficulty: quiz.difficulty,
        }
    }
}

/// The question texts of `quizzes`, in order.
pub open spec fn question_texts(quizzes: Seq<Quiz>) -> Seq<Seq<char>>
    decreases quizzes.len(),
{
    if quizzes.len() == 0 {
        seq![]
    } else {
        question_texts(quizzes.drop_last()) + quizzes.last().questions@.map_values(
            |q: Question| q.question@,
        )
    }
}

/// The stems fed back into generation: the question texts of the five newest quizzes, cut
/// after `limit` of them (at least one is always kept when there is any).
pub open spec fn recent_texts(quizzes: Seq<Quiz>, limit: nat) -> Seq<Seq<char>> {
    let all = question_texts(quizzes.take(if quizzes.len() <= 5 { quizzes.len() as int } else { 5 }));
    let keep: nat = if limit == 0 { 1 } else { limit };
    if all.len() <= keep {
        all
    } else {
        all.take(keep as int)
    }
}

/// Question stems from the most recent quizzes, fed back into generation so the model stops
/// asking the same thing every time. `quizzes` holds the readable quizzes, newest first.
pub fn recent_question_texts(quizzes: &[Quiz], limit: usize) -> (r: Vec<String>)
    ensures
        strings_view(r@) == recent_texts(quizzes@, limit as nat),
{
    let ghost five = quizzes@.take(if quizzes@.len() <= 5 { quizzes@.len() as int } else { 5 });
    let ghost keep: nat = if limit == 0 { 1 } else { limit as nat };
    let count = if quizzes.len() <= 5 {
        quizzes.len()
    } else {
        5
    };
    let mut out: Vec<String> = Vec::new();
    let mut i: usize = 0;
    while i < count
        invariant
            count <= quizzes@.len(),
            five == quizzes@.take(count as int),
            count as int == (if quizzes@.len() <= 5 {
                quizzes@.len() as int
            } else {
                5
            }),
            keep == (if limit == 0 { 1 } else { limit as nat }),
            i <= count,
            strings_view(out@) == question_texts(five.take(i as int)),
            out@.len() < keep,
        decreases count - i,
    {
        let qs = &quizzes[i].questions;
        let ghost before = strings_view(out@);
        let mut j: usize = 0;
        while j < qs.len()
            invariant
                i < count <= quizzes@.len(),
                five == quizzes@.take(count as int),
                count as int == (if quizzes@.len() <= 5 {
                    quizzes@.len() as int
                } else {
                    5
                }),
            count as int == (if quizzes@.len() <= 5 {
                quizzes@.len() as int
            } else {
                5
            }),
                before == question_texts(five.take(i as int)),
                qs == quizzes@[i as int].questions,
                keep == (if limit == 0 { 1 } else { limit as nat }),
                j <= qs@.len(),
                strings_view(out@) == before + qs@.take(j as int).map_values(|q: Question| q.question@),
                out@.len() < keep,
            decreases qs@.len() - j,
        {
            let ghost prev = strings_view(out@);
            out.push(qs[j].question.clone());
            proof {
                assert(strings_view(out@) =~= prev.push(qs@[j as int].question@));
                assert(qs@.take(j + 1) =~= qs@.take(j as int).push(qs@[j as int]));
                assert(strings_view(out@) =~= before + qs@.take(j + 1).map_values(
                    |q: Question| q.question@,
                ));
            }
            if out.len() >= limit {
                proof {
                    let all = question_texts(five);
                    let head = five.take(i + 1);
                    let tail = five.skip(i + 1);
                    assert(five =~= head + tail);
                    lemma_texts_concat(head, tail);
                    assert(head.drop_last() =~= five.take(i as int));
                    assert(head.last() == quizzes@[i as int]);
                    let mapped = qs@.map_values(|q: Question| q.question@);
                    assert(qs@.take(j + 1).map_values(|q: Question| q.question@) =~= mapped.take(j + 1));
                    let o = strings_view(out@);
                    assert(o.len() == keep);
                    assert(all =~= question_texts(five.take(i as int)) + mapped + question_texts(tail));
                    assert forall|k: int| 0 <= k < o.len() implies all[k] == o[k] by {
                        if k >= question_texts(five.take(i as int)).len() {
                            let kk = k - question_texts(five.take(i as int)).len();
                            assert(o[k] == mapped.take(j + 1)[kk]);
                        }
                    }
                    assert(all.take(keep as int) =~= o);
                    assert(all.len() >= keep);
                    if all.len() <= keep {
                        assert(all =~= o);
                    }
                    assert(five == quizzes@.take(
                        if quizzes@.len() <= 5 {
                            quizzes@.len() as int
                        } else {
                            5
                        },
                    ));
                    assert(recent_texts(quizzes@, limit as nat) == o);
                }
                return out;
            }
            j += 1;
        }
        proof {
            assert(qs@.take(qs@.len() as int) =~= qs@);
            assert(five.take(i + 1).drop_last() =~= five.take(i as int));
            assert(five.take(i + 1).last() == quizzes@[i as int]);
        }
        i += 1;
    }
    proof {
        assert(five.take(count as int) =~= five);
        assert(strings_view(out@).len() < keep);
    }
    out
}

/// The texts of two runs of quizzes are the texts of the first, then those of the second.
pub proof fn lemma_texts_concat(a: Seq<Quiz>, b: Seq<Quiz>)
    ensures
        question_texts(a + b) == question_texts(a) + question_texts(b),
    decreases b.len(),
{
    if b.len() == 0 {
        assert(a + b =~= a);
        assert(question_texts(a) + question_texts(b) =~= question_texts(a));
    } else {
        lemma_texts_concat(a, b.drop_last());
        assert((a + b).drop_last() =~= a + b.drop_last());
        assert((a + b).last() == b.last());
        assert(question_texts(a + b) =~= question_texts(a) + question_texts(b));
    }
}

} // verus!
