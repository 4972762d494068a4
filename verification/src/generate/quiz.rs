//! Practice quizzes at the fast tier, grounded in the notes of the topics they sample: which
//! topics may be asked about, the prompt, and the quiz made of the reply.
use vstd::prelude::*;

use crate::generate::questions::{question_view, sanitize_questions, sanitized, QuestionDraft};
use crate::generate::session::note_section;
use crate::knowledge::{join_parts, joined_with, note_exists, note_name_at, KnowledgeNote};
use crate::progress::{made_at, mastery_of, timestamped_id, Mastery};
use crate::quiz::{difficulty_prompt, Difficulty, Question, Quiz};
use crate::study::{min_nat, positions_where};
use crate::syllabus::{all_topics, topics_view, Subject, Topic, TopicV};
use crate::text::{chars_of, decimal, extend, replace, replace_str, string_of, strings_view};

verus! {

/// Per-topic slice of a knowledge note handed to the quiz generator.
pub const KNOWLEDGE_EXCERPT_CHARS: usize = 3500;

/// Backstop so a huge topic selection cannot overflow the process argument limit.
pub const MAX_PROMPT_CHARS: usize = 180_000;

/// What the student asks for.
pub struct QuizRequest {
    pub subject: String,
    /// Explicit topic selection; when absent (or empty), topics are sampled by weakness.
    pub topic_ids: Option<Vec<String>>,
    pub question_count: usize,
    pub difficulty: Difficulty,
}

/// Why a quiz could not be made.
#[derive(Clone, Copy, Debug, PartialEq, Eq, Structural)]
pub enum QuizError {
    /// No topic matched the selection.
    NoTopics,
    /// None of the selected topics has a knowledge note.
    NoKnowledge,
    /// None of the chosen topics' notes could be loaded.
    NoNotesLoaded,
    /// The generator returned no usable question.
    NoQuestions,
}

/// What the student is told when a quiz of `subject` cannot be made.
pub open spec fn quiz_error_text(e: QuizError, subject: Seq<char>) -> Seq<char> {
    match e {
        QuizError::NoTopics => "no topics matched the selection for subject '"@ + subject + "'"@,
        QuizError::NoKnowledge => "no knowledge notes exist for the selected topics — generate knowledge for '"@
            + subject + "' first"@,
        QuizError::NoNotesLoaded => "could not load any knowledge notes for the selected topics"@,
        QuizError::NoQuestions => "the generator returned no usable questions"@,
    }
}

impl QuizError {
    pub fn message(&self, subject: &str) -> (r: String)
        ensures
            r@ == quiz_error_text(*self, subject@),
    {
        let v: Vec<char> = match self {
            QuizError::NoTopics => {
                let mut v = chars_of("no topics matched the selection for subject '");
                extend(&mut v, &chars_of(subject));
                extend(&mut v, &chars_of("'"));
                v
            },
            QuizError::NoKnowledge => {
                let mut v = chars_of("no knowledge notes exist for the selected topics — generate knowledge for '");
                extend(&mut v, &chars_of(subject));
                extend(&mut v, &chars_of("' first"));
                v
            },
            QuizError::NoNotesLoaded => chars_of("could not load any knowledge notes for the selected topics"),
            QuizError::NoQuestions => chars_of("the generator returned no usable questions"),
        };
        string_of(&v)
    }
}

/// The topics a quiz may ask about, in syllabus order: those selected (all when nothing is
/// selected), restricted to the ones with a knowledge note among `note_names`, the file names
/// of the subject's knowledge folder.
pub open spec fn selected(ts: Seq<TopicV>, ids: Option<Seq<Seq<char>>>) -> Seq<TopicV> {
    match ids {
        Some(ids) if ids.len() > 0 => ts.filter(|t: TopicV| ids.contains(t.id)),
        _ => ts,
    }
}

pub open spec fn grounded(ts: Seq<TopicV>, names: Seq<Seq<char>>) -> Seq<TopicV> {
    ts.filter(|t: TopicV| note_name_at(names, t.section, t.index) is Some)
}

fn filter_selected(ts: &Vec<Topic>, ids: &[String]) -> (r: Vec<Topic>)
    ensures
        topics_view(r@) == topics_view(ts@).filter(|t: TopicV| strings_view(ids@).contains(t.id)),
{
    let ghost keep = |t: TopicV| strings_view(ids@).contains(t.id);
    let ghost tv = topics_view(ts@);
    let mut r: Vec<Topic> = Vec::new();
    let mut i: usize = 0;
    while i < ts.len()
        invariant
            keep == (|t: TopicV| strings_view(ids@).contains(t.id)),
            tv == topics_view(ts@),
            i <= ts@.len(),
            topics_view(r@) == tv.take(i as int).filter(keep),
        decreases ts@.len() - i,
    {
        let mut found = false;
        let mut j: usize = 0;
        while j < ids.len()
            invariant
                j <= ids@.len(),
                i < ts@.len(),
                found == (exists|k: int| 0 <= k < j && ids@[k]@ == ts@[i as int].id@),
            decreases ids@.len() - j,
        {
            if ids[j] == ts[i].id {
                found = true;
            }
            j += 1;
        }
        proof {
            if found {
                let k = choose|k: int| 0 <= k < j && ids@[k]@ == ts@[i as int].id@;
                assert(strings_view(ids@)[k] == ts@[i as int].id@);
            } else {
                assert forall|k: int| 0 <= k < strings_view(ids@).len() implies strings_view(ids@)[k]
                    != ts@[i as int].id@ by {
                    assert(strings_view(ids@)[k] == ids@[k]@);
                }
            }
            assert(tv.take(i + 1).drop_last() =~= tv.take(i as int));
            assert(tv[i as int] == ts@[i as int]@);
            reveal(Seq::filter);
        }
        let ghost before = topics_view(r@);
        if found {
            r.push(ts[i].clone());
            assert(topics_view(r@) =~= before.push(ts@[i as int]@));
        }
        i += 1;
    }
    assert(tv.take(ts@.len() as int) =~= tv);
    r
}

fn filter_grounded(ts: &Vec<Topic>, names: &[String]) -> (r: Vec<Topic>)
    ensures
        topics_view(r@) == grounded(topics_view(ts@), strings_view(names@)),
{
    let ghost keep = |t: TopicV| note_name_at(strings_view(names@), t.section, t.index) is Some;
    let ghost tv = topics_view(ts@);
    let mut r: Vec<Topic> = Vec::new();
    let mut i: usize = 0;
    while i < ts.len()
        invariant
            keep == (|t: TopicV| note_name_at(strings_view(names@), t.section, t.index) is Some),
            tv == topics_view(ts@),
            i <= ts@.len(),
            topics_view(r@) == tv.take(i as int).filter(keep),
        decreases ts@.len() - i,
    {
        let present = note_exists(names, &ts[i]);
        proof {
            assert(tv.take(i + 1).drop_last() =~= tv.take(i as int));
            assert(tv[i as int] == ts@[i as int]@);
            reveal(Seq::filter);
        }
        let ghost before = topics_view(r@);
        if present {
            r.push(ts[i].clone());
            assert(topics_view(r@) =~= before.push(ts@[i as int]@));
        }
        i += 1;
    }
    assert(tv.take(ts@.len() as int) =~= tv);
    r
}

/// The topics a quiz may ask about. Only topics with a knowledge note can be quizzed —
/// questions must be grounded.
pub fn quiz_candidates(subject: &Subject, topic_ids: Option<&[String]>, note_names: &[String]) -> (r: Result<
    Vec<Topic>,
    QuizError,
>)
    ensures
        ({
            let chosen = selected(
                all_topics(subject@),
                match topic_ids {
                    Some(ids) => Some(strings_view(ids@)),
                    None => None,
                },
            );
            let usable = grounded(chosen, strings_view(note_names@));
            match r {
                Ok(v) => chosen.len() > 0 && usable.len() > 0 && topics_view(v@) == usable,
                Err(e) => (chosen.len() == 0 && e == QuizError::NoTopics) || (chosen.len() > 0
                    && usable.len() == 0 && e == QuizError::NoKnowledge),
            }
        }),
{
    let all = subject.topics();
    let candidates = match topic_ids {
        Some(ids) => {
            if ids.len() > 0 {
                filter_selected(&all, ids)
            } else {
                all
            }
        },
        None => all,
    };
    if candidates.len() == 0 {
        return Err(QuizError::NoTopics);
    }
    let usable = filter_grounded(&candidates, note_names);
    if usable.len() == 0 {
        return Err(QuizError::NoKnowledge);
    }
    Ok(usable)
}

/// How many topics a quiz samples: roughly two questions per topic, kept within 1..=12, so
/// each note is actually used rather than skimmed.
pub open spec fn budget_for(question_count: nat) -> nat {
    let n = (question_count + 1) / 2;
    if n < 1 {
        1
    } else if n > 12 {
        12
    } else {
        n
    }
}

pub fn topic_budget(question_count: usize) -> (n: usize)
    requires
        question_count < usize::MAX,
    ensures
        n == budget_for(question_count as nat),
{
    let n = (question_count + 1) / 2;
    if n < 1 {
        1
    } else if n > 12 {
        12
    } else {
        n
    }
}

/// The number of bytes of `s` in UTF-8.
pub open spec fn utf8_len(s: Seq<char>) -> nat
    decreases s.len(),
{
    if s.len() == 0 {
        0
    } else {
        utf8_len(s.drop_last()) + char_width(s.last())
    }
}

pub open spec fn char_width(c: char) -> nat {
    if (c as u32) < 0x80 {
        1
    } else if (c as u32) < 0x800 {
        2
    } else if (c as u32) < 0x10000 {
        3
    } else {
        4
    }
}

fn utf8_len_of(s: &Vec<char>) -> (n: u64)
    requires
        s@.len() <= 180_000,
    ensures
        n == utf8_len(s@),
        n <= 4 * s@.len(),
{
    let mut n: u64 = 0;
    let mut i: usize = 0;
    while i < s.len()
        invariant
            i <= s@.len(),
            s@.len() <= 180_000,
            n == utf8_len(s@.take(i as int)),
            n <= 4 * i,
        decreases s@.len() - i,
    {
        proof {
            assert(s@.take(i + 1).drop_last() =~= s@.take(i as int));
            assert(s@.take(i + 1).last() == s@[i as int]);
        }
        let c = s[i] as u32;
        let w: u64 = if c < 0x80 {
            1
        } else if c < 0x800 {
            2
        } else if c < 0x10000 {
            3
        } else {
            4
        };
        n = n + w;
        i += 1;
    }
    assert(s@.take(s@.len() as int) =~= s@);
    n
}

/// The notes block of a quiz prompt and the topics it covers, over the first `k` chosen
/// topics: each topic whose note was loaded adds its id, title and the first 3500 characters
/// of the note, until the block would pass 180 000 bytes.
pub open spec fn quiz_block(ts: Seq<TopicV>, notes: Seq<Option<KnowledgeNote>>, k: nat) -> (Seq<char>, Seq<Seq<char>>, bool)
    decreases k,
{
    if k == 0 {
        (seq![], seq![], false)
    } else {
        let (block, ids, full) = quiz_block(ts, notes, (k - 1) as nat);
        if full {
            (block, ids, full)
        } else {
            match notes[k - 1] {
                None => (block, ids, false),
                Some(note) => {
                    let section = note_section(ts[k - 1].id, ts[k - 1].title, note.body@, 3500);
                    if utf8_len(block) + utf8_len(section) > 180_000 {
                        (block, ids, true)
                    } else {
                        (block + section, ids.push(ts[k - 1].id), false)
                    }
                },
            }
        }
    }
}

/// Build the notes block of a quiz prompt from the chosen topics and their notes (`None` where
/// there is none), and the ids of the topics it covers.
pub fn knowledge_block(chosen: &[Topic], notes: &[Option<KnowledgeNote>]) -> (r: Result<(String, Vec<String>), QuizError>)
    requires
        chosen@.len() == notes@.len(),
    ensures
        ({
            let (block, ids, _) = quiz_block(topics_view(chosen@), notes@, chosen@.len());
            match r {
                Ok((b, v)) => ids.len() > 0 && b@ == block && strings_view(v@) == ids,
                Err(e) => ids.len() == 0 && e == QuizError::NoNotesLoaded,
            }
        }),
{
    let ghost tv = topics_view(chosen@);
    let mut block: Vec<char> = Vec::new();
    let mut ids: Vec<String> = Vec::new();
    let mut bytes: u64 = 0;
    let mut full = false;
    let mut i: usize = 0;
    while i < chosen.len()
        invariant
            tv == topics_view(chosen@),
            chosen@.len() == notes@.len(),
            i <= chosen@.len(),
            (block@, strings_view(ids@), full) == quiz_block(tv, notes@, i as nat),
            bytes == utf8_len(block@),
            bytes <= 180_000,
        decreases chosen@.len() - i,
    {
        if !full {
            match &notes[i] {
                Some(note) => {
                    let mut section: Vec<char> = Vec::new();
                    crate::generate::session::push_section(
                        &mut section,
                        chosen[i].id.as_str(),
                        chosen[i].title.as_str(),
                        note.body.as_str(),
                        KNOWLEDGE_EXCERPT_CHARS,
                    );
                    proof {
                        assert(section@ =~= note_section(tv[i as int].id, tv[i as int].title, note.body@, 3500));
                    }
                    if section.len() > 180_000 {
                        full = true;
                        proof {
                            lemma_utf8_at_least(section@);
                        }
                    } else {
                        let w = utf8_len_of(&section);
                        if bytes + w > 180_000 {
                            full = true;
                        } else {
                            let ghost old_block = block@;
                            extend(&mut block, &section);
                            proof {
                                lemma_utf8_concat(old_block, section@);
                            }
                            bytes = bytes + w;
                            let ghost before = strings_view(ids@);
                            ids.push(chosen[i].id.clone());
                            assert(strings_view(ids@) =~= before.push(tv[i as int].id));
                        }
                    }
                },
                None => {},
            }
        }
        i += 1;
    }
    if ids.len() == 0 {
        return Err(QuizError::NoNotesLoaded);
    }
    Ok((string_of(&block), ids))
}

proof fn lemma_utf8_concat(a: Seq<char>, b: Seq<char>)
    ensures
        utf8_len(a + b) == utf8_len(a) + utf8_len(b),
    decreases b.len(),
{
    if b.len() == 0 {
        assert(a + b =~= a);
    } else {
        lemma_utf8_concat(a, b.drop_last());
        assert((a + b).drop_last() =~= a + b.drop_last());
        assert((a + b).last() == b.last());
    }
}

proof fn lemma_utf8_at_least(s: Seq<char>)
    ensures
        utf8_len(s) >= s.len(),
    decreases s.len(),
{
    if s.len() > 0 {
        lemma_utf8_at_least(s.drop_last());
    }
}


/// A topic the student keeps missing: answered at least once, and right less than 70% of the
/// time.
pub open spec fn is_weak(m: Option<crate::progress::MasteryV>) -> bool {
    m matches Some(e) && e.seen > 0 && 10 * e.correct < 7 * e.seen
}

/// The weak topics among those chosen, one `- title (id)` line each; `(none yet)` when
/// there is none.
pub open spec fn weak_block_of(es: Seq<crate::progress::MasteryV>, ts: Seq<TopicV>) -> Seq<char> {
    let weak = ts.filter(|t: TopicV| is_weak(mastery_of(es, t.id)));
    if weak.len() == 0 {
        "(none yet)"@
    } else {
        joined_with(weak.map_values(|t: TopicV| "- "@ + t.title + " ("@ + t.id + ")"@), "\n"@)
    }
}

pub fn weak_block(mastery: &Mastery, chosen: &[Topic]) -> (r: String)
    requires
        mastery.wf(),
    ensures
        r@ == weak_block_of(mastery.entries(), topics_view(chosen@)),
{
    let ghost es = mastery.entries();
    let ghost keep = |t: TopicV| is_weak(mastery_of(es, t.id));
    let ghost tv = topics_view(chosen@);
    let mut lines: Vec<Vec<char>> = Vec::new();
    let mut i: usize = 0;
    while i < chosen.len()
        invariant
            mastery.wf(),
            es == mastery.entries(),
            keep == (|t: TopicV| is_weak(mastery_of(es, t.id))),
            tv == topics_view(chosen@),
            i <= chosen@.len(),
            lines@.map_values(|v: Vec<char>| v@) == tv.take(i as int).filter(keep).map_values(
                |t: TopicV| "- "@ + t.title + " ("@ + t.id + ")"@,
            ),
        decreases chosen@.len() - i,
    {
        let t = &chosen[i];
        let weak = match mastery.get(t.id.as_str()) {
            Some(e) => e.seen > 0 && 10 * (e.correct as u64) < 7 * (e.seen as u64),
            None => false,
        };
        let ghost before = lines@.map_values(|v: Vec<char>| v@);
        proof {
            assert(tv.take(i + 1).drop_last() =~= tv.take(i as int));
            assert(tv[i as int] == t@);
            reveal(Seq::filter);
        }
        if weak {
            let mut line = chars_of("- ");
            extend(&mut line, &chars_of(t.title.as_str()));
            extend(&mut line, &chars_of(" ("));
            extend(&mut line, &chars_of(t.id.as_str()));
            extend(&mut line, &chars_of(")"));
            lines.push(line);
            proof {
                let f = |t: TopicV| "- "@ + t.title + " ("@ + t.id + ")"@;
                assert(tv.take(i + 1).filter(keep) =~= tv.take(i as int).filter(keep).push(t@));
                assert(lines@.map_values(|v: Vec<char>| v@) =~= before.push(f(t@)));
                assert(tv.take(i + 1).filter(keep).map_values(f) =~= tv.take(i as int).filter(keep).map_values(
                    f,
                ).push(f(t@)));
            }
        } else {
            proof {
                assert(tv.take(i + 1).filter(keep) =~= tv.take(i as int).filter(keep));
            }
        }
        i += 1;
    }
    proof {
        assert(tv.take(chosen@.len() as int) =~= tv);
    }
    if lines.len() == 0 {
        return string_of(&chars_of("(none yet)"));
    }
    string_of(&join_parts(&lines, "\n"))
}

/// Recent question stems as a bulleted list; `(none yet)` when there are none.
pub open spec fn recent_block_of(recent: Seq<Seq<char>>) -> Seq<char> {
    if recent.len() == 0 {
        "(none yet)"@
    } else {
        joined_with(recent.map_values(|q: Seq<char>| "- "@ + q), "\n"@)
    }
}

pub fn recent_block(recent: &Vec<String>) -> (r: String)
    ensures
        r@ == recent_block_of(strings_view(recent@)),
{
    if recent.len() == 0 {
        return string_of(&chars_of("(none yet)"));
    }
    let mut lines: Vec<Vec<char>> = Vec::new();
    let mut i: usize = 0;
    while i < recent.len()
        invariant
            i <= recent@.len(),
            lines@.map_values(|v: Vec<char>| v@) == strings_view(recent@).take(i as int).map_values(
                |q: Seq<char>| "- "@ + q,
            ),
        decreases recent@.len() - i,
    {
        let ghost before = lines@.map_values(|v: Vec<char>| v@);
        let mut line = chars_of("- ");
        extend(&mut line, &chars_of(recent[i].as_str()));
        lines.push(line);
        proof {
            let sv = strings_view(recent@);
            assert(sv.take(i + 1) =~= sv.take(i as int).push(sv[i as int]));
            assert(lines@.map_values(|v: Vec<char>| v@) =~= before.push("- "@ + sv[i as int]));
        }
        i += 1;
    }
    assert(strings_view(recent@).take(recent@.len() as int) =~= strings_view(recent@));
    string_of(&join_parts(&lines, "\n"))
}

/// The quiz prompt: the template with the question count, the notes block, the difficulty,
/// the weak topics and the recent questions filled in, in that order.
pub open spec fn quiz_prompt_of(
    template: Seq<char>,
    count: nat,
    block: Seq<char>,
    difficulty: Difficulty,
    weak: Seq<char>,
    recent: Seq<char>,
) -> Seq<char> {
    replace(
        replace(
            replace(
                replace(replace(template, "{{QUESTION_COUNT}}"@, decimal(count)), "{{KNOWLEDGE}}"@, block),
                "{{DIFFICULTY}}"@,
                difficulty_prompt(difficulty),
            ),
            "{{WEAK_TOPICS}}"@,
            weak,
        ),
        "{{RECENT_QUESTIONS}}"@,
        recent,
    )
}

pub fn quiz_prompt(
    template: &str,
    question_count: usize,
    block: &str,
    difficulty: Difficulty,
    weak: &str,
    recent: &str,
) -> (r: String)
    ensures
        r@ == quiz_prompt_of(template@, question_count as nat, block@, difficulty, weak@, recent@),
{
    proof {
        reveal_strlit("{{QUESTION_COUNT}}");
        reveal_strlit("{{KNOWLEDGE}}");
        reveal_strlit("{{DIFFICULTY}}");
        reveal_strlit("{{WEAK_TOPICS}}");
        reveal_strlit("{{RECENT_QUESTIONS}}");
    }
    let count = crate::text::decimal_string(question_count as u64);
    let a = replace_str(template, "{{QUESTION_COUNT}}", count.as_str());
    let b = replace_str(a.as_str(), "{{KNOWLEDGE}}", block);
    let c = replace_str(b.as_str(), "{{DIFFICULTY}}", difficulty.as_prompt());
    let d = replace_str(c.as_str(), "{{WEAK_TOPICS}}", weak);
    replace_str(d.as_str(), "{{RECENT_QUESTIONS}}", recent)
}

/// The title of a quiz: the subject's, then how many questions it has.
pub open spec fn quiz_title_of(subject_title: Seq<char>, n: nat) -> Seq<char> {
    subject_title + " — "@ + decimal(n) + " питань"@
}

/// The quiz made of the generator's reply: its usable questions over the topics the prompt
/// covered, with a fresh id and the current time, titled after the subject and the number of
/// questions.
pub fn make_quiz(
    subject: &Subject,
    request: &QuizRequest,
    model: String,
    topic_ids: Vec<String>,
    drafts: Vec<QuestionDraft>,
) -> (r: Result<Quiz, QuizError>)
    requires
        drafts@.len() < u64::MAX,
    ensures
        ({
            let qs = sanitized(drafts@, strings_view(topic_ids@));
            match r {
                Ok(q) => {
                    &&& qs.len() > 0
                    &&& q.questions@.map_values(|x: Question| question_view(x)) == qs
                    &&& q.subject == request.subject
                    &&& q.title@ == quiz_title_of(subject.title@, qs.len())
                    &&& made_at(q.id@, q.created_at@)
                    &&& q.model == model
                    &&& q.difficulty == request.difficulty
                    &&& q.topic_ids == topic_ids
                },
                Err(e) => qs.len() == 0 && e == QuizError::NoQuestions,
            }
        }),
{
    let questions = sanitize_questions(drafts, topic_ids.as_slice());
    if questions.len() == 0 {
        proof {
            assert(questions@.map_values(|x: Question| question_view(x)).len() == 0);
        }
        return Err(QuizError::NoQuestions);
    }
    let mut title = chars_of(subject.title.as_str());
    extend(&mut title, &chars_of(" — "));
    crate::text::push_decimal(&mut title, questions.len() as u64);
    extend(&mut title, &chars_of(" питань"));
    proof {
        assert(title@ =~= quiz_title_of(subject.title@, questions@.len() as nat));
    }
    let (id, created_at) = timestamped_id();
    Ok(
        Quiz {
            id,
            subject: request.subject.clone(),
            title: string_of(&title),
            created_at,
            model,
            difficulty: request.difficulty,
            topic_ids,
            questions,
        },
    )
}

/// Grade an attempt at a quiz: see `record_attempt`.
pub fn grade(
    quiz: &Quiz,
    selections: &[(String, Vec<usize>)],
    hints_used: &[String],
    mastery: &mut Mastery,
) -> (r: crate::progress::AttemptResult)
    requires
        old(mastery).wf(),
        crate::progress::fold_fits(
            old(mastery).entries(),
            crate::progress::graded_all(quiz.questions@, selections@, hints_used@),
        ),
    ensures
        crate::progress::answers_view(r.attempt.answers@) == crate::progress::graded_all(
            quiz.questions@,
            selections@,
            hints_used@,
        ),
        r.attempt.quiz_id == quiz.id,
        r.total == quiz.questions@.len(),
        r.correct == crate::progress::count_correct(crate::progress::answers_view(r.attempt.answers@)),
        r.score_percent == crate::study::rounded_percent(r.correct as nat, r.total as nat),
        final(mastery).wf(),
        exists|now: Seq<char>|
            crate::time::clock_text(now) && #[trigger] crate::progress::folds_to(
                old(mastery).entries(),
                final(mastery).entries(),
                crate::progress::answers_view(r.attempt.answers@),
                now,
            ),
{
    crate::progress::record_attempt(quiz, selections, hints_used, mastery)
}

} // verus!
