//! Study sessions: how a session trades depth for coverage, which topics it serves, the
//! prompts it sends, and how a finished one is scored and scheduled.
use vstd::prelude::*;

use crate::knowledge::{digest, digested, join_parts, joined_with, notes_view, KnowledgeNote, NoteV};
use crate::progress::{
    answered_on, answers_view, apply_answers, fold_fits, folds_to, grade_answers, graded_all,
    made_at, right_on, timestamped_id, AnswerRecord, AnswerV, Mastery,
};
use crate::quiz::Question;
use crate::study::{
    min_nat, plan_session, plan_spread, plan_sprint, planned, planned_at, planned_for, planned_view,
    positions_where, session_outcome, spread_outcome, sprint_outcome, PlannedTopic, PlannedV, Stage,
    StudyState, TopicStudyV, after_score, distinct_keys, fresh_entry, lookup, record_scores,
    rounded_percent, score_for, stage_of, takes_score, next_level, next_level_spec,
};
use crate::time::Clock;
use crate::syllabus::{topics_view, Topic};
use crate::text::{chars_of, cut_chars, decimal, extend, replace, replace_str, string_of, strings_view, trim, trim_string};
use crate::generate::questions::{question_view, sanitize_questions, sanitized, QuestionDraft, QuestionView};
use crate::time::{compact_stamp_of, format_compact, format_rfc3339, now, rfc3339_of, Now};

verus! {

/// Beyond this the single generation call has to cover too much ground, and the reading
/// stretch stops being one sitting.
pub const MAX_SESSION_TOPICS: usize = 6;

/// A sprint reads digests rather than full notes, so more topics still fit in one sitting and
/// in one generation call.
pub const MAX_SPRINT_TOPICS: usize = 10;

/// How a session trades depth for coverage.
///
/// The two costly halves of a session are reading the note and writing the answer, and the
/// modes cut them in that order: `Balanced` keeps the full note but drops the essay, and only
/// `Sprint` gives up the note itself.
#[derive(Clone, Copy, Debug, PartialEq, Eq, Structural)]
pub enum SessionMode {
    /// Full note, essay-length written answer, 4 quiz questions per topic.
    Full,
    /// Full note, recall as a short list, 4 quiz questions per topic.
    Balanced,
    /// Condensed note, recall as a short list, 3 quiz questions per topic.
    Sprint,
}

impl Default for SessionMode {
    fn default() -> (m: Self)
        ensures
            m == SessionMode::Full,
    {
        SessionMode::Full
    }
}

pub open spec fn max_topics_of(m: SessionMode) -> nat {
    match m {
        SessionMode::Full => 6,
        SessionMode::Balanced => 8,
        SessionMode::Sprint => 10,
    }
}

pub open spec fn questions_per_topic_of(m: SessionMode) -> nat {
    match m {
        SessionMode::Sprint => 3,
        _ => 4,
    }
}

pub open spec fn notes_kind_of(m: SessionMode) -> Seq<char> {
    if m == SessionMode::Sprint {
        "Condensed notes (summary, key terms and common traps only)"@
    } else {
        "Study notes"@
    }
}

pub open spec fn open_style_of(m: SessionMode) -> Seq<char> {
    if m == SessionMode::Full {
        "These imitate the oral/written exam, where the student gets three broad questions and has to develop an answer of several paragraphs. So each question must be **broad enough to require a structured answer** — a definition plus a mechanism, a classification, a comparison, or a worked application — and never answerable in one word."@
    } else {
        "Each asks the student to **recall the substance as a short list**, not to write prose. Phrase them so a telegraphic answer is clearly what you want, e.g. \"Перелічіть …\", \"Назвіть …\", \"Коротко зіставте …\". A complete answer should take 4-6 bullet points."@
    }
}

pub open spec fn quiz_style_of(m: SessionMode) -> Seq<char> {
    if m == SessionMode::Sprint {
        "Aim at the distinctions the student is most likely to confuse under time pressure, and keep `explanation` to one or two sentences — it is read at speed."@
    } else {
        "Vary what you ask for: definitions, classification, \"which statement is false\", ordering of stages, choosing the right method for a situation. `explanation`: 1-3 sentences on why the correct option is right."@
    }
}

pub open spec fn answer_style_of(m: SessionMode) -> Seq<char> {
    if m == SessionMode::Full {
        "The student was asked for a developed written answer of several paragraphs, as in the oral exam."@
    } else {
        "The student was asked to recall the substance as a short list, not as prose. Judge only whether the required points are named and correct. Do not deduct for telegraphic style, missing introductions, sentence fragments or absent connective prose — that form was requested."@
    }
}

impl SessionMode {
    /// How many topics one session of this mode holds at most.
    pub fn max_topics(self) -> (n: usize)
        ensures
            n == max_topics_of(self),
    {
        match self {
            SessionMode::Full => MAX_SESSION_TOPICS,
            SessionMode::Balanced => 8,
            SessionMode::Sprint => MAX_SPRINT_TOPICS,
        }
    }

    /// Only a sprint trades away the body of the note.
    pub fn reads_digest(self) -> (b: bool)
        ensures
            b == (self == SessionMode::Sprint),
    {
        match self {
            SessionMode::Sprint => true,
            _ => false,
        }
    }

    pub fn questions_per_topic(self) -> (n: usize)
        ensures
            n == questions_per_topic_of(self),
    {
        match self {
            SessionMode::Full | SessionMode::Balanced => 4,
            SessionMode::Sprint => 3,
        }
    }

    /// What the generator is told the reading material is.
    pub fn notes_kind(self) -> (s: &'static str)
        ensures
            s@ == notes_kind_of(self),
    {
        if self.reads_digest() {
            "Condensed notes (summary, key terms and common traps only)"
        } else {
            "Study notes"
        }
    }

    /// What kind of open questions the generator is asked for.
    pub fn open_style(self) -> (s: &'static str)
        ensures
            s@ == open_style_of(self),
    {
        match self {
            SessionMode::Full => "These imitate the oral/written exam, where the student gets three broad questions and has to develop an answer of several paragraphs. So each question must be **broad enough to require a structured answer** — a definition plus a mechanism, a classification, a comparison, or a worked application — and never answerable in one word.",
            SessionMode::Balanced | SessionMode::Sprint => "Each asks the student to **recall the substance as a short list**, not to write prose. Phrase them so a telegraphic answer is clearly what you want, e.g. \"Перелічіть …\", \"Назвіть …\", \"Коротко зіставте …\". A complete answer should take 4-6 bullet points.",
        }
    }

    /// What kind of quiz questions the generator is asked for.
    pub fn quiz_style(self) -> (s: &'static str)
        ensures
            s@ == quiz_style_of(self),
    {
        match self {
            SessionMode::Sprint => "Aim at the distinctions the student is most likely to confuse under time pressure, and keep `explanation` to one or two sentences — it is read at speed.",
            _ => "Vary what you ask for: definitions, classification, \"which statement is false\", ordering of stages, choosing the right method for a situation. `explanation`: 1-3 sentences on why the correct option is right.",
        }
    }

    /// Told to the grader, so a deliberately terse answer is not marked down for being terse.
    pub fn answer_style(self) -> (s: &'static str)
        ensures
            s@ == answer_style_of(self),
    {
        match self {
            SessionMode::Full => "The student was asked for a developed written answer of several paragraphs, as in the oral exam.",
            SessionMode::Balanced | SessionMode::Sprint => "The student was asked to recall the substance as a short list, not as prose. Judge only whether the required points are named and correct. Do not deduct for telegraphic style, missing introductions, sentence fragments or absent connective prose — that form was requested.",
        }
    }
}

/// How the topics for a session are chosen when they are not listed explicitly.
#[derive(Clone, Copy, Debug, PartialEq, Eq, Structural)]
pub enum Selection {
    /// Follow the review ladder (or, in a sprint, syllabus order over unseen topics).
    Scheduled,
    /// One topic from each part of the syllabus, the way an exam paper draws them.
    Spread,
}

impl Default for Selection {
    fn default() -> (s: Self)
        ensures
            s == Selection::Scheduled,
    {
        Selection::Scheduled
    }
}

// ---------------------------------------------------------------------------
// Scoring
// ---------------------------------------------------------------------------

/// A topic's score from its two halves: the written answer weighs 60%, the quiz 40%, rounded
/// to the nearest whole number; a half the student skipped does not count, and with both
/// skipped there is no score at all — skipping is not evidence of not knowing.
pub open spec fn combined_score(open: Option<u32>, quiz: Option<u32>) -> Option<nat> {
    match (open, quiz) {
        (Some(o), Some(q)) => Some(((6 * o + 4 * q + 5) / 10) as nat),
        (Some(s), None) => Some(s as nat),
        (None, Some(s)) => Some(s as nat),
        (None, None) => None,
    }
}

pub fn topic_score(open: Option<u32>, quiz: Option<u32>) -> (r: Option<u32>)
    ensures
        match combined_score(open, quiz) {
            Some(s) => r == Some(s as u32),
            None => r is None,
        },
{
    match (open, quiz) {
        (Some(o), Some(q)) => {
            let v: u64 = (6 * o as u64 + 4 * q as u64 + 5) / 10;
            Some(v as u32)
        },
        (Some(s), None) => Some(s),
        (None, Some(s)) => Some(s),
        (None, None) => None,
    }
}


// ---------------------------------------------------------------------------
// The session plan
// ---------------------------------------------------------------------------

/// An open question: what the student answers in writing for one topic.
pub struct OpenQuestion {
    pub topic_id: String,
    pub question: String,
    /// The grading rubric: what a complete answer has to contain.
    pub expected_points: Vec<String>,
}

/// An open question as the generator wrote it.
pub struct OpenQuestionDraft {
    pub topic_id: String,
    pub question: String,
    pub expected_points: Vec<String>,
}

pub struct SessionPlan {
    pub id: String,
    pub subject: String,
    pub created_at: String,
    pub mode: SessionMode,
    pub topics: Vec<PlannedTopic>,
    pub notes: Vec<KnowledgeNote>,
    /// What the student actually reads, aligned with `topics`: the full note, or its digest in
    /// a sprint.
    pub reading: Vec<String>,
    pub open_questions: Vec<OpenQuestion>,
    pub quiz: Vec<Question>,
}

/// A session that was started but never graded, as the resume list shows it.
pub struct SessionSummary {
    pub id: String,
    pub subject: String,
    pub created_at: String,
    pub topic_titles: Vec<String>,
}

/// The resume-list line of a stored session: its identity and its topics' titles, in order.
pub fn session_summary(plan: &SessionPlan) -> (s: SessionSummary)
    ensures
        s.id == plan.id,
        s.subject == plan.subject,
        s.created_at == plan.created_at,
        strings_view(s.topic_titles@) == plan.topics@.map_values(|p: PlannedTopic| p.topic.title@),
{
    let mut titles: Vec<String> = Vec::new();
    let mut i: usize = 0;
    while i < plan.topics.len()
        invariant
            i <= plan.topics@.len(),
            strings_view(titles@) == plan.topics@.take(i as int).map_values(|p: PlannedTopic| p.topic.title@),
        decreases plan.topics@.len() - i,
    {
        let ghost before = strings_view(titles@);
        titles.push(plan.topics[i].topic.title.clone());
        proof {
            assert(strings_view(titles@) =~= before.push(plan.topics@[i as int].topic.title@));
            assert(plan.topics@.take(i + 1) =~= plan.topics@.take(i as int).push(plan.topics@[i as int]));
        }
        i += 1;
    }
    assert(plan.topics@.take(plan.topics@.len() as int) =~= plan.topics@);
    SessionSummary {
        id: plan.id.clone(),
        subject: plan.subject.clone(),
        created_at: plan.created_at.clone(),
        topic_titles: titles,
    }
}

/// Why a session could not be planned or prepared.
#[derive(Clone, Copy, Debug, PartialEq, Eq, Structural)]
pub enum SessionError {
    /// No topic of the subject has a knowledge note yet.
    NoNotes,
    /// None of the topics the student chose has a knowledge note.
    NoneChosen,
    /// Every topic is scheduled for later.
    NothingDue,
    /// None of the planned topics' notes could be read.
    NotesUnreadable,
    /// The generator returned no usable quiz question.
    NoQuizQuestions,
}

/// What the student is told when a session cannot be planned or prepared for `subject`.
pub open spec fn session_error_text(e: SessionError, subject: Seq<char>) -> Seq<char> {
    match e {
        SessionError::NoNotes => "no knowledge notes exist for '"@ + subject
            + "' yet — generate them before studying"@,
        SessionError::NoneChosen => "none of the chosen topics has a knowledge note yet"@,
        SessionError::NothingDue => "nothing is due right now — every topic in this subject is scheduled for later"@,
        SessionError::NotesUnreadable => "could not load the knowledge notes for the planned topics"@,
        SessionError::NoQuizQuestions => "the generator returned no usable quiz questions for this session"@,
    }
}

impl SessionError {
    pub fn message(&self, subject: &str) -> (r: String)
        ensures
            r@ == session_error_text(*self, subject@),
    {
        let v: Vec<char> = match self {
            SessionError::NoNotes => {
                let mut v = chars_of("no knowledge notes exist for '");
                extend(&mut v, &chars_of(subject));
                extend(&mut v, &chars_of("' yet — generate them before studying"));
                v
            },
            SessionError::NoneChosen => chars_of("none of the chosen topics has a knowledge note yet"),
            SessionError::NothingDue => chars_of(
                "nothing is due right now — every topic in this subject is scheduled for later",
            ),
            SessionError::NotesUnreadable => chars_of("could not load the knowledge notes for the planned topics"),
            SessionError::NoQuizQuestions => chars_of(
                "the generator returned no usable quiz questions for this session",
            ),
        };
        string_of(&v)
    }
}

/// The topics the student chose, in syllabus order, at most `max` of them.
pub open spec fn chosen_topics(es: Seq<TopicStudyV>, cs: Seq<Topic>, ids: Seq<Seq<char>>, max: nat) -> Seq<
    PlannedV,
> {
    let ps = positions_where(cs.len(), |i: int| ids.contains(cs[i]@.id));
    planned_at(es, cs, ps.take(min_nat(max, ps.len()) as int))
}

/// `size` kept within `1..=max`.
pub open spec fn clamped(size: nat, max: nat) -> nat {
    if size < 1 {
        1
    } else if size > max {
        max
    } else {
        size
    }
}

/// What the scheduler may serve: a spread, a sprint's coverage-first order, or the review
/// ladder at some instant.
pub open spec fn scheduled(
    es: Seq<TopicStudyV>,
    cs: Seq<Topic>,
    size: nat,
    mode: SessionMode,
    selection: Selection,
    r: Seq<PlannedV>,
) -> bool {
    if selection == Selection::Spread {
        spread_outcome(es, topics_view(cs), size as int, r)
    } else if mode == SessionMode::Sprint {
        sprint_outcome(es, cs, size, r)
    } else {
        exists|now: Now| session_outcome(es, cs, size, now, r)
    }
}

fn contains_string(v: &[String], s: &String) -> (r: bool)
    ensures
        r == strings_view(v@).contains(s@),
{
    let mut k: usize = 0;
    while k < v.len()
        invariant
            k <= v@.len(),
            forall|j: int| 0 <= j < k ==> v@[j]@ != s@,
        decreases v@.len() - k,
    {
        if v[k] == *s {
            assert(strings_view(v@)[k as int] == s@);
            return true;
        }
        k += 1;
    }
    assert forall|j: int| 0 <= j < strings_view(v@).len() implies strings_view(v@)[j] != s@ by {
        assert(strings_view(v@)[j] == v@[j]@);
    }
    false
}

fn choose_listed(state: &StudyState, cs: &[Topic], ids: &[String], max: usize) -> (r: Vec<PlannedTopic>)
    requires
        state.wf(),
    ensures
        planned_view(r@) == chosen_topics(state.entries(), cs@, strings_view(ids@), max as nat),
{
    let ghost es = state.entries();
    let ghost p = |i: int| strings_view(ids@).contains(cs@[i]@.id);
    let mut r: Vec<PlannedTopic> = Vec::new();
    let mut i: usize = 0;
    let ghost mut ps: Seq<int> = Seq::empty();
    while i < cs.len()
        invariant
            state.wf(),
            es == state.entries(),
            p == (|i: int| strings_view(ids@).contains(cs@[i]@.id)),
            i <= cs@.len(),
            ps == positions_where(i as nat, p),
            r@.len() <= max,
            r@.len() == min_nat(max as nat, ps.len()),
            planned_view(r@) == planned_at(es, cs@, ps.take(r@.len() as int)),
        decreases cs@.len() - i,
    {
        let listed = contains_string(ids, &cs[i].id);
        let ghost before = planned_view(r@);
        let ghost old_ps = ps;
        proof {
            ps = positions_where((i + 1) as nat, p);
            if listed {
                assert(ps =~= old_ps.push(i as int));
            } else {
                assert(ps =~= old_ps);
            }
        }
        if listed && r.len() < max {
            r.push(planned_for(state, &cs[i]));
            proof {
                let t0 = old_ps.take(before.len() as int);
                assert(ps.take(r@.len() as int) =~= t0.push(i as int));
                assert(planned_view(r@) =~= before.push(planned(es, cs@[i as int]@)));
                assert(planned_at(es, cs@, t0.push(i as int)) =~= planned_at(es, cs@, t0).push(
                    planned(es, cs@[i as int]@),
                ));
                assert(planned_view(r@) =~= planned_at(es, cs@, ps.take(r@.len() as int)));
            }
        } else {
            proof {
                if listed {
                    assert(ps.take(r@.len() as int) =~= old_ps.take(r@.len() as int));
                }
            }
        }
        i += 1;
    }
    r
}

/// Pick the topics for a session among the `studiable` ones (those with a knowledge note):
/// the ones the student listed, in syllabus order and at most the mode's share, when any were
/// listed; else `size` (kept within `1..=` the mode's share) topics from the scheduler.
pub fn plan_topics(
    state: &StudyState,
    studiable: &[Topic],
    size: usize,
    topic_ids: Option<&[String]>,
    mode: SessionMode,
    selection: Selection,
) -> (r: Result<Vec<PlannedTopic>, SessionError>)
    requires
        state.wf(),
        studiable@.len() * 10 <= usize::MAX,
    ensures
        studiable@.len() == 0 ==> r == Err::<Vec<PlannedTopic>, SessionError>(SessionError::NoNotes),
        studiable@.len() > 0 ==> match topic_ids {
            Some(ids) if ids@.len() > 0 => {
                let chosen = chosen_topics(
                    state.entries(),
                    studiable@,
                    strings_view(ids@),
                    max_topics_of(mode),
                );
                match r {
                    Ok(v) => chosen.len() > 0 && planned_view(v@) == chosen,
                    Err(e) => chosen.len() == 0 && e == SessionError::NoneChosen,
                }
            },
            _ => match r {
                Ok(v) => v@.len() > 0 && scheduled(
                    state.entries(),
                    studiable@,
                    clamped(size as nat, max_topics_of(mode)),
                    mode,
                    selection,
                    planned_view(v@),
                ),
                Err(e) => e == SessionError::NothingDue && scheduled(
                    state.entries(),
                    studiable@,
                    clamped(size as nat, max_topics_of(mode)),
                    mode,
                    selection,
                    Seq::empty(),
                ),
            },
        },
{
    if studiable.len() == 0 {
        return Err(SessionError::NoNotes);
    }
    let max = mode.max_topics();
    match topic_ids {
        Some(ids) => {
            if ids.len() > 0 {
                let chosen = choose_listed(state, studiable, ids, max);
                if chosen.len() == 0 {
                    return Err(SessionError::NoneChosen);
                }
                return Ok(chosen);
            }
        },
        None => {},
    }
    let n = if size < 1 {
        1
    } else if size > max {
        max
    } else {
        size
    };
    proof {
        assert(studiable@.len() * n <= studiable@.len() * 10) by (nonlinear_arith)
            requires
                n <= 10,
        ;
    }
    let planned = match selection {
        Selection::Spread => plan_spread(state, studiable, n),
        Selection::Scheduled => match mode {
            SessionMode::Sprint => plan_sprint(state, studiable, n),
            _ => plan_session(state, studiable, n),
        },
    };
    if planned.len() == 0 {
        proof {
            assert(planned_view(planned@) =~= Seq::<PlannedV>::empty());
        }
        return Err(SessionError::NothingDue);
    }
    Ok(planned)
}


/// What a student is shown of a note: the whole body, or its digest in a sprint.
pub open spec fn shown(mode: SessionMode, body: Seq<char>) -> Seq<char> {
    if mode == SessionMode::Sprint {
        digested(body)
    } else {
        body
    }
}

/// The positions whose note could be read.
pub open spec fn readable(notes: Seq<Option<KnowledgeNote>>) -> Seq<int> {
    positions_where(notes.len(), |i: int| notes[i] is Some)
}

/// A session plan made now for `subject_id` from the planned topics and their notes (`None`
/// where a note could not be read): the topics whose note was read, those notes, what the
/// student reads of each, and no questions yet.
pub open spec fn plan_holds(
    p: SessionPlan,
    subject_id: Seq<char>,
    mode: SessionMode,
    planned: Seq<PlannedTopic>,
    notes: Seq<Option<KnowledgeNote>>,
) -> bool {
    let ks = readable(notes);
    &&& p.subject@ == subject_id
    &&& p.mode == mode
    &&& made_at(p.id@, p.created_at@)
    &&& planned_view(p.topics@) == ks.map_values(|i: int| planned[i]@)
    &&& notes_view(p.notes@) == ks.map_values(|i: int| notes[i]->0@)
    &&& strings_view(p.reading@) == ks.map_values(|i: int| shown(mode, notes[i]->0.body@))
    &&& p.open_questions@.len() == 0
    &&& p.quiz@.len() == 0
}

/// Assemble a session plan from the planned topics and their notes, skipping topics whose
/// note could not be read. What the student is shown is decided here and stored, because the
/// questions are generated from exactly this text.
pub fn new_plan(
    subject_id: &str,
    mode: SessionMode,
    planned: &Vec<PlannedTopic>,
    notes: &Vec<Option<KnowledgeNote>>,
) -> (r: Result<SessionPlan, SessionError>)
    requires
        planned@.len() == notes@.len(),
    ensures
        match r {
            Ok(p) => readable(notes@).len() > 0 && plan_holds(p, subject_id@, mode, planned@, notes@),
            Err(e) => readable(notes@).len() == 0 && e == SessionError::NotesUnreadable,
        },
{
    let ghost p = |i: int| notes@[i] is Some;
    let mut topics: Vec<PlannedTopic> = Vec::new();
    let mut kept: Vec<KnowledgeNote> = Vec::new();
    let mut reading: Vec<String> = Vec::new();
    let mut i: usize = 0;
    let ghost mut ks: Seq<int> = Seq::empty();
    while i < notes.len()
        invariant
            planned@.len() == notes@.len(),
            p == (|i: int| notes@[i] is Some),
            i <= notes@.len(),
            ks == positions_where(i as nat, p),
            planned_view(topics@) == ks.map_values(|j: int| planned@[j]@),
            notes_view(kept@) == ks.map_values(|j: int| notes@[j]->0@),
            strings_view(reading@) == ks.map_values(|j: int| shown(mode, notes@[j]->0.body@)),
        decreases notes@.len() - i,
    {
        let ghost old_ks = ks;
        proof {
            ks = positions_where((i + 1) as nat, p);
        }
        match &notes[i] {
            Some(note) => {
                let ghost (t0, n0, r0) = (planned_view(topics@), notes_view(kept@), strings_view(reading@));
                topics.push(planned[i].clone());
                let text = if mode.reads_digest() {
                    digest(note.body.as_str())
                } else {
                    note.body.clone()
                };
                reading.push(text);
                kept.push(note.clone());
                proof {
                    assert(ks =~= old_ks.push(i as int));
                    assert(planned_view(topics@) =~= t0.push(planned@[i as int]@));
                    assert(notes_view(kept@) =~= n0.push(notes@[i as int]->0@));
                    assert(strings_view(reading@) =~= r0.push(shown(mode, notes@[i as int]->0.body@)));
                    assert(ks.map_values(|j: int| planned@[j]@) =~= old_ks.map_values(|j: int| planned@[j]@).push(
                        planned@[i as int]@,
                    ));
                    assert(ks.map_values(|j: int| notes@[j]->0@) =~= old_ks.map_values(|j: int| notes@[j]->0@).push(
                        notes@[i as int]->0@,
                    ));
                    assert(ks.map_values(|j: int| shown(mode, notes@[j]->0.body@)) =~= old_ks.map_values(
                        |j: int| shown(mode, notes@[j]->0.body@),
                    ).push(shown(mode, notes@[i as int]->0.body@)));
                }
            },
            None => {
                proof {
                    assert(ks =~= old_ks);
                }
            },
        }
        i += 1;
    }
    if kept.len() == 0 {
        return Err(SessionError::NotesUnreadable);
    }
    let (id, created_at) = timestamped_id();
    Ok(
        SessionPlan {
            id,
            subject: subject_id.to_owned(),
            created_at,
            mode,
            topics,
            notes: kept,
            reading,
            open_questions: Vec::new(),
            quiz: Vec::new(),
        },
    )
}


// ---------------------------------------------------------------------------
// Preparing the questions
// ---------------------------------------------------------------------------

/// How much of each note a session prompt quotes: in full, for all practical purposes — the
/// questions must not test material the student was never shown.
pub const SESSION_EXCERPT_CHARS: usize = 9000;

/// One topic's part of a session prompt: its id and title, then what the student reads of it.
pub open spec fn note_section(topic_id: Seq<char>, title: Seq<char>, text: Seq<char>, max: nat) -> Seq<char> {
    "### topic_id: "@ + topic_id + "\nТема: "@ + title + "\n\n"@ + cut_chars(text, max, "\n…"@) + "\n\n"@
}

/// What the student was shown of note `i`: the stored reading, or the note itself for a session
/// stored before readings were kept.
pub open spec fn shown_at(notes: Seq<KnowledgeNote>, reading: Seq<String>, i: int) -> Seq<char> {
    if i < reading.len() {
        reading[i]@
    } else {
        notes[i].body@
    }
}

/// The notes block of a session prompt, over the first `k` notes.
pub open spec fn notes_block(notes: Seq<KnowledgeNote>, reading: Seq<String>, k: nat) -> Seq<char>
    decreases k,
{
    if k == 0 {
        seq![]
    } else {
        notes_block(notes, reading, (k - 1) as nat) + note_section(
            notes[k - 1].topic_id@,
            notes[k - 1].title@,
            shown_at(notes, reading, k - 1),
            9000,
        )
    }
}

/// Append one topic's part of a generation prompt: its id and title, then `text` cut after
/// `max` characters.
pub fn push_section(out: &mut Vec<char>, topic_id: &str, title: &str, text: &str, max: usize)
    ensures
        final(out)@ == old(out)@ + note_section(topic_id@, title@, text@, max as nat),
{
    let ghost start = out@;
    extend(out, &chars_of("### topic_id: "));
    extend(out, &chars_of(topic_id));
    extend(out, &chars_of("\nТема: "));
    extend(out, &chars_of(title));
    extend(out, &chars_of("\n\n"));
    let cut = crate::text::cut(&chars_of(text), max, &chars_of("\n…"));
    extend(out, &cut);
    extend(out, &chars_of("\n\n"));
    assert(out@ =~= start + note_section(topic_id@, title@, text@, max as nat));
}

/// The notes a session prompt quotes: each topic's id and title, then what the student read.
pub fn knowledge_block(plan: &SessionPlan) -> (r: String)
    ensures
        r@ == notes_block(plan.notes@, plan.reading@, plan.notes@.len()),
{
    let mut out: Vec<char> = Vec::new();
    let mut i: usize = 0;
    while i < plan.notes.len()
        invariant
            i <= plan.notes@.len(),
            out@ == notes_block(plan.notes@, plan.reading@, i as nat),
        decreases plan.notes@.len() - i,
    {
        let note = &plan.notes[i];
        let text: &str = if i < plan.reading.len() {
            plan.reading[i].as_str()
        } else {
            note.body.as_str()
        };
        push_section(&mut out, note.topic_id.as_str(), note.title.as_str(), text, SESSION_EXCERPT_CHARS);
        i += 1;
    }
    string_of(&out)
}

/// How many quiz questions a session asks for: the mode's share per topic, kept within 6..=32.
pub open spec fn quiz_count_for(notes: nat, mode: SessionMode) -> nat {
    let n = notes * questions_per_topic_of(mode);
    if n < 6 {
        6
    } else if n > 32 {
        32
    } else {
        n
    }
}

pub fn quiz_count(plan: &SessionPlan) -> (n: usize)
    requires
        plan.notes@.len() * 4 <= usize::MAX,
    ensures
        n == quiz_count_for(plan.notes@.len(), plan.mode),
{
    let per = plan.mode.questions_per_topic();
    proof {
        assert(plan.notes@.len() * per <= plan.notes@.len() * 4) by (nonlinear_arith)
            requires
                per <= 4,
        ;
    }
    let n = plan.notes.len() * per;
    if n < 6 {
        6
    } else if n > 32 {
        32
    } else {
        n
    }
}

/// The generation prompt of a session: the template with the kind of notes, the notes
/// themselves, the styles of open and quiz questions, and the number of quiz questions filled
/// in, in that order.
pub open spec fn session_prompt_of(template: Seq<char>, plan: SessionPlan) -> Seq<char> {
    let block = notes_block(plan.notes@, plan.reading@, plan.notes@.len());
    replace(
        replace(
            replace(
                replace(replace(template, "{{NOTES_KIND}}"@, notes_kind_of(plan.mode)), "{{KNOWLEDGE}}"@, block),
                "{{OPEN_STYLE}}"@,
                open_style_of(plan.mode),
            ),
            "{{QUIZ_STYLE}}"@,
            quiz_style_of(plan.mode),
        ),
        "{{QUIZ_COUNT}}"@,
        decimal(quiz_count_for(plan.notes@.len(), plan.mode)),
    )
}

proof fn lemma_placeholders()
    ensures
        "{{NOTES_KIND}}"@.len() > 0,
        "{{KNOWLEDGE}}"@.len() > 0,
        "{{OPEN_STYLE}}"@.len() > 0,
        "{{QUIZ_STYLE}}"@.len() > 0,
        "{{QUIZ_COUNT}}"@.len() > 0,
{
    reveal_strlit("{{NOTES_KIND}}");
    reveal_strlit("{{KNOWLEDGE}}");
    reveal_strlit("{{OPEN_STYLE}}");
    reveal_strlit("{{QUIZ_STYLE}}");
    reveal_strlit("{{QUIZ_COUNT}}");
}

/// Fill in the session prompt template for `plan`.
pub fn session_prompt(template: &str, plan: &SessionPlan) -> (r: String)
    requires
        plan.notes@.len() * 4 <= usize::MAX,
    ensures
        r@ == session_prompt_of(template@, *plan),
{
    proof {
        lemma_placeholders();
    }
    let block = knowledge_block(plan);
    let count = crate::text::decimal_string(quiz_count(plan) as u64);
    let a = replace_str(template, "{{NOTES_KIND}}", plan.mode.notes_kind());
    let b = replace_str(a.as_str(), "{{KNOWLEDGE}}", block.as_str());
    let c = replace_str(b.as_str(), "{{OPEN_STYLE}}", plan.mode.open_style());
    let d = replace_str(c.as_str(), "{{QUIZ_STYLE}}", plan.mode.quiz_style());
    replace_str(d.as_str(), "{{QUIZ_COUNT}}", count.as_str())
}

/// The open question for topic `id`: the first draft the generator wrote for it, trimmed.
pub open spec fn open_for(drafts: Seq<OpenQuestionDraft>, id: Seq<char>, k: int) -> Option<(Seq<char>, Seq<Seq<char>>)>
    decreases drafts.len() - k,
{
    if k < 0 || k >= drafts.len() {
        None
    } else if drafts[k].topic_id@ == id {
        Some((trim(drafts[k].question@), strings_view(drafts[k].expected_points@)))
    } else {
        open_for(drafts, id, k + 1)
    }
}

/// One open question per note, in reading order, for each topic the generator wrote one for.
pub open spec fn open_questions_for(notes: Seq<KnowledgeNote>, drafts: Seq<OpenQuestionDraft>) -> Seq<(Seq<char>, Seq<char>, Seq<Seq<char>>)>
    decreases notes.len(),
{
    if notes.len() == 0 {
        seq![]
    } else {
        let id = notes.last().topic_id@;
        open_questions_for(notes.drop_last(), drafts) + match open_for(drafts, id, 0) {
            Some((q, points)) => seq![(id, q, points)],
            None => seq![],
        }
    }
}

pub open spec fn open_view(v: Seq<OpenQuestion>) -> Seq<(Seq<char>, Seq<char>, Seq<Seq<char>>)> {
    v.map_values(|q: OpenQuestion| (q.topic_id@, q.question@, strings_view(q.expected_points@)))
}

fn first_open(drafts: &[OpenQuestionDraft], id: &String) -> (r: Option<OpenQuestion>)
    ensures
        match open_for(drafts@, id@, 0) {
            Some((q, points)) => r matches Some(o) && o.topic_id@ == id@ && o.question@ == q
                && strings_view(o.expected_points@) == points,
            None => r is None,
        },
{
    let mut k: usize = 0;
    while k < drafts.len()
        invariant
            k <= drafts@.len(),
            open_for(drafts@, id@, 0) == open_for(drafts@, id@, k as int),
        decreases drafts@.len() - k,
    {
        if drafts[k].topic_id == *id {
            return Some(
                OpenQuestion {
                    topic_id: drafts[k].topic_id.clone(),
                    question: trim_string(drafts[k].question.as_str()),
                    expected_points: crate::text::clone_strings(&drafts[k].expected_points),
                },
            );
        }
        k += 1;
    }
    None
}

pub open spec fn note_ids(notes: Seq<KnowledgeNote>) -> Seq<Seq<char>> {
    notes.map_values(|n: KnowledgeNote| n.topic_id@)
}

/// Attach what the generator returned to a planned session: the usable quiz questions (over
/// the session's topics) and one open question per topic, in reading order, for each topic
/// it wrote one for. A reply with no usable quiz question leaves the plan as it was.
pub fn attach_questions(
    plan: &mut SessionPlan,
    open_drafts: &[OpenQuestionDraft],
    quiz_drafts: Vec<QuestionDraft>,
) -> (r: Result<(), SessionError>)
    requires
        quiz_drafts@.len() < u64::MAX,
    ensures
        match r {
            Ok(()) => {
                &&& sanitized(quiz_drafts@, note_ids(old(plan).notes@)).len() > 0
                &&& final(plan).quiz@.map_values(|q: Question| question_view(q)) == sanitized(
                    quiz_drafts@,
                    note_ids(old(plan).notes@),
                )
                &&& open_view(final(plan).open_questions@) == open_questions_for(old(plan).notes@, open_drafts@)
                &&& final(plan).id == old(plan).id
                &&& final(plan).subject == old(plan).subject
                &&& final(plan).created_at == old(plan).created_at
                &&& final(plan).mode == old(plan).mode
                &&& final(plan).topics == old(plan).topics
                &&& final(plan).notes == old(plan).notes
                &&& final(plan).reading == old(plan).reading
            },
            Err(e) => e == SessionError::NoQuizQuestions && sanitized(
                quiz_drafts@,
                note_ids(old(plan).notes@),
            ).len() == 0 && *final(plan) == *old(plan),
        },
{
    let mut ids: Vec<String> = Vec::new();
    let mut i: usize = 0;
    while i < plan.notes.len()
        invariant
            i <= plan.notes@.len(),
            strings_view(ids@) == note_ids(plan.notes@).take(i as int),
        decreases plan.notes@.len() - i,
    {
        let ghost before = strings_view(ids@);
        ids.push(plan.notes[i].topic_id.clone());
        proof {
            assert(strings_view(ids@) =~= before.push(plan.notes@[i as int].topic_id@));
            assert(note_ids(plan.notes@).take(i + 1) =~= note_ids(plan.notes@).take(i as int).push(
                plan.notes@[i as int].topic_id@,
            ));
        }
        i += 1;
    }
    assert(note_ids(plan.notes@).take(plan.notes@.len() as int) =~= note_ids(plan.notes@));
    let quiz = sanitize_questions(quiz_drafts, ids.as_slice());
    if quiz.len() == 0 {
        proof {
            assert(quiz@.map_values(|q: Question| question_view(q)).len() == 0);
        }
        return Err(SessionError::NoQuizQuestions);
    }
    let mut open: Vec<OpenQuestion> = Vec::new();
    let mut k: usize = 0;
    while k < plan.notes.len()
        invariant
            k <= plan.notes@.len(),
            open_view(open@) == open_questions_for(plan.notes@.take(k as int), open_drafts@),
        decreases plan.notes@.len() - k,
    {
        let ghost before = open_view(open@);
        proof {
            let t = plan.notes@.take(k + 1);
            assert(t.drop_last() =~= plan.notes@.take(k as int));
            assert(t.last() == plan.notes@[k as int]);
        }
        match first_open(open_drafts, &plan.notes[k].topic_id) {
            Some(q) => {
                open.push(q);
                proof {
                    assert(open_view(open@) =~= before + seq![
                        (q.topic_id@, q.question@, strings_view(q.expected_points@)),
                    ]);
                }
            },
            None => {
                proof {
                    assert(before + Seq::<(Seq<char>, Seq<char>, Seq<Seq<char>>)>::empty() =~= before);
                }
            },
        }
        k += 1;
    }
    assert(plan.notes@.take(plan.notes@.len() as int) =~= plan.notes@);
    plan.open_questions = open;
    plan.quiz = quiz;
    Ok(())
}


// ---------------------------------------------------------------------------
// Grading a finished session
// ---------------------------------------------------------------------------

/// The grader's verdict on one written answer.
pub struct OpenGrading {
    pub topic_id: String,
    pub score: u32,
    pub verdict: String,
    pub covered: Vec<String>,
    pub missed: Vec<String>,
    pub correction: String,
}

pub struct TopicOutcome {
    pub topic_id: String,
    pub title: String,
    pub score: u32,
    pub open_score: Option<u32>,
    pub quiz_correct: usize,
    pub quiz_total: usize,
    pub level: u8,
    pub stage: Stage,
    pub due_at: Option<String>,
    /// Both halves left blank: the topic was read but not scored, and its schedule untouched.
    pub skipped: bool,
}

pub struct OutcomeV {
    pub topic_id: Seq<char>,
    pub title: Seq<char>,
    pub score: nat,
    pub open_score: Option<u32>,
    pub quiz_correct: nat,
    pub quiz_total: nat,
    pub level: nat,
    pub stage: Stage,
    pub due_at: Option<Seq<char>>,
    pub skipped: bool,
}

impl View for TopicOutcome {
    type V = OutcomeV;

    open spec fn view(&self) -> OutcomeV {
        OutcomeV {
            topic_id: self.topic_id@,
            title: self.title@,
            score: self.score as nat,
            open_score: self.open_score,
            quiz_correct: self.quiz_correct as nat,
            quiz_total: self.quiz_total as nat,
            level: self.level as nat,
            stage: self.stage,
            due_at: crate::syllabus::opt_view(self.due_at),
            skipped: self.skipped,
        }
    }
}

pub open spec fn outcomes_view(v: Seq<TopicOutcome>) -> Seq<OutcomeV> {
    v.map_values(|o: TopicOutcome| o@)
}

pub struct SessionResult {
    pub session_id: String,
    pub subject: String,
    pub gradings: Vec<OpenGrading>,
    pub answers: Vec<AnswerRecord>,
    pub topics: Vec<TopicOutcome>,
    pub overall_score: u32,
}

/// The written-answer score of topic `id`: that of the first grading for it, capped at 100.
pub open spec fn open_score_from(gs: Seq<OpenGrading>, id: Seq<char>, k: int) -> Option<u32>
    decreases gs.len() - k,
{
    if k < 0 || k >= gs.len() {
        None
    } else if gs[k].topic_id@ == id {
        Some(if gs[k].score <= 100 { gs[k].score } else { 100 })
    } else {
        open_score_from(gs, id, k + 1)
    }
}

/// Some quiz question of topic `id` was answered at all.
pub open spec fn attempted_on(answers: Seq<AnswerV>, id: Seq<char>) -> bool
    decreases answers.len(),
{
    if answers.len() == 0 {
        false
    } else {
        attempted_on(answers.drop_last(), id) || (answers.last().topic_id == id && answers.last().selected.len()
            > 0)
    }
}

/// The quiz score of topic `id`: the share of its questions answered right, as a whole
/// percentage; none when not one of its questions was touched — skipped, not failed.
pub open spec fn quiz_score_from(answers: Seq<AnswerV>, id: Seq<char>) -> Option<u32> {
    if attempted_on(answers, id) {
        Some(rounded_percent(right_on(answers, id), answered_on(answers, id)) as u32)
    } else {
        None
    }
}

/// A topic's outcome before it is rescheduled.
pub open spec fn scored_outcome(t: crate::syllabus::TopicV, gs: Seq<OpenGrading>, answers: Seq<AnswerV>) -> OutcomeV {
    let open = open_score_from(gs, t.id, 0);
    let quiz = quiz_score_from(answers, t.id);
    let score = combined_score(open, quiz);
    OutcomeV {
        topic_id: t.id,
        title: t.title,
        score: match score {
            Some(s) => s,
            None => 0,
        },
        open_score: open,
        quiz_correct: right_on(answers, t.id),
        quiz_total: answered_on(answers, t.id),
        level: 0,
        stage: Stage::New,
        due_at: None,
        skipped: score is None,
    }
}

/// An outcome with the standing its topic was rescheduled to.
pub open spec fn rescheduled(o: OutcomeV, es: Seq<TopicStudyV>) -> OutcomeV {
    match lookup(es, o.topic_id) {
        Some(e) => OutcomeV { level: e.level, stage: stage_of(e.level, e.read_count), due_at: e.due_at, ..o },
        None => o,
    }
}

/// The scores a session records: each scored topic's score, a later entry for the same topic
/// winning.
pub open spec fn scores_map(os: Seq<OutcomeV>) -> Map<Seq<char>, nat>
    decreases os.len(),
{
    if os.len() == 0 {
        Map::empty()
    } else {
        let m = scores_map(os.drop_last());
        if os.last().skipped {
            m
        } else {
            m.insert(os.last().topic_id, os.last().score)
        }
    }
}

/// The answers that touched at least one option.
pub open spec fn attempted_of(answers: Seq<AnswerV>) -> Seq<AnswerV>
    decreases answers.len(),
{
    if answers.len() == 0 {
        seq![]
    } else {
        attempted_of(answers.drop_last()) + if answers.last().selected.len() > 0 {
            seq![answers.last()]
        } else {
            seq![]
        }
    }
}

/// The mean of the scored outcomes, rounded; 0 when none was scored.
pub open spec fn score_sum(os: Seq<OutcomeV>) -> nat
    decreases os.len(),
{
    if os.len() == 0 {
        0
    } else {
        score_sum(os.drop_last()) + if os.last().skipped {
            0
        } else {
            os.last().score
        }
    }
}

pub open spec fn scored_count(os: Seq<OutcomeV>) -> nat
    decreases os.len(),
{
    if os.len() == 0 {
        0
    } else {
        scored_count(os.drop_last()) + if os.last().skipped {
            0nat
        } else {
            1nat
        }
    }
}

pub open spec fn overall_of(os: Seq<OutcomeV>) -> nat {
    rounded_percent(score_sum(os), 100 * scored_count(os))
}

fn open_score_of(gs: &[OpenGrading], id: &String) -> (r: Option<u32>)
    ensures
        r == open_score_from(gs@, id@, 0),
{
    let mut k: usize = 0;
    while k < gs.len()
        invariant
            k <= gs@.len(),
            open_score_from(gs@, id@, 0) == open_score_from(gs@, id@, k as int),
        decreases gs@.len() - k,
    {
        if gs[k].topic_id == *id {
            let s = gs[k].score;
            return Some(if s <= 100 { s } else { 100 });
        }
        k += 1;
    }
    None
}

fn tally(answers: &[AnswerRecord], id: &String) -> (r: (usize, usize, bool))
    ensures
        r.0 == answered_on(answers_view(answers@), id@),
        r.1 == right_on(answers_view(answers@), id@),
        r.2 == attempted_on(answers_view(answers@), id@),
        r.1 <= r.0,
        r.2 ==> r.0 > 0,
{
    let ghost av = answers_view(answers@);
    let mut total: usize = 0;
    let mut right: usize = 0;
    let mut any = false;
    let mut k: usize = 0;
    while k < answers.len()
        invariant
            av == answers_view(answers@),
            k <= answers@.len(),
            total == answered_on(av.take(k as int), id@),
            right == answered_on(av.take(k as int), id@) - (answered_on(av.take(k as int), id@) - right_on(
                av.take(k as int),
                id@,
            )),
            right <= total <= k,
            any == attempted_on(av.take(k as int), id@),
            any ==> total > 0,
        decreases answers@.len() - k,
    {
        proof {
            assert(av.take(k + 1).drop_last() =~= av.take(k as int));
            assert(av.take(k + 1).last() == answers@[k as int]@);
        }
        let a = &answers[k];
        if a.topic_id == *id {
            total = total + 1;
            if a.correct {
                right = right + 1;
            }
            if a.selected.len() > 0 {
                any = true;
            }
        }
        k += 1;
    }
    assert(av.take(answers@.len() as int) =~= av);
    (total, right, any)
}

fn outcome_of(t: &PlannedTopic, gs: &[OpenGrading], answers: &[AnswerRecord]) -> (o: TopicOutcome)
    ensures
        o@ == scored_outcome(t.topic@, gs@, answers_view(answers@)),
{
    let open = open_score_of(gs, &t.topic.id);
    let (total, right, any) = tally(answers, &t.topic.id);
    let quiz: Option<u32> = if any {
        let p: u128 = (200 * right as u128 + total as u128) / (2 * total as u128);
        proof {
            assert((200 * right + total) / (2 * total) <= 100) by (nonlinear_arith)
                requires
                    right <= total,
                    total > 0,
            ;
        }
        Some(p as u32)
    } else {
        None
    };
    let score = topic_score(open, quiz);
    TopicOutcome {
        topic_id: t.topic.id.clone(),
        title: t.topic.title.clone(),
        score: match score {
            Some(s) => s,
            None => 0,
        },
        open_score: open,
        quiz_correct: right,
        quiz_total: total,
        level: 0,
        stage: Stage::New,
        due_at: None,
        skipped: score.is_none(),
    }
}

proof fn lemma_score_at(scores: Seq<(String, u32)>, id: Seq<char>, i: int)
    requires
        distinct_keys(scores),
        0 <= i < scores.len(),
        scores[i].0@ == id,
    ensures
        score_for(scores, id) == Some(scores[i].1 as nat),
{
    let k = choose|k: int| 0 <= k < scores.len() && scores[k].0@ == id;
    assert(0 <= k < scores.len() && scores[k].0@ == id);
    if k != i {
        if k < i {
            assert(scores[k].0@ != scores[i].0@);
        } else {
            assert(scores[i].0@ != scores[k].0@);
        }
    }
}

/// Record `s` as the score of `id`, replacing any earlier one.
fn set_score(scores: &mut Vec<(String, u32)>, id: &String, s: u32)
    requires
        distinct_keys(old(scores)@),
    ensures
        distinct_keys(final(scores)@),
        forall|k: Seq<char>|
            #[trigger] score_for(final(scores)@, k) == if k == id@ {
                Some(s as nat)
            } else {
                score_for(old(scores)@, k)
            },
{
    let ghost before = scores@;
    let mut i: usize = 0;
    while i < scores.len()
        invariant
            scores@ == before,
            before == old(scores)@,
            i <= scores@.len(),
            distinct_keys(before),
            forall|j: int| 0 <= j < i ==> before[j].0@ != id@,
        decreases scores@.len() - i,
    {
        if scores[i].0 == *id {
            scores.set(i, (id.clone(), s));
            proof {
                let after = scores@;
                assert forall|a: int, b: int| 0 <= a < b < after.len() implies after[a].0@ != after[b].0@ by {
                    if a != i && b != i {
                        assert(after[a] == before[a] && after[b] == before[b]);
                    } else if a == i {
                        assert(after[b] == before[b]);
                    } else {
                        assert(after[a] == before[a]);
                    }
                }
                assert forall|k: Seq<char>| #[trigger] score_for(after, k) == if k == id@ {
                    Some(s as nat)
                } else {
                    score_for(before, k)
                } by {
                    if k == id@ {
                        lemma_score_at(after, k, i as int);
                    } else if exists|j: int| 0 <= j < before.len() && before[j].0@ == k {
                        let j = choose|j: int| 0 <= j < before.len() && before[j].0@ == k;
                        lemma_score_at(before, k, j);
                        assert(after[j] == before[j]);
                        lemma_score_at(after, k, j);
                    } else {
                        assert forall|j: int| 0 <= j < after.len() implies after[j].0@ != k by {
                            if j != i {
                                assert(after[j] == before[j]);
                            }
                        }
                    }
                }
            }
            return;
        }
        i += 1;
    }
    scores.push((id.clone(), s));
    proof {
        let after = scores@;
        assert forall|a: int, b: int| 0 <= a < b < after.len() implies after[a].0@ != after[b].0@ by {
            if b == before.len() {
                assert(after[a] == before[a]);
            } else {
                assert(after[a] == before[a] && after[b] == before[b]);
            }
        }
        assert forall|k: Seq<char>| #[trigger] score_for(after, k) == if k == id@ {
            Some(s as nat)
        } else {
            score_for(before, k)
        } by {
            if k == id@ {
                lemma_score_at(after, k, before.len() as int);
            } else if exists|j: int| 0 <= j < before.len() && before[j].0@ == k {
                let j = choose|j: int| 0 <= j < before.len() && before[j].0@ == k;
                lemma_score_at(before, k, j);
                assert(after[j] == before[j]);
                lemma_score_at(after, k, j);
            } else {
                assert forall|j: int| 0 <= j < after.len() implies after[j].0@ != k by {
                    if j < before.len() {
                        assert(after[j] == before[j]);
                    }
                }
            }
        }
    }
}

fn filter_attempted(answers: &Vec<AnswerRecord>) -> (r: Vec<AnswerRecord>)
    ensures
        answers_view(r@) == attempted_of(answers_view(answers@)),
{
    let ghost av = answers_view(answers@);
    let mut r: Vec<AnswerRecord> = Vec::new();
    let mut k: usize = 0;
    while k < answers.len()
        invariant
            av == answers_view(answers@),
            k <= answers@.len(),
            answers_view(r@) == attempted_of(av.take(k as int)),
        decreases answers@.len() - k,
    {
        proof {
            assert(av.take(k + 1).drop_last() =~= av.take(k as int));
            assert(av.take(k + 1).last() == answers@[k as int]@);
        }
        let ghost before = answers_view(r@);
        if answers[k].selected.len() > 0 {
            r.push(answers[k].clone());
            assert(answers_view(r@) =~= before + seq![answers@[k as int]@]);
        } else {
            assert(before + Seq::<AnswerV>::empty() =~= before);
        }
        k += 1;
    }
    assert(av.take(answers@.len() as int) =~= av);
    r
}


/// The outcome of each planned topic before rescheduling.
pub open spec fn session_outcomes(plan: SessionPlan, gs: Seq<OpenGrading>, answers: Seq<AnswerV>) -> Seq<OutcomeV> {
    plan.topics@.map_values(|t: PlannedTopic| scored_outcome(t.topic@, gs, answers))
}

proof fn lemma_unscored_not_recorded(os: Seq<OutcomeV>, id: Seq<char>)
    requires
        forall|k: int| 0 <= k < os.len() && (#[trigger] os[k]).topic_id == id ==> os[k].skipped,
    ensures
        !scores_map(os).contains_key(id),
    decreases os.len(),
{
    if os.len() > 0 {
        let init = os.drop_last();
        assert forall|k: int| 0 <= k < init.len() && (#[trigger] init[k]).topic_id == id implies init[k].skipped by {
            assert(init[k] == os[k]);
        }
        lemma_unscored_not_recorded(init, id);
        assert(os.last() == os[os.len() - 1]);
    }
}

/// A topic the student left blank — no written answer graded, no quiz question of it
/// attempted — is read but not scored: a finished session leaves its study record as it was.
pub proof fn lemma_blank_topics_keep_their_schedule(
    plan: SessionPlan,
    gs: Seq<OpenGrading>,
    answers: Seq<AnswerV>,
    es: Seq<TopicStudyV>,
    clock: Clock,
    id: Seq<char>,
)
    requires
        open_score_from(gs, id, 0) is None,
        !attempted_on(answers, id),
    ensures
        after_session(es, scores_map(session_outcomes(plan, gs, answers)), id, clock) == lookup(es, id),
{
    let os = session_outcomes(plan, gs, answers);
    assert forall|k: int| 0 <= k < os.len() && (#[trigger] os[k]).topic_id == id implies os[k].skipped by {
        assert(os[k] == scored_outcome(plan.topics@[k].topic@, gs, answers));
    }
    lemma_unscored_not_recorded(os, id);
}

/// The study record of `id` once the session's scores are recorded at the clock's time.
pub open spec fn after_session(es: Seq<TopicStudyV>, scores: Map<Seq<char>, nat>, id: Seq<char>, clock: Clock) -> Option<
    TopicStudyV,
> {
    if scores.contains_key(id) {
        Some(
            after_score(
                match lookup(es, id) {
                    Some(e) => e,
                    None => fresh_entry(id),
                },
                scores[id],
                clock,
            ),
        )
    } else {
        lookup(es, id)
    }
}

/// The study record of `id`, if it has one, can take `score`.
pub open spec fn score_fits(es: Seq<TopicStudyV>, id: Seq<char>, score: nat) -> bool {
    match lookup(es, id) {
        Some(e) => takes_score(e, score),
        None => true,
    }
}

/// A topic's outcome can be recorded: it was skipped, or its study record can take its score.
pub open spec fn schedulable(es: Seq<TopicStudyV>, o: OutcomeV) -> bool {
    o.skipped || score_fits(es, o.topic_id, o.score)
}

/// Every topic of a graded session can be recorded.
pub open spec fn session_fits(es: Seq<TopicStudyV>, os: Seq<OutcomeV>) -> bool {
    forall|i: int| 0 <= i < os.len() ==> schedulable(es, #[trigger] os[i])
}

/// Whether the study records can take what grading `plan` with `gradings` and
/// `quiz_selections` would score: `grade_session` asks this of the state it is given.
pub fn session_fits_state(
    plan: &SessionPlan,
    gradings: &[OpenGrading],
    quiz_selections: &[(String, Vec<usize>)],
    state: &StudyState,
) -> (b: bool)
    requires
        state.wf(),
    ensures
        b == session_fits(
            state.entries(),
            session_outcomes(*plan, gradings@, graded_all(plan.quiz@, quiz_selections@, Seq::<String>::empty())),
        ),
{
    let no_hints: Vec<String> = Vec::new();
    let answers = grade_answers(plan.quiz.as_slice(), quiz_selections, no_hints.as_slice());
    proof {
        assert(no_hints@ =~= Seq::<String>::empty());
    }
    let ghost es = state.entries();
    let ghost os = session_outcomes(*plan, gradings@, answers_view(answers@));
    let mut i: usize = 0;
    while i < plan.topics.len()
        invariant
            state.wf(),
            es == state.entries(),
            os == session_outcomes(*plan, gradings@, answers_view(answers@)),
            answers_view(answers@) == graded_all(plan.quiz@, quiz_selections@, Seq::<String>::empty()),
            i <= plan.topics@.len(),
            forall|j: int| 0 <= j < i ==> schedulable(es, #[trigger] os[j]),
        decreases plan.topics@.len() - i,
    {
        let o = outcome_of(&plan.topics[i], gradings, answers.as_slice());
        proof {
            assert(os[i as int] == o@);
        }
        if !o.skipped {
            match state.get(o.topic_id.as_str()) {
                Some(e) => {
                    let fits = e.sessions < u32::MAX && next_level(e.level, o.score) <= 6 && (o.score < 80
                        || e.level < 255);
                    proof {
                        assert(fits == takes_score(e@, o.score as nat));
                        assert(fits == schedulable(es, os[i as int]));
                    }
                    if !fits {
                        return false;
                    }
                },
                None => {},
            }
        }
        i += 1;
    }
    assert(os.len() == plan.topics@.len());
    true
}

proof fn lemma_overall_fits(sum: nat, count: nat)
    requires
        count > 0,
        sum <= count * 0xffff_ffff,
    ensures
        (2 * sum + count) / (2 * count) <= 0xffff_ffff,
{
    assert((2 * sum + count) / (2 * count) <= 0xffff_ffff) by (nonlinear_arith)
        requires
            count > 0,
            sum <= count * 0xffff_ffff,
    ;
}

/// Grade a finished session: grade every quiz answer (a skipped question is kept in the
/// review but not recorded as a mistake), fold the attempted ones into mastery, score each
/// topic from its two halves, reschedule the scored topics on the ladder, and report each
/// topic's outcome with the standing it landed on and the mean of the scored topics.
/// `gradings` are the grader's verdicts on the written answers.
pub fn grade_session(
    plan: &SessionPlan,
    gradings: Vec<OpenGrading>,
    quiz_selections: &[(String, Vec<usize>)],
    mastery: &mut Mastery,
    state: &mut StudyState,
    clock: &Clock,
) -> (r: SessionResult)
    requires
        old(mastery).wf(),
        fold_fits(
            old(mastery).entries(),
            attempted_of(graded_all(plan.quiz@, quiz_selections@, Seq::<String>::empty())),
        ),
        old(state).wf(),
        clock.wf(),
        session_fits(
            old(state).entries(),
            session_outcomes(*plan, gradings@, graded_all(plan.quiz@, quiz_selections@, Seq::<String>::empty())),
        ),
    ensures
        r.session_id == plan.id,
        r.subject == plan.subject,
        r.gradings == gradings,
        answers_view(r.answers@) == graded_all(plan.quiz@, quiz_selections@, Seq::<String>::empty()),
        final(mastery).wf(),
        exists|now: Seq<char>|
            crate::time::clock_text(now) && #[trigger] folds_to(
                old(mastery).entries(),
                final(mastery).entries(),
                attempted_of(answers_view(r.answers@)),
                now,
            ),
        final(state).wf(),
        forall|id: Seq<char>|
            #[trigger] lookup(final(state).entries(), id) == after_session(
                old(state).entries(),
                scores_map(session_outcomes(*plan, gradings@, answers_view(r.answers@))),
                id,
                *clock,
            ),
        outcomes_view(r.topics@) == session_outcomes(*plan, gradings@, answers_view(r.answers@)).map_values(
            |o: OutcomeV| rescheduled(o, final(state).entries()),
        ),
        r.overall_score == overall_of(session_outcomes(*plan, gradings@, answers_view(r.answers@))),
{
    let no_hints: Vec<String> = Vec::new();
    let answers = grade_answers(plan.quiz.as_slice(), quiz_selections, no_hints.as_slice());
    proof {
        assert(no_hints@ =~= Seq::<String>::empty());
    }
    let ghost av = answers_view(answers@);
    let attempted = filter_attempted(&answers);
    apply_answers(mastery, attempted.as_slice());

    let ghost es = state.entries();
    let ghost pre = session_outcomes(*plan, gradings@, av);
    let mut outcomes: Vec<TopicOutcome> = Vec::new();
    let mut scores: Vec<(String, u32)> = Vec::new();
    let mut i: usize = 0;
    while i < plan.topics.len()
        invariant
            es == state.entries(),
            state.wf(),
            clock.wf(),
            av == answers_view(answers@),
            pre == session_outcomes(*plan, gradings@, av),
            session_fits(es, pre),
            i <= plan.topics@.len(),
            outcomes_view(outcomes@) == pre.take(i as int),
            distinct_keys(scores@),
            forall|k: Seq<char>|
                #[trigger] score_for(scores@, k) == if scores_map(pre.take(i as int)).contains_key(k) {
                    Some(scores_map(pre.take(i as int))[k])
                } else {
                    None::<nat>
                },
            forall|k: Seq<char>|
                #[trigger] score_for(scores@, k) matches Some(sc) ==> score_fits(es, k, sc),
        decreases plan.topics@.len() - i,
    {
        let o = outcome_of(&plan.topics[i], gradings.as_slice(), answers.as_slice());
        let ghost before = outcomes_view(outcomes@);
        let ghost old_scores = scores@;
        proof {
            assert(pre[i as int] == o@);
            assert(pre.take(i + 1).drop_last() =~= pre.take(i as int));
            assert(pre.take(i + 1).last() == o@);
            assert(schedulable(es, pre[i as int]));
        }
        if !o.skipped {
            set_score(&mut scores, &o.topic_id, o.score);
        }
        outcomes.push(o);
        proof {
            assert(outcomes_view(outcomes@) =~= before.push(pre[i as int]));
            assert(pre.take(i + 1) =~= pre.take(i as int).push(pre[i as int]));
        }
        i += 1;
    }
    proof {
        assert(pre.take(plan.topics@.len() as int) =~= pre);
        assert forall|j: int| 0 <= j < scores@.len() implies match lookup(es, (#[trigger] scores@[j]).0@) {
            Some(e) => takes_score(e, scores@[j].1 as nat),
            None => true,
        } by {
            lemma_score_at(scores@, scores@[j].0@, j);
            assert(score_fits(es, scores@[j].0@, scores@[j].1 as nat));
        }
    }
    record_scores(state, scores.as_slice(), clock);

    let ghost fin = state.entries();
    let mut k: usize = 0;
    while k < outcomes.len()
        invariant
            state.wf(),
            fin == state.entries(),
            k <= outcomes@.len(),
            outcomes@.len() == pre.len(),
            forall|j: int| 0 <= j < k ==> (#[trigger] outcomes@[j])@ == rescheduled(pre[j], fin),
            forall|j: int| k <= j < outcomes@.len() ==> (#[trigger] outcomes@[j])@ == pre[j],
        decreases outcomes@.len() - k,
    {
        let found = match state.get(outcomes[k].topic_id.as_str()) {
            Some(e) => Some((e.level, e.stage(), crate::syllabus::clone_opt_string(&e.due_at))),
            None => None,
        };
        match found {
            Some((level, stage, due_at)) => {
                let mut o = outcomes.remove(k);
                o.level = level;
                o.stage = stage;
                o.due_at = due_at;
                outcomes.insert(k, o);
            },
            None => {},
        }
        k += 1;
    }
    proof {
        assert(outcomes_view(outcomes@) =~= pre.map_values(|o: OutcomeV| rescheduled(o, fin)));
    }

    let mut sum: u128 = 0;
    let mut count: u128 = 0;
    let mut j: usize = 0;
    while j < outcomes.len()
        invariant
            j <= outcomes@.len(),
            outcomes@.len() == pre.len(),
            forall|x: int| 0 <= x < outcomes@.len() ==> (#[trigger] outcomes@[x])@.skipped == pre[x].skipped
                && outcomes@[x]@.score == pre[x].score,
            sum == score_sum(pre.take(j as int)),
            count == scored_count(pre.take(j as int)),
            count <= j,
            sum <= count * 0xffff_ffff,
        decreases outcomes@.len() - j,
    {
        proof {
            assert(pre.take(j + 1).drop_last() =~= pre.take(j as int));
            assert(pre.take(j + 1).last() == pre[j as int]);
        }
        if !outcomes[j].skipped {
            sum = sum + outcomes[j].score as u128;
            count = count + 1;
        }
        j += 1;
    }
    proof {
        assert(pre.take(outcomes@.len() as int) =~= pre);
    }
    let overall: u32 = if count == 0 {
        0
    } else {
        proof {
            lemma_overall_fits(sum as nat, count as nat);
            assert((200 * sum + 100 * count) / (200 * count) == (2 * sum + count) / (2 * count)) by (nonlinear_arith)
                requires
                    count > 0,
            ;
        }
        ((2 * sum + count) / (2 * count)) as u32
    };
    SessionResult {
        session_id: plan.id.clone(),
        subject: plan.subject.clone(),
        gradings,
        answers,
        topics: outcomes,
        overall_score: overall,
    }
}


// ---------------------------------------------------------------------------
// The written answers
// ---------------------------------------------------------------------------

/// The session has an open question for topic `id`.
pub open spec fn asks(plan: SessionPlan, id: Seq<char>) -> bool {
    exists|i: int| 0 <= i < plan.open_questions@.len() && #[trigger] plan.open_questions@[i].topic_id@ == id
}

/// The written answers worth grading: not blank, and to a question the session asked. Blank
/// answers never reach the grader — they would only come back as 0.
pub open spec fn worth_grading(plan: SessionPlan, answers: Seq<(String, String)>) -> Seq<(String, String)>
    decreases answers.len(),
{
    if answers.len() == 0 {
        seq![]
    } else {
        let a = answers.last();
        worth_grading(plan, answers.drop_last()) + if trim(a.1@).len() > 0 && asks(plan, a.0@) {
            seq![a]
        } else {
            seq![]
        }
    }
}

fn asks_about(plan: &SessionPlan, id: &String) -> (b: bool)
    ensures
        b == asks(*plan, id@),
{
    let mut i: usize = 0;
    while i < plan.open_questions.len()
        invariant
            i <= plan.open_questions@.len(),
            forall|j: int| 0 <= j < i ==> plan.open_questions@[j].topic_id@ != id@,
        decreases plan.open_questions@.len() - i,
    {
        if plan.open_questions[i].topic_id == *id {
            return true;
        }
        i += 1;
    }
    false
}

/// Keep the written answers worth grading, in the order given.
pub fn answers_to_grade(plan: &SessionPlan, open_answers: &[(String, String)]) -> (r: Vec<(String, String)>)
    ensures
        r@ == worth_grading(*plan, open_answers@),
{
    let mut r: Vec<(String, String)> = Vec::new();
    let mut k: usize = 0;
    while k < open_answers.len()
        invariant
            k <= open_answers@.len(),
            r@ == worth_grading(*plan, open_answers@.take(k as int)),
        decreases open_answers@.len() - k,
    {
        proof {
            assert(open_answers@.take(k + 1).drop_last() =~= open_answers@.take(k as int));
            assert(open_answers@.take(k + 1).last() == open_answers@[k as int]);
        }
        let a = &open_answers[k];
        let blank = crate::text::trim_chars(&chars_of(a.1.as_str())).len() == 0;
        let ghost before = r@;
        if !blank && asks_about(plan, &a.0) {
            r.push((a.0.clone(), a.1.clone()));
            assert(r@ =~= before + seq![open_answers@[k as int]]);
        } else {
            assert(before + Seq::<(String, String)>::empty() =~= before);
        }
        k += 1;
    }
    assert(open_answers@.take(open_answers@.len() as int) =~= open_answers@);
    r
}

/// The answer given for topic `id`, trimmed: the first one filed under it.
pub open spec fn answer_from(answers: Seq<(String, String)>, id: Seq<char>, k: int) -> Option<Seq<char>>
    decreases answers.len() - k,
{
    if k < 0 || k >= answers.len() {
        None
    } else if answers[k].0@ == id {
        Some(trim(answers[k].1@))
    } else {
        answer_from(answers, id, k + 1)
    }
}

/// What the grader is shown of the note of topic `id`: its first note, cut after 5000
/// characters, or a line saying there is none.
pub open spec fn note_text_for(notes: Seq<KnowledgeNote>, id: Seq<char>, k: int) -> Seq<char>
    decreases notes.len() - k,
{
    if k < 0 || k >= notes.len() {
        "(конспект недоступний)"@
    } else if notes[k].topic_id@ == id {
        cut_chars(notes[k].body@, 5000, "\n…"@)
    } else {
        note_text_for(notes, id, k + 1)
    }
}

/// The rubric of a question as a bulleted list.
pub open spec fn bullets(points: Seq<Seq<char>>) -> Seq<char> {
    joined_with(points.map_values(|p: Seq<char>| "- "@ + p), "\n"@)
}

/// One graded answer's part of the grading prompt.
pub open spec fn answer_section(index: nat, q: OpenQuestion, answer: Seq<char>, note: Seq<char>) -> Seq<char> {
    "## Відповідь "@ + decimal(index) + " — topic_id: "@ + q.topic_id@ + "\n\n### Питання\n"@ + q.question@
        + "\n\n### Очікувані пункти\n"@ + bullets(strings_view(q.expected_points@))
        + "\n\n### Відповідь студента\n"@ + answer + "\n\n### Конспект теми\n"@ + note + "\n\n"@
}

/// The answers block of the grading prompt over the first `k` open questions, and how many
/// of them were answered: each answered question in order, numbered from 1.
pub open spec fn answers_block(plan: SessionPlan, answers: Seq<(String, String)>, k: nat) -> (Seq<char>, nat)
    decreases k,
{
    if k == 0 {
        (seq![], 0)
    } else {
        let (block, n) = answers_block(plan, answers, (k - 1) as nat);
        let q = plan.open_questions@[k - 1];
        match answer_from(answers, q.topic_id@, 0) {
            Some(a) => (
                block + answer_section(n + 1, q, a, note_text_for(plan.notes@, q.topic_id@, 0)),
                n + 1,
            ),
            None => (block, n),
        }
    }
}

/// The grading prompt: the template with the expected answer style and the answers block
/// filled in.
pub open spec fn grading_prompt_of(template: Seq<char>, plan: SessionPlan, answers: Seq<(String, String)>) -> Seq<char> {
    replace(
        replace(template, "{{ANSWER_STYLE}}"@, answer_style_of(plan.mode)),
        "{{ANSWERS}}"@,
        answers_block(plan, answers, plan.open_questions@.len()).0,
    )
}

fn answer_of(answers: &[(String, String)], id: &String) -> (r: Option<Vec<char>>)
    ensures
        match answer_from(answers@, id@, 0) {
            Some(a) => r matches Some(v) && v@ == a,
            None => r is None,
        },
{
    let mut k: usize = 0;
    while k < answers.len()
        invariant
            k <= answers@.len(),
            answer_from(answers@, id@, 0) == answer_from(answers@, id@, k as int),
        decreases answers@.len() - k,
    {
        if answers[k].0 == *id {
            return Some(crate::text::trim_chars(&chars_of(answers[k].1.as_str())));
        }
        k += 1;
    }
    None
}

fn note_text(notes: &[KnowledgeNote], id: &String) -> (r: Vec<char>)
    ensures
        r@ == note_text_for(notes@, id@, 0),
{
    let mut k: usize = 0;
    while k < notes.len()
        invariant
            k <= notes@.len(),
            note_text_for(notes@, id@, 0) == note_text_for(notes@, id@, k as int),
        decreases notes@.len() - k,
    {
        if notes[k].topic_id == *id {
            return crate::text::cut(&chars_of(notes[k].body.as_str()), 5000, &chars_of("\n…"));
        }
        k += 1;
    }
    chars_of("(конспект недоступний)")
}

fn bullet_list(points: &Vec<String>) -> (r: Vec<char>)
    ensures
        r@ == bullets(strings_view(points@)),
{
    let mut parts: Vec<Vec<char>> = Vec::new();
    let mut i: usize = 0;
    while i < points.len()
        invariant
            i <= points@.len(),
            parts@.map_values(|p: Vec<char>| p@) == strings_view(points@).take(i as int).map_values(
                |p: Seq<char>| "- "@ + p,
            ),
        decreases points@.len() - i,
    {
        let ghost before = parts@.map_values(|p: Vec<char>| p@);
        let mut line = chars_of("- ");
        extend(&mut line, &chars_of(points[i].as_str()));
        parts.push(line);
        proof {
            let sv = strings_view(points@);
            assert(sv.take(i + 1) =~= sv.take(i as int).push(sv[i as int]));
            assert(parts@.map_values(|p: Vec<char>| p@) =~= before.push("- "@ + sv[i as int]));
        }
        i += 1;
    }
    assert(strings_view(points@).take(points@.len() as int) =~= strings_view(points@));
    join_parts(&parts, "\n")
}

fn push_answer_section(out: &mut Vec<char>, index: u64, q: &OpenQuestion, answer: &Vec<char>, note: &Vec<char>)
    ensures
        final(out)@ == old(out)@ + answer_section(index as nat, *q, answer@, note@),
{
    let ghost start = out@;
    extend(out, &chars_of("## Відповідь "));
    crate::text::push_decimal(out, index);
    extend(out, &chars_of(" — topic_id: "));
    extend(out, &chars_of(q.topic_id.as_str()));
    extend(out, &chars_of("\n\n### Питання\n"));
    extend(out, &chars_of(q.question.as_str()));
    extend(out, &chars_of("\n\n### Очікувані пункти\n"));
    extend(out, &bullet_list(&q.expected_points));
    extend(out, &chars_of("\n\n### Відповідь студента\n"));
    extend(out, answer);
    extend(out, &chars_of("\n\n### Конспект теми\n"));
    extend(out, note);
    extend(out, &chars_of("\n\n"));
    assert(out@ =~= start + answer_section(index as nat, *q, answer@, note@));
}

/// Fill in the grading prompt for the answers worth grading.
pub fn grading_prompt(template: &str, plan: &SessionPlan, answers: &[(String, String)]) -> (r: String)
    ensures
        r@ == grading_prompt_of(template@, *plan, answers@),
{
    let mut block: Vec<char> = Vec::new();
    let mut n: u64 = 0;
    let mut i: usize = 0;
    while i < plan.open_questions.len()
        invariant
            i <= plan.open_questions@.len(),
            (block@, n as nat) == answers_block(*plan, answers@, i as nat),
            n <= i,
        decreases plan.open_questions@.len() - i,
    {
        let q = &plan.open_questions[i];
        match answer_of(answers, &q.topic_id) {
            Some(a) => {
                let note = note_text(plan.notes.as_slice(), &q.topic_id);
                n = n + 1;
                push_answer_section(&mut block, n, q, &a, &note);
            },
            None => {},
        }
        i += 1;
    }
    proof {
        reveal_strlit("{{ANSWER_STYLE}}");
        reveal_strlit("{{ANSWERS}}");
    }
    let a = replace_str(template, "{{ANSWER_STYLE}}", plan.mode.answer_style());
    let b = string_of(&block);
    replace_str(a.as_str(), "{{ANSWERS}}", b.as_str())
}

/// Keep only the grader's verdicts on answers that were actually sent.
pub fn keep_gradings(gradings: Vec<OpenGrading>, answers: &[(String, String)]) -> (r: Vec<OpenGrading>)
    ensures
        r@ == gradings@.filter(|g: OpenGrading| exists|i: int| 0 <= i < answers@.len() && #[trigger] answers@[i].0@ == g.topic_id@),
{
    let ghost keep = |g: OpenGrading| exists|i: int| 0 <= i < answers@.len() && #[trigger] answers@[i].0@ == g.topic_id@;
    let mut r: Vec<OpenGrading> = Vec::new();
    let mut k: usize = 0;
    let mut rest = gradings;
    let ghost all = rest@;
    let total = rest.len();
    assert(all.len() == total);
    while rest.len() > 0
        invariant
            keep == (|g: OpenGrading| exists|i: int| 0 <= i < answers@.len() && #[trigger] answers@[i].0@ == g.topic_id@),
            all.len() == k + rest@.len(),
            k <= all.len(),
            all.len() <= usize::MAX,
            rest@ == all.skip(k as int),
            r@ == all.take(k as int).filter(keep),
        decreases rest@.len(),
    {
        let g = rest.remove(0);
        let mut found = false;
        let mut j: usize = 0;
        while j < answers.len()
            invariant
                j <= answers@.len(),
                found == (exists|i: int| 0 <= i < j && answers@[i].0@ == g.topic_id@),
            decreases answers@.len() - j,
        {
            if answers[j].0 == g.topic_id {
                found = true;
            }
            j += 1;
        }
        proof {
            assert(all[k as int] == g);
            assert(all.take(k + 1) =~= all.take(k as int).push(g));
            reveal(Seq::filter);
            assert(all.take(k + 1).filter(keep) == all.take(k as int).filter(keep) + if keep(g) {
                seq![g]
            } else {
                Seq::<OpenGrading>::empty()
            }) by {
                assert(all.take(k + 1).drop_last() =~= all.take(k as int));
            }
        }
        if found {
            r.push(g);
        }
        proof {
            if !found {
                assert(all.take(k as int).filter(keep) + Seq::<OpenGrading>::empty() =~= all.take(k as int).filter(keep));
            }
            assert(rest@ =~= all.skip(k + 1));
        }
        k += 1;
    }
    assert(all.take(k as int) =~= all);
    r
}


proof fn lemma_insert_skipped_sums(os: Seq<OutcomeV>, k: int, o: OutcomeV)
    requires
        o.skipped,
        0 <= k <= os.len(),
    ensures
        score_sum(os.insert(k, o)) == score_sum(os),
        scored_count(os.insert(k, o)) == scored_count(os),
    decreases os.len(),
{
    let t = os.insert(k, o);
    if k == os.len() {
        assert(t.drop_last() =~= os);
    } else {
        lemma_insert_skipped_sums(os.drop_last(), k, o);
        assert(t.drop_last() =~= os.drop_last().insert(k, o));
        assert(t.last() == os.last());
    }
}

/// The overall score of a session is the rounded mean of the scores of its scored topics
/// only: a skipped topic, wherever it stands, leaves it unchanged; a session whose only
/// scored topic scored `s` has overall score `s`; a session with no scored topic scores 0.
pub proof fn lemma_overall_counts_scored_topics_only(os: Seq<OutcomeV>, k: int, o: OutcomeV)
    requires
        o.skipped,
        0 <= k <= os.len(),
    ensures
        overall_of(os.insert(k, o)) == overall_of(os),
        forall|p: OutcomeV| !p.skipped ==> #[trigger] overall_of(seq![p]) == p.score,
        (forall|i: int| 0 <= i < os.len() ==> (#[trigger] os[i]).skipped) ==> overall_of(os) == 0,
{
    lemma_insert_skipped_sums(os, k, o);
    assert forall|p: OutcomeV| !p.skipped implies #[trigger] overall_of(seq![p]) == p.score by {
        let one = seq![p];
        assert(one.drop_last() =~= Seq::<OutcomeV>::empty());
        assert(one.last() == p);
        assert(score_sum(Seq::<OutcomeV>::empty()) == 0);
        assert(scored_count(Seq::<OutcomeV>::empty()) == 0);
        assert(score_sum(one) == p.score);
        assert(scored_count(one) == 1);
        assert((200 * p.score + 100) / 200 == p.score) by (nonlinear_arith);
    }
    if forall|i: int| 0 <= i < os.len() ==> (#[trigger] os[i]).skipped {
        lemma_all_skipped_unscored(os);
    }
}

/// Two scored topics give the mean of their scores, a half rounded up.
pub proof fn lemma_overall_of_two(p: OutcomeV, q: OutcomeV)
    requires
        !p.skipped,
        !q.skipped,
    ensures
        overall_of(seq![p, q]) == (p.score + q.score + 1) / 2,
{
    let two = seq![p, q];
    assert(two.drop_last() =~= seq![p]);
    assert(seq![p].drop_last() =~= Seq::<OutcomeV>::empty());
    assert(score_sum(Seq::<OutcomeV>::empty()) == 0);
    assert(scored_count(Seq::<OutcomeV>::empty()) == 0);
    assert(score_sum(seq![p]) == p.score);
    assert(scored_count(seq![p]) == 1);
    assert(score_sum(two) == p.score + q.score);
    assert(scored_count(two) == 2);
    let t = p.score + q.score;
    assert((200 * t + 200) / 400 == (t + 1) / 2) by (nonlinear_arith);
}

proof fn lemma_all_skipped_unscored(os: Seq<OutcomeV>)
    requires
        forall|i: int| 0 <= i < os.len() ==> (#[trigger] os[i]).skipped,
    ensures
        scored_count(os) == 0,
        score_sum(os) == 0,
    decreases os.len(),
{
    if os.len() > 0 {
        assert(os.last() == os[os.len() - 1]);
        assert forall|i: int| 0 <= i < os.drop_last().len() implies (#[trigger] os.drop_last()[i]).skipped by {
            assert(os.drop_last()[i] == os[i]);
        }
        lemma_all_skipped_unscored(os.drop_last());
    }
}

} // verus!
