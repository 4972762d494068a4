//! Attempt history and the mastery table it feeds — the "memory" that later quizzes are
//! weighted against.
use vstd::prelude::*;

use crate::order::{keys_view, positions_view, same_positions, sort_positions, sorted_by_key, KeyV, SortKey};
use crate::quiz::{same_choice, Question, Quiz};
use crate::study::{min_nat, positions_where, rounded_percent};
use crate::syllabus::{string_eq, topics_view, Topic, TopicV};
use crate::text::strings_view;
use crate::time::{current_rfc3339, rfc3339_of};

verus! {

pub struct AnswerRecord {
    pub question_id: String,
    pub topic_id: String,
    pub selected: Vec<usize>,
    pub correct: bool,
    pub hint_used: bool,
}

pub struct AnswerV {
    pub question_id: Seq<char>,
    pub topic_id: Seq<char>,
    pub selected: Seq<usize>,
    pub correct: bool,
    pub hint_used: bool,
}

impl View for AnswerRecord {
    type V = AnswerV;

    open spec fn view(&self) -> AnswerV {
        AnswerV {
            question_id: self.question_id@,
            topic_id: self.topic_id@,
            selected: self.selected@,
            correct: self.correct,
            hint_used: self.hint_used,
        }
    }
}

pub open spec fn answers_view(v: Seq<AnswerRecord>) -> Seq<AnswerV> {
    v.map_values(|a: AnswerRecord| a@)
}

impl Clone for AnswerRecord {
    fn clone(&self) -> (r: Self)
        ensures
            r@ == self@,
    {
        AnswerRecord {
            question_id: self.question_id.clone(),
            topic_id: self.topic_id.clone(),
            selected: self.selected.clone(),
            correct: self.correct,
            hint_used: self.hint_used,
        }
    }
}

pub struct Attempt {
    pub id: String,
    pub quiz_id: String,
    pub subject: String,
    pub quiz_title: String,
    pub finished_at: String,
    pub answers: Vec<AnswerRecord>,
}

/// How many of `answers` were right.
pub open spec fn count_correct(answers: Seq<AnswerV>) -> nat
    decreases answers.len(),
{
    if answers.len() == 0 {
        0
    } else {
        count_correct(answers.drop_last()) + if answers.last().correct {
            1nat
        } else {
            0nat
        }
    }
}

proof fn lemma_count_correct_le(answers: Seq<AnswerV>)
    ensures
        count_correct(answers) <= answers.len(),
    decreases answers.len(),
{
    if answers.len() > 0 {
        lemma_count_correct_le(answers.drop_last());
    }
}

/// `100 * part / whole` rounded to the nearest whole number, halves up, and capped at the
/// largest `u32`; 0 when `whole` is 0.
pub open spec fn capped_percent(part: nat, whole: nat) -> nat {
    let p = rounded_percent(part, whole);
    if p <= u32::MAX {
        p
    } else {
        u32::MAX as nat
    }
}

/// `capped_percent` of two counts.
pub fn percent(part: u32, whole: u32) -> (r: u32)
    ensures
        r == capped_percent(part as nat, whole as nat),
{
    if whole == 0 {
        return 0;
    }
    let p: u64 = (200 * part as u64 + whole as u64) / (2 * whole as u64);
    if p <= u32::MAX as u64 {
        p as u32
    } else {
        u32::MAX
    }
}

impl Attempt {
    pub fn correct_count(&self) -> (n: usize)
        ensures
            n == count_correct(answers_view(self.answers@)),
    {
        let ghost av = answers_view(self.answers@);
        let mut n: usize = 0;
        let mut i: usize = 0;
        while i < self.answers.len()
            invariant
                av == answers_view(self.answers@),
                i <= self.answers@.len(),
                n == count_correct(av.take(i as int)),
                n <= i,
            decreases self.answers@.len() - i,
        {
            proof {
                assert(av.take(i + 1).drop_last() =~= av.take(i as int));
            }
            if self.answers[i].correct {
                n = n + 1;
            }
            i += 1;
        }
        assert(av.take(self.answers@.len() as int) =~= av);
        n
    }

    /// The share of right answers, as a whole percentage; 0 for an attempt with no answers.
    pub fn score_percent(&self) -> (p: u32)
        ensures
            p == rounded_percent(count_correct(answers_view(self.answers@)), self.answers@.len()),
            p <= 100,
    {
        if self.answers.len() == 0 {
            return 0;
        }
        let c = self.correct_count();
        let n = self.answers.len();
        proof {
            lemma_count_correct_le(answers_view(self.answers@));
        }
        let whole: u128 = n as u128;
        let p: u128 = (200 * c as u128 + whole) / (2 * whole);
        proof {
            assert((200 * c + n) / (2 * n) <= 100) by (nonlinear_arith)
                requires
                    c <= n,
                    n > 0,
            ;
        }
        p as u32
    }
}

/// What the app hands back after grading, so the review screen needs no second call.
pub struct AttemptResult {
    pub attempt: Attempt,
    pub total: usize,
    pub correct: usize,
    pub score_percent: u32,
}

// ---------------------------------------------------------------------------
// Grading an attempt
// ---------------------------------------------------------------------------

/// The options chosen for question `id`: those of the first selection filed under it,
/// none when there is no such selection.
pub open spec fn selection_from(sel: Seq<(String, Vec<usize>)>, id: Seq<char>, k: int) -> Seq<usize>
    decreases sel.len() - k,
{
    if k < 0 || k >= sel.len() {
        seq![]
    } else if sel[k].0@ == id {
        sel[k].1@
    } else {
        selection_from(sel, id, k + 1)
    }
}

/// The graded record of question `q`.
pub open spec fn graded(q: Question, sel: Seq<(String, Vec<usize>)>, hints: Seq<String>) -> AnswerV {
    let selected = selection_from(sel, q.id@, 0);
    AnswerV {
        question_id: q.id@,
        topic_id: q.topic_id@,
        selected,
        correct: same_choice(q.correct@, selected),
        hint_used: strings_view(hints).contains(q.id@),
    }
}

pub open spec fn graded_all(qs: Seq<Question>, sel: Seq<(String, Vec<usize>)>, hints: Seq<String>) -> Seq<AnswerV> {
    qs.map_values(|q: Question| graded(q, sel, hints))
}

fn selection_for(sel: &[(String, Vec<usize>)], id: &String) -> (r: Vec<usize>)
    ensures
        r@ == selection_from(sel@, id@, 0),
{
    let mut k: usize = 0;
    while k < sel.len()
        invariant
            k <= sel@.len(),
            selection_from(sel@, id@, 0) == selection_from(sel@, id@, k as int),
        decreases sel@.len() - k,
    {
        if sel[k].0 == *id {
            return sel[k].1.clone();
        }
        k += 1;
    }
    Vec::new()
}

fn contains_string(v: &[String], s: &String) -> (r: bool)
    ensures
        r == strings_view(v@).contains(s@),
{
    let mut k: usize = 0;
    while k < v.len()
        invariant
            k <= v@.len(),
            forall|j: int| 0 <= j < k ==> v@[j]@ != s@,
        decreases v@.len() - k,
    {
        if v[k] == *s {
            assert(strings_view(v@)[k as int] == s@);
            return true;
        }
        k += 1;
    }
    assert forall|j: int| 0 <= j < strings_view(v@).len() implies strings_view(v@)[j] != s@ by {
        assert(strings_view(v@)[j] == v@[j]@);
    }
    false
}

/// Grade the raw selections against the quiz, one record per question in quiz order: the
/// options chosen (none when the question was skipped), whether they are exactly the right
/// ones, and whether a hint was asked for.
pub fn grade_answers(questions: &[Question], selections: &[(String, Vec<usize>)], hints_used: &[String]) -> (r: Vec<
    AnswerRecord,
>)
    ensures
        answers_view(r@) == graded_all(questions@, selections@, hints_used@),
{
    let ghost g = graded_all(questions@, selections@, hints_used@);
    let mut out: Vec<AnswerRecord> = Vec::new();
    let mut i: usize = 0;
    while i < questions.len()
        invariant
            g == graded_all(questions@, selections@, hints_used@),
            i <= questions@.len(),
            answers_view(out@) == g.take(i as int),
        decreases questions@.len() - i,
    {
        let q = &questions[i];
        let selected = selection_for(selections, &q.id);
        let correct = q.is_correct(selected.as_slice());
        let hint_used = contains_string(hints_used, &q.id);
        let ghost prev = answers_view(out@);
        out.push(
            AnswerRecord {
                question_id: q.id.clone(),
                topic_id: q.topic_id.clone(),
                selected,
                correct,
                hint_used,
            },
        );
        proof {
            assert(answers_view(out@) =~= prev.push(graded(*q, selections@, hints_used@)));
            assert(g.take(i + 1) =~= g.take(i as int).push(g[i as int]));
        }
        i += 1;
    }
    assert(g.take(questions@.len() as int) =~= g);
    out
}

// ---------------------------------------------------------------------------
// The mastery table
// ---------------------------------------------------------------------------

pub struct TopicMastery {
    pub topic_id: String,
    pub seen: u32,
    pub correct: u32,
    pub hints_used: u32,
    pub last_seen: String,
}

pub struct MasteryV {
    pub topic_id: Seq<char>,
    pub seen: nat,
    pub correct: nat,
    pub hints_used: nat,
    pub last_seen: Seq<char>,
}

impl View for TopicMastery {
    type V = MasteryV;

    open spec fn view(&self) -> MasteryV {
        MasteryV {
            topic_id: self.topic_id@,
            seen: self.seen as nat,
            correct: self.correct as nat,
            hints_used: self.hints_used as nat,
            last_seen: self.last_seen@,
        }
    }
}

impl Clone for TopicMastery {
    fn clone(&self) -> (r: Self)
        ensures
            r@ == self@,
    {
        TopicMastery {
            topic_id: self.topic_id.clone(),
            seen: self.seen,
            correct: self.correct,
            hints_used: self.hints_used,
            last_seen: self.last_seen.clone(),
        }
    }
}

impl Default for TopicMastery {
    fn default() -> (r: Self)
        ensures
            r@ == fresh_mastery(Seq::empty()),
    {
        TopicMastery { topic_id: String::new(), seen: 0, correct: 0, hints_used: 0, last_seen: String::new() }
    }
}

/// The record a topic starts with the first time one of its questions is answered.
pub open spec fn fresh_mastery(topic_id: Seq<char>) -> MasteryV {
    MasteryV { topic_id, seen: 0, correct: 0, hints_used: 0, last_seen: Seq::empty() }
}

/// Every topic ever answered, one record per topic.
pub struct Mastery {
    pub topics: Vec<TopicMastery>,
}

pub open spec fn mastery_view(v: Seq<TopicMastery>) -> Seq<MasteryV> {
    v.map_values(|e: TopicMastery| e@)
}

pub open spec fn mastery_index(es: Seq<MasteryV>, id: Seq<char>) -> Option<int> {
    if exists|i: int| 0 <= i < es.len() && es[i].topic_id == id {
        Some(choose|i: int| 0 <= i < es.len() && es[i].topic_id == id)
    } else {
        None
    }
}

/// The record for `id`, if the topic has one.
pub open spec fn mastery_of(es: Seq<MasteryV>, id: Seq<char>) -> Option<MasteryV> {
    match mastery_index(es, id) {
        Some(i) => Some(es[i]),
        None => None,
    }
}

pub open spec fn distinct_topics(es: Seq<MasteryV>) -> bool {
    forall|i: int, j: int| 0 <= i < j < es.len() ==> es[i].topic_id != es[j].topic_id
}

proof fn lemma_mastery_at(es: Seq<MasteryV>, id: Seq<char>, i: int)
    requires
        distinct_topics(es),
        0 <= i < es.len(),
        es[i].topic_id == id,
    ensures
        mastery_of(es, id) == Some(es[i]),
{
    let k = choose|k: int| 0 <= k < es.len() && es[k].topic_id == id;
    assert(0 <= k < es.len() && es[k].topic_id == id);
    if k != i {
        if k < i {
            assert(es[k].topic_id != es[i].topic_id);
        } else {
            assert(es[i].topic_id != es[k].topic_id);
        }
    }
}

proof fn lemma_mastery_update(old_es: Seq<MasteryV>, es: Seq<MasteryV>, i: int, k: Seq<char>)
    requires
        distinct_topics(old_es),
        0 <= i < old_es.len(),
        es.len() == old_es.len(),
        forall|j: int| 0 <= j < es.len() && j != i ==> es[j] == old_es[j],
        es[i].topic_id == old_es[i].topic_id,
    ensures
        distinct_topics(es),
        k != es[i].topic_id ==> mastery_of(es, k) == mastery_of(old_es, k),
{
    assert forall|a: int, b: int| 0 <= a < b < es.len() implies es[a].topic_id != es[b].topic_id by {
        if a != i && b != i {
        } else if a == i {
            assert(es[b] == old_es[b]);
        } else {
            assert(es[a] == old_es[a]);
        }
    }
    if k == es[i].topic_id {
    } else if exists|j: int| 0 <= j < old_es.len() && old_es[j].topic_id == k {
        let j = choose|j: int| 0 <= j < old_es.len() && old_es[j].topic_id == k;
        lemma_mastery_at(old_es, k, j);
        lemma_mastery_at(es, k, j);
    } else {
        assert forall|j: int| 0 <= j < es.len() implies es[j].topic_id != k by {
            if j != i {
                assert(es[j] == old_es[j]);
            }
        }
    }
}

proof fn lemma_mastery_push(old_es: Seq<MasteryV>, e: MasteryV, k: Seq<char>)
    requires
        distinct_topics(old_es),
        forall|j: int| 0 <= j < old_es.len() ==> old_es[j].topic_id != e.topic_id,
    ensures
        distinct_topics(old_es.push(e)),
        k != e.topic_id ==> mastery_of(old_es.push(e), k) == mastery_of(old_es, k),
        mastery_of(old_es.push(e), e.topic_id) == Some(e),
{
    let es = old_es.push(e);
    assert forall|a: int, b: int| 0 <= a < b < es.len() implies es[a].topic_id != es[b].topic_id by {
        if b == old_es.len() {
            assert(es[a] == old_es[a]);
        } else {
            assert(es[a] == old_es[a] && es[b] == old_es[b]);
        }
    }
    lemma_mastery_at(es, e.topic_id, old_es.len() as int);
    if k != e.topic_id {
        if exists|j: int| 0 <= j < old_es.len() && old_es[j].topic_id == k {
            let j = choose|j: int| 0 <= j < old_es.len() && old_es[j].topic_id == k;
            lemma_mastery_at(old_es, k, j);
            assert(es[j] == old_es[j]);
            lemma_mastery_at(es, k, j);
        } else {
            assert forall|j: int| 0 <= j < es.len() implies es[j].topic_id != k by {
                if j < old_es.len() {
                    assert(es[j] == old_es[j]);
                }
            }
        }
    }
}

impl Default for Mastery {
    fn default() -> (m: Self)
        ensures
            m.wf(),
            m.entries().len() == 0,
    {
        Mastery { topics: Vec::new() }
    }
}

impl Mastery {
    pub open spec fn entries(&self) -> Seq<MasteryV> {
        mastery_view(self.topics@)
    }

    pub open spec fn wf(&self) -> bool {
        distinct_topics(self.entries())
    }

    pub fn new() -> (m: Self)
        ensures
            m.wf(),
            m.entries().len() == 0,
    {
        Mastery { topics: Vec::new() }
    }

    fn find(&self, id: &str) -> (r: Option<usize>)
        requires
            self.wf(),
        ensures
            match r {
                Some(i) => i < self.topics@.len() && self.entries()[i as int].topic_id == id@
                    && mastery_of(self.entries(), id@) == Some(self.entries()[i as int]),
                None => mastery_of(self.entries(), id@) is None,
            },
    {
        let mut i: usize = 0;
        while i < self.topics.len()
            invariant
                self.wf(),
                i <= self.topics@.len(),
                forall|j: int| 0 <= j < i ==> self.entries()[j].topic_id != id@,
            decreases self.topics@.len() - i,
        {
            if string_eq(&self.topics[i].topic_id, id) {
                proof {
                    lemma_mastery_at(self.entries(), id@, i as int);
                }
                return Some(i);
            }
            i += 1;
        }
        None
    }

    /// The record for `id`, if the topic has one.
    pub fn get(&self, id: &str) -> (r: Option<&TopicMastery>)
        requires
            self.wf(),
        ensures
            match mastery_of(self.entries(), id@) {
                Some(e) => r matches Some(t) && t@ == e,
                None => r is None,
            },
    {
        match self.find(id) {
            Some(i) => Some(&self.topics[i]),
            None => None,
        }
    }

    /// Store `entry` as the record for its topic, replacing any previous one.
    pub fn insert(&mut self, entry: TopicMastery)
        requires
            old(self).wf(),
        ensures
            final(self).wf(),
            forall|id: Seq<char>|
                #[trigger] mastery_of(final(self).entries(), id) == if id == entry.topic_id@ {
                    Some(entry@)
                } else {
                    mastery_of(old(self).entries(), id)
                },
    {
        let ghost old_es = self.entries();
        let ghost e = entry@;
        match self.find(entry.topic_id.as_str()) {
            Some(i) => {
                self.topics.set(i, entry);
                proof {
                    let es = self.entries();
                    assert(es =~= old_es.update(i as int, e));
                    assert forall|k: Seq<char>| #[trigger] mastery_of(es, k) == if k == e.topic_id {
                        Some(e)
                    } else {
                        mastery_of(old_es, k)
                    } by {
                        lemma_mastery_update(old_es, es, i as int, k);
                        if k == e.topic_id {
                            lemma_mastery_at(es, k, i as int);
                        }
                    }
                    lemma_mastery_update(old_es, es, i as int, e.topic_id);
                }
            },
            None => {
                self.topics.push(entry);
                proof {
                    let es = self.entries();
                    assert(es =~= old_es.push(e));
                    assert forall|k: Seq<char>| #[trigger] mastery_of(es, k) == if k == e.topic_id {
                        Some(e)
                    } else {
                        mastery_of(old_es, k)
                    } by {
                        lemma_mastery_push(old_es, e, k);
                    }
                    lemma_mastery_push(old_es, e, e.topic_id);
                }
            },
        }
    }
}

// ---------------------------------------------------------------------------
// Folding answers into mastery
// ---------------------------------------------------------------------------

/// How many of `answers` are about topic `id`.
pub open spec fn answered_on(answers: Seq<AnswerV>, id: Seq<char>) -> nat
    decreases answers.len(),
{
    if answers.len() == 0 {
        0
    } else {
        answered_on(answers.drop_last(), id) + if answers.last().topic_id == id {
            1nat
        } else {
            0nat
        }
    }
}

/// How many of `answers` about topic `id` were right.
pub open spec fn right_on(answers: Seq<AnswerV>, id: Seq<char>) -> nat
    decreases answers.len(),
{
    if answers.len() == 0 {
        0
    } else {
        right_on(answers.drop_last(), id) + if answers.last().topic_id == id && answers.last().correct {
            1nat
        } else {
            0nat
        }
    }
}

/// How many of `answers` about topic `id` used a hint.
pub open spec fn hinted_on(answers: Seq<AnswerV>, id: Seq<char>) -> nat
    decreases answers.len(),
{
    if answers.len() == 0 {
        0
    } else {
        hinted_on(answers.drop_last(), id) + if answers.last().topic_id == id && answers.last().hint_used {
            1nat
        } else {
            0nat
        }
    }
}

pub open spec fn base_mastery(es: Seq<MasteryV>, id: Seq<char>) -> MasteryV {
    match mastery_of(es, id) {
        Some(e) => e,
        None => fresh_mastery(id),
    }
}

/// The mastery record of `id` after `answers` were folded in at time `now`.
pub open spec fn folded(es: Seq<MasteryV>, answers: Seq<AnswerV>, id: Seq<char>, now: Seq<char>) -> Option<
    MasteryV,
> {
    if answered_on(answers, id) == 0 {
        mastery_of(es, id)
    } else {
        let b = base_mastery(es, id);
        Some(
            MasteryV {
                topic_id: id,
                seen: b.seen + answered_on(answers, id),
                correct: b.correct + right_on(answers, id),
                hints_used: b.hints_used + hinted_on(answers, id),
                last_seen: now,
            },
        )
    }
}

/// Folding `answers` in keeps every counter within a `u32`.
pub open spec fn fold_fits(es: Seq<MasteryV>, answers: Seq<AnswerV>) -> bool {
    forall|i: int|
        0 <= i < answers.len() ==> {
            let id = (#[trigger] answers[i]).topic_id;
            let b = base_mastery(es, id);
            &&& b.seen + answered_on(answers, id) <= u32::MAX
            &&& b.correct + right_on(answers, id) <= u32::MAX
            &&& b.hints_used + hinted_on(answers, id) <= u32::MAX
        }
}

proof fn lemma_counts_within(answers: Seq<AnswerV>, id: Seq<char>)
    ensures
        right_on(answers, id) <= answered_on(answers, id),
        hinted_on(answers, id) <= answered_on(answers, id),
    decreases answers.len(),
{
    if answers.len() > 0 {
        lemma_counts_within(answers.drop_last(), id);
    }
}

/// Folding answers in never lets a topic be right, or hinted, more often than it was seen, so
/// its accuracy stays a share of what was asked.
pub proof fn lemma_fold_keeps_counts_consistent(es: Seq<MasteryV>, answers: Seq<AnswerV>, id: Seq<char>, now: Seq<char>)
    requires
        mastery_of(es, id) matches Some(e) ==> e.correct <= e.seen && e.hints_used <= e.seen,
    ensures
        folded(es, answers, id, now) matches Some(f) ==> f.correct <= f.seen && f.hints_used <= f.seen,
{
    lemma_counts_within(answers, id);
}

/// A share of a whole is at most 100%.
pub proof fn lemma_percent_of_a_share(part: nat, whole: nat)
    requires
        part <= whole,
    ensures
        capped_percent(part, whole) <= 100,
{
    if whole > 0 {
        assert((200 * part + whole) / (2 * whole) <= 100) by (nonlinear_arith)
            requires
                part <= whole,
                whole > 0,
        ;
    }
}

proof fn lemma_counts_prefix(answers: Seq<AnswerV>, k: int, id: Seq<char>)
    requires
        0 <= k <= answers.len(),
    ensures
        answered_on(answers.take(k), id) <= answered_on(answers, id),
        right_on(answers.take(k), id) <= right_on(answers, id),
        hinted_on(answers.take(k), id) <= hinted_on(answers, id),
        answered_on(answers, id) == 0 ==> answered_on(answers.take(k), id) == 0,
    decreases answers.len() - k,
{
    if k < answers.len() {
        lemma_counts_prefix(answers, k + 1, id);
        assert(answers.take(k + 1).drop_last() =~= answers.take(k));
    } else {
        assert(answers.take(k) =~= answers);
    }
}

/// Fold a batch of graded answers into the mastery table at time `now`: every topic they
/// touch counts each answer as seen, each right one as correct and each hinted one as a hint,
/// and is marked as seen `now`; other topics are untouched.
pub fn apply_answers_at(mastery: &mut Mastery, answers: &[AnswerRecord], now: &String)
    requires
        old(mastery).wf(),
        fold_fits(old(mastery).entries(), answers_view(answers@)),
    ensures
        final(mastery).wf(),
        forall|id: Seq<char>|
            #[trigger] mastery_of(final(mastery).entries(), id) == folded(
                old(mastery).entries(),
                answers_view(answers@),
                id,
                now@,
            ),
{
    let ghost old_es = mastery.entries();
    let ghost av = answers_view(answers@);
    let mut k: usize = 0;
    while k < answers.len()
        invariant
            mastery.wf(),
            av == answers_view(answers@),
            k <= answers@.len(),
            fold_fits(old_es, av),
            forall|id: Seq<char>|
                #[trigger] mastery_of(mastery.entries(), id) == folded(old_es, av.take(k as int), id, now@),
        decreases answers@.len() - k,
    {
        let a = &answers[k];
        let ghost id = a.topic_id@;
        let ghost before = mastery.entries();
        proof {
            assert(av[k as int] == a@);
            lemma_counts_prefix(av, k as int, id);
            lemma_counts_prefix(av, k + 1, id);
            lemma_counts_within(av.take(k as int), id);
            assert(av.take(k + 1).drop_last() =~= av.take(k as int));
            assert(av.take(k + 1).last() == a@);
        }
        let mut e = match mastery.get(a.topic_id.as_str()) {
            Some(t) => t.clone(),
            None => TopicMastery {
                topic_id: a.topic_id.clone(),
                seen: 0,
                correct: 0,
                hints_used: 0,
                last_seen: String::new(),
            },
        };
        proof {
            let f = folded(old_es, av.take(k as int), id, now@);
            assert(mastery_of(before, id) == f);
        }
        e.seen = e.seen + 1;
        if a.correct {
            e.correct = e.correct + 1;
        }
        if a.hint_used {
            e.hints_used = e.hints_used + 1;
        }
        e.last_seen = now.clone();
        e.topic_id = a.topic_id.clone();
        mastery.insert(e);
        proof {
            assert forall|x: Seq<char>| #[trigger] mastery_of(mastery.entries(), x) == folded(
                old_es,
                av.take(k + 1),
                x,
                now@,
            ) by {
                if x != id {
                    assert(mastery_of(before, x) == folded(old_es, av.take(k as int), x, now@));
                    assert(answered_on(av.take(k + 1), x) == answered_on(av.take(k as int), x));
                    assert(right_on(av.take(k + 1), x) == right_on(av.take(k as int), x));
                    assert(hinted_on(av.take(k + 1), x) == hinted_on(av.take(k as int), x));
                } else {
                    assert(answered_on(av.take(k + 1), x) == answered_on(av.take(k as int), x) + 1);
                    assert(right_on(av.take(k + 1), x) == right_on(av.take(k as int), x) + if a.correct {
                        1nat
                    } else {
                        0nat
                    });
                    assert(hinted_on(av.take(k + 1), x) == hinted_on(av.take(k as int), x) + if a.hint_used {
                        1nat
                    } else {
                        0nat
                    });
                }
            }
        }
        k += 1;
    }
    proof {
        assert(av.take(answers@.len() as int) =~= av);
    }
}

/// Fold a batch of graded answers into the mastery table at the current time. Shared by full
/// quizzes and by the mini-quiz inside a study session, so both feed the same weighting.
pub fn apply_answers(mastery: &mut Mastery, answers: &[AnswerRecord])
    requires
        old(mastery).wf(),
        fold_fits(old(mastery).entries(), answers_view(answers@)),
    ensures
        final(mastery).wf(),
        exists|now: Seq<char>|
            crate::time::clock_text(now) && #[trigger] folds_to(old(mastery).entries(), final(mastery).entries(), answers_view(answers@), now),
{
    let now = current_rfc3339();
    apply_answers_at(mastery, answers, &now);
    proof {
        assert(folds_to(old(mastery).entries(), mastery.entries(), answers_view(answers@), now@));
    }
}

/// `after` is `before` with `answers` folded in at time `now`.
pub open spec fn folds_to(before: Seq<MasteryV>, after: Seq<MasteryV>, answers: Seq<AnswerV>, now: Seq<char>) -> bool {
    forall|id: Seq<char>| #[trigger] mastery_of(after, id) == folded(before, answers, id, now)
}


// ---------------------------------------------------------------------------
// Recording an attempt
// ---------------------------------------------------------------------------

/// The hyphenated lowercase form of a UUID: 36 characters, hex digits with a dash at
/// positions 8, 13, 18 and 23.
pub open spec fn uuid_text(s: Seq<char>) -> bool {
    &&& s.len() == 36
    &&& forall|i: int|
        0 <= i < 36 ==> if i == 8 || i == 13 || i == 18 || i == 23 {
            s[i] == '-'
        } else {
            ('0' <= #[trigger] s[i] <= '9') || ('a' <= s[i] <= 'f')
        }
}

/// `uuid::Uuid::new_v4()` rendered with `to_string`, which writes the hyphenated lowercase
/// form. Which UUID comes out is random.
#[verifier::external_body]
pub(crate) fn new_uuid() -> (s: String)
    ensures
        uuid_text(s@),
{
    uuid::Uuid::new_v4().to_string()
}

/// `id` names something made at an instant: that instant's UTC time as `%Y%m%d-%H%M%S`, a
/// dash, and the first eight characters of a fresh UUID; `created_at` is the same instant in
/// RFC 3339.
pub open spec fn made_at(id: Seq<char>, created_at: Seq<char>) -> bool {
    exists|n: crate::time::Now, u: Seq<char>|
        #![trigger crate::time::compact_stamp_of(n.secs as int, n.nanos as int), uuid_text(u)]
        {
            &&& uuid_text(u)
            &&& crate::time::compact_stamp_of(n.secs as int, n.nanos as int) is Some
            &&& id == crate::time::compact_stamp_of(n.secs as int, n.nanos as int)->0 + seq!['-'] + u.take(8)
            &&& rfc3339_of(n.secs as int, n.nanos as int) == Some(created_at)
        }
}

/// An id and creation time for something made now.
pub fn timestamped_id() -> (r: (String, String))
    ensures
        made_at(r.0@, r.1@),
{
    let n = crate::time::now();
    let stamp = match crate::time::format_compact(n.secs, n.nanos) {
        Some(s) => s,
        None => String::new(),
    };
    let created_at = match crate::time::format_rfc3339(n.secs, n.nanos) {
        Some(s) => s,
        None => String::new(),
    };
    let u = new_uuid();
    let uc = crate::text::chars_of(u.as_str());
    let mut id = crate::text::chars_of(stamp.as_str());
    id.push('-');
    let head = crate::text::slice_vec(&uc, 0, 8);
    crate::text::extend(&mut id, &head);
    proof {
        assert(uc@.subrange(0, 8) =~= u@.take(8));
        assert(id@ =~= stamp@ + seq!['-'] + u@.take(8));
        assert(crate::time::compact_stamp_of(n.secs as int, n.nanos as int) == Some(stamp@));
    }
    (crate::text::string_of(&id), created_at)
}

/// Grade the raw selections against the quiz into a new attempt, fold it into the mastery
/// table, and report the score. The attempt gets a fresh UUID and the current time.
pub fn record_attempt(
    quiz: &Quiz,
    selections: &[(String, Vec<usize>)],
    hints_used: &[String],
    mastery: &mut Mastery,
) -> (r: AttemptResult)
    requires
        old(mastery).wf(),
        fold_fits(old(mastery).entries(), graded_all(quiz.questions@, selections@, hints_used@)),
    ensures
        answers_view(r.attempt.answers@) == graded_all(quiz.questions@, selections@, hints_used@),
        r.attempt.quiz_id == quiz.id,
        r.attempt.subject == quiz.subject,
        r.attempt.quiz_title == quiz.title,
        uuid_text(r.attempt.id@),
        exists|n: crate::time::Now| rfc3339_of(n.secs as int, n.nanos as int) == Some(r.attempt.finished_at@),
        r.total == quiz.questions@.len(),
        r.correct == count_correct(answers_view(r.attempt.answers@)),
        r.score_percent == rounded_percent(r.correct as nat, r.total as nat),
        final(mastery).wf(),
        exists|now: Seq<char>|
            crate::time::clock_text(now) && #[trigger] folds_to(old(mastery).entries(), final(mastery).entries(), answers_view(r.attempt.answers@), now),
{
    let finished_at = current_rfc3339();
    let answers = grade_answers(quiz.questions.as_slice(), selections, hints_used);
    let attempt = Attempt {
        id: new_uuid(),
        quiz_id: quiz.id.clone(),
        subject: quiz.subject.clone(),
        quiz_title: quiz.title.clone(),
        finished_at,
        answers,
    };
    apply_answers(mastery, attempt.answers.as_slice());
    let total = attempt.answers.len();
    let correct = attempt.correct_count();
    let score_percent = attempt.score_percent();
    AttemptResult { attempt, total, correct, score_percent }
}

// ---------------------------------------------------------------------------
// Dashboard numbers
// ---------------------------------------------------------------------------

/// Dashboard numbers for one subject.
pub struct SubjectStats {
    pub subject: String,
    pub topics_total: usize,
    pub topics_with_knowledge: usize,
    pub topics_practised: usize,
    pub questions_answered: u32,
    pub questions_correct: u32,
    pub accuracy_percent: u32,
    pub weakest: Vec<WeakTopic>,
}

pub struct WeakTopic {
    pub topic_id: String,
    pub title: String,
    pub seen: u32,
    pub correct: u32,
    pub accuracy_percent: u32,
}

pub struct WeakV {
    pub topic_id: Seq<char>,
    pub title: Seq<char>,
    pub seen: nat,
    pub correct: nat,
    pub accuracy_percent: nat,
}

impl View for WeakTopic {
    type V = WeakV;

    open spec fn view(&self) -> WeakV {
        WeakV {
            topic_id: self.topic_id@,
            title: self.title@,
            seen: self.seen as nat,
            correct: self.correct as nat,
            accuracy_percent: self.accuracy_percent as nat,
        }
    }
}

pub open spec fn weak_view(v: Seq<WeakTopic>) -> Seq<WeakV> {
    v.map_values(|w: WeakTopic| w@)
}

/// Topic `i` of `ts` has been answered at least once.
pub open spec fn practised(es: Seq<MasteryV>, ts: Seq<TopicV>) -> spec_fn(int) -> bool {
    |i: int| mastery_of(es, ts[i].id) matches Some(e) && e.seen > 0
}

/// Answers seen (`right` false) or answered right (`right` true) across the first `n`
/// topics, counting only topics answered at least once.
pub open spec fn answered_total(es: Seq<MasteryV>, ts: Seq<TopicV>, n: nat, right: bool) -> nat
    decreases n,
{
    if n == 0 {
        0
    } else {
        answered_total(es, ts, (n - 1) as nat, right) + match mastery_of(es, ts[n - 1].id) {
            Some(e) => if e.seen == 0 {
                0
            } else if right {
                e.correct
            } else {
                e.seen
            },
            None => 0,
        }
    }
}

/// The dashboard line of topic `i`.
pub open spec fn weak_of(es: Seq<MasteryV>, ts: Seq<TopicV>, i: int) -> WeakV {
    let e = base_mastery(es, ts[i].id);
    WeakV {
        topic_id: ts[i].id,
        title: ts[i].title,
        seen: e.seen,
        correct: e.correct,
        accuracy_percent: capped_percent(e.correct, e.seen),
    }
}

/// Weakest first: lowest accuracy, then the most answered.
pub open spec fn weak_key(es: Seq<MasteryV>, ts: Seq<TopicV>, i: int) -> KeyV {
    let w = weak_of(es, ts, i);
    KeyV { first: w.accuracy_percent as int, text: None, second: u32::MAX - w.seen }
}

/// The dashboard of a subject: its topics, how many have notes, how many were practised,
/// the answers given and how many were right, and up to ten practised topics, weakest first.
pub open spec fn stats_outcome(
    es: Seq<MasteryV>,
    subject: Seq<char>,
    ts: Seq<TopicV>,
    with_knowledge: nat,
    r: SubjectStats,
) -> bool {
    let ps = positions_where(ts.len(), practised(es, ts));
    let answered = answered_total(es, ts, ts.len(), false);
    let right = answered_total(es, ts, ts.len(), true);
    &&& r.subject@ == subject
    &&& r.topics_total == ts.len()
    &&& r.topics_with_knowledge == with_knowledge
    &&& r.topics_practised == ps.len()
    &&& r.questions_answered == answered
    &&& r.questions_correct == right
    &&& r.accuracy_percent == capped_percent(right, answered)
    &&& exists|order: Seq<int>|
        {
            &&& same_positions(order, ps)
            &&& sorted_by_key(Seq::new(ts.len(), |i: int| weak_key(es, ts, i)), order)
            &&& weak_view(r.weakest@) == order.take(min_nat(10, order.len()) as int).map_values(
                |i: int| weak_of(es, ts, i),
            )
        }
}

/// Dashboard numbers for one subject. `topics` are the subject's topics; the sums are
/// those of the practised ones and must fit a `u32`.
pub fn subject_stats(mastery: &Mastery, subject: &str, topics: &[Topic], topics_with_knowledge: usize) -> (r:
    SubjectStats)
    requires
        mastery.wf(),
        answered_total(mastery.entries(), topics_view(topics@), topics@.len(), false) <= u32::MAX,
        answered_total(mastery.entries(), topics_view(topics@), topics@.len(), true) <= u32::MAX,
    ensures
        stats_outcome(mastery.entries(), subject@, topics_view(topics@), topics_with_knowledge as nat, r),
{
    let ghost es = mastery.entries();
    let ghost ts = topics_view(topics@);
    let n = topics.len();
    let mut answered: u32 = 0;
    let mut correct: u32 = 0;
    let mut ps: Vec<usize> = Vec::new();
    let mut keys: Vec<SortKey> = Vec::new();
    let mut lines: Vec<WeakTopic> = Vec::new();
    let mut i: usize = 0;
    while i < n
        invariant
            mastery.wf(),
            es == mastery.entries(),
            ts == topics_view(topics@),
            n == ts.len(),
            answered_total(es, ts, n as nat, false) <= u32::MAX,
            answered_total(es, ts, n as nat, true) <= u32::MAX,
            i <= n,
            answered == answered_total(es, ts, i as nat, false),
            correct == answered_total(es, ts, i as nat, true),
            positions_view(ps@) == positions_where(i as nat, practised(es, ts)),
            forall|k: int| 0 <= k < ps@.len() ==> (#[trigger] ps@[k]) < i,
            forall|a: int, b: int| 0 <= a < b < ps@.len() ==> ps@[a] < ps@[b],
            keys@.len() == i,
            lines@.len() == i,
            forall|k: int| 0 <= k < i ==> keys_view(keys@)[k] == weak_key(es, ts, k),
            forall|k: int| 0 <= k < i ==> (#[trigger] lines@[k])@ == weak_of(es, ts, k),
        decreases n - i,
    {
        proof {
            lemma_answered_total_grows(es, ts, (i + 1) as nat, n as nat);
        }
        let t = &topics[i];
        let e: TopicMastery = match mastery.get(t.id.as_str()) {
            Some(m) => m.clone(),
            None => TopicMastery {
                topic_id: t.id.clone(),
                seen: 0,
                correct: 0,
                hints_used: 0,
                last_seen: String::new(),
            },
        };
        if e.seen > 0 {
            answered = answered + e.seen;
            correct = correct + e.correct;
            ps.push(i);
            assert(positions_view(ps@) =~= positions_where((i + 1) as nat, practised(es, ts)));
        } else {
            assert(positions_view(ps@) =~= positions_where((i + 1) as nat, practised(es, ts)));
        }
        let accuracy = percent(e.correct, e.seen);
        let ghost kprev = keys_view(keys@);
        keys.push(SortKey { first: accuracy as u64, text: None, second: (u32::MAX - e.seen) as u64 });
        proof {
            assert(keys_view(keys@) =~= kprev.push(weak_key(es, ts, i as int)));
        }
        lines.push(
            WeakTopic {
                topic_id: t.id.clone(),
                title: t.title.clone(),
                seen: e.seen,
                correct: e.correct,
                accuracy_percent: accuracy,
            },
        );
        i += 1;
    }
    let order = sort_positions(&keys, &ps);
    let take = if order.len() <= 10 {
        order.len()
    } else {
        10
    };
    let mut weakest: Vec<WeakTopic> = Vec::new();
    let mut k: usize = 0;
    while k < take
        invariant
            es == mastery.entries(),
            ts == topics_view(topics@),
            lines@.len() == n,
            n == ts.len(),
            take <= order@.len(),
            forall|j: int| 0 <= j < order@.len() ==> (#[trigger] order@[j]) < n,
            forall|j: int| 0 <= j < n ==> (#[trigger] lines@[j])@ == weak_of(es, ts, j),
            k <= take,
            weak_view(weakest@) == positions_view(order@).take(k as int).map_values(
                |j: int| weak_of(es, ts, j),
            ),
        decreases take - k,
    {
        let src = &lines[order[k]];
        let ghost prev = weak_view(weakest@);
        weakest.push(
            WeakTopic {
                topic_id: src.topic_id.clone(),
                title: src.title.clone(),
                seen: src.seen,
                correct: src.correct,
                accuracy_percent: src.accuracy_percent,
            },
        );
        proof {
            let ov = positions_view(order@);
            assert(ov.take(k + 1) =~= ov.take(k as int).push(ov[k as int]));
            assert(weak_view(weakest@) =~= prev.push(weak_of(es, ts, ov[k as int])));
        }
        k += 1;
    }
    let accuracy_percent = percent(correct, answered);
    let r = SubjectStats {
        subject: subject.to_owned(),
        topics_total: n,
        topics_with_knowledge,
        topics_practised: ps.len(),
        questions_answered: answered,
        questions_correct: correct,
        accuracy_percent,
        weakest,
    };
    proof {
        let kv = Seq::new(ts.len(), |j: int| weak_key(es, ts, j));
        assert(keys_view(keys@) =~= kv);
        let ov = positions_view(order@);
        assert(ov.take(take as int) =~= ov.take(min_nat(10, ov.len()) as int));
        assert(same_positions(ov, positions_where(ts.len(), practised(es, ts))));
    }
    r
}

proof fn lemma_answered_total_grows(es: Seq<MasteryV>, ts: Seq<TopicV>, i: nat, n: nat)
    requires
        i <= n,
    ensures
        answered_total(es, ts, i, false) <= answered_total(es, ts, n, false),
        answered_total(es, ts, i, true) <= answered_total(es, ts, n, true),
    decreases n - i,
{
    if i < n {
        lemma_answered_total_grows(es, ts, i + 1, n);
    }
}


proof fn lemma_right_within_answered(es: Seq<MasteryV>, ts: Seq<TopicV>, n: nat)
    requires
        forall|i: int| 0 <= i < es.len() ==> #[trigger] es[i].correct <= es[i].seen,
    ensures
        answered_total(es, ts, n, true) <= answered_total(es, ts, n, false),
    decreases n,
{
    if n > 0 {
        lemma_right_within_answered(es, ts, (n - 1) as nat);
        match mastery_index(es, ts[n - 1].id) {
            Some(i) => {
                assert(es[i].correct <= es[i].seen);
            },
            None => {},
        }
    }
}

proof fn lemma_percent_at_most_hundred(part: nat, whole: nat)
    requires
        part <= whole,
    ensures
        capped_percent(part, whole) <= 100,
{
    if whole > 0 {
        assert((200 * part + whole) / (2 * whole) <= 100) by (nonlinear_arith)
            requires
                part <= whole,
                whole > 0,
        ;
    }
}

/// When no topic was answered right more often than it was seen, a subject's dashboard
/// counts no more right answers than answers, no more practised topics than topics, and
/// an accuracy of at most a hundred percent; it lists at most ten topics, each of them
/// practised, with no more right answers than answers and an accuracy of at most a
/// hundred percent.
pub proof fn lemma_stats_stay_in_bounds(
    es: Seq<MasteryV>,
    subject: Seq<char>,
    ts: Seq<TopicV>,
    with_knowledge: nat,
    r: SubjectStats,
)
    requires
        stats_outcome(es, subject, ts, with_knowledge, r),
        forall|i: int| 0 <= i < es.len() ==> #[trigger] es[i].correct <= es[i].seen,
    ensures
        r.questions_correct <= r.questions_answered,
        r.accuracy_percent <= 100,
        r.topics_practised <= r.topics_total,
        r.weakest@.len() <= 10,
        forall|k: int|
            0 <= k < r.weakest@.len() ==> {
                &&& 0 < (#[trigger] r.weakest@[k]).seen
                &&& r.weakest@[k].correct <= r.weakest@[k].seen
                &&& r.weakest@[k].accuracy_percent <= 100
            },
{
    let ps = positions_where(ts.len(), practised(es, ts));
    let answered = answered_total(es, ts, ts.len(), false);
    let right = answered_total(es, ts, ts.len(), true);
    lemma_right_within_answered(es, ts, ts.len());
    lemma_percent_at_most_hundred(right, answered);
    crate::study::lemma_positions_where_bounds(ts.len(), practised(es, ts));
    let order = choose|order: Seq<int>|
        {
            &&& same_positions(order, ps)
            &&& sorted_by_key(Seq::new(ts.len(), |i: int| weak_key(es, ts, i)), order)
            &&& weak_view(r.weakest@) == order.take(min_nat(10, order.len()) as int).map_values(
                |i: int| weak_of(es, ts, i),
            )
        };
    assert(weak_view(r.weakest@).len() == r.weakest@.len());
    assert forall|k: int| 0 <= k < r.weakest@.len() implies {
        &&& 0 < (#[trigger] r.weakest@[k]).seen
        &&& r.weakest@[k].correct <= r.weakest@[k].seen
        &&& r.weakest@[k].accuracy_percent <= 100
    } by {
        let t = order[k];
        assert(weak_view(r.weakest@)[k] == r.weakest@[k]@);
        assert(r.weakest@[k]@ == weak_of(es, ts, t));
        assert(ps.contains(t));
        let j = choose|j: int| 0 <= j < ps.len() && ps[j] == t;
        crate::study::lemma_positions_where_holds(ts.len(), practised(es, ts), j);
        match mastery_index(es, ts[t].id) {
            Some(i) => {
                assert(es[i].correct <= es[i].seen);
                lemma_percent_at_most_hundred(es[i].correct, es[i].seen);
            },
            None => {},
        }
    }
}

} // verus!
