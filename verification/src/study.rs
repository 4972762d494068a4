//! Study mode: what to learn next, and when to come back to it.
//!
//! A session walks a handful of topics through read → open answers → quiz, then schedules
//! each topic for review on a Leitner-style ladder: 1 → 2 → 4 → 7 → 14 → 30 days.
use vstd::prelude::*;

use rand::Rng;

use crate::order::{
    keys_view, positions_view, same_positions, sort_positions, sorted_by_key, KeyV, SortKey,
    key_lt, opt_text_lt, sorts_before, lemma_key_lt_asymmetric,
};
use crate::syllabus::{clone_opt_string, opt_view, topics_view, Topic, TopicV};
use crate::text::{chars_of, chars_eq, slice_vec, string_of};
use crate::time::{not_after, now, parse_rfc3339, rfc3339_parsed, review_days, rfc3339_of, Clock, Now};

verus! {

/// At or above this a topic advances a level.
pub const PASS_SCORE: u32 = 80;

/// Below this it drops one.
pub const FAIL_SCORE: u32 = 60;

/// The top of the review ladder.
pub const MAX_LEVEL: u8 = 6;

// ---------------------------------------------------------------------------
// Per-topic state
// ---------------------------------------------------------------------------

pub struct TopicStudy {
    pub topic_id: String,
    /// 0 = never studied. 1..=6 index into the review ladder.
    pub level: u8,
    pub read_count: u32,
    pub sessions: u32,
    pub last_studied: Option<String>,
    pub due_at: Option<String>,
    pub last_score: Option<u32>,
}

pub struct TopicStudyV {
    pub topic_id: Seq<char>,
    pub level: nat,
    pub read_count: nat,
    pub sessions: nat,
    pub last_studied: Option<Seq<char>>,
    pub due_at: Option<Seq<char>>,
    pub last_score: Option<nat>,
}

pub open spec fn opt_nat(o: Option<u32>) -> Option<nat> {
    match o {
        Some(x) => Some(x as nat),
        None => None,
    }
}

impl View for TopicStudy {
    type V = TopicStudyV;

    open spec fn view(&self) -> TopicStudyV {
        TopicStudyV {
            topic_id: self.topic_id@,
            level: self.level as nat,
            read_count: self.read_count as nat,
            sessions: self.sessions as nat,
            last_studied: opt_view(self.last_studied),
            due_at: opt_view(self.due_at),
            last_score: opt_nat(self.last_score),
        }
    }
}

impl Clone for TopicStudy {
    fn clone(&self) -> (r: Self)
        ensures
            r@ == self@,
    {
        TopicStudy {
            topic_id: self.topic_id.clone(),
            level: self.level,
            read_count: self.read_count,
            sessions: self.sessions,
            last_studied: clone_opt_string(&self.last_studied),
            due_at: clone_opt_string(&self.due_at),
            last_score: self.last_score,
        }
    }
}

impl Default for TopicStudy {
    fn default() -> (r: Self)
        ensures
            r@ == fresh_entry(Seq::empty()),
    {
        TopicStudy {
            topic_id: String::new(),
            level: 0,
            read_count: 0,
            sessions: 0,
            last_studied: None,
            due_at: None,
            last_score: None,
        }
    }
}

/// The record a topic starts with the first time it is touched.
pub open spec fn fresh_entry(topic_id: Seq<char>) -> TopicStudyV {
    TopicStudyV {
        topic_id,
        level: 0,
        read_count: 0,
        sessions: 0,
        last_studied: None,
        due_at: None,
        last_score: None,
    }
}

#[derive(Clone, Copy, Debug, PartialEq, Eq, Structural)]
pub enum Stage {
    /// Never opened.
    New,
    /// Read but not yet tested.
    Reading,
    /// Being drilled.
    Learning,
    /// Held up under review.
    Review,
    Mastered,
}

pub open spec fn stage_of(level: nat, read_count: nat) -> Stage {
    if level == 0 {
        if read_count == 0 {
            Stage::New
        } else {
            Stage::Reading
        }
    } else if level <= 2 {
        Stage::Learning
    } else if level <= 4 {
        Stage::Review
    } else {
        Stage::Mastered
    }
}

/// Whether a topic is waiting for review at `now`: its review date has passed (an
/// unreadable date counts as passed), or it was read but never tested.
pub open spec fn due(e: TopicStudyV, now: Now) -> bool {
    match e.due_at {
        None => e.level == 0,
        Some(d) => match rfc3339_parsed(d) {
            Some((secs, nanos, _)) => not_after(secs, nanos, now.secs as int, now.nanos as int),
            None => true,
        },
    }
}

impl TopicStudy {
    pub fn stage(&self) -> (s: Stage)
        ensures
            s == stage_of(self.level as nat, self.read_count as nat),
    {
        if self.level == 0 {
            if self.read_count == 0 {
                Stage::New
            } else {
                Stage::Reading
            }
        } else if self.level <= 2 {
            Stage::Learning
        } else if self.level <= 4 {
            Stage::Review
        } else {
            Stage::Mastered
        }
    }

    pub fn is_due(&self, now: &Now) -> (b: bool)
        ensures
            b == due(self@, *now),
    {
        match &self.due_at {
            None => self.level == 0,
            Some(d) => match parse_rfc3339(d.as_str()) {
                Some(st) => st.secs < now.secs || (st.secs == now.secs && st.nanos <= now.nanos),
                None => true,
            },
        }
    }
}

/// The level a topic moves to after scoring `score` (0..=100): up one at `PASS_SCORE` or
/// more (never past the top), down one below `FAIL_SCORE` (never back to "never studied"),
/// and otherwise held, at least at level 1.
pub open spec fn next_level_spec(level: nat, score: nat) -> nat {
    if score >= 80 {
        if level + 1 <= 6 {
            level + 1
        } else {
            6
        }
    } else if score < 60 {
        if level >= 2 {
            (level - 1) as nat
        } else {
            1
        }
    } else if level >= 1 {
        level
    } else {
        1
    }
}

pub fn next_level(level: u8, score: u32) -> (r: u8)
    ensures
        r == next_level_spec(level as nat, score as nat),
{
    if score >= PASS_SCORE {
        if level < MAX_LEVEL {
            level + 1
        } else {
            MAX_LEVEL
        }
    } else if score < FAIL_SCORE {
        if level >= 2 {
            level - 1
        } else {
            1
        }
    } else if level >= 1 {
        level
    } else {
        1
    }
}

// ---------------------------------------------------------------------------
// The whole study record
// ---------------------------------------------------------------------------

/// Every topic ever touched, one record per topic.
pub struct StudyState {
    pub topics: Vec<TopicStudy>,
}

pub open spec fn entries_view(v: Seq<TopicStudy>) -> Seq<TopicStudyV> {
    v.map_values(|e: TopicStudy| e@)
}

/// Position of the record for `id`.
pub open spec fn entry_index(es: Seq<TopicStudyV>, id: Seq<char>) -> Option<int> {
    if exists|i: int| 0 <= i < es.len() && es[i].topic_id == id {
        Some(choose|i: int| 0 <= i < es.len() && es[i].topic_id == id)
    } else {
        None
    }
}

/// The record for `id`, if the topic has one.
pub open spec fn lookup(es: Seq<TopicStudyV>, id: Seq<char>) -> Option<TopicStudyV> {
    match entry_index(es, id) {
        Some(i) => Some(es[i]),
        None => None,
    }
}

/// No two records for the same topic.
pub open spec fn unique_ids(es: Seq<TopicStudyV>) -> bool {
    forall|i: int, j: int| 0 <= i < j < es.len() ==> es[i].topic_id != es[j].topic_id
}

proof fn lemma_lookup_at(es: Seq<TopicStudyV>, id: Seq<char>, i: int)
    requires
        unique_ids(es),
        0 <= i < es.len(),
        es[i].topic_id == id,
    ensures
        lookup(es, id) == Some(es[i]),
        entry_index(es, id) == Some(i),
{
    let k = choose|k: int| 0 <= k < es.len() && es[k].topic_id == id;
    assert(0 <= k < es.len() && es[k].topic_id == id);
    if k != i {
        if k < i {
            assert(es[k].topic_id != es[i].topic_id);
        } else {
            assert(es[i].topic_id != es[k].topic_id);
        }
    }
}

impl Default for StudyState {
    fn default() -> (s: Self)
        ensures
            s.wf(),
            s.entries().len() == 0,
    {
        StudyState { topics: Vec::new() }
    }
}

impl StudyState {
    pub open spec fn entries(&self) -> Seq<TopicStudyV> {
        entries_view(self.topics@)
    }

    pub open spec fn wf(&self) -> bool {
        unique_ids(self.entries())
    }

    pub fn new() -> (s: Self)
        ensures
            s.wf(),
            s.entries().len() == 0,
    {
        StudyState { topics: Vec::new() }
    }

    /// Position of the record for `id`.
    fn find(&self, id: &str) -> (r: Option<usize>)
        requires
            self.wf(),
        ensures
            match r {
                Some(i) => i < self.topics@.len() && self.entries()[i as int].topic_id == id@
                    && lookup(self.entries(), id@) == Some(self.entries()[i as int]),
                None => lookup(self.entries(), id@) is None,
            },
    {
        let key = chars_of(id);
        let mut i: usize = 0;
        while i < self.topics.len()
            invariant
                self.wf(),
                i <= self.topics@.len(),
                key@ == id@,
                forall|j: int| 0 <= j < i ==> self.entries()[j].topic_id != id@,
            decreases self.topics@.len() - i,
        {
            let k = chars_of(self.topics[i].topic_id.as_str());
            if chars_eq(&k, &key) {
                proof {
                    lemma_lookup_at(self.entries(), id@, i as int);
                }
                return Some(i);
            }
            i += 1;
        }
        None
    }

    /// The record for `id`, if the topic has one.
    pub fn get(&self, id: &str) -> (r: Option<&TopicStudy>)
        requires
            self.wf(),
        ensures
            match lookup(self.entries(), id@) {
                Some(e) => r matches Some(t) && t@ == e,
                None => r is None,
            },
    {
        match self.find(id) {
            Some(i) => Some(&self.topics[i]),
            None => None,
        }
    }

    /// Whether the topic has a record.
    pub fn contains_key(&self, id: &str) -> (b: bool)
        requires
            self.wf(),
        ensures
            b == lookup(self.entries(), id@) is Some,
    {
        self.find(id).is_some()
    }

    /// Store `entry` as the record for its topic, replacing any previous one.
    pub fn insert(&mut self, entry: TopicStudy)
        requires
            old(self).wf(),
        ensures
            final(self).wf(),
            forall|id: Seq<char>|
                #[trigger] lookup(final(self).entries(), id) == if id == entry.topic_id@ {
                    Some(entry@)
                } else {
                    lookup(old(self).entries(), id)
                },
    {
        let ghost old_es = self.entries();
        match self.find(entry.topic_id.as_str()) {
            Some(i) => {
                let ghost id = entry.topic_id@;
                self.topics.set(i, entry);
                proof {
                    let es = self.entries();
                    assert(es =~= old_es.update(i as int, entry@));
                    assert forall|a: int, b: int| 0 <= a < b < es.len() implies es[a].topic_id
                        != es[b].topic_id by {
                        if a != i && b != i {
                            assert(es[a] == old_es[a] && es[b] == old_es[b]);
                        }
                    }
                    assert forall|k: Seq<char>| #[trigger] lookup(es, k) == if k == id {
                        Some(entry@)
                    } else {
                        lookup(old_es, k)
                    } by {
                        if k == id {
                            lemma_lookup_at(es, k, i as int);
                        } else {
                            lemma_lookup_same_elsewhere(old_es, es, i as int, k);
                        }
                    }
                }
            },
            None => {
                let ghost id = entry.topic_id@;
                self.topics.push(entry);
                proof {
                    let es = self.entries();
                    assert(es =~= old_es.push(entry@));
                    assert forall|a: int, b: int| 0 <= a < b < es.len() implies es[a].topic_id
                        != es[b].topic_id by {
                        if b == old_es.len() {
                            assert(es[a] == old_es[a]);
                        } else {
                            assert(es[a] == old_es[a] && es[b] == old_es[b]);
                        }
                    }
                    assert forall|k: Seq<char>| #[trigger] lookup(es, k) == if k == id {
                        Some(entry@)
                    } else {
                        lookup(old_es, k)
                    } by {
                        if k == id {
                            lemma_lookup_at(es, k, old_es.len() as int);
                        } else {
                            lemma_lookup_push_other(old_es, entry@, k);
                        }
                    }
                }
            },
        }
    }

    /// The record for `topic_id`, created empty if the topic has none yet.
    fn entry(&mut self, topic_id: &str) -> (i: usize)
        requires
            old(self).wf(),
        ensures
            final(self).wf(),
            i < final(self).topics@.len(),
            final(self).entries()[i as int] == (match lookup(old(self).entries(), topic_id@) {
                Some(e) => e,
                None => fresh_entry(topic_id@),
            }),
            final(self).entries()[i as int].topic_id == topic_id@,
            forall|id: Seq<char>|
                id != topic_id@ ==> #[trigger] lookup(final(self).entries(), id) == lookup(
                    old(self).entries(),
                    id,
                ),
            forall|j: int|
                0 <= j < old(self).topics@.len() && j != i ==> final(self).topics@[j] == old(
                    self,
                ).topics@[j],
            final(self).topics@.len() >= old(self).topics@.len(),
    {
        match self.find(topic_id) {
            Some(i) => i,
            None => {
                let entry = TopicStudy {
                    topic_id: topic_id.to_owned(),
                    level: 0,
                    read_count: 0,
                    sessions: 0,
                    last_studied: None,
                    due_at: None,
                    last_score: None,
                };
                let ghost old_es = self.entries();
                let n = self.topics.len();
                self.topics.push(entry);
                proof {
                    let es = self.entries();
                    assert(es =~= old_es.push(entry@));
                    assert forall|a: int, b: int| 0 <= a < b < es.len() implies es[a].topic_id
                        != es[b].topic_id by {
                        if b == old_es.len() {
                            assert(es[a] == old_es[a]);
                        } else {
                            assert(es[a] == old_es[a] && es[b] == old_es[b]);
                        }
                    }
                    assert forall|k: Seq<char>| k != topic_id@ implies #[trigger] lookup(es, k)
                        == lookup(old_es, k) by {
                        lemma_lookup_push_other(old_es, entry@, k);
                    }
                }
                n
            },
        }
    }
}

proof fn lemma_lookup_same_elsewhere(old_es: Seq<TopicStudyV>, es: Seq<TopicStudyV>, i: int, k: Seq<char>)
    requires
        unique_ids(old_es),
        0 <= i < old_es.len(),
        es == old_es.update(i, es[i]),
        es.len() == old_es.len(),
        es[i].topic_id == old_es[i].topic_id,
        k != es[i].topic_id,
    ensures
        lookup(es, k) == lookup(old_es, k),
{
    if exists|j: int| 0 <= j < old_es.len() && old_es[j].topic_id == k {
        let j = choose|j: int| 0 <= j < old_es.len() && old_es[j].topic_id == k;
        assert(j != i);
        lemma_lookup_at(old_es, k, j);
        assert(es[j] == old_es[j]);
        assert(unique_ids(es)) by {
            assert forall|a: int, b: int| 0 <= a < b < es.len() implies es[a].topic_id
                != es[b].topic_id by {
                if a != i && b != i {
                    assert(es[a] == old_es[a] && es[b] == old_es[b]);
                } else if a == i {
                    assert(es[b] == old_es[b]);
                } else {
                    assert(es[a] == old_es[a]);
                }
            }
        }
        lemma_lookup_at(es, k, j);
    } else {
        assert forall|j: int| 0 <= j < es.len() implies es[j].topic_id != k by {
            if j != i {
                assert(es[j] == old_es[j]);
            }
        }
    }
}

proof fn lemma_lookup_push_other(old_es: Seq<TopicStudyV>, e: TopicStudyV, k: Seq<char>)
    requires
        unique_ids(old_es),
        e.topic_id != k,
        forall|j: int| 0 <= j < old_es.len() ==> old_es[j].topic_id != e.topic_id,
    ensures
        lookup(old_es.push(e), k) == lookup(old_es, k),
{
    let es = old_es.push(e);
    if exists|j: int| 0 <= j < old_es.len() && old_es[j].topic_id == k {
        let j = choose|j: int| 0 <= j < old_es.len() && old_es[j].topic_id == k;
        lemma_lookup_at(old_es, k, j);
        assert(unique_ids(es)) by {
            assert forall|a: int, b: int| 0 <= a < b < es.len() implies es[a].topic_id
                != es[b].topic_id by {
                if b == old_es.len() {
                    assert(es[a] == old_es[a]);
                } else {
                    assert(es[a] == old_es[a] && es[b] == old_es[b]);
                }
            }
        }
        assert(es[j] == old_es[j]);
        lemma_lookup_at(es, k, j);
    } else {
        assert forall|j: int| 0 <= j < es.len() implies es[j].topic_id != k by {
            if j < old_es.len() {
                assert(es[j] == old_es[j]);
            }
        }
    }
}

// ---------------------------------------------------------------------------
// Recording reading and scores
// ---------------------------------------------------------------------------

/// A record after one more reading at the clock's time.
pub open spec fn after_read(e: TopicStudyV, now_text: Seq<char>) -> TopicStudyV {
    TopicStudyV { read_count: e.read_count + 1, last_studied: Some(now_text), ..e }
}

/// A record after a session scored it `score`: one more session, the new score, the level
/// the ladder moves it to, and its review date that many days from now.
pub open spec fn after_score(e: TopicStudyV, score: nat, clock: Clock) -> TopicStudyV {
    let level = next_level_spec(e.level, score);
    TopicStudyV {
        sessions: e.sessions + 1,
        last_score: Some(score),
        last_studied: Some(clock.now_text@),
        level,
        due_at: Some(clock.due@[level - 1]@),
        ..e
    }
}

/// Record that the student read the note for `topic_id`.
pub fn mark_read(state: &mut StudyState, topic_id: &str, clock: &Clock)
    requires
        old(state).wf(),
        match lookup(old(state).entries(), topic_id@) {
            Some(e) => e.read_count < u32::MAX,
            None => true,
        },
    ensures
        final(state).wf(),
        forall|id: Seq<char>|
            #[trigger] lookup(final(state).entries(), id) == if id == topic_id@ {
                Some(
                    after_read(
                        match lookup(old(state).entries(), id) {
                            Some(e) => e,
                            None => fresh_entry(id),
                        },
                        clock.now_text@,
                    ),
                )
            } else {
                lookup(old(state).entries(), id)
            },
{
    let ghost old_entries = state.entries();
    let i = state.entry(topic_id);
    let ghost mid = state.entries();
    let mut e = state.topics[i].clone();
    e.read_count = e.read_count + 1;
    e.last_studied = Some(clock.now_text.clone());
    set_entry(state, i, e);
    proof {
        assert forall|id: Seq<char>| #[trigger] lookup(state.entries(), id) == if id == topic_id@ {
            Some(
                after_read(
                    match lookup(old_entries, id) {
                        Some(e) => e,
                        None => fresh_entry(id),
                    },
                    clock.now_text@,
                ),
            )
        } else {
            lookup(old_entries, id)
        } by {
            if id == topic_id@ {
                lemma_lookup_at(state.entries(), id, i as int);
            } else {
                lemma_lookup_same_elsewhere(mid, state.entries(), i as int, id);
            }
        }
    }
}

/// Replace the record at `i` with one for the same topic.
fn set_entry(state: &mut StudyState, i: usize, e: TopicStudy)
    requires
        old(state).wf(),
        i < old(state).topics@.len(),
        e.topic_id@ == old(state).entries()[i as int].topic_id,
    ensures
        final(state).wf(),
        final(state).entries() == old(state).entries().update(i as int, e@),
{
    let ghost old_es = state.entries();
    state.topics.set(i, e);
    proof {
        let es = state.entries();
        assert(es =~= old_es.update(i as int, e@));
        assert forall|a: int, b: int| 0 <= a < b < es.len() implies es[a].topic_id
            != es[b].topic_id by {
            if a != i && b != i {
                assert(es[a] == old_es[a] && es[b] == old_es[b]);
            } else if a == i {
                assert(es[b] == old_es[b]);
            } else {
                assert(es[a] == old_es[a]);
            }
        }
    }
}

/// Score lists name each topic once, as the keys of a map do.
pub open spec fn distinct_keys(scores: Seq<(String, u32)>) -> bool {
    forall|i: int, j: int| 0 <= i < j < scores.len() ==> scores[i].0@ != scores[j].0@
}

/// The score recorded for `id`, if the list has one.
pub open spec fn score_for(scores: Seq<(String, u32)>, id: Seq<char>) -> Option<nat> {
    if exists|i: int| 0 <= i < scores.len() && scores[i].0@ == id {
        Some(scores[choose|i: int| 0 <= i < scores.len() && scores[i].0@ == id].1 as nat)
    } else {
        None
    }
}

proof fn lemma_score_for(scores: Seq<(String, u32)>, id: Seq<char>, i: int)
    requires
        distinct_keys(scores),
        0 <= i < scores.len(),
        scores[i].0@ == id,
    ensures
        score_for(scores, id) == Some(scores[i].1 as nat),
{
    let k = choose|k: int| 0 <= k < scores.len() && scores[k].0@ == id;
    assert(0 <= k < scores.len() && scores[k].0@ == id);
    if k != i {
        if k < i {
            assert(scores[k].0@ != scores[i].0@);
        } else {
            assert(scores[i].0@ != scores[k].0@);
        }
    }
}

/// A stored topic can take `score`: its session count has room, the level the score moves
/// it to has a review interval, and a pass does not raise a level already at the top of
/// its byte.
pub open spec fn takes_score(e: TopicStudyV, score: nat) -> bool {
    &&& e.sessions < u32::MAX
    &&& next_level_spec(e.level, score) <= 6
    &&& (score >= 80 ==> e.level < 255)
}

/// Apply one session's per-topic scores (0..=100) and reschedule each scored topic.
pub fn record_scores(state: &mut StudyState, scores: &[(String, u32)], clock: &Clock)
    requires
        old(state).wf(),
        clock.wf(),
        distinct_keys(scores@),
        forall|i: int|
            0 <= i < scores@.len() ==> match lookup(old(state).entries(), (#[trigger] scores@[i]).0@) {
                Some(e) => takes_score(e, scores@[i].1 as nat),
                None => true,
            },
    ensures
        final(state).wf(),
        forall|id: Seq<char>|
            #[trigger] lookup(final(state).entries(), id) == match score_for(scores@, id) {
                Some(s) => Some(
                    after_score(
                        match lookup(old(state).entries(), id) {
                            Some(e) => e,
                            None => fresh_entry(id),
                        },
                        s,
                        *clock,
                    ),
                ),
                None => lookup(old(state).entries(), id),
            },
{
    let ghost old_entries = state.entries();
    let mut k: usize = 0;
    while k < scores.len()
        invariant
            state.wf(),
            clock.wf(),
            k <= scores@.len(),
            distinct_keys(scores@),
            forall|i: int|
                k <= i < scores@.len() ==> match lookup(state.entries(), (#[trigger] scores@[i]).0@) {
                    Some(e) => takes_score(e, scores@[i].1 as nat),
                    None => true,
                },
            forall|i: int|
                k <= i < scores@.len() ==> lookup(state.entries(), (#[trigger] scores@[i]).0@)
                    == lookup(old_entries, scores@[i].0@),
            forall|id: Seq<char>|
                #[trigger] lookup(state.entries(), id) == match score_for(scores@.take(k as int), id) {
                    Some(s) => Some(
                        after_score(
                            match lookup(old_entries, id) {
                                Some(e) => e,
                                None => fresh_entry(id),
                            },
                            s,
                            *clock,
                        ),
                    ),
                    None => lookup(old_entries, id),
                },
        decreases scores@.len() - k,
    {
        let ghost before = state.entries();
        let (topic_id, score) = (&scores[k].0, scores[k].1);
        let ghost tid = topic_id@;
        let i = state.entry(topic_id.as_str());
        let ghost mid = state.entries();
        let mut e = state.topics[i].clone();
        e.sessions = e.sessions + 1;
        e.last_score = Some(score);
        e.last_studied = Some(clock.now_text.clone());
        proof {
            assert(scores@[k as int].0@ == tid);
        }
        e.level = next_level(e.level, score);
        assert(1 <= e.level <= 6);
        let idx = (e.level - 1) as usize;
        e.due_at = Some(clock.due[idx].clone());
        set_entry(state, i, e);
        proof {
            let taken = scores@.take(k + 1);
            let prev = scores@.take(k as int);
            assert(taken =~= prev.push(scores@[k as int]));
            assert(distinct_keys(taken));
            assert(distinct_keys(prev));
            assert(forall|j: int| 0 <= j < prev.len() ==> prev[j] == scores@[j]);
            assert(score_for(prev, tid) is None) by {
                if exists|j: int| 0 <= j < prev.len() && prev[j].0@ == tid {
                    let j = choose|j: int| 0 <= j < prev.len() && prev[j].0@ == tid;
                    assert(scores@[j].0@ != scores@[k as int].0@);
                }
            }
            lemma_score_for(taken, tid, k as int);
            assert forall|id: Seq<char>| #[trigger] lookup(state.entries(), id) == match score_for(
                taken,
                id,
            ) {
                Some(s) => Some(
                    after_score(
                        match lookup(old_entries, id) {
                            Some(e) => e,
                            None => fresh_entry(id),
                        },
                        s,
                        *clock,
                    ),
                ),
                None => lookup(old_entries, id),
            } by {
                if id == tid {
                    lemma_lookup_at(state.entries(), id, i as int);
                } else {
                    lemma_lookup_same_elsewhere(mid, state.entries(), i as int, id);
                    assert(lookup(before, id) == lookup(mid, id));
                    if exists|j: int| 0 <= j < taken.len() && taken[j].0@ == id {
                        let j = choose|j: int| 0 <= j < taken.len() && taken[j].0@ == id;
                        assert(j != k);
                        lemma_score_for(taken, id, j);
                        lemma_score_for(prev, id, j);
                    }
                }
            }
            assert forall|j: int| k + 1 <= j < scores@.len() implies lookup(
                state.entries(),
                (#[trigger] scores@[j]).0@,
            ) == lookup(old_entries, scores@[j].0@) by {
                assert(scores@[k as int].0@ != scores@[j].0@);
                lemma_lookup_same_elsewhere(mid, state.entries(), i as int, scores@[j].0@);
            }
        }
        k += 1;
    }
    assert(scores@.take(k as int) =~= scores@);
}

// ---------------------------------------------------------------------------
// Planning
// ---------------------------------------------------------------------------

pub struct PlannedTopic {
    pub topic: Topic,
    pub stage: Stage,
    pub level: u8,
    pub last_score: Option<u32>,
    /// True when this is a scheduled review rather than fresh material.
    pub is_review: bool,
}

pub struct PlannedV {
    pub topic: TopicV,
    pub stage: Stage,
    pub level: nat,
    pub last_score: Option<nat>,
    pub is_review: bool,
}

impl View for PlannedTopic {
    type V = PlannedV;

    open spec fn view(&self) -> PlannedV {
        PlannedV {
            topic: self.topic@,
            stage: self.stage,
            level: self.level as nat,
            last_score: opt_nat(self.last_score),
            is_review: self.is_review,
        }
    }
}

impl Clone for PlannedTopic {
    fn clone(&self) -> (r: Self)
        ensures
            r@ == self@,
    {
        PlannedTopic {
            topic: self.topic.clone(),
            stage: self.stage,
            level: self.level,
            last_score: self.last_score,
            is_review: self.is_review,
        }
    }
}

pub open spec fn planned_view(v: Seq<PlannedTopic>) -> Seq<PlannedV> {
    v.map_values(|p: PlannedTopic| p@)
}

/// A topic's current standing, whether or not it has ever been studied.
pub open spec fn planned(es: Seq<TopicStudyV>, t: TopicV) -> PlannedV {
    match lookup(es, t.id) {
        Some(e) => PlannedV {
            topic: t,
            stage: stage_of(e.level, e.read_count),
            level: e.level,
            last_score: e.last_score,
            is_review: e.level > 0,
        },
        None => PlannedV { topic: t, stage: Stage::New, level: 0, last_score: None, is_review: false },
    }
}

pub fn planned_for(state: &StudyState, topic: &Topic) -> (p: PlannedTopic)
    requires
        state.wf(),
    ensures
        p@ == planned(state.entries(), topic@),
{
    match state.find(topic.id.as_str()) {
        Some(i) => {
            let e = &state.topics[i];
            PlannedTopic {
                topic: topic.clone(),
                stage: e.stage(),
                level: e.level,
                last_score: e.last_score,
                is_review: e.level > 0,
            }
        },
        None => PlannedTopic {
            topic: topic.clone(),
            stage: Stage::New,
            level: 0,
            last_score: None,
            is_review: false,
        },
    }
}

/// The positions `0..n` that satisfy `p`, in order.
pub open spec fn positions_where(n: nat, p: spec_fn(int) -> bool) -> Seq<int>
    decreases n,
{
    if n == 0 {
        seq![]
    } else {
        positions_where((n - 1) as nat, p) + if p(n - 1) {
            seq![n - 1]
        } else {
            seq![]
        }
    }
}

pub open spec fn is_unseen(es: Seq<TopicStudyV>, cs: Seq<Topic>) -> spec_fn(int) -> bool {
    |i: int| lookup(es, cs[i]@.id) is None
}

pub open spec fn is_seen(es: Seq<TopicStudyV>, cs: Seq<Topic>) -> spec_fn(int) -> bool {
    |i: int| lookup(es, cs[i]@.id) is Some
}

pub open spec fn is_due_at(es: Seq<TopicStudyV>, cs: Seq<Topic>, now: Now) -> spec_fn(int) -> bool {
    |i: int| lookup(es, cs[i]@.id) matches Some(e) && due(e, now)
}

/// The review ladder's order: earliest review date first (no date before any date), then
/// the lower level.
pub open spec fn session_key(es: Seq<TopicStudyV>, t: TopicV) -> KeyV {
    match lookup(es, t.id) {
        Some(e) => KeyV { first: 0, text: e.due_at, second: e.level as int },
        None => KeyV { first: 0, text: None, second: 0 },
    }
}

/// A sprint's order for topics already met: weakest last score first (none counts as 0),
/// then the one studied longest ago.
pub open spec fn sprint_key(es: Seq<TopicStudyV>, t: TopicV) -> KeyV {
    match lookup(es, t.id) {
        Some(e) => KeyV {
            first: match e.last_score {
                Some(s) => s as int,
                None => 0,
            },
            text: e.last_studied,
            second: 0,
        },
        None => KeyV { first: 0, text: None, second: 0 },
    }
}

pub open spec fn planned_at(es: Seq<TopicStudyV>, cs: Seq<Topic>, ps: Seq<int>) -> Seq<PlannedV> {
    ps.map_values(|i: int| planned(es, cs[i]@))
}

pub open spec fn min_nat(a: nat, b: nat) -> nat {
    if a <= b {
        a
    } else {
        b
    }
}

/// Collect the positions of `cs` in one of three classes: 0 unseen, 1 seen, 2 due at `now`.
fn collect_positions(state: &StudyState, cs: &[Topic], class: u8, now: &Now) -> (r: Vec<usize>)
    requires
        state.wf(),
        class <= 2,
    ensures
        positions_view(r@) == positions_where(
            cs@.len(),
            if class == 0 {
                is_unseen(state.entries(), cs@)
            } else if class == 1 {
                is_seen(state.entries(), cs@)
            } else {
                is_due_at(state.entries(), cs@, *now)
            },
        ),
        forall|i: int| 0 <= i < r@.len() ==> (#[trigger] r@[i]) < cs@.len(),
        forall|i: int, j: int| 0 <= i < j < r@.len() ==> r@[i] < r@[j],
{
    let ghost p = if class == 0 {
        is_unseen(state.entries(), cs@)
    } else if class == 1 {
        is_seen(state.entries(), cs@)
    } else {
        is_due_at(state.entries(), cs@, *now)
    };
    let mut r: Vec<usize> = Vec::new();
    let mut i: usize = 0;
    while i < cs.len()
        invariant
            state.wf(),
            class <= 2,
            p == (if class == 0 {
                is_unseen(state.entries(), cs@)
            } else if class == 1 {
                is_seen(state.entries(), cs@)
            } else {
                is_due_at(state.entries(), cs@, *now)
            }),
            i <= cs@.len(),
            positions_view(r@) == positions_where(i as nat, p),
            forall|k: int| 0 <= k < r@.len() ==> (#[trigger] r@[k]) < i,
            forall|a: int, b: int| 0 <= a < b < r@.len() ==> r@[a] < r@[b],
        decreases cs@.len() - i,
    {
        let found = state.find(cs[i].id.as_str());
        let keep = match found {
            None => class == 0,
            Some(j) => class == 1 || (class == 2 && state.topics[j].is_due(now)),
        };
        if keep {
            r.push(i);
            assert(positions_view(r@) =~= positions_where((i + 1) as nat, p));
        } else {
            assert(positions_view(r@) =~= positions_where((i + 1) as nat, p));
        }
        i += 1;
    }
    r
}

/// Keys of every candidate position, under the session or the sprint order.
fn candidate_keys(state: &StudyState, cs: &[Topic], sprint: bool) -> (r: Vec<SortKey>)
    requires
        state.wf(),
    ensures
        r@.len() == cs@.len(),
        forall|i: int|
            0 <= i < cs@.len() ==> keys_view(r@)[i] == if sprint {
                sprint_key(state.entries(), cs@[i]@)
            } else {
                session_key(state.entries(), cs@[i]@)
            },
{
    let mut r: Vec<SortKey> = Vec::new();
    let mut i: usize = 0;
    while i < cs.len()
        invariant
            state.wf(),
            i <= cs@.len(),
            r@.len() == i,
            forall|k: int|
                0 <= k < i ==> keys_view(r@)[k] == if sprint {
                    sprint_key(state.entries(), cs@[k]@)
                } else {
                    session_key(state.entries(), cs@[k]@)
                },
        decreases cs@.len() - i,
    {
        let key = match state.find(cs[i].id.as_str()) {
            None => SortKey { first: 0, text: None, second: 0 },
            Some(j) => {
                let e = &state.topics[j];
                if sprint {
                    let score: u32 = match e.last_score {
                        Some(s) => s,
                        None => 0,
                    };
                    SortKey {
                        first: score as u64,
                        text: match &e.last_studied {
                            Some(t) => Some(chars_of(t.as_str())),
                            None => None,
                        },
                        second: 0,
                    }
                } else {
                    SortKey {
                        first: 0,
                        text: match &e.due_at {
                            Some(t) => Some(chars_of(t.as_str())),
                            None => None,
                        },
                        second: e.level as u64,
                    }
                }
            },
        };
        let ghost prev = keys_view(r@);
        r.push(key);
        proof {
            assert(keys_view(r@) =~= prev.push(key@));
        }
        i += 1;
    }
    r
}

/// Append the plan entries for positions `ps[from..to]`.
fn push_planned(
    state: &StudyState,
    cs: &[Topic],
    ps: &Vec<usize>,
    from: usize,
    to: usize,
    out: &mut Vec<PlannedTopic>,
)
    requires
        state.wf(),
        from <= to <= ps@.len(),
        forall|i: int| 0 <= i < ps@.len() ==> (#[trigger] ps@[i]) < cs@.len(),
    ensures
        planned_view(final(out)@) == planned_view(old(out)@) + planned_at(
            state.entries(),
            cs@,
            positions_view(ps@).subrange(from as int, to as int),
        ),
{
    let ghost start = planned_view(out@);
    let mut k = from;
    while k < to
        invariant
            state.wf(),
            from <= k <= to <= ps@.len(),
            forall|i: int| 0 <= i < ps@.len() ==> (#[trigger] ps@[i]) < cs@.len(),
            planned_view(out@) == start + planned_at(
                state.entries(),
                cs@,
                positions_view(ps@).subrange(from as int, k as int),
            ),
        decreases to - k,
    {
        let ghost prev = planned_view(out@);
        let p = planned_for(state, &cs[ps[k]]);
        out.push(p);
        proof {
            let es = state.entries();
            let sub0 = positions_view(ps@).subrange(from as int, k as int);
            let sub1 = positions_view(ps@).subrange(from as int, k + 1);
            assert(sub1 =~= sub0.push(ps@[k as int] as int));
            assert(planned_at(es, cs@, sub1) =~= planned_at(es, cs@, sub0).push(
                planned(es, cs@[ps@[k as int] as int]@),
            ));
            assert(planned_view(out@) =~= prev.push(p@));
        }
        k += 1;
    }
}

/// What a session plan at `now` is: the topics due for review, sorted by the review ladder's
/// order and cut to `size`, then as many never-studied topics as still fit, in syllabus order.
pub open spec fn session_outcome(
    es: Seq<TopicStudyV>,
    cs: Seq<Topic>,
    size: nat,
    now: Now,
    r: Seq<PlannedV>,
) -> bool {
    exists|order: Seq<int>|
        {
            &&& same_positions(order, positions_where(cs.len(), is_due_at(es, cs, now)))
            &&& sorted_by_key(Seq::new(cs.len(), |i: int| session_key(es, cs[i]@)), order)
            &&& r == planned_at(es, cs, order.take(min_nat(size, order.len()) as int)) + planned_at(
                es,
                cs,
                positions_where(cs.len(), is_unseen(es, cs)).take(
                    min_nat(
                        (size - min_nat(size, order.len())) as nat,
                        positions_where(cs.len(), is_unseen(es, cs)).len(),
                    ) as int,
                ),
            )
        }
}

/// Choose the next topics to study at `now`: overdue reviews first, in review-ladder order,
/// then new material in syllabus order so the subject is covered front to back.
pub fn plan_session_at(state: &StudyState, candidates: &[Topic], size: usize, now: &Now) -> (r: Vec<
    PlannedTopic,
>)
    requires
        state.wf(),
    ensures
        session_outcome(state.entries(), candidates@, size as nat, *now, planned_view(r@)),
{
    let due = collect_positions(state, candidates, 2, now);
    let keys = candidate_keys(state, candidates, false);
    let order = sort_positions(&keys, &due);
    let unseen = collect_positions(state, candidates, 0, now);
    let mut out: Vec<PlannedTopic> = Vec::new();
    let d = if size <= order.len() {
        size
    } else {
        order.len()
    };
    push_planned(state, candidates, &order, 0, d, &mut out);
    let rest = size - d;
    let u = if rest <= unseen.len() {
        rest
    } else {
        unseen.len()
    };
    push_planned(state, candidates, &unseen, 0, u, &mut out);
    proof {
        let kv = Seq::new(candidates@.len(), |i: int| session_key(state.entries(), candidates@[i]@));
        assert(keys_view(keys@) =~= kv);
        let ov = positions_view(order@);
        assert(ov.subrange(0, d as int) =~= ov.take(min_nat(size as nat, ov.len()) as int));
        let uv = positions_view(unseen@);
        assert(uv.subrange(0, u as int) =~= uv.take(
            min_nat((size - min_nat(size as nat, ov.len())) as nat, uv.len()) as int,
        ));
        assert(planned_view(Seq::<PlannedTopic>::empty()) =~= Seq::<PlannedV>::empty());
    }
    out
}

/// What a sprint plan is: never-studied topics in syllabus order, cut to `size`, then as
/// many topics already met as still fit, weakest first and oldest first among equals.
pub open spec fn sprint_outcome(es: Seq<TopicStudyV>, cs: Seq<Topic>, size: nat, r: Seq<PlannedV>) -> bool {
    exists|order: Seq<int>|
        {
            &&& same_positions(order, positions_where(cs.len(), is_seen(es, cs)))
            &&& sorted_by_key(Seq::new(cs.len(), |i: int| sprint_key(es, cs[i]@)), order)
            &&& r == planned_at(
                es,
                cs,
                positions_where(cs.len(), is_unseen(es, cs)).take(
                    min_nat(size, positions_where(cs.len(), is_unseen(es, cs)).len()) as int,
                ),
            ) + planned_at(
                es,
                cs,
                order.take(
                    min_nat(
                        (size - min_nat(size, positions_where(cs.len(), is_unseen(es, cs)).len())) as nat,
                        order.len(),
                    ) as int,
                ),
            )
        }
}

/// Coverage-first ordering for a sprint: everything unseen, in syllabus order, before
/// anything already met is revisited — then the weakest, oldest first among equals.
pub fn plan_sprint(state: &StudyState, candidates: &[Topic], size: usize) -> (r: Vec<PlannedTopic>)
    requires
        state.wf(),
    ensures
        sprint_outcome(state.entries(), candidates@, size as nat, planned_view(r@)),
{
    let now = Now { secs: 0, nanos: 0, day: 0 };
    let unseen = collect_positions(state, candidates, 0, &now);
    let seen = collect_positions(state, candidates, 1, &now);
    let keys = candidate_keys(state, candidates, true);
    let order = sort_positions(&keys, &seen);
    let mut out: Vec<PlannedTopic> = Vec::new();
    let u = if size <= unseen.len() {
        size
    } else {
        unseen.len()
    };
    push_planned(state, candidates, &unseen, 0, u, &mut out);
    let rest = size - u;
    let s = if rest <= order.len() {
        rest
    } else {
        order.len()
    };
    push_planned(state, candidates, &order, 0, s, &mut out);
    proof {
        let kv = Seq::new(candidates@.len(), |i: int| sprint_key(state.entries(), candidates@[i]@));
        assert(keys_view(keys@) =~= kv);
        let ov = positions_view(order@);
        let uv = positions_view(unseen@);
        assert(uv.subrange(0, u as int) =~= uv.take(min_nat(size as nat, uv.len()) as int));
        assert(ov.subrange(0, s as int) =~= ov.take(
            min_nat((size - min_nat(size as nat, uv.len())) as nat, ov.len()) as int,
        ));
        assert(planned_view(Seq::<PlannedTopic>::empty()) =~= Seq::<PlannedV>::empty());
    }
    out
}


/// Choose the next topics to study now: overdue reviews first, in review-ladder order, then
/// new material in syllabus order. Which topics are overdue depends on the clock.
pub fn plan_session(state: &StudyState, candidates: &[Topic], size: usize) -> (r: Vec<PlannedTopic>)
    requires
        state.wf(),
    ensures
        exists|now: Now| session_outcome(state.entries(), candidates@, size as nat, now, planned_view(r@)),
{
    let now = now();
    let r = plan_session_at(state, candidates, size, &now);
    proof {
        assert(session_outcome(state.entries(), candidates@, size as nat, now, planned_view(r@)));
    }
    r
}

// ---------------------------------------------------------------------------
// Spreading a plan across the syllabus
// ---------------------------------------------------------------------------

/// How much a topic needs attention, in hundredths: 150 for one never studied; for one
/// already met, 30 plus twice the points its last score fell short of 100 (no score counts
/// as 0), so unseen outranks answered-but-shakily, which outranks answered well. A score
/// above 115 weighs below 0.
pub open spec fn need_of(es: Seq<TopicStudyV>, t: TopicV) -> int {
    match lookup(es, t.id) {
        None => 150,
        Some(e) => {
            let s = match e.last_score {
                Some(s) => s as int,
                None => 0,
            };
            230 - 2 * s
        },
    }
}

pub fn need(state: &StudyState, topic: &Topic) -> (w: i64)
    requires
        state.wf(),
    ensures
        w == need_of(state.entries(), topic@),
{
    match state.find(topic.id.as_str()) {
        None => 150,
        Some(i) => {
            let s: u32 = match state.topics[i].last_score {
                Some(s) => s,
                None => 0,
            };
            230 - 2 * (s as i64)
        },
    }
}

pub open spec fn ints(ws: Seq<i64>) -> Seq<int> {
    ws.map_values(|w: i64| w as int)
}

/// The sum of `ws[k..]`.
pub open spec fn total_from(ws: Seq<int>, k: int) -> int
    decreases ws.len() - k,
{
    if k < 0 || k >= ws.len() {
        0
    } else {
        ws[k] + total_from(ws, k + 1)
    }
}

/// Walk `ws` from `k`, taking away each weight from `roll` until it falls inside one; the
/// last position when it never does.
pub open spec fn scan_from(ws: Seq<int>, k: int, roll: int) -> int
    decreases ws.len() - k,
{
    if k < 0 || k + 1 >= ws.len() {
        k
    } else if roll < ws[k] {
        k
    } else {
        scan_from(ws, k + 1, roll - ws[k])
    }
}

/// The position a roll picks among weights: none from an empty list, the first when all
/// weigh nothing, else the one the roll falls into.
pub open spec fn pick_spec(ws: Seq<int>, roll: int) -> Option<int> {
    if ws.len() == 0 {
        None
    } else if total_from(ws, 0) <= 0 {
        Some(0)
    } else {
        Some(scan_from(ws, 0, roll))
    }
}

/// The sum of `ws[k..]` of `i64` weights stays within what `len - k` of them can add up to.
proof fn lemma_total_bounds(ws: Seq<int>, k: int)
    requires
        0 <= k <= ws.len(),
        forall|i: int| 0 <= i < ws.len() ==> i64::MIN <= #[trigger] ws[i] <= i64::MAX,
    ensures
        i64::MIN * (ws.len() - k) <= total_from(ws, k) <= i64::MAX * (ws.len() - k),
    decreases ws.len() - k,
{
    if k < ws.len() {
        lemma_total_bounds(ws, k + 1);
        assert(i64::MIN <= ws[k] <= i64::MAX);
    }
}

/// A roll from 0 up to below the total lands on a weight above 0, at a position of the list.
pub proof fn lemma_scan_lands(ws: Seq<int>, k: int, roll: int)
    requires
        0 <= k < ws.len(),
        0 <= roll < total_from(ws, k),
    ensures
        k <= scan_from(ws, k, roll) < ws.len(),
        ws[scan_from(ws, k, roll)] > 0,
    decreases ws.len() - k,
{
    if k + 1 >= ws.len() {
        assert(total_from(ws, k + 1) == 0);
    } else if roll < ws[k] {
    } else {
        lemma_scan_lands(ws, k + 1, roll - ws[k]);
    }
}

fn total_weight(ws: &Vec<i64>) -> (t: i128)
    ensures
        t == total_from(ints(ws@), 0),
{
    let ghost w = ints(ws@);
    let mut acc: i128 = 0;
    let mut k: usize = 0;
    while k < ws.len()
        invariant
            w == ints(ws@),
            k <= ws@.len(),
            acc + total_from(w, k as int) == total_from(w, 0),
            i64::MIN * k <= acc <= i64::MAX * k,
        decreases ws@.len() - k,
    {
        acc = acc + ws[k] as i128;
        k += 1;
    }
    acc
}

/// The position that `roll` picks among `weights`, walking them in order. The roll is one
/// drawn below the total, when the total is above 0.
pub fn weighted_pick(weights: &Vec<i64>, roll: u128) -> (r: Option<usize>)
    requires
        total_from(ints(weights@), 0) > 0 ==> roll < total_from(ints(weights@), 0),
    ensures
        match pick_spec(ints(weights@), roll as int) {
            Some(p) => r == Some(p as usize),
            None => r is None,
        },
{
    let ghost w = ints(weights@);
    if weights.len() == 0 {
        return None;
    }
    let total = total_weight(weights);
    if total <= 0 {
        return Some(0);
    }
    proof {
        lemma_total_bounds(w, 0);
    }
    let mut rest: i128 = roll as i128;
    let mut k: usize = 0;
    let last = weights.len() - 1;
    while k < last
        invariant
            w == ints(weights@),
            last + 1 == weights@.len(),
            k <= last,
            total_from(w, 0) > 0,
            0 <= rest < total_from(w, k as int),
            scan_from(w, 0, roll as int) == scan_from(w, k as int, rest as int),
        decreases weights@.len() - k,
    {
        proof {
            lemma_total_bounds(w, k as int);
            lemma_total_bounds(w, k + 1);
        }
        if rest < weights[k] as i128 {
            return Some(k);
        }
        rest = rest - weights[k] as i128;
        k += 1;
    }
    Some(k)
}

/// `rand::thread_rng().gen_range(0..bound)`: a number drawn uniformly below `bound`, which
/// `gen_range` panics without (an empty range), hence `bound > 0`. Which number comes out is
/// random; only its range is claimed.
#[verifier::external_body]
fn random_below(bound: u128) -> (r: u128)
    requires
        bound > 0,
    ensures
        r < bound,
{
    rand::thread_rng().gen_range(0..bound)
}

/// The first position of slice `b` when `n` topics are cut into `size` slices.
pub open spec fn bucket_lo(n: int, size: int, b: int) -> int {
    b * n / size
}

/// One past the last position of slice `b`; never empty.
pub open spec fn bucket_hi(n: int, size: int, b: int) -> int {
    let hi = (b + 1) * n / size;
    if hi >= bucket_lo(n, size, b) + 1 {
        hi
    } else {
        bucket_lo(n, size, b) + 1
    }
}

/// The weights of the topics of slice `lo..hi`.
pub open spec fn needs(es: Seq<TopicStudyV>, ts: Seq<TopicV>, lo: int, hi: int) -> Seq<int> {
    Seq::new((hi - lo) as nat, |k: int| need_of(es, ts[lo + k]))
}

/// Position `p` is one that a weighted draw over slice `b` can give.
pub open spec fn spread_pick(es: Seq<TopicStudyV>, ts: Seq<TopicV>, size: int, b: int, p: int) -> bool {
    let lo = bucket_lo(ts.len() as int, size, b);
    let ws = needs(es, ts, lo, bucket_hi(ts.len() as int, size, b));
    exists|roll: int|
        (total_from(ws, 0) <= 0 || 0 <= roll < total_from(ws, 0)) && #[trigger] pick_spec(ws, roll)
            == Some(p - lo)
}

/// What a spread plan of `size` topics over `ts` is: nothing for size 0; every topic when
/// there are no more than `size`; else one topic from each of `size` slices, in order, each
/// a weighted draw within its slice.
pub open spec fn spread_outcome(es: Seq<TopicStudyV>, ts: Seq<TopicV>, size: int, r: Seq<PlannedV>) -> bool {
    if size == 0 {
        r.len() == 0
    } else if ts.len() <= size {
        r == ts.map_values(|t: TopicV| planned(es, t))
    } else {
        &&& r.len() == size
        &&& forall|b: int| 0 <= b < size ==> spread_slot(es, ts, size, b, #[trigger] r[b])
    }
}

/// `q` plans a topic that a weighted draw over slice `b` can give.
pub open spec fn spread_slot(es: Seq<TopicStudyV>, ts: Seq<TopicV>, size: int, b: int, q: PlannedV) -> bool {
    exists|p: int| spread_pick(es, ts, size, b, p) && q == planned(es, ts[p])
}

proof fn lemma_bucket_bounds(n: int, size: int, b: int)
    requires
        0 < size < n,
        0 <= b < size,
    ensures
        0 <= bucket_lo(n, size, b),
        bucket_lo(n, size, b) < bucket_hi(n, size, b) <= n,
        (b + 1) * n <= n * size,
        b * n <= (b + 1) * n,
{
    assert(0 <= b * n / size) by (nonlinear_arith)
        requires
            0 <= b,
            0 < size < n,
    ;
    assert((b + 1) * n / size <= n) by (nonlinear_arith)
        requires
            0 <= b < size,
            0 < size < n,
    ;
    assert(b * n / size + 1 <= n) by (nonlinear_arith)
        requires
            0 <= b < size,
            0 < size < n,
    ;
    assert((b + 1) * n <= n * size) by (nonlinear_arith)
        requires
            0 <= b < size,
            0 < n,
    ;
    assert(b * n <= (b + 1) * n) by (nonlinear_arith)
        requires
            0 <= b,
            0 < n,
    ;
}

/// Spread a plan across the syllabus: cut the candidates into `size` equal slices and pick
/// one topic from each, at random but weighted toward what the student knows least.
pub fn plan_spread(state: &StudyState, candidates: &[Topic], size: usize) -> (r: Vec<PlannedTopic>)
    requires
        state.wf(),
        candidates@.len() <= size || candidates@.len() * size <= usize::MAX,
    ensures
        spread_outcome(state.entries(), topics_view(candidates@), size as int, planned_view(r@)),
        r@.len() == (if size == 0 {
            0
        } else if candidates@.len() <= size {
            candidates@.len() as int
        } else {
            size as int
        }),
        forall|k: int| 0 <= k < r@.len() ==> picked_from(state.entries(), candidates@, #[trigger] r@[k]@),
        0 < size < candidates@.len() ==> forall|b: int|
            0 <= b < size ==> picked_from_slice(state.entries(), candidates@, size as int, b, #[trigger] r@[b]@),
{
    let ghost es = state.entries();
    let ghost ts = topics_view(candidates@);
    let mut out: Vec<PlannedTopic> = Vec::new();
    if size == 0 {
        assert(planned_view(out@) =~= Seq::<PlannedV>::empty());
        proof {
            lemma_spread_candidates(state.entries(), candidates@, size as int, out@);
        }
        return out;
    }
    let n = candidates.len();
    if n <= size {
        let mut i: usize = 0;
        while i < n
            invariant
                state.wf(),
                es == state.entries(),
                ts == topics_view(candidates@),
                n == candidates@.len(),
                i <= n,
                planned_view(out@) =~= ts.take(i as int).map_values(|t: TopicV| planned(es, t)),
            decreases n - i,
        {
            let ghost prev = planned_view(out@);
            out.push(planned_for(state, &candidates[i]));
            proof {
                assert(ts.take(i + 1) =~= ts.take(i as int).push(ts[i as int]));
                assert(planned_view(out@) =~= prev.push(planned(es, ts[i as int])));
            }
            i += 1;
        }
        assert(ts.take(n as int) =~= ts);
        proof {
            lemma_spread_candidates(state.entries(), candidates@, size as int, out@);
        }
        return out;
    }
    let mut b: usize = 0;
    let ghost mut picks: Seq<int> = Seq::empty();
    while b < size
        invariant
            state.wf(),
            es == state.entries(),
            ts == topics_view(candidates@),
            n == candidates@.len(),
            0 < size < n,
            n * size <= usize::MAX,
            b <= size,
            out@.len() == b,
            picks.len() == b,
            forall|bb: int|
                0 <= bb < b ==> spread_pick(es, ts, size as int, bb, #[trigger] picks[bb])
                    && planned_view(out@)[bb] == planned(es, ts[picks[bb]]),
        decreases size - b,
    {
        proof {
            lemma_bucket_bounds(n as int, size as int, b as int);
        }
        let start = b * n / size;
        let hi = (b + 1) * n / size;
        let end = if hi >= start + 1 {
            hi
        } else {
            start + 1
        };
        assert(start == bucket_lo(n as int, size as int, b as int));
        assert(end == bucket_hi(n as int, size as int, b as int));
        let mut ws: Vec<i64> = Vec::new();
        let mut k = start;
        while k < end
            invariant
                state.wf(),
                es == state.entries(),
                ts == topics_view(candidates@),
                start <= k <= end <= candidates@.len(),
                ws@.len() == k - start,
                forall|j: int| 0 <= j < k - start ==> ws@[j] == need_of(es, ts[start + j]),
            decreases end - k,
        {
            ws.push(need(state, &candidates[k]));
            k += 1;
        }
        let ghost wv = needs(es, ts, start as int, end as int);
        assert(ints(ws@) =~= wv);
        let total = total_weight(&ws);
        let roll = if total > 0 {
            random_below(total as u128)
        } else {
            0
        };
        let pick = weighted_pick(&ws, roll);
        proof {
            if total > 0 {
                lemma_scan_lands(wv, 0, roll as int);
            }
        }
        let at = match pick {
            Some(q) => q,
            None => 0,
        };
        let p = start + at;
        let ghost prev = planned_view(out@);
        let planned_here = planned_for(state, &candidates[p]);
        out.push(planned_here);
        proof {
            assert(planned_view(out@) =~= prev.push(planned(es, ts[p as int])));
            assert(pick_spec(wv, roll as int) == Some(p - start));
            assert(spread_pick(es, ts, size as int, b as int, p as int));
            picks = picks.push(p as int);
            assert forall|bb: int| 0 <= bb < b + 1 implies spread_pick(es, ts, size as int, bb, #[trigger] picks[bb])
                && planned_view(out@)[bb] == planned(es, ts[picks[bb]]) by {
                if bb < b {
                    assert(planned_view(out@)[bb] == prev[bb]);
                }
            }
        }
        b += 1;
    }
    proof {
        let r = planned_view(out@);
        assert forall|bb: int| 0 <= bb < size implies spread_slot(es, ts, size as int, bb, #[trigger] r[bb]) by {
            assert(spread_pick(es, ts, size as int, bb, picks[bb]) && r[bb] == planned(es, ts[picks[bb]]));
        }
        assert(spread_outcome(es, ts, size as int, r));
        lemma_spread_candidates(state.entries(), candidates@, size as int, out@);
    }
    out
}


/// `q` plans a topic of slice `b` — one whose weight is above 0, whenever the weights of the
/// slice add up to more than 0.
pub open spec fn in_slice(es: Seq<TopicStudyV>, ts: Seq<TopicV>, size: int, b: int, q: PlannedV) -> bool {
    let lo = bucket_lo(ts.len() as int, size, b);
    let hi = bucket_hi(ts.len() as int, size, b);
    exists|p: int|
        lo <= p < hi && q == planned(es, #[trigger] ts[p]) && (total_from(needs(es, ts, lo, hi), 0) > 0
            ==> need_of(es, ts[p]) > 0)
}

/// A spread over more topics than it picks takes each pick from its own slice, and never a
/// topic weighing 0 or less while the weights of its slice add up to more than 0.
pub proof fn lemma_spread_within_slices(es: Seq<TopicStudyV>, ts: Seq<TopicV>, size: int, r: Seq<PlannedV>)
    requires
        spread_outcome(es, ts, size, r),
        0 < size < ts.len(),
    ensures
        r.len() == size,
        forall|b: int| 0 <= b < size ==> in_slice(es, ts, size, b, #[trigger] r[b]),
{
    assert forall|b: int| 0 <= b < size implies in_slice(es, ts, size, b, #[trigger] r[b]) by {
        let n = ts.len() as int;
        lemma_bucket_bounds(n, size, b);
        let lo = bucket_lo(n, size, b);
        let hi = bucket_hi(n, size, b);
        let ws = needs(es, ts, lo, hi);
        assert(spread_slot(es, ts, size, b, r[b]));
        let p = choose|p: int| spread_pick(es, ts, size, b, p) && r[b] == planned(es, ts[p]);
        let roll = choose|roll: int|
            (total_from(ws, 0) <= 0 || 0 <= roll < total_from(ws, 0)) && #[trigger] pick_spec(ws, roll)
                == Some(p - lo);
        if total_from(ws, 0) > 0 {
            lemma_scan_lands(ws, 0, roll);
            assert(ws[p - lo] == need_of(es, ts[p]));
        }
        assert(lo <= p < hi && r[b] == planned(es, ts[p]));
    }
}

proof fn lemma_bucket_hi_plain(n: int, size: int, b: int)
    requires
        0 < size < n,
        0 <= b < size,
    ensures
        bucket_hi(n, size, b) == (b + 1) * n / size,
        bucket_lo(n, size, b) == b * n / size,
{
    assert((b + 1) * n / size >= b * n / size + 1) by (nonlinear_arith)
        requires
            0 < size < n,
            0 <= b,
    {
        assert((b + 1) * n == b * n + n);
        assert(b * n + n >= b * n + size);
        assert((b * n + size) / size == b * n / size + 1);
    }
}

/// What a spread gives, whatever the draws: nothing for size 0; every candidate, in order,
/// when there are no more than `size`; otherwise `size` picks, the pick of slice `b` a
/// candidate at a position in `b*n/size .. (b+1)*n/size`. Every pick is a candidate's
/// standing.
pub proof fn lemma_spread_outcome_facts(es: Seq<TopicStudyV>, ts: Seq<TopicV>, size: int, r: Seq<PlannedV>)
    requires
        spread_outcome(es, ts, size, r),
        size >= 0,
    ensures
        r.len() == (if size == 0 {
            0
        } else if ts.len() <= size {
            ts.len() as int
        } else {
            size
        }),
        forall|k: int| 0 <= k < r.len() ==> exists|p: int| 0 <= p < ts.len() && #[trigger] r[k] == planned(es, ts[p]),
        0 < size < ts.len() ==> forall|b: int|
            0 <= b < size ==> exists|p: int|
                b * ts.len() / size <= p < (b + 1) * ts.len() / size && #[trigger] r[b] == planned(es, ts[p]),
{
    let n = ts.len() as int;
    if size == 0 {
    } else if n <= size {
        assert forall|k: int| 0 <= k < r.len() implies exists|p: int| 0 <= p < ts.len() && #[trigger] r[k] == planned(es, ts[p]) by {
            assert(r[k] == planned(es, ts[k]));
        }
    } else {
        lemma_spread_within_slices(es, ts, size, r);
        assert forall|b: int| 0 <= b < size implies exists|p: int|
            b * ts.len() / size <= p < (b + 1) * ts.len() / size && #[trigger] r[b] == planned(es, ts[p]) by {
            lemma_bucket_hi_plain(n, size, b);
            lemma_bucket_bounds(n, size, b);
            assert(in_slice(es, ts, size, b, r[b]));
        }
        assert forall|k: int| 0 <= k < r.len() implies exists|p: int| 0 <= p < ts.len() && #[trigger] r[k] == planned(es, ts[p]) by {
            lemma_bucket_bounds(n, size, k);
            assert(in_slice(es, ts, size, k, r[k]));
        }
    }
}

/// `q` is the standing of one of the candidates `cs`.
pub open spec fn picked_from(es: Seq<TopicStudyV>, cs: Seq<Topic>, q: PlannedV) -> bool {
    exists|p: int| 0 <= p < cs.len() && q == planned(es, #[trigger] cs[p]@)
}

/// `q` is the standing of a candidate of slice `b` when `cs` is cut into `size` slices: a
/// position in `b*n/size .. (b+1)*n/size`.
pub open spec fn picked_from_slice(es: Seq<TopicStudyV>, cs: Seq<Topic>, size: int, b: int, q: PlannedV) -> bool {
    exists|p: int| b * cs.len() / size <= p < (b + 1) * cs.len() / size && q == planned(es, #[trigger] cs[p]@)
}

proof fn lemma_spread_candidates(es: Seq<TopicStudyV>, cs: Seq<Topic>, size: int, rv: Seq<PlannedTopic>)
    requires
        spread_outcome(es, topics_view(cs), size, planned_view(rv)),
        size >= 0,
    ensures
        rv.len() == (if size == 0 {
            0
        } else if cs.len() <= size {
            cs.len() as int
        } else {
            size
        }),
        forall|k: int| 0 <= k < rv.len() ==> picked_from(es, cs, #[trigger] rv[k]@),
        0 < size < cs.len() ==> forall|b: int| 0 <= b < size ==> picked_from_slice(es, cs, size, b, #[trigger] rv[b]@),
{
    let ts = topics_view(cs);
    let r = planned_view(rv);
    lemma_spread_outcome_facts(es, ts, size, r);
    assert forall|k: int| 0 <= k < rv.len() implies picked_from(es, cs, #[trigger] rv[k]@) by {
        assert(r[k] == rv[k]@);
        let p = choose|p: int| 0 <= p < ts.len() && #[trigger] r[k] == planned(es, ts[p]);
        assert(ts[p] == cs[p]@);
    }
    if 0 < size < cs.len() {
        assert forall|b: int| 0 <= b < size implies picked_from_slice(es, cs, size, b, #[trigger] rv[b]@) by {
            assert(r[b] == rv[b]@);
            let p = choose|p: int| b * ts.len() / size <= p < (b + 1) * ts.len() / size && #[trigger] r[b] == planned(es, ts[p]);
            lemma_bucket_hi_plain(ts.len() as int, size, b);
            lemma_bucket_bounds(ts.len() as int, size, b);
            assert(ts[p] == cs[p]@);
        }
    }
}

/// The slices of a spread follow one another and cover every position exactly once.
pub proof fn lemma_slices_partition(n: int, size: int)
    requires
        0 < size < n,
    ensures
        bucket_lo(n, size, 0) == 0,
        bucket_hi(n, size, size - 1) == n,
        forall|b: int| 0 <= b < size - 1 ==> #[trigger] bucket_hi(n, size, b) == bucket_lo(n, size, b + 1),
{
    assert(0 * n / size == 0) by (nonlinear_arith)
        requires
            0 < size,
    ;
    assert(size * n / size == n) by (nonlinear_arith)
        requires
            0 < size,
    ;
    assert(((size - 1) + 1) * n == size * n) by (nonlinear_arith);
    lemma_bucket_bounds(n, size, size - 1);
    assert forall|b: int| 0 <= b < size - 1 implies #[trigger] bucket_hi(n, size, b) == bucket_lo(
        n,
        size,
        b + 1,
    ) by {
        assert((b + 1) * n / size >= b * n / size + 1) by (nonlinear_arith)
            requires
                0 <= b,
                0 < size < n,
        ;
    }
}

/// `q` plans one of the candidates `cs` that was never opened: new, and no review.
pub open spec fn unopened_pick(es: Seq<TopicStudyV>, cs: Seq<Topic>, q: PlannedTopic) -> bool {
    &&& picked_from(es, cs, q@)
    &&& lookup(es, q.topic.id@) is None
    &&& q.stage == Stage::New
    &&& !q.is_review
}

/// Notes-only reading: the spread, restricted to topics never opened.
pub open spec fn unseen_topics(es: Seq<TopicStudyV>, cs: Seq<Topic>) -> Seq<TopicV> {
    positions_where(cs.len(), is_unseen(es, cs)).map_values(|i: int| cs[i]@)
}

/// Notes-only reading: the spread, restricted to topics never opened — so a reader who never
/// takes the tests is served new notes rather than the same ones again.
pub fn plan_reading(state: &StudyState, candidates: &[Topic], size: usize) -> (r: Vec<PlannedTopic>)
    requires
        state.wf(),
        candidates@.len() <= size || candidates@.len() * size <= usize::MAX,
    ensures
        spread_outcome(
            state.entries(),
            unseen_topics(state.entries(), candidates@),
            size as int,
            planned_view(r@),
        ),
        r@.len() == (if size == 0 {
            0
        } else if unseen_topics(state.entries(), candidates@).len() <= size {
            unseen_topics(state.entries(), candidates@).len() as int
        } else {
            size as int
        }),
        forall|k: int| 0 <= k < r@.len() ==> unopened_pick(state.entries(), candidates@, #[trigger] r@[k]),
{
    let ghost es = state.entries();
    let now = Now { secs: 0, nanos: 0, day: 0 };
    let ps = collect_positions(state, candidates, 0, &now);
    let mut unseen: Vec<Topic> = Vec::new();
    let mut k: usize = 0;
    while k < ps.len()
        invariant
            state.wf(),
            es == state.entries(),
            k <= ps@.len(),
            positions_view(ps@) == positions_where(candidates@.len(), is_unseen(es, candidates@)),
            forall|i: int| 0 <= i < ps@.len() ==> (#[trigger] ps@[i]) < candidates@.len(),
            topics_view(unseen@) =~= positions_view(ps@).take(k as int).map_values(
                |i: int| candidates@[i]@,
            ),
        decreases ps@.len() - k,
    {
        let ghost prev = topics_view(unseen@);
        unseen.push(candidates[ps[k]].clone());
        proof {
            let pv = positions_view(ps@);
            assert(pv.take(k + 1) =~= pv.take(k as int).push(pv[k as int]));
            assert(topics_view(unseen@) =~= prev.push(candidates@[ps@[k as int] as int]@));
        }
        k += 1;
    }
    proof {
        let pv = positions_view(ps@);
        assert(pv.take(ps@.len() as int) =~= pv);
        lemma_positions_where_bounds(candidates@.len(), is_unseen(es, candidates@));
        assert(ps@.len() <= candidates@.len());
        assert(unseen@.len() == ps@.len());
        if candidates@.len() > size {
            assert(unseen@.len() * size <= candidates@.len() * size) by (nonlinear_arith)
                requires
                    unseen@.len() <= candidates@.len(),
            ;
        }
    }
    let r = plan_spread(state, &unseen, size);
    proof {
        let us = unseen_topics(es, candidates@);
        let pv = positions_view(ps@);
        assert(topics_view(unseen@) =~= us);
        let rv = planned_view(r@);
        assert(rv =~= planned_view(r@));
        assert forall|k: int|
            0 <= k < r@.len() implies unopened_pick(state.entries(), candidates@, #[trigger] r@[k]) by {
            assert(picked_from(es, unseen@, r@[k]@));
            let p = choose|p: int| 0 <= p < unseen@.len() && r@[k]@ == planned(es, #[trigger] unseen@[p]@);
            assert(unseen@[p]@ == topics_view(unseen@)[p]);
            assert(us[p] == candidates@[pv[p]]@);
            lemma_positions_where_holds(candidates@.len(), is_unseen(es, candidates@), p);
            assert(0 <= pv[p] < candidates@.len());
            assert(lookup(es, candidates@[pv[p]]@.id) is None);
            assert(r@[k]@ == planned(es, candidates@[pv[p]]@));
            assert(r@[k].topic@ == candidates@[pv[p]]@);
        }
    }
    r
}

/// Every position that `positions_where` lists satisfies the predicate.
pub proof fn lemma_positions_where_holds(n: nat, p: spec_fn(int) -> bool, j: int)
    requires
        0 <= j < positions_where(n, p).len(),
    ensures
        p(positions_where(n, p)[j]),
        0 <= positions_where(n, p)[j] < n,
    decreases n,
{
    if n > 0 {
        let prev = positions_where((n - 1) as nat, p);
        if j < prev.len() {
            lemma_positions_where_holds((n - 1) as nat, p, j);
        }
    }
}

/// `positions_where` lists positions in increasing order.
pub proof fn lemma_positions_where_ascending(n: nat, p: spec_fn(int) -> bool, i: int, j: int)
    requires
        0 <= i < j < positions_where(n, p).len(),
    ensures
        positions_where(n, p)[i] < positions_where(n, p)[j],
    decreases n,
{
    if n > 0 {
        let prev = positions_where((n - 1) as nat, p);
        if j < prev.len() {
            lemma_positions_where_ascending((n - 1) as nat, p, i, j);
        } else {
            lemma_positions_where_holds((n - 1) as nat, p, i);
        }
    }
}

/// `positions_where` lists no more than `n` positions.
pub proof fn lemma_positions_where_bounds(n: nat, p: spec_fn(int) -> bool)
    ensures
        positions_where(n, p).len() <= n,
    decreases n,
{
    if n > 0 {
        lemma_positions_where_bounds((n - 1) as nat, p);
    }
}


// ---------------------------------------------------------------------------
// Overview
// ---------------------------------------------------------------------------

pub struct StudyOverview {
    pub subject: String,
    /// Topics that have a knowledge note and can therefore be studied.
    pub available: usize,
    pub new: usize,
    /// Started but not yet holding up: read-only topics and those being drilled.
    pub learning: usize,
    pub review: usize,
    pub mastered: usize,
    /// Started topics waiting for their review now. Never-studied ones are counted in `new`
    /// only.
    pub due_now: usize,
    pub studied_today: usize,
    /// Weighted 0..100 across the whole subject: how much of it is actually learnt.
    pub progress_percent: u32,
}

pub struct OverviewV {
    pub subject: Seq<char>,
    pub available: nat,
    pub new: nat,
    pub learning: nat,
    pub review: nat,
    pub mastered: nat,
    pub due_now: nat,
    pub studied_today: nat,
    pub progress_percent: nat,
}

impl View for StudyOverview {
    type V = OverviewV;

    open spec fn view(&self) -> OverviewV {
        OverviewV {
            subject: self.subject@,
            available: self.available as nat,
            new: self.new as nat,
            learning: self.learning as nat,
            review: self.review as nat,
            mastered: self.mastered as nat,
            due_now: self.due_now as nat,
            studied_today: self.studied_today as nat,
            progress_percent: self.progress_percent as nat,
        }
    }
}

/// The stage of a topic, counting one never studied as new.
pub open spec fn stage_here(es: Seq<TopicStudyV>, t: TopicV) -> Stage {
    match lookup(es, t.id) {
        Some(e) => stage_of(e.level, e.read_count),
        None => Stage::New,
    }
}

/// How many of the positions `0..n` satisfy `p`.
pub open spec fn count_where(n: nat, p: spec_fn(int) -> bool) -> nat
    decreases n,
{
    if n == 0 {
        0
    } else {
        count_where((n - 1) as nat, p) + if p(n - 1) {
            1nat
        } else {
            0nat
        }
    }
}

pub open spec fn has_stage(es: Seq<TopicStudyV>, cs: Seq<Topic>, st: Stage) -> spec_fn(int) -> bool {
    |i: int| stage_here(es, cs[i]@) == st
}

/// The topic was last studied on calendar day `day`, read in the offset its time was written in.
pub open spec fn studied_on(es: Seq<TopicStudyV>, cs: Seq<Topic>, day: int) -> spec_fn(int) -> bool {
    |i: int|
        lookup(es, cs[i]@.id) matches Some(e) && e.last_studied matches Some(t) && rfc3339_parsed(
            t,
        ) matches Some(st) && st.2 == day
}

/// The levels of the first `n` candidates, a never-studied topic counting 0.
pub open spec fn level_sum(es: Seq<TopicStudyV>, cs: Seq<Topic>, n: nat) -> nat
    decreases n,
{
    if n == 0 {
        0
    } else {
        level_sum(es, cs, (n - 1) as nat) + match lookup(es, cs[n - 1]@.id) {
            Some(e) => e.level,
            None => 0,
        }
    }
}

/// `100 * part / whole` rounded to the nearest whole number, halves up; 0 when `whole` is 0.
pub open spec fn rounded_percent(part: nat, whole: nat) -> nat {
    if whole == 0 {
        0
    } else {
        (200 * part + whole) / (2 * whole)
    }
}

/// The overview of a subject's `cs` at `now`.
pub open spec fn overview_spec(es: Seq<TopicStudyV>, subject: Seq<char>, cs: Seq<Topic>, now: Now) -> OverviewV {
    let n = cs.len();
    OverviewV {
        subject,
        available: n,
        new: count_where(n, has_stage(es, cs, Stage::New)),
        learning: count_where(n, has_stage(es, cs, Stage::Reading)) + count_where(
            n,
            has_stage(es, cs, Stage::Learning),
        ),
        review: count_where(n, has_stage(es, cs, Stage::Review)),
        mastered: count_where(n, has_stage(es, cs, Stage::Mastered)),
        due_now: count_where(n, is_due_at(es, cs, now)),
        studied_today: count_where(n, studied_on(es, cs, now.day as int)),
        progress_percent: rounded_percent(level_sum(es, cs, n), 6 * n),
    }
}

proof fn lemma_count_le(n: nat, p: spec_fn(int) -> bool)
    ensures
        count_where(n, p) <= n,
    decreases n,
{
    if n > 0 {
        lemma_count_le((n - 1) as nat, p);
    }
}

/// The overview of a subject's studyable topics at `now`.
pub fn overview_at(state: &StudyState, subject: &str, candidates: &[Topic], now: &Now) -> (o: StudyOverview)
    requires
        state.wf(),
        6 * candidates@.len() <= u32::MAX,
    ensures
        o@ == overview_spec(state.entries(), subject@, candidates@, *now),
{
    let ghost es = state.entries();
    let ghost cs = candidates@;
    let n = candidates.len();
    let mut new: usize = 0;
    let mut reading: usize = 0;
    let mut learning: usize = 0;
    let mut review: usize = 0;
    let mut mastered: usize = 0;
    let mut due_now: usize = 0;
    let mut studied_today: usize = 0;
    let mut levels: u64 = 0;
    let mut i: usize = 0;
    while i < n
        invariant
            state.wf(),
            es == state.entries(),
            cs == candidates@,
            n == cs.len(),
            6 * n <= u32::MAX,
            i <= n,
            new == count_where(i as nat, has_stage(es, cs, Stage::New)),
            reading == count_where(i as nat, has_stage(es, cs, Stage::Reading)),
            learning == count_where(i as nat, has_stage(es, cs, Stage::Learning)),
            review == count_where(i as nat, has_stage(es, cs, Stage::Review)),
            mastered == count_where(i as nat, has_stage(es, cs, Stage::Mastered)),
            due_now == count_where(i as nat, is_due_at(es, cs, *now)),
            studied_today == count_where(i as nat, studied_on(es, cs, now.day as int)),
            levels == level_sum(es, cs, i as nat),
            levels <= 255 * i,
        decreases n - i,
    {
        proof {
            lemma_count_le(i as nat, has_stage(es, cs, Stage::New));
            lemma_count_le(i as nat, has_stage(es, cs, Stage::Reading));
            lemma_count_le(i as nat, has_stage(es, cs, Stage::Learning));
            lemma_count_le(i as nat, has_stage(es, cs, Stage::Review));
            lemma_count_le(i as nat, has_stage(es, cs, Stage::Mastered));
            lemma_count_le(i as nat, is_due_at(es, cs, *now));
            lemma_count_le(i as nat, studied_on(es, cs, now.day as int));
        }
        match state.find(candidates[i].id.as_str()) {
            None => {
                new = new + 1;
            },
            Some(j) => {
                let e = &state.topics[j];
                match e.stage() {
                    Stage::New => {
                        new = new + 1;
                    },
                    Stage::Reading => {
                        reading = reading + 1;
                    },
                    Stage::Learning => {
                        learning = learning + 1;
                    },
                    Stage::Review => {
                        review = review + 1;
                    },
                    Stage::Mastered => {
                        mastered = mastered + 1;
                    },
                }
                if e.is_due(now) {
                    due_now = due_now + 1;
                }
                levels = levels + e.level as u64;
                let today = match &e.last_studied {
                    Some(t) => match parse_rfc3339(t.as_str()) {
                        Some(st) => st.day == now.day,
                        None => false,
                    },
                    None => false,
                };
                if today {
                    studied_today = studied_today + 1;
                }
            },
        }
        i += 1;
    }
    proof {
        lemma_count_le(n as nat, has_stage(es, cs, Stage::Reading));
        lemma_count_le(n as nat, has_stage(es, cs, Stage::Learning));
    }
    let progress: u32 = if n == 0 {
        0
    } else {
        let whole: u64 = 6 * n as u64;
        proof {
            assert((200 * levels + whole) / (2 * whole) <= 4251) by (nonlinear_arith)
                requires
                    levels <= 255 * n,
                    whole == 6 * n,
                    n > 0,
            ;
        }
        ((200 * levels + whole) / (2 * whole)) as u32
    };
    StudyOverview {
        subject: subject.to_owned(),
        available: n,
        new,
        learning: reading + learning,
        review,
        mastered,
        due_now,
        studied_today,
        progress_percent: progress,
    }
}

/// The overview of a subject's studyable topics at the current time.
pub fn overview(state: &StudyState, subject: &str, candidates: &[Topic]) -> (o: StudyOverview)
    requires
        state.wf(),
        6 * candidates@.len() <= u32::MAX,
    ensures
        exists|now: Now| o@ == overview_spec(state.entries(), subject@, candidates@, now),
{
    let now = now();
    overview_at(state, subject, candidates, &now)
}

// ---------------------------------------------------------------------------
// Laws
// ---------------------------------------------------------------------------

/// The ladder: from any rung, a score lands on a rung between 1 and 6 at most one step away —
/// a pass climbs (unless already at the top), a fail drops (never back to "never studied"),
/// anything between holds.
pub proof fn lemma_ladder_steps(level: nat, score: nat)
    requires
        level <= 6,
    ensures
        1 <= next_level_spec(level, score) <= 6,
        next_level_spec(level, score) <= level + 1,
        level >= 1 ==> next_level_spec(level, score) >= level - 1,
        score >= 80 && level < 6 ==> next_level_spec(level, score) == level + 1,
        score < 60 && level > 1 ==> next_level_spec(level, score) == level - 1,
        60 <= score < 80 && level >= 1 ==> next_level_spec(level, score) == level,
{
}

/// A better score never lands a topic on a lower rung.
pub proof fn lemma_ladder_monotone(level: nat, low: nat, high: nat)
    requires
        level <= 6,
        low <= high,
    ensures
        next_level_spec(level, low) <= next_level_spec(level, high),
{
}

proof fn lemma_stage_counts(es: Seq<TopicStudyV>, cs: Seq<Topic>, n: nat)
    ensures
        count_where(n, has_stage(es, cs, Stage::New)) + count_where(n, has_stage(es, cs, Stage::Reading))
            + count_where(n, has_stage(es, cs, Stage::Learning)) + count_where(n, has_stage(es, cs, Stage::Review))
            + count_where(n, has_stage(es, cs, Stage::Mastered)) == n,
    decreases n,
{
    if n > 0 {
        lemma_stage_counts(es, cs, (n - 1) as nat);
    }
}

proof fn lemma_level_sum_bound(es: Seq<TopicStudyV>, cs: Seq<Topic>, n: nat)
    requires
        forall|e: TopicStudyV| #[trigger] es.contains(e) ==> e.level <= 6,
    ensures
        level_sum(es, cs, n) <= 6 * n,
    decreases n,
{
    if n > 0 {
        lemma_level_sum_bound(es, cs, (n - 1) as nat);
        let id = cs[n - 1]@.id;
        if exists|i: int| 0 <= i < es.len() && es[i].topic_id == id {
            let i = choose|i: int| 0 <= i < es.len() && es[i].topic_id == id;
            assert(es.contains(es[i]));
        }
    }
}

/// The overview splits the studiable topics into its stages: every topic is new, learning
/// (read or being drilled), in review, or mastered, exactly once. Progress is a percentage:
/// with every level on the ladder it never passes 100.
pub proof fn lemma_overview_partitions(es: Seq<TopicStudyV>, subject: Seq<char>, cs: Seq<Topic>, now: Now)
    ensures
        ({
            let o = overview_spec(es, subject, cs, now);
            o.new + o.learning + o.review + o.mastered == o.available
        }),
        (forall|e: TopicStudyV| #[trigger] es.contains(e) ==> e.level <= 6) ==> overview_spec(
            es,
            subject,
            cs,
            now,
        ).progress_percent <= 100,
{
    lemma_stage_counts(es, cs, cs.len());
    if forall|e: TopicStudyV| #[trigger] es.contains(e) ==> e.level <= 6 {
        lemma_level_sum_bound(es, cs, cs.len());
        let part = level_sum(es, cs, cs.len());
        let whole = 6 * cs.len();
        if whole > 0 {
            assert((200 * part + whole) / (2 * whole) <= 100) by (nonlinear_arith)
                requires
                    part <= whole,
                    whole > 0,
            ;
        }
    }
}


/// A topic is new exactly when it was never studied (level 0) and never read; one read but
/// never tested is being read; levels 1 and 2 are learning, 3 and 4 review, and above that
/// mastered.
pub proof fn lemma_stage_by_level(level: nat, read_count: nat)
    ensures
        (stage_of(level, read_count) == Stage::New) <==> (level == 0 && read_count == 0),
        level == 0 && read_count > 0 ==> stage_of(level, read_count) == Stage::Reading,
        1 <= level <= 2 ==> stage_of(level, read_count) == Stage::Learning,
        3 <= level <= 4 ==> stage_of(level, read_count) == Stage::Review,
        level >= 5 ==> stage_of(level, read_count) == Stage::Mastered,
{
}

/// A scored topic lands on a rung between 1 and 6 and is next due, counted from the clock's
/// instant, after that rung's wait on the ladder 1, 2, 4, 7, 14, 30 days.
pub proof fn lemma_scored_due_date(e: TopicStudyV, score: nat, clock: Clock)
    requires
        clock.wf(),
        takes_score(e, score),
    ensures
        1 <= next_level_spec(e.level, score) <= 6,
        after_score(e, score, clock).due_at == rfc3339_of(
            clock.now.secs + 86400 * seq![1int, 2, 4, 7, 14, 30][next_level_spec(e.level, score) - 1],
            clock.now.nanos as int,
        ),
        after_score(e, score, clock).level == next_level_spec(e.level, score),
        after_score(e, score, clock).sessions == e.sessions + 1,
        after_score(e, score, clock).last_score == Some(score),
{
    let l = next_level_spec(e.level, score);
    crate::time::lemma_review_ladder();
    assert(rfc3339_of(clock.now.secs + 86400 * review_days(l), clock.now.nanos as int) == Some(
        clock.due@[l - 1]@,
    ));
}

/// Among the topics a session plan serves that have a study record (the reviews), one whose
/// review date is strictly earlier comes first, whatever the levels; the level only orders
/// topics with the same date, lower first. Every such topic is due at `now`.
pub proof fn lemma_session_reviews_by_date(es: Seq<TopicStudyV>, cs: Seq<Topic>, size: nat, now: Now, r: Seq<PlannedV>)
    requires
        session_outcome(es, cs, size, now, r),
    ensures
        forall|i: int|
            0 <= i < r.len() ==> (lookup(es, (#[trigger] r[i]).topic.id) matches Some(a) ==> due(a, now)),
        forall|i: int, j: int|
            0 <= i < j < r.len() && lookup(es, (#[trigger] r[i]).topic.id) is None ==> lookup(
                es,
                (#[trigger] r[j]).topic.id,
            ) is None,
        forall|i: int, j: int|
            0 <= i < j < r.len() ==> (lookup(es, (#[trigger] r[i]).topic.id) matches Some(a) ==> (lookup(
                es,
                (#[trigger] r[j]).topic.id,
            ) matches Some(b) ==> {
                &&& !opt_text_lt(b.due_at, a.due_at)
                &&& (a.due_at == b.due_at ==> a.level <= b.level)
            })),
{
    let due_ps = positions_where(cs.len(), is_due_at(es, cs, now));
    let unseen = positions_where(cs.len(), is_unseen(es, cs));
    let keys = Seq::new(cs.len(), |i: int| session_key(es, cs[i]@));
    let order = choose|order: Seq<int>|
        {
            &&& same_positions(order, due_ps)
            &&& sorted_by_key(keys, order)
            &&& r == planned_at(es, cs, order.take(min_nat(size, order.len()) as int)) + planned_at(
                es,
                cs,
                unseen.take(min_nat((size - min_nat(size, order.len())) as nat, unseen.len()) as int),
            )
        };
    let m = min_nat(size, order.len()) as int;
    let a_part = planned_at(es, cs, order.take(m));
    let b_part = planned_at(es, cs, unseen.take(min_nat((size - min_nat(size, order.len())) as nat, unseen.len()) as int));
    assert(r == a_part + b_part);
    // Every planned topic with a record comes from the due part, at its sorted position.
    assert forall|i: int| 0 <= i < r.len() && lookup(es, r[i].topic.id) is Some implies i < m && 0 <= order[i]
        < cs.len() && r[i] == planned(es, cs[order[i]]@) && is_due_at(es, cs, now)(order[i]) by {
        if i >= m {
            let q = unseen.take(min_nat((size - min_nat(size, order.len())) as nat, unseen.len()) as int);
            assert(r[i] == b_part[i - m]);
            assert(b_part[i - m] == planned(es, cs[q[i - m]]@));
            assert(unseen.contains(q[i - m]));
            let w = choose|w: int| 0 <= w < unseen.len() && unseen[w] == q[i - m];
            lemma_positions_where_holds(cs.len(), is_unseen(es, cs), w);
            assert(r[i].topic == cs[q[i - m]]@);
        } else {
            assert(r[i] == a_part[i]);
            assert(due_ps.contains(order[i]));
            let w = choose|w: int| 0 <= w < due_ps.len() && due_ps[w] == order[i];
            lemma_positions_where_holds(cs.len(), is_due_at(es, cs, now), w);
        }
    }
    assert forall|i: int| 0 <= i < m implies lookup(es, (#[trigger] r[i]).topic.id) is Some by {
        assert(r[i] == a_part[i]);
        assert(due_ps.contains(order[i]));
        let w = choose|w: int| 0 <= w < due_ps.len() && due_ps[w] == order[i];
        lemma_positions_where_holds(cs.len(), is_due_at(es, cs, now), w);
        assert(r[i].topic == cs[order[i]]@);
    }
    assert forall|i: int, j: int|
        0 <= i < j < r.len() && lookup(es, (#[trigger] r[i]).topic.id) is None implies lookup(
            es,
            (#[trigger] r[j]).topic.id,
        ) is None by {
        if lookup(es, r[j].topic.id) is Some {
            assert(j < m);
            assert(lookup(es, r[i].topic.id) is Some);
        }
    }
    assert forall|i: int| 0 <= i < r.len() implies (lookup(es, (#[trigger] r[i]).topic.id) matches Some(a)
        ==> due(a, now)) by {
        if lookup(es, r[i].topic.id) is Some {
            assert(r[i].topic == cs[order[i]]@);
        }
    }
    assert forall|i: int, j: int| 0 <= i < j < r.len() implies (lookup(es, (#[trigger] r[i]).topic.id) matches Some(
        a,
    ) ==> (lookup(es, (#[trigger] r[j]).topic.id) matches Some(b) ==> {
        &&& !opt_text_lt(b.due_at, a.due_at)
        &&& (a.due_at == b.due_at ==> a.level <= b.level)
    })) by {
        if lookup(es, r[i].topic.id) is Some && lookup(es, r[j].topic.id) is Some {
            let a = lookup(es, r[i].topic.id)->0;
            let b = lookup(es, r[j].topic.id)->0;
            assert(r[i].topic == cs[order[i]]@);
            assert(r[j].topic == cs[order[j]]@);
            assert(sorts_before(keys, order[i], order[j]));
            let ka = keys[order[i]];
            let kb = keys[order[j]];
            assert(ka == KeyV { first: 0, text: a.due_at, second: a.level as int });
            assert(kb == KeyV { first: 0, text: b.due_at, second: b.level as int });
            if opt_text_lt(b.due_at, a.due_at) {
                assert(key_lt(kb, ka));
                lemma_key_lt_asymmetric(kb, ka);
                if ka == kb {
                    lemma_key_lt_asymmetric(ka, ka);
                }
            }
            if a.due_at == b.due_at && a.level > b.level {
                assert(key_lt(kb, ka));
                lemma_key_lt_asymmetric(kb, ka);
                if ka == kb {
                    lemma_key_lt_asymmetric(ka, ka);
                }
            }
        }
    }
}

} // verus!
