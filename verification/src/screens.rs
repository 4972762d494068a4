//! What the app's screens show: the subject list, one subject in detail, the vault, and the
//! settings it remembers.
use vstd::prelude::*;

use crate::agy::ModelSettings;
use crate::knowledge::{note_exists, note_name_at};
use crate::paths::Vault;
use crate::progress::{answered_total, subject_stats, stats_outcome, Mastery, SubjectStats};
use crate::quiz::QuizSummary;
use crate::study::{lookup, overview, overview_spec, StudyOverview, StudyState, TopicStudy, TopicStudyV};
use crate::syllabus::{all_topics, topics_view, Subject, Topic, TopicV};
use crate::text::strings_view;

verus! {

/// Persisted app settings.
pub struct AppConfig {
    /// Explicit vault location chosen by the user. `None` means "work it out".
    pub vault_root: Option<String>,
    /// The student has been through setup.
    pub onboarded: bool,
    /// Which model each tier names.
    pub models: ModelSettings,
}

impl Default for AppConfig {
    fn default() -> (c: Self)
        ensures
            c.vault_root is None,
            !c.onboarded,
            c.models.smart@ == crate::agy::DEFAULT_SMART@,
            c.models.fast@ == crate::agy::DEFAULT_FAST@,
    {
        AppConfig { vault_root: None, onboarded: false, models: ModelSettings::default() }
    }
}

/// The app's state: the vault it works on, and where its settings live.
pub struct AppState {
    vault: Vault,
    config_dir: String,
}

impl AppState {
    pub fn new(vault: Vault, config_dir: String) -> (s: Self)
        ensures
            s.vault_root() == vault.root@,
            s.config_dir() == config_dir@,
    {
        AppState { vault, config_dir }
    }

    pub closed spec fn vault_root(&self) -> Seq<char> {
        self.vault.root@
    }

    pub closed spec fn config_dir(&self) -> Seq<char> {
        self.config_dir@
    }

    /// The vault the app works on.
    pub fn vault(&self) -> (v: Vault)
        ensures
            v.root@ == self.vault_root(),
    {
        self.vault.clone()
    }

    /// Where the app's settings live.
    pub fn settings_dir(&self) -> (d: String)
        ensures
            d@ == self.config_dir(),
    {
        self.config_dir.clone()
    }

    /// Point the app at `root` and record in `config` that setup is done.
    pub fn adopt_vault(&mut self, root: String, config: &mut AppConfig)
        ensures
            final(self).vault_root() == root@,
            final(self).config_dir() == old(self).config_dir(),
            final(config).vault_root matches Some(r) && r@ == root@,
            final(config).onboarded,
            final(config).models == old(config).models,
    {
        config.vault_root = Some(root.clone());
        config.onboarded = true;
        self.vault = Vault::new(root);
    }
}

/// Setup is done: `$GRIND_VAULT` is set (itself an explicit choice), or the student went
/// through setup.
pub fn configured(env_vault_set: bool, config: &AppConfig) -> (b: bool)
    ensures
        b == (env_vault_set || config.onboarded),
{
    env_vault_set || config.onboarded
}

/// One line of the subject list.
pub struct SubjectOverview {
    pub id: String,
    pub title: String,
    pub topic_count: usize,
    pub knowledge_count: usize,
    pub quiz_count: usize,
    pub accuracy_percent: u32,
}

/// The topics of `ts` with a knowledge note among `names`.
pub open spec fn with_notes(ts: Seq<TopicV>, names: Seq<Seq<char>>) -> Seq<TopicV> {
    ts.filter(|t: TopicV| note_name_at(names, t.section, t.index) is Some)
}

fn topics_with_notes(ts: &Vec<Topic>, names: &[String]) -> (r: Vec<Topic>)
    ensures
        topics_view(r@) == with_notes(topics_view(ts@), strings_view(names@)),
        r@.len() <= ts@.len(),
{
    let ghost keep = |t: TopicV| note_name_at(strings_view(names@), t.section, t.index) is Some;
    let ghost tv = topics_view(ts@);
    let mut r: Vec<Topic> = Vec::new();
    let mut i: usize = 0;
    while i < ts.len()
        invariant
            keep == (|t: TopicV| note_name_at(strings_view(names@), t.section, t.index) is Some),
            tv == topics_view(ts@),
            i <= ts@.len(),
            topics_view(r@) == tv.take(i as int).filter(keep),
            r@.len() <= i,
        decreases ts@.len() - i,
    {
        let present = note_exists(names, &ts[i]);
        proof {
            assert(tv.take(i + 1).drop_last() =~= tv.take(i as int));
            assert(tv[i as int] == ts@[i as int]@);
            reveal(Seq::filter);
        }
        let ghost before = topics_view(r@);
        if present {
            r.push(ts[i].clone());
            assert(topics_view(r@) =~= before.push(ts@[i as int]@));
        }
        i += 1;
    }
    assert(tv.take(ts@.len() as int) =~= tv);
    r
}

/// The subject list line of `subject`: its topics, how many have a note, how many quizzes it
/// has, and the accuracy of every answer given on it.
pub fn subject_overview(subject: &Subject, note_names: &[String], mastery: &Mastery, quiz_count: usize) -> (r:
    SubjectOverview)
    requires
        mastery.wf(),
        answered_total(mastery.entries(), all_topics(subject@), all_topics(subject@).len(), false) <= u32::MAX,
        answered_total(mastery.entries(), all_topics(subject@), all_topics(subject@).len(), true) <= u32::MAX,
    ensures
        r.id == subject.id,
        r.title == subject.title,
        r.topic_count == all_topics(subject@).len(),
        r.knowledge_count == with_notes(all_topics(subject@), strings_view(note_names@)).len(),
        r.quiz_count == quiz_count,
        exists|s: SubjectStats|
            #[trigger] stats_outcome(
                mastery.entries(),
                subject.id@,
                all_topics(subject@),
                with_notes(all_topics(subject@), strings_view(note_names@)).len(),
                s,
            ) && r.accuracy_percent == s.accuracy_percent,
{
    let topics = subject.topics();
    let noted = topics_with_notes(&topics, note_names);
    let stats = subject_stats(mastery, subject.id.as_str(), topics.as_slice(), noted.len());
    proof {
        assert(topics_view(noted@).len() == noted@.len());
        assert(stats_outcome(
            mastery.entries(),
            subject.id@,
            all_topics(subject@),
            with_notes(all_topics(subject@), strings_view(note_names@)).len(),
            stats,
        ));
    }
    SubjectOverview {
        id: subject.id.clone(),
        title: subject.title.clone(),
        topic_count: topics.len(),
        knowledge_count: noted.len(),
        quiz_count,
        accuracy_percent: stats.accuracy_percent,
    }
}


/// One subject in detail.
pub struct SubjectDetail {
    pub subject: Subject,
    /// Topics that already have a generated knowledge note.
    pub knowledge_topic_ids: Vec<String>,
    pub quizzes: Vec<QuizSummary>,
    pub stats: SubjectStats,
    pub study: StudyOverview,
    /// Per-topic study state, for the topics ever studied, in syllabus order.
    pub topic_study: Vec<(String, TopicStudy)>,
}

/// The study records of the topics ever studied, in syllabus order.
pub open spec fn studied(es: Seq<TopicStudyV>, ts: Seq<TopicV>) -> Seq<(Seq<char>, TopicStudyV)> {
    ts.filter(|t: TopicV| lookup(es, t.id) is Some).map_values(|t: TopicV| (t.id, lookup(es, t.id)->0))
}

pub open spec fn study_pairs(v: Seq<(String, TopicStudy)>) -> Seq<(Seq<char>, TopicStudyV)> {
    v.map_values(|p: (String, TopicStudy)| (p.0@, p.1@))
}

fn studied_topics(state: &StudyState, ts: &Vec<Topic>) -> (r: Vec<(String, TopicStudy)>)
    requires
        state.wf(),
    ensures
        study_pairs(r@) == studied(state.entries(), topics_view(ts@)),
{
    let ghost es = state.entries();
    let ghost keep = |t: TopicV| lookup(es, t.id) is Some;
    let ghost f = |t: TopicV| (t.id, lookup(es, t.id)->0);
    let ghost tv = topics_view(ts@);
    let mut r: Vec<(String, TopicStudy)> = Vec::new();
    let mut i: usize = 0;
    while i < ts.len()
        invariant
            state.wf(),
            es == state.entries(),
            keep == (|t: TopicV| lookup(es, t.id) is Some),
            f == (|t: TopicV| (t.id, lookup(es, t.id)->0)),
            tv == topics_view(ts@),
            i <= ts@.len(),
            study_pairs(r@) == tv.take(i as int).filter(keep).map_values(f),
        decreases ts@.len() - i,
    {
        proof {
            assert(tv.take(i + 1).drop_last() =~= tv.take(i as int));
            assert(tv[i as int] == ts@[i as int]@);
            reveal(Seq::filter);
        }
        let ghost before = study_pairs(r@);
        match state.get(ts[i].id.as_str()) {
            Some(e) => {
                r.push((ts[i].id.clone(), e.clone()));
                proof {
                    assert(tv.take(i + 1).filter(keep) =~= tv.take(i as int).filter(keep).push(tv[i as int]));
                    assert(tv.take(i + 1).filter(keep).map_values(f) =~= tv.take(i as int).filter(keep).map_values(
                        f,
                    ).push(f(tv[i as int])));
                    assert(study_pairs(r@) =~= before.push(f(tv[i as int])));
                }
            },
            None => {
                proof {
                    assert(tv.take(i + 1).filter(keep) =~= tv.take(i as int).filter(keep));
                }
            },
        }
        i += 1;
    }
    assert(tv.take(ts@.len() as int) =~= tv);
    r
}

fn ids_of(ts: &Vec<Topic>) -> (r: Vec<String>)
    ensures
        strings_view(r@) == topics_view(ts@).map_values(|t: TopicV| t.id),
{
    let mut r: Vec<String> = Vec::new();
    let mut i: usize = 0;
    while i < ts.len()
        invariant
            i <= ts@.len(),
            strings_view(r@) == topics_view(ts@).take(i as int).map_values(|t: TopicV| t.id),
        decreases ts@.len() - i,
    {
        let ghost before = strings_view(r@);
        r.push(ts[i].id.clone());
        proof {
            let tv = topics_view(ts@);
            assert(tv.take(i + 1) =~= tv.take(i as int).push(tv[i as int]));
            assert(strings_view(r@) =~= before.push(tv[i as int].id));
        }
        i += 1;
    }
    assert(topics_view(ts@).take(ts@.len() as int) =~= topics_view(ts@));
    r
}

/// One subject in detail: the ids of its topics with a note, its quizzes, its dashboard
/// numbers, the study overview of the topics that can be studied (those with a note), and the
/// study record of every topic ever studied.
pub fn subject_detail(
    subject: Subject,
    note_names: &[String],
    quizzes: Vec<QuizSummary>,
    mastery: &Mastery,
    state: &StudyState,
) -> (r: SubjectDetail)
    requires
        mastery.wf(),
        state.wf(),
        answered_total(mastery.entries(), all_topics(subject@), all_topics(subject@).len(), false) <= u32::MAX,
        answered_total(mastery.entries(), all_topics(subject@), all_topics(subject@).len(), true) <= u32::MAX,
        6 * all_topics(subject@).len() <= u32::MAX,
    ensures
        r.subject@ == subject@,
        strings_view(r.knowledge_topic_ids@) == with_notes(all_topics(subject@), strings_view(note_names@)).map_values(
            |t: TopicV| t.id,
        ),
        r.quizzes == quizzes,
        stats_outcome(
            mastery.entries(),
            subject.id@,
            all_topics(subject@),
            with_notes(all_topics(subject@), strings_view(note_names@)).len(),
            r.stats,
        ),
        exists|now: crate::time::Now, cs: Seq<Topic>|
            #![trigger overview_spec(state.entries(), subject.id@, cs, now)]
            topics_view(cs) == with_notes(all_topics(subject@), strings_view(note_names@)) && r.study@
                == overview_spec(state.entries(), subject.id@, cs, now),
        study_pairs(r.topic_study@) == studied(state.entries(), all_topics(subject@)),
{
    let topics = subject.topics();
    let noted = topics_with_notes(&topics, note_names);
    let ids = ids_of(&noted);
    let stats = subject_stats(mastery, subject.id.as_str(), topics.as_slice(), noted.len());
    proof {
        assert(topics_view(noted@).len() == noted@.len());
    }
    let study = overview(state, subject.id.as_str(), noted.as_slice());
    let topic_study = studied_topics(state, &topics);
    proof {
        let now = choose|now: crate::time::Now| study@ == overview_spec(state.entries(), subject.id@, noted@, now);
        assert(topics_view(noted@) == with_notes(all_topics(subject@), strings_view(note_names@)));
        assert(study@ == overview_spec(state.entries(), subject.id@, noted@, now));
    }
    SubjectDetail { subject, knowledge_topic_ids: ids, quizzes, stats, study, topic_study }
}

/// What the app knows about the vault.
pub struct VaultInfo {
    pub root: String,
    /// The student has been through setup and said where the vault is.
    pub configured: bool,
    /// The app can list the syllabus directory right now.
    pub readable: bool,
    pub subject_count: usize,
    /// Why it is not readable, phrased for the user.
    pub error: Option<String>,
    pub agy_binary: Option<String>,
}

/// Describe the vault. Before setup the vault is not probed at all (the probe is what raises
/// a folder-access prompt), so `probe` — how many subjects the syllabus folder holds, or why it
/// cannot be read — is only looked at once the vault is configured.
pub fn vault_info(
    root: String,
    configured: bool,
    probe: Option<Result<usize, String>>,
    agy_binary: Option<String>,
) -> (r: VaultInfo)
    ensures
        r.root == root,
        r.configured == configured,
        r.agy_binary == agy_binary,
        !configured ==> !r.readable && r.subject_count == 0 && r.error is None,
        configured ==> match probe {
            Some(Ok(n)) => r.readable && r.subject_count == n && r.error is None,
            Some(Err(e)) => !r.readable && r.subject_count == 0 && r.error == Some(e),
            None => !r.readable && r.subject_count == 0 && r.error is None,
        },
{
    if !configured {
        return VaultInfo { root, configured: false, readable: false, subject_count: 0, error: None, agy_binary };
    }
    let (readable, subject_count, error) = match probe {
        Some(Ok(n)) => (true, n, None),
        Some(Err(e)) => (false, 0, Some(e)),
        None => (false, 0, None),
    };
    VaultInfo { root, configured: true, readable, subject_count, error, agy_binary }
}

} // verus!
