//! Filling in a subject's missing notes a few at a time: which topics a batch covers, the
//! events it reports, and its final tally.
use vstd::prelude::*;

use crate::generate::quiz::grounded;
use crate::knowledge::note_exists;
use crate::syllabus::{all_topics, topics_view, Subject, Topic, TopicV};
use crate::text::{chars_of, extend, string_of, strings_view};

verus! {

/// What a running batch reports.
pub enum GenerationEvent {
    Started { subject: String, total: usize, skipped: usize },
    TopicStarted { topic_id: String, title: String },
    TopicDone { topic_id: String, title: String, done: usize, total: usize },
    TopicFailed { topic_id: String, title: String, error: String },
    Finished { generated: usize, failed: usize, total_tokens: u64 },
}

pub struct KnowledgeBatchReport {
    pub generated: usize,
    pub skipped: usize,
    pub failed: usize,
    pub total_tokens: u64,
    pub errors: Vec<String>,
}

/// The topics a batch selects: those listed (none when the list is empty), or every topic.
pub open spec fn batch_selected(ts: Seq<TopicV>, ids: Option<Seq<Seq<char>>>) -> Seq<TopicV> {
    match ids {
        Some(ids) => ts.filter(|t: TopicV| ids.contains(t.id)),
        None => ts,
    }
}

/// The selected topics that still need a note — all of them when forced.
pub open spec fn batch_pending(sel: Seq<TopicV>, force: bool, names: Seq<Seq<char>>) -> Seq<TopicV> {
    if force {
        sel
    } else {
        sel.filter(|t: TopicV| crate::knowledge::note_name_at(names, t.section, t.index) is None)
    }
}

/// The topics a batch will generate notes for, in syllabus order, and how many selected ones
/// it skips because they already have a note. Every note is written the moment it lands, so an
/// interrupted run costs nothing but the calls in flight.
pub fn batch_topics(subject: &Subject, topic_ids: Option<&[String]>, force: bool, note_names: &[String]) -> (r: (
    Vec<Topic>,
    usize,
))
    ensures
        ({
            let sel = batch_selected(
                all_topics(subject@),
                match topic_ids {
                    Some(ids) => Some(strings_view(ids@)),
                    None => None,
                },
            );
            let pending = batch_pending(sel, force, strings_view(note_names@));
            &&& topics_view(r.0@) == pending
            &&& r.1 == sel.len() - pending.len()
        }),
{
    let all = subject.topics();
    let selected = match topic_ids {
        Some(ids) => select_listed(&all, ids),
        None => all,
    };
    let ghost sel = topics_view(selected@);
    if force {
        return (selected, 0);
    }
    let ghost keep = |t: TopicV| crate::knowledge::note_name_at(strings_view(note_names@), t.section, t.index) is None;
    let mut pending: Vec<Topic> = Vec::new();
    let mut i: usize = 0;
    while i < selected.len()
        invariant
            sel == topics_view(selected@),
            keep == (|t: TopicV| crate::knowledge::note_name_at(strings_view(note_names@), t.section, t.index) is None),
            i <= selected@.len(),
            topics_view(pending@) == sel.take(i as int).filter(keep),
            pending@.len() <= i,
        decreases selected@.len() - i,
    {
        let present = note_exists(note_names, &selected[i]);
        proof {
            assert(sel.take(i + 1).drop_last() =~= sel.take(i as int));
            assert(sel[i as int] == selected@[i as int]@);
            reveal(Seq::filter);
        }
        let ghost before = topics_view(pending@);
        if !present {
            pending.push(selected[i].clone());
            assert(topics_view(pending@) =~= before.push(selected@[i as int]@));
        }
        i += 1;
    }
    assert(sel.take(selected@.len() as int) =~= sel);
    let skipped = selected.len() - pending.len();
    (pending, skipped)
}

fn select_listed(ts: &Vec<Topic>, ids: &[String]) -> (r: Vec<Topic>)
    ensures
        topics_view(r@) == topics_view(ts@).filter(|t: TopicV| strings_view(ids@).contains(t.id)),
{
    let ghost keep = |t: TopicV| strings_view(ids@).contains(t.id);
    let ghost tv = topics_view(ts@);
    let mut r: Vec<Topic> = Vec::new();
    let mut i: usize = 0;
    while i < ts.len()
        invariant
            keep == (|t: TopicV| strings_view(ids@).contains(t.id)),
            tv == topics_view(ts@),
            i <= ts@.len(),
            topics_view(r@) == tv.take(i as int).filter(keep),
        decreases ts@.len() - i,
    {
        let mut found = false;
        let mut j: usize = 0;
        while j < ids.len()
            invariant
                j <= ids@.len(),
                i < ts@.len(),
                found == (exists|k: int| 0 <= k < j && ids@[k]@ == ts@[i as int].id@),
            decreases ids@.len() - j,
        {
            if ids[j] == ts[i].id {
                found = true;
            }
            j += 1;
        }
        proof {
            if found {
                let k = choose|k: int| 0 <= k < j && ids@[k]@ == ts@[i as int].id@;
                assert(strings_view(ids@)[k] == ts@[i as int].id@);
            } else {
                assert forall|k: int| 0 <= k < strings_view(ids@).len() implies strings_view(ids@)[k]
                    != ts@[i as int].id@ by {
                    assert(strings_view(ids@)[k] == ids@[k]@);
                }
            }
            assert(tv.take(i + 1).drop_last() =~= tv.take(i as int));
            assert(tv[i as int] == ts@[i as int]@);
            reveal(Seq::filter);
        }
        let ghost before = topics_view(r@);
        if found {
            r.push(ts[i].clone());
            assert(topics_view(r@) =~= before.push(ts@[i as int]@));
        }
        i += 1;
    }
    assert(tv.take(ts@.len() as int) =~= tv);
    r
}

/// How one topic of a batch went: the tokens its note cost, or the topic's id and why it
/// failed.
pub type TopicResult = Result<u64, (String, String)>;

/// Notes generated among `rs`.
pub open spec fn generated_in(rs: Seq<TopicResult>) -> nat
    decreases rs.len(),
{
    if rs.len() == 0 {
        0
    } else {
        generated_in(rs.drop_last()) + if rs.last() is Ok {
            1nat
        } else {
            0nat
        }
    }
}

/// Tokens spent on the notes generated among `rs`.
pub open spec fn tokens_in(rs: Seq<TopicResult>) -> nat
    decreases rs.len(),
{
    if rs.len() == 0 {
        0
    } else {
        tokens_in(rs.drop_last()) + match rs.last() {
            Ok(t) => t as nat,
            Err(_) => 0nat,
        }
    }
}

/// The failures among `rs`, as `id: message` lines.
pub open spec fn errors_in(rs: Seq<TopicResult>) -> Seq<Seq<char>>
    decreases rs.len(),
{
    if rs.len() == 0 {
        seq![]
    } else {
        errors_in(rs.drop_last()) + match rs.last() {
            Ok(_) => seq![],
            Err((id, msg)) => seq![id@ + ": "@ + msg@],
        }
    }
}

proof fn lemma_generated_le(rs: Seq<TopicResult>)
    ensures
        generated_in(rs) + errors_in(rs).len() == rs.len(),
    decreases rs.len(),
{
    if rs.len() > 0 {
        lemma_generated_le(rs.drop_last());
    }
}

/// The final tally of a batch: notes generated and failed, tokens spent, and one line per
/// failure.
pub fn tally(results: &[TopicResult], skipped: usize) -> (r: KnowledgeBatchReport)
    requires
        tokens_in(results@) <= u64::MAX,
    ensures
        r.generated == generated_in(results@),
        r.failed == results@.len() - generated_in(results@),
        r.skipped == skipped,
        r.total_tokens == tokens_in(results@),
        strings_view(r.errors@) == errors_in(results@),
{
    let mut generated: usize = 0;
    let mut failed: usize = 0;
    let mut tokens: u64 = 0;
    let mut errors: Vec<String> = Vec::new();
    let mut k: usize = 0;
    while k < results.len()
        invariant
            k <= results@.len(),
            tokens_in(results@) <= u64::MAX,
            generated == generated_in(results@.take(k as int)),
            failed == k - generated,
            generated <= k,
            tokens == tokens_in(results@.take(k as int)),
            strings_view(errors@) == errors_in(results@.take(k as int)),
        decreases results@.len() - k,
    {
        proof {
            assert(results@.take(k + 1).drop_last() =~= results@.take(k as int));
            assert(results@.take(k + 1).last() == results@[k as int]);
            lemma_tokens_prefix(results@, k + 1);
        }
        let ghost before = strings_view(errors@);
        match &results[k] {
            Ok(t) => {
                generated = generated + 1;
                tokens = tokens + *t;
                assert(before + Seq::<Seq<char>>::empty() =~= before);
            },
            Err((id, msg)) => {
                failed = failed + 1;
                let mut line = chars_of(id.as_str());
                extend(&mut line, &chars_of(": "));
                extend(&mut line, &chars_of(msg.as_str()));
                errors.push(string_of(&line));
                assert(strings_view(errors@) =~= before + seq![id@ + ": "@ + msg@]);
            },
        }
        k += 1;
    }
    assert(results@.take(results@.len() as int) =~= results@);
    KnowledgeBatchReport { generated, skipped, failed, total_tokens: tokens, errors }
}

proof fn lemma_tokens_prefix(rs: Seq<TopicResult>, k: int)
    requires
        0 <= k <= rs.len(),
    ensures
        tokens_in(rs.take(k)) <= tokens_in(rs),
    decreases rs.len() - k,
{
    if k < rs.len() {
        lemma_tokens_prefix(rs, k + 1);
        assert(rs.take(k + 1).drop_last() =~= rs.take(k));
    } else {
        assert(rs.take(k) =~= rs);
    }
}

/// The topics a command-line batch asks for. Without a limit, the topics listed (all when none
/// is); with one, the ids of the first `limit` topics the batch would generate, so a run can be
/// capped before anything is called.
pub open spec fn limited_ids(
    ts: Seq<TopicV>,
    listed: Seq<Seq<char>>,
    limit: Option<usize>,
    force: bool,
    names: Seq<Seq<char>>,
) -> Option<Seq<Seq<char>>> {
    match limit {
        None => if listed.len() == 0 {
            None
        } else {
            Some(listed)
        },
        Some(n) => {
            let sel = batch_selected(ts, if listed.len() == 0 { None } else { Some(listed) });
            let pending = batch_pending(sel, force, names);
            Some(pending.take(if pending.len() <= n { pending.len() as int } else { n as int }).map_values(
                |t: TopicV| t.id,
            ))
        },
    }
}

pub fn limited_selection(
    subject: &Subject,
    topics: Vec<String>,
    limit: Option<usize>,
    force: bool,
    note_names: &[String],
) -> (r: Option<Vec<String>>)
    ensures
        match limited_ids(all_topics(subject@), strings_view(topics@), limit, force, strings_view(note_names@)) {
            Some(ids) => r matches Some(v) && strings_view(v@) == ids,
            None => r is None,
        },
{
    let n = match limit {
        None => {
            if topics.len() == 0 {
                return None;
            }
            return Some(topics);
        },
        Some(n) => n,
    };
    let (pending, _) = if topics.len() == 0 {
        batch_topics(subject, None, force, note_names)
    } else {
        batch_topics(subject, Some(topics.as_slice()), force, note_names)
    };
    let ghost pv = topics_view(pending@);
    let keep = if pending.len() <= n {
        pending.len()
    } else {
        n
    };
    let mut ids: Vec<String> = Vec::new();
    let mut i: usize = 0;
    while i < keep
        invariant
            keep <= pending@.len(),
            pv == topics_view(pending@),
            i <= keep,
            strings_view(ids@) == pv.take(i as int).map_values(|t: TopicV| t.id),
        decreases keep - i,
    {
        let ghost before = strings_view(ids@);
        ids.push(pending[i as usize].id.clone());
        proof {
            assert(strings_view(ids@) =~= before.push(pv[i as int].id));
            assert(pv.take(i + 1) =~= pv.take(i as int).push(pv[i as int]));
        }
        i += 1;
    }
    Some(ids)
}

} // verus!
