//! Knowledge notes and hints at the smart tier: the prompts, and the body a note is written
//! from.
use vstd::prelude::*;

use crate::knowledge::{join_parts, joined_with};
use crate::quiz::Question;
use crate::syllabus::{sections_view, Section, SectionV, Subject, Topic, TopicV};
use crate::text::{
    chars_of, cut_chars, decimal, extend, push_decimal, replace, replace_str, string_of, strings_view,
    trim, trim_chars,
};
use crate::generate::quiz::utf8_len;

verus! {

pub struct KeyTerm {
    pub term: String,
    pub definition: String,
}

/// A knowledge note as the generator wrote it.
pub struct KnowledgeDraft {
    pub summary: String,
    /// The topic answered in one paragraph (empty in notes that predate it).
    pub exam_answer: String,
    pub markdown: String,
    pub key_terms: Vec<KeyTerm>,
    pub exam_traps: Vec<String>,
}

/// The key terms as `- **term** — definition` lines.
pub open spec fn term_lines(ts: Seq<KeyTerm>) -> Seq<char>
    decreases ts.len(),
{
    if ts.len() == 0 {
        seq![]
    } else {
        term_lines(ts.drop_last()) + "- **"@ + trim(ts.last().term@) + "** — "@ + trim(ts.last().definition@)
            + "\n"@
    }
}

/// The exam traps as `- trap` lines.
pub open spec fn trap_lines(ts: Seq<String>) -> Seq<char>
    decreases ts.len(),
{
    if ts.len() == 0 {
        seq![]
    } else {
        trap_lines(ts.drop_last()) + "- "@ + trim(ts.last()@) + "\n"@
    }
}

/// The markdown body stored on disk: the summary; the one-paragraph answer under its heading,
/// when there is one; the note proper; then the key terms and the exam traps under theirs,
/// when there are any.
pub open spec fn body_of(d: KnowledgeDraft) -> Seq<char> {
    trim(d.summary@) + "\n\n"@ + (if trim(d.exam_answer@).len() > 0 {
        "## Головне"@ + "\n\n"@ + trim(d.exam_answer@) + "\n\n"@
    } else {
        seq![]
    }) + trim(d.markdown@) + (if d.key_terms@.len() > 0 {
        "\n\n## Ключові терміни\n\n"@ + term_lines(d.key_terms@)
    } else {
        seq![]
    }) + (if d.exam_traps@.len() > 0 {
        "\n## На чому підловлюють\n\n"@ + trap_lines(d.exam_traps@)
    } else {
        seq![]
    })
}

fn push_str(out: &mut Vec<char>, s: &str)
    ensures
        final(out)@ == old(out)@ + s@,
{
    extend(out, &chars_of(s));
}

fn push_trimmed(out: &mut Vec<char>, s: &str)
    ensures
        final(out)@ == old(out)@ + trim(s@),
{
    extend(out, &trim_chars(&chars_of(s)));
}

impl KnowledgeDraft {
    /// Flatten the structured draft into the markdown body stored on disk.
    pub fn into_body(self) -> (r: String)
        ensures
            r@ == body_of(self),
    {
        let mut body: Vec<char> = Vec::new();
        push_trimmed(&mut body, self.summary.as_str());
        push_str(&mut body, "\n\n");
        let answer = trim_chars(&chars_of(self.exam_answer.as_str()));
        if answer.len() > 0 {
            push_str(&mut body, crate::knowledge::CORE_HEADING);
            push_str(&mut body, "\n\n");
            extend(&mut body, &answer);
            push_str(&mut body, "\n\n");
        }
        push_trimmed(&mut body, self.markdown.as_str());
        let ghost head = body@;
        if self.key_terms.len() > 0 {
            push_str(&mut body, "\n\n## Ключові терміни\n\n");
            let mut i: usize = 0;
            let ghost start = body@;
            while i < self.key_terms.len()
                invariant
                    i <= self.key_terms@.len(),
                    body@ == start + term_lines(self.key_terms@.take(i as int)),
                decreases self.key_terms@.len() - i,
            {
                proof {
                    assert(self.key_terms@.take(i + 1).drop_last() =~= self.key_terms@.take(i as int));
                }
                push_str(&mut body, "- **");
                push_trimmed(&mut body, self.key_terms[i].term.as_str());
                push_str(&mut body, "** — ");
                push_trimmed(&mut body, self.key_terms[i].definition.as_str());
                push_str(&mut body, "\n");
                i += 1;
            }
            assert(self.key_terms@.take(self.key_terms@.len() as int) =~= self.key_terms@);
        }
        let ghost mid = body@;
        if self.exam_traps.len() > 0 {
            push_str(&mut body, "\n## На чому підловлюють\n\n");
            let mut i: usize = 0;
            let ghost start = body@;
            while i < self.exam_traps.len()
                invariant
                    i <= self.exam_traps@.len(),
                    body@ == start + trap_lines(self.exam_traps@.take(i as int)),
                decreases self.exam_traps@.len() - i,
            {
                proof {
                    assert(self.exam_traps@.take(i + 1).drop_last() =~= self.exam_traps@.take(i as int));
                }
                push_str(&mut body, "- ");
                push_trimmed(&mut body, self.exam_traps[i].as_str());
                push_str(&mut body, "\n");
                i += 1;
            }
            assert(self.exam_traps@.take(self.exam_traps@.len() as int) =~= self.exam_traps@);
        }
        proof {
            reveal_strlit("## Головне");
            assert(body@ =~= body_of(self));
        }
        string_of(&body)
    }
}

/// A generated note long enough to keep: at least 200 bytes once trimmed.
pub open spec fn long_enough(body: Seq<char>) -> bool {
    utf8_len(trim(body)) >= 200
}

pub fn is_long_enough(body: &str) -> (b: bool)
    ensures
        b == long_enough(body@),
{
    let t = trim_chars(&chars_of(body));
    let mut n: u64 = 0;
    let mut i: usize = 0;
    while i < t.len()
        invariant
            t@ == trim(body@),
            i <= t@.len(),
            n == utf8_len(t@.take(i as int)),
            n < 200,
        decreases t@.len() - i,
    {
        proof {
            assert(t@.take(i + 1).drop_last() =~= t@.take(i as int));
            assert(t@.take(i + 1).last() == t@[i as int]);
        }
        let c = t[i] as u32;
        let w: u64 = if c < 0x80 {
            1
        } else if c < 0x800 {
            2
        } else if c < 0x10000 {
            3
        } else {
            4
        };
        n = n + w;
        assert(n == utf8_len(t@.take(i + 1)));
        if n >= 200 {
            proof {
                lemma_utf8_prefix(t@, i + 1);
                assert(utf8_len(t@) >= 200);
            }
            return true;
        }
        i += 1;
    }
    assert(t@.take(t@.len() as int) =~= t@);
    false
}

proof fn lemma_utf8_prefix(s: Seq<char>, k: int)
    requires
        0 <= k <= s.len(),
    ensures
        utf8_len(s.take(k)) <= utf8_len(s),
    decreases s.len() - k,
{
    if k < s.len() {
        lemma_utf8_prefix(s, k + 1);
        assert(s.take(k + 1).drop_last() =~= s.take(k));
    } else {
        assert(s.take(k) =~= s);
    }
}

/// The other topics of the topic's section, one `- title` line each.
pub open spec fn siblings_of(sections: Seq<SectionV>, t: TopicV) -> Seq<char> {
    if exists|i: int| 0 <= i < sections.len() && sections[i].index == t.section {
        let i = choose|i: int|
            0 <= i < sections.len() && sections[i].index == t.section && forall|j: int|
                0 <= j < i ==> sections[j].index != t.section;
        joined_with(
            sections[i].topics.filter(|o: TopicV| o.id != t.id).map_values(|o: TopicV| "- "@ + o.title),
            "\n"@,
        )
    } else {
        seq![]
    }
}

/// The line naming a nested topic's group, so a subtopic reads as more than a fragment.
pub open spec fn group_line(t: TopicV) -> Seq<char> {
    match t.group {
        Some(g) => "\nGroup within the section: "@ + g,
        None => seq![],
    }
}

/// The knowledge prompt: the template with the subject, section, group, topic and sibling
/// topics (or `(none)`) filled in, in that order.
pub open spec fn knowledge_prompt_of(template: Seq<char>, subject_title: Seq<char>, sections: Seq<SectionV>, t: TopicV) -> Seq<char> {
    let siblings = siblings_of(sections, t);
    replace(
        replace(
            replace(
                replace(replace(template, "{{SUBJECT_TITLE}}"@, subject_title), "{{SECTION_TITLE}}"@, t.section_title),
                "{{GROUP}}"@,
                group_line(t),
            ),
            "{{TOPIC_TITLE}}"@,
            t.title,
        ),
        "{{SIBLING_TOPICS}}"@,
        if siblings.len() == 0 {
            "(none)"@
        } else {
            siblings
        },
    )
}

fn sibling_lines(subject: &Subject, topic: &Topic) -> (r: Vec<char>)
    ensures
        r@ == siblings_of(sections_view(subject.sections@), topic@),
{
    let ghost sv = sections_view(subject.sections@);
    let mut s: usize = 0;
    while s < subject.sections.len()
        invariant
            sv == sections_view(subject.sections@),
            s <= subject.sections@.len(),
            forall|j: int| 0 <= j < s ==> sv[j].index != topic@.section,
        decreases subject.sections@.len() - s,
    {
        if subject.sections[s].index == topic.section {
            let sec = &subject.sections[s];
            let ghost tv = sv[s as int].topics;
            let ghost keep = |o: TopicV| o.id != topic@.id;
            let mut lines: Vec<Vec<char>> = Vec::new();
            let mut k: usize = 0;
            while k < sec.topics.len()
                invariant
                    tv == crate::syllabus::topics_view(sec.topics@),
                    keep == (|o: TopicV| o.id != topic@.id),
                    k <= sec.topics@.len(),
                    lines@.map_values(|v: Vec<char>| v@) == tv.take(k as int).filter(keep).map_values(
                        |o: TopicV| "- "@ + o.title,
                    ),
                decreases sec.topics@.len() - k,
            {
                let other = &sec.topics[k];
                let ghost before = lines@.map_values(|v: Vec<char>| v@);
                proof {
                    assert(tv.take(k + 1).drop_last() =~= tv.take(k as int));
                    assert(tv[k as int] == other@);
                    reveal(Seq::filter);
                }
                if other.id != topic.id {
                    let mut line = chars_of("- ");
                    extend(&mut line, &chars_of(other.title.as_str()));
                    lines.push(line);
                    proof {
                        let f = |o: TopicV| "- "@ + o.title;
                        assert(tv.take(k + 1).filter(keep) =~= tv.take(k as int).filter(keep).push(other@));
                        assert(lines@.map_values(|v: Vec<char>| v@) =~= before.push(f(other@)));
                        assert(tv.take(k + 1).filter(keep).map_values(f) =~= tv.take(k as int).filter(
                            keep,
                        ).map_values(f).push(f(other@)));
                    }
                } else {
                    proof {
                        assert(tv.take(k + 1).filter(keep) =~= tv.take(k as int).filter(keep));
                    }
                }
                k += 1;
            }
            proof {
                assert(tv.take(sec.topics@.len() as int) =~= tv);
                let c = choose|i: int|
                    0 <= i < sv.len() && sv[i].index == topic@.section && forall|j: int|
                        0 <= j < i ==> sv[j].index != topic@.section;
                assert(sv[s as int].index == topic@.section);
                if c < s as int {
                    assert(sv[c].index != topic@.section);
                }
                if (s as int) < c {
                    assert(sv[s as int].index != topic@.section);
                }
            }
            return join_parts(&lines, "\n");
        }
        s += 1;
    }
    Vec::new()
}

/// Fill in the knowledge prompt template for `topic` of `subject`.
pub fn knowledge_prompt(template: &str, subject: &Subject, topic: &Topic) -> (r: String)
    ensures
        r@ == knowledge_prompt_of(template@, subject.title@, sections_view(subject.sections@), topic@),
{
    proof {
        reveal_strlit("{{SUBJECT_TITLE}}");
        reveal_strlit("{{SECTION_TITLE}}");
        reveal_strlit("{{GROUP}}");
        reveal_strlit("{{TOPIC_TITLE}}");
        reveal_strlit("{{SIBLING_TOPICS}}");
    }
    let siblings = sibling_lines(subject, topic);
    let group: Vec<char> = match &topic.group {
        Some(g) => {
            let mut v = chars_of("\nGroup within the section: ");
            extend(&mut v, &chars_of(g.as_str()));
            v
        },
        None => Vec::new(),
    };
    let a = replace_str(template, "{{SUBJECT_TITLE}}", subject.title.as_str());
    let b = replace_str(a.as_str(), "{{SECTION_TITLE}}", topic.section_title.as_str());
    let c = replace_str(b.as_str(), "{{GROUP}}", string_of(&group).as_str());
    let d = replace_str(c.as_str(), "{{TOPIC_TITLE}}", topic.title.as_str());
    let sib = if siblings.len() == 0 {
        string_of(&chars_of("(none)"))
    } else {
        string_of(&siblings)
    };
    replace_str(d.as_str(), "{{SIBLING_TOPICS}}", sib.as_str())
}

// ---------------------------------------------------------------------------
// Hints
// ---------------------------------------------------------------------------

/// A hint for one quiz question.
pub struct Hint {
    pub hint: String,
    pub related_concepts: Vec<String>,
}

/// The options of a question as numbered lines, from 1.
pub open spec fn numbered_options(options: Seq<Seq<char>>) -> Seq<char> {
    joined_with(
        Seq::new(options.len(), |i: int| decimal((i + 1) as nat) + ". "@ + options[i]),
        "\n"@,
    )
}

/// What the hint generator is shown of the topic's note: its first 6000 characters, or a line
/// saying none has been generated yet.
pub open spec fn hint_knowledge(note_body: Option<Seq<char>>) -> Seq<char> {
    match note_body {
        Some(b) => cut_chars(b, 6000, "\n…"@),
        None => "(конспект для цієї теми ще не згенеровано)"@,
    }
}

/// The hint prompt: the template with the question, its numbered options and the note filled
/// in, in that order.
pub open spec fn hint_prompt_of(template: Seq<char>, q: Question, note_body: Option<Seq<char>>) -> Seq<char> {
    replace(
        replace(
            replace(template, "{{QUESTION}}"@, q.question@),
            "{{OPTIONS}}"@,
            numbered_options(strings_view(q.options@)),
        ),
        "{{KNOWLEDGE}}"@,
        hint_knowledge(note_body),
    )
}

fn option_lines(options: &Vec<String>) -> (r: Vec<char>)
    requires
        options@.len() < u64::MAX,
    ensures
        r@ == numbered_options(strings_view(options@)),
{
    let ghost ov = strings_view(options@);
    let ghost lines_spec = Seq::new(ov.len(), |i: int| decimal((i + 1) as nat) + ". "@ + ov[i]);
    let mut lines: Vec<Vec<char>> = Vec::new();
    let mut i: usize = 0;
    while i < options.len()
        invariant
            ov == strings_view(options@),
            lines_spec == Seq::new(ov.len(), |i: int| decimal((i + 1) as nat) + ". "@ + ov[i]),
            options@.len() < u64::MAX,
            i <= options@.len(),
            lines@.map_values(|v: Vec<char>| v@) == lines_spec.take(i as int),
        decreases options@.len() - i,
    {
        let ghost before = lines@.map_values(|v: Vec<char>| v@);
        let mut line: Vec<char> = Vec::new();
        push_decimal(&mut line, (i + 1) as u64);
        extend(&mut line, &chars_of(". "));
        extend(&mut line, &chars_of(options[i].as_str()));
        lines.push(line);
        proof {
            assert(lines_spec.take(i + 1) =~= lines_spec.take(i as int).push(lines_spec[i as int]));
            assert(lines@.map_values(|v: Vec<char>| v@) =~= before.push(lines_spec[i as int]));
        }
        i += 1;
    }
    assert(lines_spec.take(options@.len() as int) =~= lines_spec);
    join_parts(&lines, "\n")
}

pub fn hint_prompt(template: &str, question: &Question, note_body: Option<&str>) -> (r: String)
    requires
        question.options@.len() < u64::MAX,
    ensures
        r@ == hint_prompt_of(
            template@,
            *question,
            match note_body {
                Some(b) => Some(b@),
                None => None,
            },
        ),
{
    proof {
        reveal_strlit("{{QUESTION}}");
        reveal_strlit("{{OPTIONS}}");
        reveal_strlit("{{KNOWLEDGE}}");
    }
    let options = option_lines(&question.options);
    let knowledge: Vec<char> = match note_body {
        Some(b) => crate::text::cut(&chars_of(b), 6000, &chars_of("\n…")),
        None => chars_of("(конспект для цієї теми ще не згенеровано)"),
    };
    let a = replace_str(template, "{{QUESTION}}", question.question.as_str());
    let b = replace_str(a.as_str(), "{{OPTIONS}}", string_of(&options).as_str());
    replace_str(b.as_str(), "{{KNOWLEDGE}}", string_of(&knowledge).as_str())
}

/// The question of a quiz with id `question_id`: the first one.
pub fn find_question<'a>(questions: &'a [Question], question_id: &str) -> (r: Option<&'a Question>)
    ensures
        match r {
            Some(q) => exists|i: int|
                0 <= i < questions@.len() && questions@[i] == *q && q.id@ == question_id@ && forall|j: int|
                    0 <= j < i ==> questions@[j].id@ != question_id@,
            None => forall|i: int| 0 <= i < questions@.len() ==> questions@[i].id@ != question_id@,
        },
{
    let mut i: usize = 0;
    while i < questions.len()
        invariant
            i <= questions@.len(),
            forall|j: int| 0 <= j < i ==> questions@[j].id@ != question_id@,
        decreases questions@.len() - i,
    {
        if crate::syllabus::string_eq(&questions[i].id, question_id) {
            return Some(&questions[i]);
        }
        i += 1;
    }
    None
}

} // verus!
