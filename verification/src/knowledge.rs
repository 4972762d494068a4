//! Knowledge notes: the markdown file written for each syllabus topic, its front matter, and
//! the short digest a revision pass reads.
use vstd::prelude::*;

use crate::paths::{is_note_file_for, note_prefix, Vault};
use crate::syllabus::Topic;
use crate::text::{
    chars_of, cut, cut_chars, drop_leading, ends_with, extend, find, find_chars, index_of_char,
    lines, next_line, replace, replace_chars, slice_vec, starts_with, string_of, strings_view, trim,
    trim_chars, trim_slice, trim_start, drop_trailing, Strip, leading_end, has_prefix,
};
use crate::time::{current_rfc3339, rfc3339_of, Now};

verus! {

/// A generated knowledge note for one syllabus topic.
pub struct KnowledgeNote {
    pub topic_id: String,
    pub subject: String,
    pub title: String,
    pub section_title: String,
    pub model: String,
    pub generated_at: String,
    pub body: String,
    pub path: String,
}

pub struct NoteV {
    pub topic_id: Seq<char>,
    pub subject: Seq<char>,
    pub title: Seq<char>,
    pub section_title: Seq<char>,
    pub model: Seq<char>,
    pub generated_at: Seq<char>,
    pub body: Seq<char>,
    pub path: Seq<char>,
}

impl View for KnowledgeNote {
    type V = NoteV;

    open spec fn view(&self) -> NoteV {
        NoteV {
            topic_id: self.topic_id@,
            subject: self.subject@,
            title: self.title@,
            section_title: self.section_title@,
            model: self.model@,
            generated_at: self.generated_at@,
            body: self.body@,
            path: self.path@,
        }
    }
}

impl Clone for KnowledgeNote {
    fn clone(&self) -> (r: Self)
        ensures
            r@ == self@,
    {
        KnowledgeNote {
            topic_id: self.topic_id.clone(),
            subject: self.subject.clone(),
            title: self.title.clone(),
            section_title: self.section_title.clone(),
            model: self.model.clone(),
            generated_at: self.generated_at.clone(),
            body: self.body.clone(),
            path: self.path.clone(),
        }
    }
}

pub open spec fn notes_view(v: Seq<KnowledgeNote>) -> Seq<NoteV> {
    v.map_values(|n: KnowledgeNote| n@)
}

// ---------------------------------------------------------------------------
// Front matter
// ---------------------------------------------------------------------------

/// A value quoted for the front matter: backslashes doubled, quotes backslashed, and the
/// whole wrapped in quotes.
pub open spec fn yaml_quoted(v: Seq<char>) -> Seq<char> {
    seq!['"'] + replace(replace(v, seq!['\\'], seq!['\\', '\\']), seq!['"'], seq!['\\', '"']) + seq!['"']
}

/// A front-matter value read back: trimmed, and unquoted when it is quoted.
pub open spec fn yaml_value(v: Seq<char>) -> Seq<char> {
    let t = trim(v);
    if t.len() >= 2 && t[0] == '"' && t.last() == '"' {
        replace(replace(t.subrange(1, t.len() - 1), seq!['\\', '"'], seq!['"']), seq!['\\', '\\'], seq!['\\'])
    } else {
        t
    }
}

fn chars1(a: char) -> (v: Vec<char>)
    ensures
        v@ == seq![a],
{
    let mut v: Vec<char> = Vec::new();
    v.push(a);
    assert(v@ =~= seq![a]);
    v
}

fn chars2(a: char, b: char) -> (v: Vec<char>)
    ensures
        v@ == seq![a, b],
{
    let mut v: Vec<char> = Vec::new();
    v.push(a);
    v.push(b);
    assert(v@ =~= seq![a, b]);
    v
}

pub fn yaml_escape(value: &str) -> (r: String)
    ensures
        r@ == yaml_quoted(value@),
{
    let v = chars_of(value);
    let a = replace_chars(&v, &chars1('\\'), &chars2('\\', '\\'));
    let b = replace_chars(&a, &chars1('"'), &chars2('\\', '"'));
    let mut out: Vec<char> = Vec::new();
    out.push('"');
    extend(&mut out, &b);
    out.push('"');
    assert(out@ =~= yaml_quoted(value@));
    string_of(&out)
}

fn yaml_unescape_chars(value: &[char]) -> (r: Vec<char>)
    ensures
        r@ == yaml_value(value@),
{
    let t = trim_chars(value);
    if t.len() >= 2 && t[0] == '"' && t[t.len() - 1] == '"' {
        let inner = slice_vec(&t, 1, t.len() - 1);
        let a = replace_chars(&inner, &chars2('\\', '"'), &chars1('"'));
        replace_chars(&a, &chars2('\\', '\\'), &chars1('\\'))
    } else {
        t
    }
}

pub fn yaml_unescape(value: &str) -> (r: String)
    ensures
        r@ == yaml_value(value@),
{
    let v = chars_of(value);
    let r = yaml_unescape_chars(&v);
    string_of(&r)
}

/// One `key: value` line of front matter.
pub open spec fn field_line(key: Seq<char>, value: Seq<char>) -> Seq<char> {
    key + ": "@ + value
}

/// The front matter of a note, line by line: identity fields as they are, titles quoted.
pub open spec fn front_lines(n: NoteV) -> Seq<Seq<char>> {
    seq![
        field_line("topic_id"@, n.topic_id),
        field_line("subject"@, n.subject),
        field_line("section"@, yaml_quoted(n.section_title)),
        field_line("title"@, yaml_quoted(n.title)),
        field_line("model"@, n.model),
        field_line("generated_at"@, n.generated_at),
    ]
}

/// Front matter between `---` lines, a blank line, then the trimmed body and a line end.
pub open spec fn rendered(n: NoteV) -> Seq<char> {
    "---\n"@ + joined_with(front_lines(n), "\n"@) + "\n---\n\n"@ + trim(n.body) + "\n"@
}

fn push_str(out: &mut Vec<char>, s: &str)
    ensures
        final(out)@ == old(out)@ + s@,
{
    let c = chars_of(s);
    extend(out, &c);
}

fn field(key: &str, value: &str) -> (v: Vec<char>)
    ensures
        v@ == field_line(key@, value@),
{
    let mut v = chars_of(key);
    push_str(&mut v, ": ");
    push_str(&mut v, value);
    v
}

/// Front matter + body, written so a human can read the file in any markdown editor.
pub fn render(note: &KnowledgeNote) -> (r: String)
    ensures
        r@ == rendered(note@),
{
    let sec = yaml_escape(note.section_title.as_str());
    let title = yaml_escape(note.title.as_str());
    let mut fields: Vec<Vec<char>> = Vec::new();
    fields.push(field("topic_id", note.topic_id.as_str()));
    fields.push(field("subject", note.subject.as_str()));
    fields.push(field("section", sec.as_str()));
    fields.push(field("title", title.as_str()));
    fields.push(field("model", note.model.as_str()));
    fields.push(field("generated_at", note.generated_at.as_str()));
    assert(fields@.map_values(|p: Vec<char>| p@) =~= front_lines(note@));
    let front = join_parts(&fields, "\n");
    let mut out: Vec<char> = Vec::new();
    push_str(&mut out, "---\n");
    extend(&mut out, &front);
    push_str(&mut out, "\n---\n\n");
    let body = trim_chars(&chars_of(note.body.as_str()));
    extend(&mut out, &body);
    push_str(&mut out, "\n");
    string_of(&out)
}

/// An empty note at `path`.
pub open spec fn blank_note(path: Seq<char>) -> NoteV {
    NoteV {
        topic_id: seq![],
        subject: seq![],
        title: seq![],
        section_title: seq![],
        model: seq![],
        generated_at: seq![],
        body: seq![],
        path,
    }
}

/// `n` with the field named by front-matter key `key` set to `value`; unknown keys change
/// nothing.
pub open spec fn set_field(n: NoteV, key: Seq<char>, value: Seq<char>) -> NoteV {
    if key == "topic_id"@ {
        NoteV { topic_id: value, ..n }
    } else if key == "subject"@ {
        NoteV { subject: value, ..n }
    } else if key == "title"@ {
        NoteV { title: value, ..n }
    } else if key == "section"@ {
        NoteV { section_title: value, ..n }
    } else if key == "model"@ {
        NoteV { model: value, ..n }
    } else if key == "generated_at"@ {
        NoteV { generated_at: value, ..n }
    } else {
        n
    }
}

/// One `key: value` line of the front matter applied to `n`: the key is what precedes the
/// first colon, trimmed; lines without a colon change nothing.
pub open spec fn apply_field(n: NoteV, line: Seq<char>) -> NoteV {
    match index_of_char(line, ':') {
        None => n,
        Some(k) => set_field(n, trim(line.take(k)), yaml_value(line.skip(k + 1))),
    }
}

pub open spec fn apply_fields(n: NoteV, ls: Seq<Seq<char>>) -> NoteV
    decreases ls.len(),
{
    if ls.len() == 0 {
        n
    } else {
        apply_fields(apply_field(n, ls[0]), ls.drop_first())
    }
}

/// A note file read back: with front matter (between a first line `---` and the next line
/// starting `---`) its fields, and the body after it; without, the whole file as the body.
pub open spec fn parsed(raw: Seq<char>, path: Seq<char>) -> NoteV {
    let plain = NoteV { body: trim(raw), ..blank_note(path) };
    if starts_with(raw, "---\n"@) {
        let rest = raw.skip(4);
        match find(rest, "\n---"@) {
            Some(i) => {
                let n = apply_fields(blank_note(path), lines(rest.take(i)));
                NoteV { body: trim(drop_leading(rest.skip(i + 4), Strip::Char('\n'))), ..n }
            },
            None => plain,
        }
    } else {
        plain
    }
}

proof fn lemma_apply_step(n: NoteV, line: Seq<char>, ls: Seq<Seq<char>>, rest: Seq<Seq<char>>)
    requires
        ls == seq![line] + rest,
    ensures
        apply_fields(n, ls) == apply_fields(apply_field(n, line), rest),
{
    assert(ls.drop_first() =~= rest);
}

fn same_text(a: &[char], b: &str) -> (r: bool)
    ensures
        r == (a@ == b@),
{
    let bc = chars_of(b);
    crate::text::chars_eq(a, &bc)
}

fn apply_line(note: &mut KnowledgeNote, line: &[char])
    ensures
        final(note)@ == apply_field(old(note)@, line@),
{
    let mut k: usize = 0;
    while k < line.len() && line[k] != ':'
        invariant
            k <= line@.len(),
            forall|j: int| 0 <= j < k ==> line@[j] != ':',
        decreases line@.len() - k,
    {
        k += 1;
    }
    proof {
        crate::text::lemma_index_of_char(line@, ':', k as int);
    }
    if k == line.len() {
        return;
    }
    let key = trim_slice(line, 0, k);
    assert(line@.subrange(0, k as int) =~= line@.take(k as int));
    let rest = slice_vec(line, k + 1, line.len());
    assert(line@.subrange(k + 1, line@.len() as int) =~= line@.skip(k + 1));
    let value = string_of(&yaml_unescape_chars(&rest));
    if same_text(&key, "topic_id") {
        note.topic_id = value;
    } else if same_text(&key, "subject") {
        note.subject = value;
    } else if same_text(&key, "title") {
        note.title = value;
    } else if same_text(&key, "section") {
        note.section_title = value;
    } else if same_text(&key, "model") {
        note.model = value;
    } else if same_text(&key, "generated_at") {
        note.generated_at = value;
    }
}

/// Read a note file back into a note; `path` is where it was read from.
pub fn parse(raw: &str, path: &str) -> (n: KnowledgeNote)
    ensures
        n@ == parsed(raw@, path@),
{
    let mut note = KnowledgeNote {
        topic_id: String::new(),
        subject: String::new(),
        title: String::new(),
        section_title: String::new(),
        model: String::new(),
        generated_at: String::new(),
        body: String::new(),
        path: path.to_owned(),
    };
    let chars = chars_of(raw);
    let open = chars_of("---\n");
    let close = chars_of("\n---");
    proof {
        reveal_strlit("---\n");
        reveal_strlit("\n---");
    }
    if has_prefix(&chars, &open) {
        let rest = slice_vec(&chars, 4, chars.len());
        assert(rest@ =~= raw@.skip(4));
        match find_chars(&rest, &close) {
            Some(i) => {
                proof {
                    crate::text::lemma_find_bounds(rest@, close@);
                }
                let front = slice_vec(&rest, 0, i);
                assert(front@ =~= rest@.take(i as int));
                let mut pos: usize = 0;
                let ghost start = note@;
                let ghost all = lines(front@);
                assert(front@.skip(0) =~= front@);
                while pos < front.len()
                    invariant
                        pos <= front@.len(),
                        all == lines(front@),
                        apply_fields(note@, lines(front@.skip(pos as int))) == apply_fields(start, all),
                    decreases front@.len() - pos,
                {
                    let (end, next) = next_line(&front, pos);
                    let line = slice_vec(&front, pos, end);
                    let ghost before = note@;
                    apply_line(&mut note, &line);
                    proof {
                        lemma_apply_step(
                            before,
                            line@,
                            lines(front@.skip(pos as int)),
                            lines(front@.skip(next as int)),
                        );
                    }
                    pos = next;
                }
                proof {
                    assert(front@.skip(pos as int) =~= Seq::<char>::empty());
                    crate::text::lemma_lines_empty(front@.skip(pos as int));
                }
                let j = leading_end(&rest, i + 4, &Strip::Char('\n'));
                let body = trim_slice(&rest, j, rest.len());
                assert(rest@.skip(j as int) =~= rest@.subrange(j as int, rest@.len() as int));
                note.body = string_of(&body);
            },
            None => {
                note.body = string_of(&trim_chars(&chars));
            },
        }
    } else {
        note.body = string_of(&trim_chars(&chars));
    }
    note
}


// ---------------------------------------------------------------------------
// Finding a note on disk
// ---------------------------------------------------------------------------

/// A file name holds the note for section `section`, topic `index`: its `SS.TT-` prefix,
/// then anything, then `.md`.
pub open spec fn is_note_name(name: Seq<char>, section: nat, index: nat) -> bool {
    starts_with(name, note_prefix(section, index)) && ends_with(name, ".md"@)
}

/// The first of `names` (a knowledge folder's file names) that holds the note for section
/// `section`, topic `index`.
pub open spec fn note_name_at(names: Seq<Seq<char>>, section: nat, index: nat) -> Option<int> {
    if exists|i: int| 0 <= i < names.len() && #[trigger] is_note_name(names[i], section, index) {
        Some(
            choose|i: int|
                0 <= i < names.len() && #[trigger] is_note_name(names[i], section, index) && forall|j: int|
                    0 <= j < i ==> !is_note_name(names[j], section, index),
        )
    } else {
        None
    }
}

/// Locate an existing note among a knowledge folder's file names by its `SS.TT-` prefix, so a
/// reworded topic title (and therefore a changed slug) still resolves to the note on disk.
pub fn find_note(names: &[String], section: usize, index: usize) -> (r: Option<usize>)
    ensures
        match note_name_at(strings_view(names@), section as nat, index as nat) {
            Some(i) => r == Some(i as usize),
            None => r is None,
        },
{
    let ghost nv = strings_view(names@);
    let ghost (sn, ix) = (section as nat, index as nat);
    let mut i: usize = 0;
    while i < names.len()
        invariant
            nv == strings_view(names@),
            sn == section as nat,
            ix == index as nat,
            i <= names@.len(),
            forall|j: int| 0 <= j < i ==> !is_note_name(#[trigger] nv[j], sn, ix),
        decreases names@.len() - i,
    {
        assert(nv[i as int] == names@[i as int]@);
        if is_note_file_for(names[i].as_str(), section, index) {
            proof {
                assert(is_note_name(nv[i as int], sn, ix));
                let c = choose|k: int|
                    0 <= k < nv.len() && #[trigger] is_note_name(nv[k], sn, ix) && forall|j: int|
                        0 <= j < k ==> !is_note_name(nv[j], sn, ix);
                assert(forall|j: int| 0 <= j < i ==> !is_note_name(nv[j], sn, ix));
                if c < i as int {
                    assert(!is_note_name(nv[c], sn, ix));
                }
                if (i as int) < c {
                    assert(!is_note_name(nv[i as int], sn, ix));
                }
            }
            return Some(i);
        }
        i += 1;
    }
    None
}

/// Whether the topic has a note among a knowledge folder's file names.
pub fn note_exists(names: &[String], topic: &Topic) -> (b: bool)
    ensures
        b == note_name_at(strings_view(names@), topic.section as nat, topic.index as nat) is Some,
{
    find_note(names, topic.section, topic.index).is_some()
}

/// The note to write for `topic`: its identity from the topic, the model that wrote it, the
/// current time, the trimmed body, and its file in the vault.
pub fn note_for(vault: &Vault, topic: &Topic, model: &str, body: &str) -> (n: KnowledgeNote)
    ensures
        n.topic_id@ == topic.id@,
        n.subject@ == topic.subject@,
        n.title@ == topic.title@,
        n.section_title@ == topic.section_title@,
        n.model@ == model@,
        exists|t: Now| rfc3339_of(t.secs as int, t.nanos as int) == Some(n.generated_at@),
        n.body@ == trim(body@),
        n.path@ == crate::paths::joined(
            crate::paths::knowledge_dir_of(vault.root@, topic.subject@),
            crate::paths::note_file_name(topic.section as nat, topic.index as nat, topic.title@),
        ),
{
    let path = vault.knowledge_file(topic.subject.as_str(), topic.section, topic.index, topic.title.as_str());
    KnowledgeNote {
        topic_id: topic.id.clone(),
        subject: topic.subject.clone(),
        title: topic.title.clone(),
        section_title: topic.section_title.clone(),
        model: model.to_owned(),
        generated_at: current_rfc3339(),
        body: crate::text::trim_string(body),
        path,
    }
}

// ---------------------------------------------------------------------------
// Digest
// ---------------------------------------------------------------------------

/// The topic answered in a single paragraph — the substance an examiner is listening for,
/// not a description of what the topic covers.
pub const CORE_HEADING: &'static str = "## Головне";

/// The section under `heading`: from the heading's first occurrence to the next line that
/// starts a `## ` heading (or the end), trimmed.
pub open spec fn section_of(body: Seq<char>, heading: Seq<char>) -> Option<Seq<char>> {
    match find(body, heading) {
        None => None,
        Some(start) => {
            let rest = body.skip(start);
            let end = match find(rest.skip(heading.len() as int), "\n## "@) {
                Some(o) => o + heading.len(),
                None => rest.len() as int,
            };
            Some(trim(rest.take(end)))
        },
    }
}

fn extract_section(body: &[char], heading: &str) -> (r: Option<Vec<char>>)
    ensures
        match section_of(body@, heading@) {
            Some(t) => r matches Some(v) && v@ == t,
            None => r is None,
        },
{
    let h = chars_of(heading);
    let start = match find_chars(body, &h) {
        Some(i) => i,
        None => return None,
    };
    proof {
        crate::text::lemma_find_bounds(body@, h@);
    }
    let rest = slice_vec(body, start, body.len());
    assert(rest@ =~= body@.skip(start as int));
    let after = slice_vec(&rest, h.len(), rest.len());
    assert(after@ =~= rest@.skip(h@.len() as int));
    let next = chars_of("\n## ");
    let end = match find_chars(&after, &next) {
        Some(o) => {
            proof {
                crate::text::lemma_find_bounds(after@, next@);
            }
            o + h.len()
        },
        None => rest.len(),
    };
    assert(rest@.subrange(0, end as int) =~= rest@.take(end as int));
    Some(trim_slice(&rest, 0, end))
}

/// `parts` joined with `sep` between them.
pub open spec fn joined_with(parts: Seq<Seq<char>>, sep: Seq<char>) -> Seq<char>
    decreases parts.len(),
{
    if parts.len() == 0 {
        seq![]
    } else if parts.len() == 1 {
        parts[0]
    } else {
        joined_with(parts.drop_last(), sep) + sep + parts.last()
    }
}

pub(crate) fn join_parts(parts: &Vec<Vec<char>>, sep: &str) -> (r: Vec<char>)
    ensures
        r@ == joined_with(parts@.map_values(|p: Vec<char>| p@), sep@),
{
    let ghost pv = parts@.map_values(|p: Vec<char>| p@);
    let mut out: Vec<char> = Vec::new();
    if parts.len() == 0 {
        return out;
    }
    extend(&mut out, &parts[0]);
    let sv = chars_of(sep);
    let mut k: usize = 1;
    assert(pv.take(1).len() == 1);
    while k < parts.len()
        invariant
            pv == parts@.map_values(|p: Vec<char>| p@),
            sv@ == sep@,
            1 <= k <= parts@.len(),
            out@ == joined_with(pv.take(k as int), sep@),
        decreases parts@.len() - k,
    {
        extend(&mut out, &sv);
        extend(&mut out, &parts[k]);
        proof {
            assert(pv.take(k + 1).drop_last() =~= pv.take(k as int));
            assert(pv.take(k + 1).last() == parts@[k as int]@);
        }
        k += 1;
    }
    assert(pv.take(parts@.len() as int) =~= pv);
    out
}

/// How many leading lines come before the first `## ` heading.
pub open spec fn lead_count(ls: Seq<Seq<char>>) -> nat
    decreases ls.len(),
{
    if ls.len() == 0 {
        0
    } else if starts_with(trim_start(ls[0]), "## "@) {
        0
    } else {
        1 + lead_count(ls.drop_first())
    }
}

/// The opening summary of a note: its lines before the first `## ` heading, trimmed.
pub open spec fn lead_of(body: Seq<char>) -> Seq<char> {
    let ls = lines(body);
    trim(joined_with(ls.take(lead_count(ls) as int), "\n"@))
}

/// The revision sections a note has, in their fixed order: the one-paragraph answer, the key
/// terms, and the exam traps.
pub open spec fn digest_sections(body: Seq<char>) -> Seq<Seq<char>> {
    let a = section_of(body, "## Головне"@);
    let b = section_of(body, "## Ключові терміни"@);
    let c = section_of(body, "## На чому підловлюють"@);
    (if a is Some { seq![a->0] } else { seq![] }) + (if b is Some { seq![b->0] } else { seq![] }) + (
    if c is Some { seq![c->0] } else { seq![] })
}

/// A short version of a note for fast revision: the opening summary, then the revision
/// sections, separated by blank lines; a note with none of those sections is kept whole,
/// cut after 2200 characters.
pub open spec fn digested(body: Seq<char>) -> Seq<char> {
    let secs = digest_sections(body);
    if secs.len() == 0 {
        cut_chars(body, 2200, "\n…"@)
    } else {
        let lead = lead_of(body);
        joined_with((if lead.len() > 0 { seq![lead] } else { seq![] }) + secs, "\n\n"@)
    }
}

/// `text` cut after `max` characters, marked with a line holding `…` when anything was cut.
pub fn truncate(text: &str, max: usize) -> (r: String)
    ensures
        r@ == cut_chars(text@, max as nat, "\n…"@),
{
    let v = chars_of(text);
    let m = chars_of("\n…");
    string_of(&cut(&v, max, &m))
}

fn push_some(parts: &mut Vec<Vec<char>>, o: Option<Vec<char>>)
    ensures
        final(parts)@.map_values(|p: Vec<char>| p@) == old(parts)@.map_values(|p: Vec<char>| p@) + match o {
            Some(v) => seq![v@],
            None => Seq::<Seq<char>>::empty(),
        },
{
    let ghost before = parts@.map_values(|p: Vec<char>| p@);
    match o {
        Some(v) => {
            let ghost x = v@;
            parts.push(v);
            assert(parts@.map_values(|p: Vec<char>| p@) =~= before + seq![x]);
        },
        None => {
            assert(parts@.map_values(|p: Vec<char>| p@) =~= before + Seq::<Seq<char>>::empty());
        },
    }
}

/// The revision sections `b` has, in their fixed order.
fn revision_sections(b: &Vec<char>) -> (secs: Vec<Vec<char>>)
    ensures
        secs@.map_values(|p: Vec<char>| p@) == digest_sections(b@),
{
    let mut secs: Vec<Vec<char>> = Vec::new();
    assert(secs@.map_values(|p: Vec<char>| p@) =~= Seq::<Seq<char>>::empty());
    push_some(&mut secs, extract_section(b, CORE_HEADING));
    push_some(&mut secs, extract_section(b, "## Ключові терміни"));
    push_some(&mut secs, extract_section(b, "## На чому підловлюють"));
    proof {
        assert(secs@.map_values(|p: Vec<char>| p@) =~= digest_sections(b@));
    }
    secs
}

/// The lines of `b` before its first `## ` heading.
fn lead_lines(b: &Vec<char>) -> (leads: Vec<Vec<char>>)
    ensures
        leads@.map_values(|p: Vec<char>| p@) == lines(b@).take(lead_count(lines(b@)) as int),
{
    let mut leads: Vec<Vec<char>> = Vec::new();
    let mut pos: usize = 0;
    let ghost all = lines(b@);
    let ghost mut count: int = 0;
    proof {
        assert(b@.skip(0) =~= b@);
        assert(all.skip(0) =~= all);
        assert(all.take(0) =~= Seq::<Seq<char>>::empty());
    }
    let hd = chars_of("## ");
    proof {
        if b@.len() == 0 {
            crate::text::lemma_lines_empty(b@);
            assert(lead_count(all) == 0);
            assert(all.skip(0) =~= all);
        }
    }
    while pos < b.len()
        invariant
            all == lines(b@),
            hd@ == "## "@,
            pos <= b@.len(),
            0 <= count <= all.len(),
            lines(b@.skip(pos as int)) == all.skip(count),
            leads@.map_values(|p: Vec<char>| p@) == all.take(count),
            lead_count(all) == count + lead_count(all.skip(count)),
            pos >= b@.len() ==> lead_count(all.skip(count)) == 0,
        ensures
            0 <= count <= all.len(),
            leads@.map_values(|p: Vec<char>| p@) == all.take(count),
            lead_count(all) == count,
        decreases b@.len() - pos,
    {
        let (end, next) = next_line(&b, pos);
        let line = slice_vec(&b, pos, end);
        let st = leading_end(&line, 0, &Strip::Whitespace);
        let ts = slice_vec(&line, st, line.len());
        let heading = has_prefix(&ts, &hd);
        proof {
            lemma_line_at(b@, pos as int, end as int, next as int, all, count);
            assert(ts@ =~= line@.skip(st as int));
            assert(line@.skip(0) =~= line@);
            lemma_lead_step(all, count, line@, heading);
        }
        if heading {
            break;
        }
        let ghost before = leads@.map_values(|p: Vec<char>| p@);
        leads.push(line);
        proof {
            assert(leads@.map_values(|p: Vec<char>| p@) =~= before.push(line@));
            count = count + 1;
        }
        pos = next;
        proof {
            if pos >= b@.len() {
                assert(b@.skip(pos as int) =~= Seq::<char>::empty());
                crate::text::lemma_lines_empty(b@.skip(pos as int));
                assert(all.skip(count).len() == 0);
                assert(lead_count(all.skip(count)) == 0);
            }
        }
    }
    leads
}

proof fn lemma_line_at(b: Seq<char>, pos: int, end: int, next: int, all: Seq<Seq<char>>, count: int)
    requires
        0 <= pos <= end <= next <= b.len(),
        pos < next,
        0 <= count <= all.len(),
        lines(b.skip(pos)) == all.skip(count),
        lines(b.skip(pos)) == seq![b.subrange(pos, end)] + lines(b.skip(next)),
    ensures
        count < all.len(),
        all[count] == b.subrange(pos, end),
        lines(b.skip(next)) == all.skip(count + 1),
        next >= b.len() ==> all.skip(count + 1).len() == 0,
{
    let ls = lines(b.skip(pos));
    assert(ls.len() >= 1);
    assert(all.skip(count)[0] == all[count]);
    assert(ls.drop_first() =~= lines(b.skip(next)));
    assert(all.skip(count).drop_first() =~= all.skip(count + 1));
    if next >= b.len() {
        assert(b.skip(next) =~= Seq::<char>::empty());
        crate::text::lemma_lines_empty(b.skip(next));
    }
}

proof fn lemma_lead_step(all: Seq<Seq<char>>, count: int, line: Seq<char>, heading: bool)
    requires
        0 <= count < all.len(),
        all[count] == line,
        heading == starts_with(trim_start(line), "## "@),
        lead_count(all) == count + lead_count(all.skip(count)),
    ensures
        heading ==> lead_count(all) == count,
        !heading ==> lead_count(all) == count + 1 + lead_count(all.skip(count + 1)),
        !heading ==> all.take(count + 1) == all.take(count).push(line),
{
    let rest = all.skip(count);
    assert(rest[0] == line);
    assert(rest.drop_first() =~= all.skip(count + 1));
    assert(all.take(count + 1) =~= all.take(count).push(line));
}

/// A short version of a note for fast revision: the opening summary, the one-paragraph
/// answer, and the key-terms and exam-traps sections. A note with none of those sections was
/// not written by the generator, so it is kept whole rather than condensed, cut after 2200
/// characters.
pub fn digest(body: &str) -> (r: String)
    ensures
        r@ == digested(body@),
{
    let b = chars_of(body);
    let secs = revision_sections(&b);
    if secs.len() == 0 {
        return truncate(body, 2200);
    }
    let leads = lead_lines(&b);
    let joined = join_parts(&leads, "\n");
    let lead = trim_chars(&joined);
    let out = assemble(lead, &secs);
    proof {
        assert(lead@ == lead_of(body@));
    }
    string_of(&out)
}

/// The summary (when there is one) and the sections, separated by blank lines.
fn assemble(lead: Vec<char>, secs: &Vec<Vec<char>>) -> (r: Vec<char>)
    ensures
        r@ == joined_with(
            (if lead@.len() > 0 {
                seq![lead@]
            } else {
                Seq::<Seq<char>>::empty()
            }) + secs@.map_values(|p: Vec<char>| p@),
            "\n\n"@,
        ),
{
    let ghost lv = lead@;
    let mut parts: Vec<Vec<char>> = Vec::new();
    if lead.len() > 0 {
        parts.push(lead);
    }
    let ghost pre = parts@.map_values(|p: Vec<char>| p@);
    proof {
        if lv.len() > 0 {
            assert(pre =~= seq![lv]);
        } else {
            assert(pre =~= Seq::<Seq<char>>::empty());
        }
    }
    let ghost sv = secs@.map_values(|p: Vec<char>| p@);
    let mut k: usize = 0;
    while k < secs.len()
        invariant
            sv == secs@.map_values(|p: Vec<char>| p@),
            k <= secs@.len(),
            parts@.map_values(|p: Vec<char>| p@) == pre + sv.take(k as int),
        decreases secs@.len() - k,
    {
        let ghost before = parts@.map_values(|p: Vec<char>| p@);
        let v = slice_vec(&secs[k], 0, secs[k].len());
        assert(v@ =~= secs@[k as int]@);
        parts.push(v);
        proof {
            assert(sv.take(k + 1) =~= sv.take(k as int).push(sv[k as int]));
            assert(parts@.map_values(|p: Vec<char>| p@) =~= before.push(sv[k as int]));
        }
        k += 1;
    }
    assert(sv.take(secs@.len() as int) =~= sv);
    join_parts(&parts, "\n\n")
}


// ---------------------------------------------------------------------------
// Reading back what was written
// ---------------------------------------------------------------------------

/// Each `a` in `s` replaced by `t`.
pub open spec fn map_char(s: Seq<char>, a: char, t: Seq<char>) -> Seq<char>
    decreases s.len(),
{
    if s.len() == 0 {
        seq![]
    } else {
        (if s[0] == a {
            t
        } else {
            seq![s[0]]
        }) + map_char(s.drop_first(), a, t)
    }
}

/// Backslashes doubled.
pub open spec fn doubled(v: Seq<char>) -> Seq<char> {
    map_char(v, '\\', seq!['\\', '\\'])
}

/// Backslashes doubled and quotes backslashed, character by character.
pub open spec fn escaped(v: Seq<char>) -> Seq<char>
    decreases v.len(),
{
    if v.len() == 0 {
        seq![]
    } else {
        (if v[0] == '\\' {
            seq!['\\', '\\']
        } else if v[0] == '"' {
            seq!['\\', '"']
        } else {
            seq![v[0]]
        }) + escaped(v.drop_first())
    }
}

proof fn lemma_replace_single(s: Seq<char>, a: char, t: Seq<char>)
    ensures
        replace(s, seq![a], t) == map_char(s, a, t),
    decreases s.len(),
{
    if s.len() > 0 {
        lemma_replace_single(s.skip(1), a, t);
        assert(s.skip(1) =~= s.drop_first());
        assert(s.take(1) =~= seq![s[0]]);
        if s[0] == a {
            assert(s.take(1) == seq![a]);
        } else {
            assert(s.take(1) != seq![a]) by {
                assert(s.take(1)[0] != seq![a][0]);
            }
        }
    }
}

proof fn lemma_map_char_concat(x: Seq<char>, y: Seq<char>, a: char, t: Seq<char>)
    ensures
        map_char(x + y, a, t) == map_char(x, a, t) + map_char(y, a, t),
    decreases x.len(),
{
    if x.len() == 0 {
        assert(x + y =~= y);
        assert(map_char(x, a, t) + map_char(y, a, t) =~= map_char(y, a, t));
    } else {
        lemma_map_char_concat(x.drop_first(), y, a, t);
        assert((x + y).drop_first() =~= x.drop_first() + y);
        assert((x + y)[0] == x[0]);
        let p = if x[0] == a {
            t
        } else {
            seq![x[0]]
        };
        assert(map_char(x + y, a, t) =~= p + map_char(x.drop_first() + y, a, t));
        assert(map_char(x + y, a, t) =~= map_char(x, a, t) + map_char(y, a, t));
    }
}

/// The two replacements that quote a value escape it character by character.
proof fn lemma_quoting_escapes(v: Seq<char>)
    ensures
        replace(replace(v, seq!['\\'], seq!['\\', '\\']), seq!['"'], seq!['\\', '"']) == escaped(v),
    decreases v.len(),
{
    lemma_replace_single(v, '\\', seq!['\\', '\\']);
    let d = map_char(v, '\\', seq!['\\', '\\']);
    lemma_replace_single(d, '"', seq!['\\', '"']);
    if v.len() > 0 {
        lemma_quoting_escapes(v.drop_first());
        lemma_replace_single(v.drop_first(), '\\', seq!['\\', '\\']);
        let rest = map_char(v.drop_first(), '\\', seq!['\\', '\\']);
        lemma_replace_single(rest, '"', seq!['\\', '"']);
        let p = if v[0] == '\\' {
            seq!['\\', '\\']
        } else {
            seq![v[0]]
        };
        assert(d == p + rest);
        lemma_map_char_concat(p, rest, '"', seq!['\\', '"']);
        if v[0] == '\\' {
            assert(map_char(p, '"', seq!['\\', '"']) =~= seq!['\\', '\\']) by {
                reveal_with_fuel(map_char, 3);
                assert(p.drop_first() =~= seq!['\\']);
                assert(p.drop_first().drop_first() =~= Seq::<char>::empty());
            }
        } else if v[0] == '"' {
            assert(map_char(p, '"', seq!['\\', '"']) =~= seq!['\\', '"']) by {
                reveal_with_fuel(map_char, 2);
                assert(p.drop_first() =~= Seq::<char>::empty());
            }
        } else {
            assert(map_char(p, '"', seq!['\\', '"']) =~= seq![v[0]]) by {
                reveal_with_fuel(map_char, 2);
                assert(p.drop_first() =~= Seq::<char>::empty());
            }
        }
    }
}

proof fn lemma_escaped_first(v: Seq<char>)
    ensures
        escaped(v).len() >= v.len(),
        v.len() > 0 ==> escaped(v)[0] != '"',
    decreases v.len(),
{
    if v.len() > 0 {
        lemma_escaped_first(v.drop_first());
    }
}

/// Taking the backslash off escaped quotes leaves the backslashes doubled.
proof fn lemma_unquote_quotes(v: Seq<char>)
    ensures
        replace(escaped(v), seq!['\\', '"'], seq!['"']) == doubled(v),
    decreases v.len(),
{
    let from = seq!['\\', '"'];
    let to = seq!['"'];
    if v.len() == 0 {
        assert(doubled(v) =~= Seq::<char>::empty());
    } else {
        let rest = v.drop_first();
        let e = escaped(rest);
        lemma_unquote_quotes(rest);
        lemma_escaped_first(rest);
        let s = escaped(v);
        assert(doubled(v) == (if v[0] == '\\' {
            seq!['\\', '\\']
        } else {
            seq![v[0]]
        }) + doubled(rest));
        if v[0] == '"' {
            assert(s =~= seq!['\\', '"'] + e);
            assert(s.take(2) =~= from);
            assert(s.skip(2) =~= e);
            assert(replace(s, from, to) =~= to + replace(e, from, to));
        } else if v[0] == '\\' {
            assert(s =~= seq!['\\', '\\'] + e);
            assert(s.take(2) != from) by {
                assert(s.take(2)[1] != from[1]);
            }
            let s1 = s.skip(1);
            assert(s1 =~= seq!['\\'] + e);
            if e.len() == 0 {
                assert(replace(s1, from, to) == s1);
            } else {
                assert(s1.take(2) != from) by {
                    assert(s1.take(2)[1] == e[0]);
                }
                assert(s1.skip(1) =~= e);
                assert(replace(s1, from, to) =~= seq!['\\'] + replace(e, from, to));
            }
            assert(replace(s, from, to) =~= seq!['\\'] + replace(s1, from, to));
            assert(replace(s, from, to) =~= seq!['\\', '\\'] + doubled(rest));
        } else {
            assert(s =~= seq![v[0]] + e);
            if s.len() < 2 {
                assert(e.len() == 0);
                assert(rest.len() == 0);
                assert(doubled(rest) =~= Seq::<char>::empty());
            } else {
                assert(s.take(2) != from) by {
                    assert(s.take(2)[0] != from[0]);
                }
                assert(s.skip(1) =~= e);
            }
        }
    }
}

/// Halving doubled backslashes gives the unescaped text back.
proof fn lemma_undouble(v: Seq<char>)
    ensures
        replace(doubled(v), seq!['\\', '\\'], seq!['\\']) == v,
    decreases v.len(),
{
    let from = seq!['\\', '\\'];
    let to = seq!['\\'];
    if v.len() > 0 {
        let rest = v.drop_first();
        lemma_undouble(rest);
        let d = doubled(v);
        if v[0] == '\\' {
            assert(d =~= seq!['\\', '\\'] + doubled(rest));
            assert(d.take(2) =~= from);
            assert(d.skip(2) =~= doubled(rest));
            assert(replace(d, from, to) =~= to + rest);
            assert(to + rest =~= v);
        } else {
            assert(d =~= seq![v[0]] + doubled(rest));
            if d.len() < 2 {
                assert(doubled(rest).len() == 0);
                assert(rest.len() == 0) by {
                    if rest.len() > 0 {
                        assert(doubled(rest) == (if rest[0] == '\\' {
                            seq!['\\', '\\']
                        } else {
                            seq![rest[0]]
                        }) + doubled(rest.drop_first()));
                    }
                }
                assert(d =~= v);
            } else {
                assert(d.take(2) != from) by {
                    assert(d.take(2)[0] != from[0]);
                }
                assert(d.skip(1) =~= doubled(rest));
                assert(seq![v[0]] + rest =~= v);
            }
        }
    } else {
        assert(doubled(v) =~= v);
    }
}

/// Reading back a quoted value gives the value.
pub proof fn lemma_quoted_reads_back(t: Seq<char>)
    ensures
        yaml_value(" "@ + yaml_quoted(t)) == t,
{
    reveal_strlit(" ");
    let e = replace(replace(t, seq!['\\'], seq!['\\', '\\']), seq!['"'], seq!['\\', '"']);
    lemma_quoting_escapes(t);
    let q = yaml_quoted(t);
    assert(q =~= seq!['"'] + e + seq!['"']);
    let v = " "@ + q;
    assert(v.drop_first() =~= q);
    assert(drop_leading(v, Strip::Whitespace) == drop_leading(q, Strip::Whitespace));
    assert(drop_leading(q, Strip::Whitespace) == q);
    crate::text::lemma_drop_trailing_stops(q, Strip::Whitespace);
    assert(trim(v) == q);
    assert(q.subrange(1, q.len() - 1) =~= e);
    lemma_unquote_quotes(t);
    lemma_undouble(t);
}

/// A value written as it is: on one line, already trimmed, and not itself in quotes.
pub open spec fn plain_value(v: Seq<char>) -> bool {
    &&& forall|i: int| 0 <= i < v.len() ==> v[i] != '\n'
    &&& trim(v) == v
    &&& !(v.len() >= 2 && v[0] == '"' && v.last() == '"')
}

/// Reading back a plain value gives the value.
pub proof fn lemma_plain_reads_back(v: Seq<char>)
    requires
        plain_value(v),
    ensures
        yaml_value(" "@ + v) == v,
{
    reveal_strlit(" ");
    let w = " "@ + v;
    assert(w.drop_first() =~= v);
    assert(drop_leading(w, Strip::Whitespace) == drop_leading(v, Strip::Whitespace));
    assert(trim(w) == trim(v));
}

/// Neither end of a trimmed text is whitespace.
proof fn lemma_trim_ends(s: Seq<char>)
    ensures
        trim(s).len() > 0 ==> !crate::text::is_ws(trim(s)[0]) && !crate::text::is_ws(trim(s).last()),
{
    let u = drop_leading(s, Strip::Whitespace);
    lemma_leading_stops(s);
    lemma_trailing_prefix(u);
}

proof fn lemma_leading_stops(s: Seq<char>)
    ensures
        drop_leading(s, Strip::Whitespace).len() > 0 ==> !crate::text::is_ws(drop_leading(s, Strip::Whitespace)[0]),
    decreases s.len(),
{
    if s.len() > 0 && crate::text::is_ws(s[0]) {
        lemma_leading_stops(s.drop_first());
    }
}

proof fn lemma_trailing_prefix(u: Seq<char>)
    ensures
        drop_trailing_ws(u).len() <= u.len(),
        drop_trailing_ws(u) == u.take(drop_trailing_ws(u).len() as int),
        drop_trailing_ws(u).len() > 0 ==> !crate::text::is_ws(drop_trailing_ws(u).last()),
    decreases u.len(),
{
    if u.len() > 0 && crate::text::is_ws(u.last()) {
        lemma_trailing_prefix(u.drop_last());
        let d = drop_trailing_ws(u.drop_last());
        assert(u.drop_last().take(d.len() as int) =~= u.take(d.len() as int));
    } else {
        assert(u.take(u.len() as int) =~= u);
    }
}

pub open spec fn drop_trailing_ws(u: Seq<char>) -> Seq<char> {
    crate::text::drop_trailing(u, Strip::Whitespace)
}

/// A line of front matter that splits cleanly: not empty, on one line, not ending in a
/// carriage return, and not starting with a dash.
pub open spec fn clean_line(l: Seq<char>) -> bool {
    &&& l.len() > 0
    &&& forall|i: int| 0 <= i < l.len() ==> l[i] != '\n'
    &&& l.last() != '\r'
    &&& l[0] != '-'
}

/// The first line break of `a` at or after `from`, or the end.
proof fn first_break(a: Seq<char>, from: int) -> (i: int)
    requires
        0 <= from <= a.len(),
    ensures
        from <= i <= a.len(),
        i < a.len() ==> a[i] == '\n',
        forall|j: int| from <= j < i ==> a[j] != '\n',
    decreases a.len() - from,
{
    if from >= a.len() {
        from
    } else if a[from] == '\n' {
        from
    } else {
        first_break(a, from + 1)
    }
}

proof fn lemma_lines_snoc(a: Seq<char>, b: Seq<char>)
    requires
        a.len() > 0,
        a.last() != '\n',
        a.last() != '\r',
        b.len() > 0,
        forall|i: int| 0 <= i < b.len() ==> b[i] != '\n',
    ensures
        lines(a + seq!['\n'] + b) == lines(a) + seq![b],
    decreases a.len(),
{
    let s = a + seq!['\n'] + b;
    let i = first_break(a, 0);
    crate::text::lemma_lines_last(b);
    if i < a.len() {
        crate::text::lemma_lines_step(s, i);
        crate::text::lemma_lines_step(a, i);
        let a2 = a.skip(i + 1);
        assert(s.take(i) =~= a.take(i));
        assert(s.skip(i + 1) =~= a2 + seq!['\n'] + b);
        assert(a2.len() > 0);
        assert(a2.last() == a.last());
        lemma_lines_snoc(a2, b);
    } else {
        crate::text::lemma_lines_step(s, a.len() as int);
        assert(s.take(a.len() as int) =~= a);
        assert(s.skip(a.len() as int + 1) =~= b);
        crate::text::lemma_lines_last(a);
    }
}

/// Clean lines joined with line breaks split back into the same lines.
proof fn lemma_lines_of_joined(ls: Seq<Seq<char>>)
    requires
        ls.len() >= 1,
        forall|k: int| 0 <= k < ls.len() ==> clean_line(#[trigger] ls[k]),
    ensures
        lines(joined_with(ls, "\n"@)) == ls,
        joined_with(ls, "\n"@).len() > 0,
        joined_with(ls, "\n"@).last() == ls.last().last(),
        no_break_dash(joined_with(ls, "\n"@)),
    decreases ls.len(),
{
    reveal_strlit("\n");
    if ls.len() == 1 {
        assert(clean_line(ls[0]));
        crate::text::lemma_lines_last(ls[0]);
        assert(seq![ls[0]] =~= ls);
    } else {
        let init = ls.drop_last();
        assert forall|k: int| 0 <= k < init.len() implies clean_line(#[trigger] init[k]) by {
            assert(init[k] == ls[k]);
        }
        lemma_lines_of_joined(init);
        let a = joined_with(init, "\n"@);
        let b = ls.last();
        assert(clean_line(ls[ls.len() - 1]));
        assert(init.last() == ls[ls.len() - 2]);
        assert(clean_line(ls[ls.len() - 2]));
        assert("\n"@ =~= seq!['\n']);
        assert(joined_with(ls, "\n"@) == a + seq!['\n'] + b);
        lemma_lines_snoc(a, b);
        assert(init + seq![b] =~= ls);
        let j = a + seq!['\n'] + b;
        assert forall|x: int| 0 <= x && x + 1 < j.len() && #[trigger] j[x] == '\n' implies j[x + 1] != '-' by {
            if x + 1 < a.len() {
                assert(j[x] == a[x] && j[x + 1] == a[x + 1]);
            } else if x + 1 == a.len() {
                assert(j[x] == a.last());
            } else if x == a.len() {
                assert(j[x + 1] == b[0]);
            } else {
                assert(j[x] == b[x - a.len() - 1]);
            }
        }
    }
}

/// No line break in `s` is followed by a dash.
pub open spec fn no_break_dash(s: Seq<char>) -> bool {
    forall|x: int| 0 <= x && x + 1 < s.len() && #[trigger] s[x] == '\n' ==> s[x + 1] != '-'
}

/// A key of front matter: not empty, without a colon, not starting with a dash, and with no
/// whitespace at either end.
pub open spec fn plain_key(key: Seq<char>) -> bool {
    &&& key.len() > 0
    &&& forall|i: int| 0 <= i < key.len() ==> key[i] != ':' && key[i] != '\n'
    &&& !crate::text::is_ws(key[0])
    &&& !crate::text::is_ws(key.last())
    &&& key[0] != '-'
}

/// A line of front matter sets the field its key names to its value read back.
proof fn lemma_field_line(n: NoteV, key: Seq<char>, v: Seq<char>)
    requires
        plain_key(key),
    ensures
        apply_field(n, field_line(key, v)) == set_field(n, key, yaml_value(" "@ + v)),
{
    reveal_strlit(": ");
    reveal_strlit(" ");
    let line = field_line(key, v);
    assert(": "@ =~= seq![':', ' ']);
    assert(line[key.len() as int] == ':');
    crate::text::lemma_index_of_char(line, ':', key.len() as int);
    assert(line.take(key.len() as int) =~= key);
    assert(line.skip(key.len() as int + 1) =~= " "@ + v);
    crate::text::lemma_drop_trailing_stops(key, Strip::Whitespace);
    assert(drop_leading(key, Strip::Whitespace) == key);
}

/// The lines of front matter `render` writes are clean whenever the values are on one line.
proof fn lemma_field_clean(key: Seq<char>, v: Seq<char>)
    requires
        plain_key(key),
        forall|i: int| 0 <= i < v.len() ==> v[i] != '\n',
        v.len() > 0 ==> v.last() != '\r',
    ensures
        clean_line(field_line(key, v)),
{
    reveal_strlit(": ");
    assert(": "@ =~= seq![':', ' ']);
    let line = field_line(key, v);
    assert(line[0] == key[0]);
    assert forall|i: int| 0 <= i < line.len() implies line[i] != '\n' by {
        if i < key.len() {
            assert(line[i] == key[i]);
        } else if i >= key.len() + 2 {
            assert(line[i] == v[i - key.len() - 2]);
        }
    }
}

proof fn lemma_escaped_one_line(t: Seq<char>)
    requires
        forall|i: int| 0 <= i < t.len() ==> t[i] != '\n',
    ensures
        forall|i: int| 0 <= i < escaped(t).len() ==> escaped(t)[i] != '\n',
    decreases t.len(),
{
    if t.len() > 0 {
        lemma_escaped_one_line(t.drop_first());
        let p = if t[0] == '\\' {
            seq!['\\', '\\']
        } else if t[0] == '"' {
            seq!['\\', '"']
        } else {
            seq![t[0]]
        };
        assert(escaped(t) == p + escaped(t.drop_first()));
        assert forall|i: int| 0 <= i < escaped(t).len() implies escaped(t)[i] != '\n' by {
            if i >= p.len() {
                assert(escaped(t)[i] == escaped(t.drop_first())[i - p.len()]);
            }
        }
    }
}

proof fn lemma_quoted_one_line(t: Seq<char>)
    requires
        forall|i: int| 0 <= i < t.len() ==> t[i] != '\n',
    ensures
        forall|i: int| 0 <= i < yaml_quoted(t).len() ==> yaml_quoted(t)[i] != '\n',
        yaml_quoted(t).len() > 0 && yaml_quoted(t).last() == '"',
{
    lemma_quoting_escapes(t);
    lemma_escaped_one_line(t);
    let e = escaped(t);
    let q = yaml_quoted(t);
    assert(q =~= seq!['"'] + e + seq!['"']);
    assert forall|i: int| 0 <= i < q.len() implies q[i] != '\n' by {
        if 0 < i < q.len() - 1 {
            assert(q[i] == e[i - 1]);
        }
    }
}

proof fn lemma_plain_clean(key: Seq<char>, v: Seq<char>)
    requires
        plain_key(key),
        plain_value(v),
    ensures
        clean_line(field_line(key, v)),
{
    lemma_trim_ends(v);
    lemma_field_clean(key, v);
}

proof fn lemma_keys()
    ensures
        plain_key("topic_id"@),
        plain_key("subject"@),
        plain_key("section"@),
        plain_key("title"@),
        plain_key("model"@),
        plain_key("generated_at"@),
        "subject"@ != "topic_id"@,
        "section"@ != "topic_id"@,
        "section"@ != "subject"@,
        "section"@ != "title"@,
        "title"@ != "topic_id"@,
        "title"@ != "subject"@,
        "model"@ != "topic_id"@,
        "model"@ != "subject"@,
        "model"@ != "title"@,
        "model"@ != "section"@,
        "generated_at"@ != "topic_id"@,
        "generated_at"@ != "subject"@,
        "generated_at"@ != "title"@,
        "generated_at"@ != "section"@,
        "generated_at"@ != "model"@,
{
    reveal_strlit("topic_id");
    reveal_strlit("subject");
    reveal_strlit("section");
    reveal_strlit("title");
    reveal_strlit("model");
    reveal_strlit("generated_at");
    assert("section"@[1] != "subject"@[1]);
    assert("model"@[0] != "title"@[0]);
}

/// The identity fields are plain values and the titles sit on one line.
pub open spec fn writable(n: NoteV) -> bool {
    &&& plain_value(n.topic_id)
    &&& plain_value(n.subject)
    &&& plain_value(n.model)
    &&& plain_value(n.generated_at)
    &&& forall|i: int| 0 <= i < n.title.len() ==> n.title[i] != '\n'
    &&& forall|i: int| 0 <= i < n.section_title.len() ==> n.section_title[i] != '\n'
}

proof fn lemma_front_clean(n: NoteV)
    requires
        writable(n),
    ensures
        forall|k: int| 0 <= k < front_lines(n).len() ==> clean_line(#[trigger] front_lines(n)[k]),
{
    lemma_keys();
    let ls = front_lines(n);
    lemma_plain_clean("topic_id"@, n.topic_id);
    lemma_plain_clean("subject"@, n.subject);
    lemma_quoted_one_line(n.section_title);
    lemma_field_clean("section"@, yaml_quoted(n.section_title));
    lemma_quoted_one_line(n.title);
    lemma_field_clean("title"@, yaml_quoted(n.title));
    lemma_plain_clean("model"@, n.model);
    lemma_plain_clean("generated_at"@, n.generated_at);
}

proof fn lemma_find_close(j: Seq<char>, t: Seq<char>)
    requires
        no_break_dash(j),
        t.len() >= 4,
        t.take(4) == "\n---"@,
    ensures
        find(j + t, "\n---"@) == Some(j.len() as int),
{
    reveal_strlit("\n---");
    let rest = j + t;
    let close = "\n---"@;
    assert(rest.subrange(j.len() as int, j.len() as int + 4) =~= t.take(4));
    assert forall|x: int| 0 <= x < j.len() implies !crate::text::occurs_at(rest, close, x) by {
        if crate::text::occurs_at(rest, close, x) {
            assert(rest.subrange(x, x + 4)[0] == close[0]);
            assert(rest.subrange(x, x + 4)[1] == close[1]);
            if x + 1 < j.len() {
                assert(rest[x] == j[x] && rest[x + 1] == j[x + 1]);
            } else {
                assert(rest[x + 1] == t[0]);
                assert(t[0] == t.take(4)[0]);
            }
        }
    }
    crate::text::lemma_find_some(rest, close, j.len() as int);
}

proof fn lemma_fields_read_back(n: NoteV, path: Seq<char>)
    requires
        writable(n),
    ensures
        apply_fields(blank_note(path), front_lines(n)) == (NoteV { body: seq![], path, ..n }),
{
    let ls = front_lines(n);
    let b0 = blank_note(path);
    let b1 = NoteV { topic_id: n.topic_id, ..b0 };
    let b2 = NoteV { subject: n.subject, ..b1 };
    let b3 = NoteV { section_title: n.section_title, ..b2 };
    let b4 = NoteV { title: n.title, ..b3 };
    let b5 = NoteV { model: n.model, ..b4 };
    let b6 = NoteV { generated_at: n.generated_at, ..b5 };
    assert(apply_field(b0, ls[0]) == b1) by {
        lemma_keys();
        lemma_field_line(b0, "topic_id"@, n.topic_id);
        lemma_plain_reads_back(n.topic_id);
    }
    assert(apply_field(b1, ls[1]) == b2) by {
        lemma_keys();
        lemma_field_line(b1, "subject"@, n.subject);
        lemma_plain_reads_back(n.subject);
    }
    assert(apply_field(b2, ls[2]) == b3) by {
        lemma_keys();
        lemma_field_line(b2, "section"@, yaml_quoted(n.section_title));
        lemma_quoted_reads_back(n.section_title);
    }
    assert(apply_field(b3, ls[3]) == b4) by {
        lemma_keys();
        lemma_field_line(b3, "title"@, yaml_quoted(n.title));
        lemma_quoted_reads_back(n.title);
    }
    assert(apply_field(b4, ls[4]) == b5) by {
        lemma_keys();
        lemma_field_line(b4, "model"@, n.model);
        lemma_plain_reads_back(n.model);
    }
    assert(apply_field(b5, ls[5]) == b6) by {
        lemma_keys();
        lemma_field_line(b5, "generated_at"@, n.generated_at);
        lemma_plain_reads_back(n.generated_at);
    }
    let l1 = ls.drop_first();
    let l2 = l1.drop_first();
    let l3 = l2.drop_first();
    let l4 = l3.drop_first();
    let l5 = l4.drop_first();
    assert(l5 =~= seq![ls[5]]);
    assert(l5.drop_first() =~= Seq::<Seq<char>>::empty());
    assert(apply_fields(b6, Seq::<Seq<char>>::empty()) == b6);
    assert(l5[0] == ls[5]);
    assert(apply_fields(b5, l5) == b6);
    assert(l4[0] == ls[4]);
    assert(apply_fields(b4, l4) == b6);
    assert(l3[0] == ls[3]);
    assert(apply_fields(b3, l3) == b6);
    assert(l2[0] == ls[2]);
    assert(apply_fields(b2, l2) == b6);
    assert(l1[0] == ls[1]);
    assert(apply_fields(b1, l1) == b6);
    assert(apply_fields(b0, ls) == b6);
}

proof fn lemma_body_reads_back(body: Seq<char>)
    ensures
        trim(drop_leading(seq!['\n', '\n'] + trim(body) + seq!['\n'], Strip::Char('\n'))) == trim(body),
{
    let tb = trim(body);
    let after = seq!['\n', '\n'] + tb + seq!['\n'];
    assert forall|x: int| 0 <= x < 2 implies crate::text::strips(Strip::Char('\n'), #[trigger] after[x]) by {}
    crate::text::lemma_drop_leading_skip(after, Strip::Char('\n'), 2);
    let tail = tb + seq!['\n'];
    assert(after.skip(2) =~= tail);
    lemma_trim_ends(body);
    if tb.len() == 0 {
        assert(tail =~= seq!['\n']);
        assert(tail.drop_first() =~= Seq::<char>::empty());
        assert(drop_leading(Seq::<char>::empty(), Strip::Char('\n')) == Seq::<char>::empty());
        assert(drop_leading(tail, Strip::Char('\n')) == Seq::<char>::empty());
        assert(trim(Seq::<char>::empty()) =~= Seq::<char>::empty());
    } else {
        assert(tail[0] == tb[0]);
        assert(drop_leading(tail, Strip::Char('\n')) == tail);
        assert(drop_leading(tail, Strip::Whitespace) == tail);
        assert(tail.drop_last() =~= tb);
        crate::text::lemma_drop_trailing_stops(tb, Strip::Whitespace);
        assert(trim(tail) == tb);
    }
}

/// What `render` writes, `parse` reads back: the note's fields, its trimmed body, and the path
/// it was read from — whenever the identity fields are plain one-line values and the titles
/// sit on one line.
#[verifier::spinoff_prover]
#[verifier::rlimit(40)]
pub proof fn lemma_front_matter_round_trip(n: NoteV, path: Seq<char>)
    requires
        writable(n),
    ensures
        parsed(rendered(n), path) == (NoteV { body: trim(n.body), path, ..n }),
{
    reveal_strlit("---\n");
    reveal_strlit("\n---\n\n");
    reveal_strlit("\n---");
    reveal_strlit("\n");
    let ls = front_lines(n);
    lemma_front_clean(n);
    lemma_lines_of_joined(ls);
    let j = joined_with(ls, "\n"@);
    let tb = trim(n.body);
    let t = "\n---\n\n"@ + tb + "\n"@;
    let raw = rendered(n);
    assert(raw =~= "---\n"@ + (j + t));
    assert(raw.take(4) =~= "---\n"@);
    let rest = raw.skip(4);
    assert(rest =~= j + t);
    assert(t.take(4) =~= "\n---"@);
    lemma_find_close(j, t);
    assert(rest.take(j.len() as int) =~= j);
    lemma_fields_read_back(n, path);
    assert(rest.skip(j.len() as int + 4) =~= seq!['\n', '\n'] + tb + seq!['\n']);
    lemma_body_reads_back(n.body);
}

} // verus!
