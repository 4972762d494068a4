//! Where everything lives inside a vault, and the ASCII slugs used in note filenames.
use vstd::prelude::*;

use crate::text::{
    chars_of, drop_leading, drop_trailing, extend, has_prefix, has_suffix, is_ascii_alnum,
    is_ascii_alphanumeric, pad2, push_pad2, starts_with, ends_with, string_of, strip_bounds,
    slice_vec, trailing_start, lemma_drop_trailing_stops, Strip,
};

verus! {

// ---------------------------------------------------------------------------
// Paths
// ---------------------------------------------------------------------------

/// The path `Path::new(base).join(part)` names, as text.
pub uninterp spec fn joined(base: Seq<char>, part: Seq<char>) -> Seq<char>;

/// `Path::join`: `part` appended to `base` as one more path component (or replacing it when
/// `part` is absolute), with the platform separator. The result is converted back to text.
#[verifier::external_body]
pub(crate) fn join_path(base: &str, part: &str) -> (r: String)
    ensures
        r@ == joined(base@, part@),
{
    std::path::Path::new(base).join(part).to_string_lossy().into_owned()
}

/// The vault: one folder holding syllabi, notes, quizzes and progress.
pub struct Vault {
    pub root: String,
}

impl Clone for Vault {
    fn clone(&self) -> (r: Self)
        ensures
            r.root@ == self.root@,
    {
        Vault { root: self.root.clone() }
    }
}

pub open spec fn syllabus_dir_of(root: Seq<char>) -> Seq<char> {
    joined(root, "syllabus"@)
}

pub open spec fn knowledge_dir_of(root: Seq<char>, subject: Seq<char>) -> Seq<char> {
    joined(joined(root, "knowledge"@), subject)
}

pub open spec fn quizzes_dir_of(root: Seq<char>, subject: Seq<char>) -> Seq<char> {
    joined(joined(root, "quizzes"@), subject)
}

pub open spec fn progress_file_of(root: Seq<char>, name: Seq<char>) -> Seq<char> {
    joined(joined(root, "progress"@), name)
}

/// `SS.TT-<slug>.md`: the section and topic numbers keep the folder in syllabus order, and
/// stay stable when unrelated topics are added.
pub open spec fn note_file_name(section: nat, topic: nat, title: Seq<char>) -> Seq<char> {
    note_prefix(section, topic) + slug(title) + ".md"@
}

/// `SS.TT-`, the part of a note's filename that identifies its topic.
pub open spec fn note_prefix(section: nat, topic: nat) -> Seq<char> {
    pad2(section) + seq!['.'] + pad2(topic) + seq!['-']
}

impl Vault {
    pub fn new(root: String) -> (v: Self)
        ensures
            v.root@ == root@,
    {
        Vault { root }
    }

    pub fn syllabus_dir(&self) -> (p: String)
        ensures
            p@ == syllabus_dir_of(self.root@),
    {
        join_path(self.root.as_str(), "syllabus")
    }

    pub fn knowledge_dir(&self, subject: &str) -> (p: String)
        ensures
            p@ == knowledge_dir_of(self.root@, subject@),
    {
        let base = join_path(self.root.as_str(), "knowledge");
        join_path(base.as_str(), subject)
    }

    pub fn quizzes_dir(&self, subject: &str) -> (p: String)
        ensures
            p@ == quizzes_dir_of(self.root@, subject@),
    {
        let base = join_path(self.root.as_str(), "quizzes");
        join_path(base.as_str(), subject)
    }

    pub fn attempts_dir(&self) -> (p: String)
        ensures
            p@ == progress_file_of(self.root@, "attempts"@),
    {
        let base = join_path(self.root.as_str(), "progress");
        join_path(base.as_str(), "attempts")
    }

    pub fn mastery_file(&self) -> (p: String)
        ensures
            p@ == progress_file_of(self.root@, "mastery.json"@),
    {
        let base = join_path(self.root.as_str(), "progress");
        join_path(base.as_str(), "mastery.json")
    }

    pub fn study_file(&self) -> (p: String)
        ensures
            p@ == progress_file_of(self.root@, "study.json"@),
    {
        let base = join_path(self.root.as_str(), "progress");
        join_path(base.as_str(), "study.json")
    }

    pub fn sessions_dir(&self) -> (p: String)
        ensures
            p@ == progress_file_of(self.root@, "sessions"@),
    {
        let base = join_path(self.root.as_str(), "progress");
        join_path(base.as_str(), "sessions")
    }

    /// `vault/quizzes/<subject>/<id>.json`
    pub fn quiz_file(&self, subject: &str, id: &str) -> (p: String)
        ensures
            p@ == joined(quizzes_dir_of(self.root@, subject@), id@ + ".json"@),
    {
        let dir = self.quizzes_dir(subject);
        let name = with_json(id);
        join_path(dir.as_str(), name.as_str())
    }

    /// `vault/progress/attempts/<id>.json`
    pub fn attempt_file(&self, id: &str) -> (p: String)
        ensures
            p@ == joined(progress_file_of(self.root@, "attempts"@), id@ + ".json"@),
    {
        let dir = self.attempts_dir();
        let name = with_json(id);
        join_path(dir.as_str(), name.as_str())
    }

    /// `vault/progress/sessions/<subject>-<id>.json`
    pub fn session_file(&self, subject: &str, id: &str) -> (p: String)
        ensures
            p@ == joined(progress_file_of(self.root@, "sessions"@), session_file_name(subject@, id@)),
    {
        let dir = self.sessions_dir();
        let mut v = chars_of(subject);
        v.push('-');
        extend(&mut v, &chars_of(id));
        extend(&mut v, &chars_of(".json"));
        proof {
            reveal_strlit(".json");
            assert(v@ =~= session_file_name(subject@, id@));
        }
        join_path(dir.as_str(), string_of(&v).as_str())
    }

    /// `vault/knowledge/<subject>/02.07-nazva-temy.md`
    pub fn knowledge_file(&self, subject: &str, section: usize, topic: usize, title: &str) -> (p:
        String)
        ensures
            p@ == joined(knowledge_dir_of(self.root@, subject@), note_file_name(section as nat, topic as nat, title@)),
    {
        let dir = self.knowledge_dir(subject);
        let name = note_file(section, topic, title);
        join_path(dir.as_str(), name.as_str())
    }
}

/// The file a session of `subject` with id `id` is stored in.
pub open spec fn session_file_name(subject: Seq<char>, id: Seq<char>) -> Seq<char> {
    subject + seq!['-'] + id + ".json"@
}

fn with_json(id: &str) -> (r: String)
    ensures
        r@ == id@ + ".json"@,
{
    let mut v = chars_of(id);
    extend(&mut v, &chars_of(".json"));
    string_of(&v)
}

/// Whether a file in the sessions folder holds a session of `subject`: it is named
/// `<subject>-….json`.
pub fn is_session_file_for(name: &str, subject: &str) -> (b: bool)
    ensures
        b == (starts_with(name@, subject@ + seq!['-']) && ends_with(name@, ".json"@)),
{
    let n = chars_of(name);
    let mut p = chars_of(subject);
    p.push('-');
    let json = chars_of(".json");
    assert(p@ =~= subject@ + seq!['-']);
    has_prefix(&n, &p) && has_suffix(&n, &json)
}

/// `format!("{section:02}.{topic:02}-{}.md", slugify(title))`.
pub fn note_file(section: usize, topic: usize, title: &str) -> (r: String)
    ensures
        r@ == note_file_name(section as nat, topic as nat, title@),
{
    let mut v = note_prefix_chars(section, topic);
    let s = slugify(title);
    let sc = chars_of(s.as_str());
    extend(&mut v, &sc);
    let md = chars_of(".md");
    extend(&mut v, &md);
    string_of(&v)
}

fn note_prefix_chars(section: usize, topic: usize) -> (v: Vec<char>)
    ensures
        v@ == note_prefix(section as nat, topic as nat),
{
    let mut v: Vec<char> = Vec::new();
    push_pad2(&mut v, section as u64);
    v.push('.');
    push_pad2(&mut v, topic as u64);
    v.push('-');
    assert(v@ =~= note_prefix(section as nat, topic as nat));
    v
}

/// Whether a filename in a subject's knowledge folder holds the note for this topic: it
/// carries the topic's `SS.TT-` prefix and is markdown. The slug after the prefix is not
/// compared, so a reworded title still finds its note.
pub fn is_note_file_for(name: &str, section: usize, index: usize) -> (b: bool)
    ensures
        b == (starts_with(name@, note_prefix(section as nat, index as nat)) && ends_with(
            name@,
            ".md"@,
        )),
{
    let n = chars_of(name);
    let p = note_prefix_chars(section, index);
    let md = chars_of(".md");
    has_prefix(&n, &p) && has_suffix(&n, &md)
}

/// Accept either the vault itself or a folder containing one, so picking the project
/// directory by mistake still works. `picked_has_syllabus` says whether `picked/syllabus` is a
/// directory, `nested_has_syllabus` whether `picked/vault/syllabus` is.
pub fn normalise_vault_choice(picked: &str, picked_has_syllabus: bool, nested_has_syllabus: bool) -> (r:
    String)
    ensures
        r@ == (if picked_has_syllabus {
            picked@
        } else if nested_has_syllabus {
            joined(picked@, "vault"@)
        } else {
            picked@
        }),
{
    if picked_has_syllabus {
        return picked.to_owned();
    }
    if nested_has_syllabus {
        return join_path(picked, "vault");
    }
    picked.to_owned()
}

/// Where a new vault goes when the student picks `parent` to create one in: a folder that is
/// already a vault (`parent_has_syllabus`) means "use this one", not "nest another"; otherwise
/// a `grind-vault` folder inside it.
pub fn creation_root(parent: &str, parent_has_syllabus: bool) -> (r: String)
    ensures
        r@ == (if parent_has_syllabus {
            parent@
        } else {
            joined(parent@, "grind-vault"@)
        }),
{
    if parent_has_syllabus {
        return parent.to_owned();
    }
    join_path(parent, "grind-vault")
}

/// The vault root: `$GRIND_VAULT` wins, then the folder the user picked, then the
/// repository's `vault` folder in a debug build where it exists, then the fallback, and
/// the repository folder when there is none.
pub fn resolve_vault_root(
    env: Option<String>,
    chosen: Option<String>,
    dev: String,
    dev_usable: bool,
    fallback: Option<String>,
) -> (r: String)
    ensures
        r@ == (match env {
            Some(e) => e@,
            None => match chosen {
                Some(c) => c@,
                None => if dev_usable {
                    dev@
                } else {
                    match fallback {
                        Some(f) => f@,
                        None => dev@,
                    }
                },
            },
        }),
{
    if let Some(e) = env {
        return e;
    }
    if let Some(c) = chosen {
        return c;
    }
    if dev_usable {
        return dev;
    }
    match fallback {
        Some(f) => f,
        None => dev,
    }
}

/// The directories a vault needs before anything can be written into it, relative to its root.
pub fn vault_dirs() -> (r: Vec<&'static str>)
    ensures
        r@.len() == 5,
        r@[0]@ == "syllabus"@,
        r@[1]@ == "knowledge"@,
        r@[2]@ == "quizzes"@,
        r@[3]@ == "progress/attempts"@,
        r@[4]@ == "progress/sessions"@,
{
    vec!["syllabus", "knowledge", "quizzes", "progress/attempts", "progress/sessions"]
}

/// The syllabus grammar by example: `# Title`, `## Section`, numbered topic lines. Written
/// into a new vault that has no syllabus yet.
pub fn sample_syllabus() -> (r: &'static str)
    ensures
        r@ == SAMPLE_SYLLABUS@,
{
    SAMPLE_SYLLABUS
}

pub const SAMPLE_SYLLABUS: &'static str = "# Приклад предмета\n\n## 1. Назва розділу\n\n1. Перша тема розділу.\n2. Друга тема розділу: підпитання після двокрапки теж належать темі.\n3. Третя тема розділу.\n\n## 2. Другий розділ\n\n1. Нумерація починається заново в кожному розділі.\n2. Вкладена нумерація теж працює:\n   1.1. Підтема — окрема тема зі своїм конспектом.\n   1.2. Ще одна підтема.\n\nЗамініть цей файл на власний силабус: одна тека `syllabus/`, один файл на предмет,\nім'я файлу стає ідентифікатором предмета.\n";

/// Why a vault's syllabus folder cannot be read, phrased for the student.
pub enum ReadFailure {
    /// The system refused access (a denied macOS folder prompt).
    PermissionDenied,
    /// There is no `syllabus` folder: this does not look like a vault.
    NotFound,
    /// Anything else, with the system's own description.
    Other(String),
}

/// The message for a failure to list `root/syllabus` (whose path is `syllabus`).
pub open spec fn failure_text(failure: ReadFailure, root: Seq<char>, syllabus: Seq<char>) -> Seq<char> {
    match failure {
        ReadFailure::PermissionDenied => "macOS не дозволяє застосунку читати «"@ + root
            + "». Оберіть теку сховища через системне вікно — такий вибір надає доступ явно."@,
        ReadFailure::NotFound => "У теці «"@ + root + "» немає підтеки syllabus — це не схоже на сховище."@,
        ReadFailure::Other(error) => "Не вдалося прочитати «"@ + syllabus + "»: "@ + error@,
    }
}

/// The message `describe_vault` reports for a failure to list `root/syllabus`.
pub fn describe_failure(failure: &ReadFailure, root: &str, syllabus: &str) -> (r: String)
    ensures
        r@ == failure_text(*failure, root@, syllabus@),
{
    let mut v: Vec<char> = Vec::new();
    match failure {
        ReadFailure::PermissionDenied => {
            extend(&mut v, &chars_of("macOS не дозволяє застосунку читати «"));
            extend(&mut v, &chars_of(root));
            extend(
                &mut v,
                &chars_of(
                    "». Оберіть теку сховища через системне вікно — такий вибір надає доступ явно.",
                ),
            );
        },
        ReadFailure::NotFound => {
            extend(&mut v, &chars_of("У теці «"));
            extend(&mut v, &chars_of(root));
            extend(&mut v, &chars_of("» немає підтеки syllabus — це не схоже на сховище."));
        },
        ReadFailure::Other(error) => {
            extend(&mut v, &chars_of("Не вдалося прочитати «"));
            extend(&mut v, &chars_of(syllabus));
            extend(&mut v, &chars_of("»: "));
            extend(&mut v, &chars_of(error.as_str()));
        },
    }
    assert(v@ =~= failure_text(*failure, root@, syllabus@));
    string_of(&v)
}

// ---------------------------------------------------------------------------
// Slugs
// ---------------------------------------------------------------------------

/// `str::to_lowercase` of `s` (full Unicode case mapping).
pub uninterp spec fn lowercase(s: Seq<char>) -> Seq<char>;

/// `str::to_lowercase`: the Unicode lowercase mapping of every character.
#[verifier::external_body]
pub(crate) fn to_lowercase(s: &str) -> (r: String)
    ensures
        r@ == lowercase(s@),
{
    s.to_lowercase()
}

/// The ASCII spelling of one lowercase character: Ukrainian and Russian letters are
/// transliterated, ASCII letters and digits kept, apostrophes and soft signs dropped, and
/// everything else becomes a separator `-`.
pub open spec fn translit(c: char) -> Seq<char> {
    if c == 'а' {
        seq!['a']
    } else if c == 'б' {
        seq!['b']
    } else if c == 'в' {
        seq!['v']
    } else if c == 'г' {
        seq!['h']
    } else if c == 'ґ' {
        seq!['g']
    } else if c == 'д' {
        seq!['d']
    } else if c == 'е' {
        seq!['e']
    } else if c == 'є' {
        seq!['i', 'e']
    } else if c == 'ж' {
        seq!['z', 'h']
    } else if c == 'з' {
        seq!['z']
    } else if c == 'и' {
        seq!['y']
    } else if c == 'і' {
        seq!['i']
    } else if c == 'ї' {
        seq!['i']
    } else if c == 'й' {
        seq!['i']
    } else if c == 'к' {
        seq!['k']
    } else if c == 'л' {
        seq!['l']
    } else if c == 'м' {
        seq!['m']
    } else if c == 'н' {
        seq!['n']
    } else if c == 'о' {
        seq!['o']
    } else if c == 'п' {
        seq!['p']
    } else if c == 'р' {
        seq!['r']
    } else if c == 'с' {
        seq!['s']
    } else if c == 'т' {
        seq!['t']
    } else if c == 'у' {
        seq!['u']
    } else if c == 'ф' {
        seq!['f']
    } else if c == 'х' {
        seq!['k', 'h']
    } else if c == 'ц' {
        seq!['t', 's']
    } else if c == 'ч' {
        seq!['c', 'h']
    } else if c == 'ш' {
        seq!['s', 'h']
    } else if c == 'щ' {
        seq!['s', 'h', 'c', 'h']
    } else if c == 'ю' {
        seq!['i', 'u']
    } else if c == 'я' {
        seq!['i', 'a']
    } else if c == 'ы' {
        seq!['y']
    } else if c == 'э' {
        seq!['e']
    } else if c == 'ь' || c == 'ъ' || c == 'ʼ' || c == '\'' || c == '’' || c == '`' {
        seq![]
    } else if is_ascii_alnum(c) {
        seq![c]
    } else {
        seq!['-']
    }
}

/// Every character of `s` transliterated, in order.
pub open spec fn translit_all(s: Seq<char>) -> Seq<char>
    decreases s.len(),
{
    if s.len() == 0 {
        seq![]
    } else {
        translit_all(s.drop_last()) + translit(s.last())
    }
}

/// Runs of separators collapsed to one, and none at the very start.
pub open spec fn collapse(s: Seq<char>) -> Seq<char>
    decreases s.len(),
{
    if s.len() == 0 {
        seq![]
    } else {
        let p = collapse(s.drop_last());
        let c = s.last();
        if c == '-' {
            if p.len() > 0 && p.last() != '-' {
                p.push('-')
            } else {
                p
            }
        } else {
            p.push(c)
        }
    }
}

/// Longest slug kept, in characters.
pub open spec fn slug_max() -> nat {
    60
}

/// The ASCII slug of a title: lowercased, transliterated, separators collapsed and trimmed,
/// and cut to at most 60 characters without leaving a trailing separator.
pub open spec fn slug(title: Seq<char>) -> Seq<char> {
    let s = drop_trailing(drop_leading(collapse(translit_all(lowercase(title))), Strip::Char('-')), Strip::Char('-'));
    if s.len() <= slug_max() {
        s
    } else {
        drop_trailing(s.take(slug_max() as int), Strip::Char('-'))
    }
}

/// A character a slug may hold: an ASCII letter or digit, or the separator.
pub open spec fn slug_char(c: char) -> bool {
    is_ascii_alnum(c) || c == '-'
}

/// Positions `i` and `i + 1` of `s` both hold the separator.
pub open spec fn dash_pair(s: Seq<char>, i: int) -> bool {
    s[i] == '-' && s[i + 1] == '-'
}

/// Only slug characters, and never two separators in a row.
pub open spec fn slug_body(s: Seq<char>) -> bool {
    &&& forall|i: int| 0 <= i < s.len() ==> slug_char(#[trigger] s[i])
    &&& forall|i: int| 0 <= i && i + 1 < s.len() ==> !#[trigger] dash_pair(s, i)
}

proof fn lemma_slug_body_subrange(s: Seq<char>, a: int, b: int)
    requires
        slug_body(s),
        0 <= a <= b <= s.len(),
    ensures
        slug_body(s.subrange(a, b)),
{
    let t = s.subrange(a, b);
    assert forall|i: int| 0 <= i < t.len() implies slug_char(#[trigger] t[i]) by {
        assert(t[i] == s[i + a]);
    }
    assert forall|i: int| 0 <= i && i + 1 < t.len() implies !#[trigger] dash_pair(t, i) by {
        assert(dash_pair(t, i) == dash_pair(s, i + a));
    }
}

proof fn lemma_translit_chars(c: char)
    ensures
        forall|i: int| 0 <= i < translit(c).len() ==> slug_char(#[trigger] translit(c)[i]),
{
}

proof fn lemma_translit_all_chars(s: Seq<char>)
    ensures
        forall|i: int| 0 <= i < translit_all(s).len() ==> slug_char(#[trigger] translit_all(s)[i]),
    decreases s.len(),
{
    if s.len() > 0 {
        lemma_translit_all_chars(s.drop_last());
        lemma_translit_chars(s.last());
        let p = translit_all(s.drop_last());
        let q = translit(s.last());
        assert forall|i: int| 0 <= i < translit_all(s).len() implies slug_char(
            #[trigger] translit_all(s)[i],
        ) by {
            if i < p.len() {
                assert(translit_all(s)[i] == p[i]);
            } else {
                assert(translit_all(s)[i] == q[i - p.len()]);
            }
        }
    }
}

proof fn lemma_collapse_shape(s: Seq<char>)
    requires
        forall|i: int| 0 <= i < s.len() ==> slug_char(#[trigger] s[i]),
    ensures
        slug_body(collapse(s)),
        collapse(s).len() > 0 ==> collapse(s)[0] != '-',
    decreases s.len(),
{
    if s.len() > 0 {
        let p = collapse(s.drop_last());
        assert forall|i: int| 0 <= i < s.drop_last().len() implies slug_char(
            #[trigger] s.drop_last()[i],
        ) by {
            assert(s.drop_last()[i] == s[i]);
        }
        lemma_collapse_shape(s.drop_last());
        let c = s.last();
        assert(slug_char(s[s.len() - 1]));
        let r = collapse(s);
        if r != p {
            assert(r == p.push(if c == '-' { '-' } else { c }));
            assert forall|i: int| 0 <= i < r.len() implies slug_char(#[trigger] r[i]) by {
                if i < p.len() {
                    assert(r[i] == p[i]);
                }
            }
            assert forall|i: int| 0 <= i && i + 1 < r.len() implies !#[trigger] dash_pair(r, i) by {
                if i + 1 < p.len() {
                    assert(dash_pair(r, i) == dash_pair(p, i));
                } else {
                    assert(r[i] == p.last());
                }
            }
        }
    }
}

proof fn leading_cut(s: Seq<char>) -> (k: int)
    ensures
        0 <= k <= s.len(),
        drop_leading(s, Strip::Char('-')) == s.subrange(k, s.len() as int),
        k < s.len() ==> s[k] != '-',
    decreases s.len(),
{
    if s.len() > 0 && s[0] == '-' {
        let k = leading_cut(s.drop_first());
        assert(s.drop_first().subrange(k, s.drop_first().len() as int) =~= s.subrange(
            k + 1,
            s.len() as int,
        ));
        k + 1
    } else {
        assert(s.subrange(0, s.len() as int) =~= s);
        0
    }
}

proof fn trailing_cut(s: Seq<char>) -> (k: int)
    ensures
        0 <= k <= s.len(),
        drop_trailing(s, Strip::Char('-')) == s.subrange(0, k),
        k > 0 ==> s[k - 1] != '-',
    decreases s.len(),
{
    if s.len() > 0 && s.last() == '-' {
        let k = trailing_cut(s.drop_last());
        assert(s.drop_last().subrange(0, k) =~= s.subrange(0, k));
        k
    } else {
        assert(s.subrange(0, s.len() as int) =~= s);
        s.len() as int
    }
}

/// A slug holds only ASCII letters, digits and separators, has at most sixty characters,
/// neither starts nor ends with a separator, and never holds two separators in a row.
pub proof fn lemma_slug_shape(title: Seq<char>)
    ensures
        slug_body(slug(title)),
        slug(title).len() <= slug_max(),
        slug(title).len() > 0 ==> slug(title)[0] != '-' && slug(title).last() != '-',
{
    let dash = Strip::Char('-');
    let t = translit_all(lowercase(title));
    lemma_translit_all_chars(lowercase(title));
    let c = collapse(t);
    lemma_collapse_shape(t);
    let k1 = leading_cut(c);
    let s1 = drop_leading(c, dash);
    lemma_slug_body_subrange(c, k1, c.len() as int);
    let k2 = trailing_cut(s1);
    let s = drop_trailing(s1, dash);
    lemma_slug_body_subrange(s1, 0, k2);
    if s.len() > 0 {
        assert(s[0] == s1[0]);
        assert(s.last() == s1[k2 - 1]);
    }
    if s.len() > slug_max() {
        let u = s.take(slug_max() as int);
        assert(u =~= s.subrange(0, slug_max() as int));
        lemma_slug_body_subrange(s, 0, slug_max() as int);
        let k3 = trailing_cut(u);
        lemma_slug_body_subrange(u, 0, k3);
        let r = drop_trailing(u, dash);
        if r.len() > 0 {
            assert(r[0] == u[0]);
            assert(u[0] == s[0]);
            assert(r.last() == u[k3 - 1]);
        }
    }
}

fn push_translit(v: &mut Vec<char>, c: char)
    ensures
        final(v)@ == old(v)@ + translit(c),
{
    let ghost before = v@;
    match c {
        'а' => v.push('a'),
        'б' => v.push('b'),
        'в' => v.push('v'),
        'г' => v.push('h'),
        'ґ' => v.push('g'),
        'д' => v.push('d'),
        'е' => v.push('e'),
        'є' => {
            v.push('i');
            v.push('e');
        },
        'ж' => {
            v.push('z');
            v.push('h');
        },
        'з' => v.push('z'),
        'и' => v.push('y'),
        'і' => v.push('i'),
        'ї' => v.push('i'),
        'й' => v.push('i'),
        'к' => v.push('k'),
        'л' => v.push('l'),
        'м' => v.push('m'),
        'н' => v.push('n'),
        'о' => v.push('o'),
        'п' => v.push('p'),
        'р' => v.push('r'),
        'с' => v.push('s'),
        'т' => v.push('t'),
        'у' => v.push('u'),
        'ф' => v.push('f'),
        'х' => {
            v.push('k');
            v.push('h');
        },
        'ц' => {
            v.push('t');
            v.push('s');
        },
        'ч' => {
            v.push('c');
            v.push('h');
        },
        'ш' => {
            v.push('s');
            v.push('h');
        },
        'щ' => {
            v.push('s');
            v.push('h');
            v.push('c');
            v.push('h');
        },
        'ю' => {
            v.push('i');
            v.push('u');
        },
        'я' => {
            v.push('i');
            v.push('a');
        },
        'ы' => v.push('y'),
        'э' => v.push('e'),
        'ь' | 'ъ' | 'ʼ' | '\'' | '’' | '`' => {},
        _ => {
            if is_ascii_alphanumeric(c) {
                v.push(c);
            } else {
                v.push('-');
            }
        },
    }
    assert(v@ =~= before + translit(c));
}

/// Transliterate Ukrainian/Russian Cyrillic to an ASCII slug.
pub fn slugify(input: &str) -> (r: String)
    ensures
        r@ == slug(input@),
        r@.len() <= slug_max(),
{
    let lower = to_lowercase(input);
    let chars = chars_of(lower.as_str());
    let mut out: Vec<char> = Vec::new();
    let mut i: usize = 0;
    while i < chars.len()
        invariant
            i <= chars@.len(),
            out@ == translit_all(chars@.take(i as int)),
        decreases chars@.len() - i,
    {
        push_translit(&mut out, chars[i]);
        proof {
            assert(chars@.take(i + 1).drop_last() =~= chars@.take(i as int));
        }
        i += 1;
    }
    assert(chars@.take(i as int) =~= chars@);
    let mut slug_chars: Vec<char> = Vec::new();
    let mut j: usize = 0;
    while j < out.len()
        invariant
            j <= out@.len(),
            slug_chars@ == collapse(out@.take(j as int)),
        decreases out@.len() - j,
    {
        let c = out[j];
        proof {
            assert(out@.take(j + 1).drop_last() =~= out@.take(j as int));
        }
        if c == '-' {
            if slug_chars.len() > 0 && slug_chars[slug_chars.len() - 1] != '-' {
                slug_chars.push('-');
            }
        } else {
            slug_chars.push(c);
        }
        j += 1;
    }
    assert(out@.take(j as int) =~= out@);
    let dash = Strip::Char('-');
    let (a, b) = strip_bounds(&slug_chars, 0, slug_chars.len(), &dash);
    assert(slug_chars@.subrange(0, slug_chars@.len() as int) =~= slug_chars@);
    let trimmed = slice_vec(&slug_chars, a, b);
    if trimmed.len() <= 60 {
        return string_of(&trimmed);
    }
    let d = trailing_start(&trimmed, 0, 60, &dash);
    proof {
        assert(trimmed@.subrange(0, 60) =~= trimmed@.take(60));
        let t = trimmed@.subrange(0, d as int);
        if t.len() > 0 {
            assert(t.last() == trimmed@[d - 1]);
        }
        lemma_drop_trailing_stops(t, Strip::Char('-'));
    }
    let cut = slice_vec(&trimmed, 0, d);
    string_of(&cut)
}


/// Words of ASCII letters and digits, separated by single spaces, with none at either end.
pub open spec fn spaced_words(w: Seq<char>) -> bool {
    &&& forall|i: int| 0 <= i < w.len() ==> is_ascii_alnum(#[trigger] w[i]) || w[i] == ' '
    &&& w.len() > 0 ==> w[0] != ' ' && w.last() != ' '
    &&& forall|i: int| 0 <= i && i + 1 < w.len() ==> !(#[trigger] w[i] == ' ' && w[i + 1] == ' ')
}

/// `w` with each space turned into a separator.
pub open spec fn spaces_to_dashes(w: Seq<char>) -> Seq<char> {
    w.map_values(|c: char| if c == ' ' { '-' } else { c })
}

proof fn lemma_translit_words(w: Seq<char>)
    requires
        forall|i: int| 0 <= i < w.len() ==> is_ascii_alnum(#[trigger] w[i]) || w[i] == ' ',
    ensures
        translit_all(w) == spaces_to_dashes(w),
    decreases w.len(),
{
    if w.len() > 0 {
        let p = w.drop_last();
        assert forall|i: int| 0 <= i < p.len() implies is_ascii_alnum(#[trigger] p[i]) || p[i] == ' ' by {
            assert(p[i] == w[i]);
        }
        lemma_translit_words(p);
        let c = w.last();
        assert(is_ascii_alnum(w[w.len() - 1]) || w[w.len() - 1] == ' ');
        if c == ' ' {
            assert(translit(c) == seq!['-']);
        } else {
            assert(translit(c) == seq![c]);
        }
        assert(spaces_to_dashes(w) =~= spaces_to_dashes(p) + translit(c));
    }
}

proof fn lemma_collapse_clean(s: Seq<char>)
    requires
        s.len() > 0 ==> s[0] != '-',
        forall|i: int| 0 <= i && i + 1 < s.len() ==> !#[trigger] dash_pair(s, i),
    ensures
        collapse(s) == s,
    decreases s.len(),
{
    if s.len() > 0 {
        let p = s.drop_last();
        assert forall|i: int| 0 <= i && i + 1 < p.len() implies !#[trigger] dash_pair(p, i) by {
            assert(dash_pair(p, i) == dash_pair(s, i));
        }
        if p.len() > 0 {
            assert(p[0] == s[0]);
        }
        lemma_collapse_clean(p);
        if s.last() == '-' {
            assert(s.len() >= 2);
            assert(!dash_pair(s, s.len() - 2));
            assert(p.last() == s[s.len() - 2]);
        }
        assert(s =~= p.push(s.last()));
    }
}

/// Every ASCII letter and digit of a title is kept in its slug, lowercased and in order: a
/// title whose lowercase form is words of ASCII letters and digits separated by single
/// spaces, sixty characters at most, slugs to those words joined by separators.
pub proof fn lemma_slug_keeps_words(title: Seq<char>)
    requires
        spaced_words(lowercase(title)),
        lowercase(title).len() <= slug_max(),
    ensures
        slug(title) == spaces_to_dashes(lowercase(title)),
{
    let w = lowercase(title);
    let m = spaces_to_dashes(w);
    lemma_translit_words(w);
    assert forall|i: int| 0 <= i && i + 1 < m.len() implies !#[trigger] dash_pair(m, i) by {
        assert(!(w[i] == ' ' && w[i + 1] == ' '));
        assert(is_ascii_alnum(w[i]) || w[i] == ' ');
        assert(is_ascii_alnum(w[i + 1]) || w[i + 1] == ' ');
    }
    if m.len() > 0 {
        assert(is_ascii_alnum(w[0]) || w[0] == ' ');
        assert(m[0] != '-');
        assert(is_ascii_alnum(w[w.len() - 1]) || w[w.len() - 1] == ' ');
        assert(m.last() == m[m.len() - 1]);
        assert(m.last() != '-');
    }
    lemma_collapse_clean(m);
    assert(drop_leading(m, Strip::Char('-')) == m);
    lemma_drop_trailing_stops(m, Strip::Char('-'));
}

} // verus!
