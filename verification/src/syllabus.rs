//! The syllabus format: `# Title`, `## Section`, then numbered topic lines.
//!
//! Numbering may be nested — a section can list `1.` as a group heading and `1.1.`, `1.2.`
//! beneath it — so the whole numeric prefix is read, not just its first component. A line
//! that is neither a heading nor numbered continues the previous entry.
use vstd::prelude::*;

use crate::text::{
    chars_eq, chars_of, decimal, digit_char, digits_value, drop_trailing, extend, has_prefix, index_of_char,
    is_ascii_digit, is_digit, lemma_drop_trailing_stops, lines, next_line, push_decimal, slice_vec,
    starts_with, string_of, trailing_start, trim, trim_slice, Strip,
};

verus! {

// ---------------------------------------------------------------------------
// Types
// ---------------------------------------------------------------------------

/// One exam topic, e.g. `demo/2.7`.
pub struct Topic {
    pub id: String,
    pub subject: String,
    /// 1-based index of the owning section within the syllabus file.
    pub section: usize,
    pub section_title: String,
    /// Position within the section, 1-based.
    pub index: usize,
    pub title: String,
    /// Heading of the numbered group a nested topic belongs to.
    pub group: Option<String>,
}

pub struct Section {
    pub index: usize,
    pub title: String,
    pub topics: Vec<Topic>,
}

pub struct Subject {
    /// Syllabus filename without extension, e.g. `demo` for `syllabus/demo.md`.
    pub id: String,
    pub title: String,
    pub sections: Vec<Section>,
}

pub struct TopicV {
    pub id: Seq<char>,
    pub subject: Seq<char>,
    pub section: nat,
    pub section_title: Seq<char>,
    pub index: nat,
    pub title: Seq<char>,
    pub group: Option<Seq<char>>,
}

pub struct SectionV {
    pub index: nat,
    pub title: Seq<char>,
    pub topics: Seq<TopicV>,
}

pub struct SubjectV {
    pub id: Seq<char>,
    pub title: Seq<char>,
    pub sections: Seq<SectionV>,
}

pub open spec fn opt_view(o: Option<String>) -> Option<Seq<char>> {
    match o {
        Some(s) => Some(s@),
        None => None,
    }
}

impl View for Topic {
    type V = TopicV;

    open spec fn view(&self) -> TopicV {
        TopicV {
            id: self.id@,
            subject: self.subject@,
            section: self.section as nat,
            section_title: self.section_title@,
            index: self.index as nat,
            title: self.title@,
            group: opt_view(self.group),
        }
    }
}

pub open spec fn topics_view(v: Seq<Topic>) -> Seq<TopicV> {
    v.map_values(|t: Topic| t@)
}

impl View for Section {
    type V = SectionV;

    open spec fn view(&self) -> SectionV {
        SectionV { index: self.index as nat, title: self.title@, topics: topics_view(self.topics@) }
    }
}

pub open spec fn sections_view(v: Seq<Section>) -> Seq<SectionV> {
    v.map_values(|s: Section| s@)
}

pub proof fn lemma_topics_view_push(v: Seq<Topic>, t: Topic)
    ensures
        topics_view(v.push(t)) == topics_view(v).push(t@),
{
    assert(topics_view(v.push(t)) =~= topics_view(v).push(t@));
}

pub proof fn lemma_sections_view_push(v: Seq<Section>, t: Section)
    ensures
        sections_view(v.push(t)) == sections_view(v).push(t@),
{
    assert(sections_view(v.push(t)) =~= sections_view(v).push(t@));
}

pub proof fn lemma_take_next<A>(v: Seq<A>, i: int)
    requires
        0 <= i < v.len(),
    ensures
        v.take(i + 1) == v.take(i).push(v[i]),
{
    assert(v.take(i + 1) =~= v.take(i).push(v[i]));
}

impl View for Subject {
    type V = SubjectV;

    open spec fn view(&self) -> SubjectV {
        SubjectV { id: self.id@, title: self.title@, sections: sections_view(self.sections@) }
    }
}

pub fn clone_opt_string(o: &Option<String>) -> (r: Option<String>)
    ensures
        opt_view(r) == opt_view(*o),
{
    match o {
        Some(s) => Some(s.clone()),
        None => None,
    }
}

impl Clone for Topic {
    fn clone(&self) -> (r: Self)
        ensures
            r@ == self@,
    {
        Topic {
            id: self.id.clone(),
            subject: self.subject.clone(),
            section: self.section,
            section_title: self.section_title.clone(),
            index: self.index,
            title: self.title.clone(),
            group: clone_opt_string(&self.group),
        }
    }
}

pub fn clone_topics(v: &[Topic]) -> (r: Vec<Topic>)
    ensures
        topics_view(r@) == topics_view(v@),
{
    let mut r: Vec<Topic> = Vec::new();
    let mut i: usize = 0;
    while i < v.len()
        invariant
            i <= v@.len(),
            topics_view(r@) == topics_view(v@.take(i as int)),
        decreases v@.len() - i,
    {
        let t = v[i].clone();
        proof {
            lemma_topics_view_push(r@, t);
            lemma_take_next(v@, i as int);
            lemma_topics_view_push(v@.take(i as int), v@[i as int]);
        }
        r.push(t);
        i += 1;
    }
    assert(v@.take(v@.len() as int) =~= v@);
    r
}

impl Clone for Section {
    fn clone(&self) -> (r: Self)
        ensures
            r@ == self@,
    {
        Section { index: self.index, title: self.title.clone(), topics: clone_topics(&self.topics) }
    }
}

impl Clone for Subject {
    fn clone(&self) -> (r: Self)
        ensures
            r@ == self@,
    {
        let mut sections: Vec<Section> = Vec::new();
        let mut i: usize = 0;
        while i < self.sections.len()
            invariant
                i <= self.sections@.len(),
                sections_view(sections@) == sections_view(self.sections@.take(i as int)),
            decreases self.sections@.len() - i,
        {
            let t = self.sections[i].clone();
            proof {
                lemma_sections_view_push(sections@, t);
                lemma_take_next(self.sections@, i as int);
                lemma_sections_view_push(self.sections@.take(i as int), self.sections@[i as int]);
            }
            sections.push(t);
            i += 1;
        }
        assert(self.sections@.take(self.sections@.len() as int) =~= self.sections@);
        Subject { id: self.id.clone(), title: self.title.clone(), sections }
    }
}

// ---------------------------------------------------------------------------
// Numbered lines
// ---------------------------------------------------------------------------

/// Length of the leading run of ASCII digits and dots.
pub open spec fn number_run(s: Seq<char>) -> nat
    decreases s.len(),
{
    if s.len() > 0 && (is_digit(s[0]) || s[0] == '.') {
        1 + number_run(s.drop_first())
    } else {
        0
    }
}

/// `str::split(c)`: the pieces between occurrences of `c`, empty ones included.
pub open spec fn split_on(s: Seq<char>, c: char) -> Seq<Seq<char>>
    decreases s.len(),
{
    match index_of_char(s, c) {
        Some(i) => if 0 <= i < s.len() {
            seq![s.take(i)] + split_on(s.skip(i + 1), c)
        } else {
            seq![s]
        },
        None => seq![s],
    }
}

/// Whether `usize::from_str` accepts a run of ASCII digits: not empty, and small enough.
pub open spec fn parses_as_usize(part: Seq<char>) -> bool {
    &&& part.len() > 0
    &&& forall|i: int| 0 <= i < part.len() ==> is_digit(#[trigger] part[i])
    &&& digits_value(part) <= usize::MAX
}

/// The numbers of a dotted prefix such as `1.3`, if every piece is a number.
pub open spec fn dotted_numbers(s: Seq<char>) -> Option<Seq<nat>> {
    let parts = split_on(s, '.');
    if forall|i: int| 0 <= i < parts.len() ==> parses_as_usize(#[trigger] parts[i]) {
        Some(parts.map_values(|p: Seq<char>| digits_value(p)))
    } else {
        None
    }
}

/// `"12. Текст"` gives `([12], "Текст")`, `"1.3. Текст"` gives `([1, 3], "Текст")`.
///
/// The numeric prefix must end in a dot, so a line that merely opens with a number is not
/// taken for a list item; the text after it must not be blank.
pub open spec fn numbered(line: Seq<char>) -> Option<(Seq<nat>, Seq<char>)> {
    let end = number_run(line);
    let prefix = line.take(end as int);
    let text = trim(line.skip(end as int));
    if end == 0 || prefix.last() != '.' || text.len() == 0 {
        None
    } else {
        match dotted_numbers(drop_trailing(prefix, Strip::Char('.'))) {
            Some(path) => if path.len() == 0 {
                None
            } else {
                Some((path, text))
            },
            None => None,
        }
    }
}

proof fn lemma_number_run(s: Seq<char>, k: int)
    requires
        0 <= k <= s.len(),
        forall|j: int| 0 <= j < k ==> is_digit(#[trigger] s[j]) || s[j] == '.',
        k == s.len() || !(is_digit(s[k]) || s[k] == '.'),
    ensures
        number_run(s) == k,
    decreases k,
{
    if k > 0 {
        assert forall|j: int| 0 <= j < k - 1 implies is_digit(#[trigger] s.drop_first()[j])
            || s.drop_first()[j] == '.' by {
            assert(s.drop_first()[j] == s[j + 1]);
        }
        lemma_number_run(s.drop_first(), k - 1);
    }
}

proof fn lemma_split_last(t: Seq<char>, c: char)
    requires
        forall|j: int| 0 <= j < t.len() ==> t[j] != c,
    ensures
        split_on(t, c) == seq![t],
{
    crate::text::lemma_index_of_char(t, c, t.len() as int);
    if exists|i: int| 0 <= i < t.len() && t[i] == c {
        let i = choose|i: int| 0 <= i < t.len() && t[i] == c;
        assert(t[i] != c);
    }
}

proof fn lemma_split_step(t: Seq<char>, c: char, i: int)
    requires
        0 <= i < t.len(),
        t[i] == c,
        forall|j: int| 0 <= j < i ==> t[j] != c,
    ensures
        split_on(t, c) == seq![t.take(i)] + split_on(t.skip(i + 1), c),
{
    crate::text::lemma_index_of_char(t, c, i);
}

/// Parses the digits of `s[a..b]` as a `usize`, the way `str::parse::<usize>` does.
fn parse_usize(s: &[char], a: usize, b: usize) -> (r: Option<usize>)
    requires
        a <= b <= s@.len(),
        forall|j: int| a <= j < b ==> is_digit(#[trigger] s@[j]),
    ensures
        r matches Some(n) ==> parses_as_usize(s@.subrange(a as int, b as int)) && n as nat
            == digits_value(s@.subrange(a as int, b as int)),
        r is None ==> !parses_as_usize(s@.subrange(a as int, b as int)),
{
    if a == b {
        return None;
    }
    let mut value: usize = 0;
    let mut i = a;
    while i < b
        invariant
            a <= i <= b <= s@.len(),
            forall|j: int| a <= j < b ==> is_digit(#[trigger] s@[j]),
            value as nat == digits_value(s@.subrange(a as int, i as int)),
        decreases b - i,
    {
        let d = (s[i] as u32 - '0' as u32) as usize;
        assert(s@.subrange(a as int, i + 1).drop_last() =~= s@.subrange(a as int, i as int));
        let next = value.checked_mul(10);
        match next {
            Some(m) => {
                match m.checked_add(d) {
                    Some(n) => {
                        value = n;
                    },
                    None => {
                        proof {
                            lemma_digits_grow(s@.subrange(a as int, b as int), (i + 1 - a) as int);
                            assert(s@.subrange(a as int, b as int).take(i + 1 - a) =~= s@.subrange(
                                a as int,
                                i + 1,
                            ));
                        }
                        return None;
                    },
                }
            },
            None => {
                proof {
                    lemma_digits_grow(s@.subrange(a as int, b as int), (i + 1 - a) as int);
                    assert(s@.subrange(a as int, b as int).take(i + 1 - a) =~= s@.subrange(
                        a as int,
                        i + 1,
                    ));
                }
                return None;
            },
        }
        i += 1;
    }
    Some(value)
}

/// A longer run of digits is worth at least as much as its prefix.
proof fn lemma_digits_grow(s: Seq<char>, k: int)
    requires
        0 <= k <= s.len(),
    ensures
        digits_value(s.take(k)) <= digits_value(s),
    decreases s.len() - k,
{
    if k < s.len() {
        lemma_digits_grow(s.drop_last(), k);
        assert(s.drop_last().take(k) =~= s.take(k));
    } else {
        assert(s.take(k) =~= s);
    }
}

#[verifier::rlimit(40)]
proof fn lemma_split_range(s: Seq<char>, start: int, end: int, b: int)
    requires
        0 <= start <= end <= b <= s.len(),
        forall|j: int| start <= j < end ==> s[j] != '.',
        end == b || s[end] == '.',
    ensures
        end == b ==> split_on(s.subrange(start, b), '.') == seq![s.subrange(start, end)],
        end < b ==> split_on(s.subrange(start, b), '.') == seq![s.subrange(start, end)] + split_on(
            s.subrange(end + 1, b),
            '.',
        ),
{
    let rest = s.subrange(start, b);
    if end == b {
        assert forall|j: int| 0 <= j < rest.len() implies rest[j] != '.' by {
            assert(rest[j] == s[start + j]);
        }
        lemma_split_last(rest, '.');
        assert(rest =~= s.subrange(start, end));
    } else {
        assert forall|j: int| 0 <= j < end - start implies rest[j] != '.' by {
            assert(rest[j] == s[start + j]);
        }
        assert(rest[end - start] == s[end]);
        lemma_split_step(rest, '.', end - start);
        assert(rest.take(end - start) =~= s.subrange(start, end));
        assert(rest.skip(end - start + 1) =~= s.subrange(end + 1, b));
    }
}

/// The dotted numbers of `s[a..b]`, one per piece between dots.
#[verifier::rlimit(60)]
fn dotted_numbers_of(s: &[char], a: usize, b: usize) -> (r: Option<Vec<usize>>)
    requires
        a <= b <= s@.len(),
        forall|j: int| a <= j < b ==> is_digit(#[trigger] s@[j]) || s@[j] == '.',
    ensures
        match dotted_numbers(s@.subrange(a as int, b as int)) {
            Some(p) => r matches Some(v) && v@.len() == p.len() && forall|i: int|
                0 <= i < p.len() ==> v@[i] as nat == #[trigger] p[i],
            None => r is None,
        },
{
    let mut out: Vec<usize> = Vec::new();
    let mut start = a;
    let ghost whole = s@.subrange(a as int, b as int);
    let ghost mut done: Seq<Seq<char>> = seq![];
    proof {
        assert(done + split_on(whole, '.') =~= split_on(whole, '.'));
    }
    loop
        invariant
            a <= start <= b <= s@.len(),
            forall|j: int| a <= j < b ==> is_digit(#[trigger] s@[j]) || s@[j] == '.',
            whole == s@.subrange(a as int, b as int),
            split_on(whole, '.') == done + split_on(s@.subrange(start as int, b as int), '.'),
            forall|i: int| 0 <= i < done.len() ==> parses_as_usize(#[trigger] done[i]),
            out@.len() == done.len(),
            forall|i: int| 0 <= i < done.len() ==> out@[i] as nat == digits_value(#[trigger] done[i]),
        decreases b - start,
    {
        let mut end = start;
        while end < b && s[end] != '.'
            invariant
                start <= end <= b <= s@.len(),
                forall|j: int| start <= j < end ==> s@[j] != '.',
            decreases b - end,
        {
            end += 1;
        }
        proof {
            assert forall|j: int| start <= j < end implies is_digit(#[trigger] s@[j]) by {
                assert(is_digit(s@[j]) || s@[j] == '.');
            }
            lemma_split_range(s@, start as int, end as int, b as int);
        }
        let n = parse_usize(s, start, end);
        let piece = Ghost(s@.subrange(start as int, end as int));
        match n {
            Some(v) => {
                out.push(v);
                proof {
                    done = done.push(piece@);
                }
                if end == b {
                    proof {
                        assert(split_on(whole, '.') =~= done);
                    }
                    return Some(out);
                }
                proof {
                    assert(split_on(whole, '.') =~= done + split_on(
                        s@.subrange(end + 1, b as int),
                        '.',
                    ));
                }
                start = end + 1;
            },
            None => {
                proof {
                    let parts = split_on(whole, '.');
                    assert(parts[done.len() as int] == piece@);
                }
                return None;
            },
        }
    }
}

/// Splits a numbered line into its number path and its text; `None` when the line is not a
/// list item.
pub fn split_numbered(line: &str) -> (r: Option<(Vec<usize>, String)>)
    ensures
        match numbered(line@) {
            Some((path, text)) => r matches Some((v, t)) && t@ == text && v@.len() == path.len()
                && forall|i: int| 0 <= i < path.len() ==> v@[i] as nat == #[trigger] path[i],
            None => r is None,
        },
{
    let chars = chars_of(line);
    match split_numbered_chars(&chars) {
        Some((path, text)) => Some((path, string_of(&text))),
        None => None,
    }
}

/// [`split_numbered`] over characters.
pub fn split_numbered_chars(line: &[char]) -> (r: Option<(Vec<usize>, Vec<char>)>)
    ensures
        match numbered(line@) {
            Some((path, text)) => r matches Some((v, t)) && t@ == text && v@.len() == path.len()
                && forall|i: int| 0 <= i < path.len() ==> v@[i] as nat == #[trigger] path[i],
            None => r is None,
        },
{
    let mut end: usize = 0;
    while end < line.len() && (is_ascii_digit(line[end]) || line[end] == '.')
        invariant
            end <= line@.len(),
            forall|j: int| 0 <= j < end ==> is_digit(#[trigger] line@[j]) || line@[j] == '.',
        decreases line@.len() - end,
    {
        end += 1;
    }
    proof {
        lemma_number_run(line@, end as int);
    }
    if end == 0 || line[end - 1] != '.' {
        return None;
    }
    assert(line@.take(end as int).last() == line@[end - 1]);
    let text = trim_slice(line, end, line.len());
    assert(line@.subrange(end as int, line@.len() as int) =~= line@.skip(end as int));
    if text.len() == 0 {
        return None;
    }
    let k = trailing_start(line, 0, end, &Strip::Char('.'));
    proof {
        assert(line@.subrange(0, end as int) =~= line@.take(end as int));
        let t = line@.subrange(0, k as int);
        if t.len() > 0 {
            assert(t.last() == line@[k - 1]);
        }
        lemma_drop_trailing_stops(t, Strip::Char('.'));
    }
    let path = dotted_numbers_of(line, 0, k);
    match path {
        Some(p) => {
            if p.len() == 0 {
                None
            } else {
                Some((p, text))
            }
        },
        None => None,
    }
}

// ---------------------------------------------------------------------------
// Grouping numbered lines into topics
// ---------------------------------------------------------------------------

/// One numbered line, before it is known to be a topic or a group heading.
pub struct RawItem {
    pub depth: usize,
    pub text: Vec<char>,
}

pub struct RawItemV {
    pub depth: nat,
    pub text: Seq<char>,
}

impl View for RawItem {
    type V = RawItemV;

    open spec fn view(&self) -> RawItemV {
        RawItemV { depth: self.depth as nat, text: self.text@ }
    }
}

pub open spec fn items_view(v: Seq<RawItem>) -> Seq<RawItemV> {
    v.map_values(|i: RawItem| i@)
}

/// How many items at the front are nested below the top level.
pub open spec fn nested_run(items: Seq<RawItemV>) -> nat
    decreases items.len(),
{
    if items.len() > 0 && items[0].depth > 1 {
        1 + nested_run(items.drop_first())
    } else {
        0
    }
}

pub proof fn lemma_nested_run_len(items: Seq<RawItemV>)
    ensures
        nested_run(items) <= items.len(),
    decreases items.len(),
{
    if items.len() > 0 && items[0].depth > 1 {
        lemma_nested_run_len(items.drop_first());
    }
}

/// The topics of a section, in order, each with the group heading it sits under.
///
/// A top-level line immediately followed by deeper ones is a group heading, not a topic:
/// it is recorded on each of the deeper lines that follow it instead.
pub open spec fn grouped(items: Seq<RawItemV>) -> Seq<(Option<Seq<char>>, Seq<char>)>
    decreases items.len(),
{
    if items.len() == 0 {
        seq![]
    } else if items[0].depth == 1 && items.len() > 1 && items[1].depth > 1 {
        let k = nested_run(items.drop_first());
        proof {
            lemma_nested_run_len(items.drop_first());
        }
        items.subrange(1, 1 + k as int).map_values(
            |c: RawItemV| (Some(items[0].text), c.text),
        ) + grouped(items.skip(1 + k as int))
    } else {
        seq![(None::<Seq<char>>, items[0].text)] + grouped(items.drop_first())
    }
}

/// `<subject>/<section>.<position>`.
pub open spec fn topic_id(subject_id: Seq<char>, section: nat, position: nat) -> Seq<char> {
    subject_id + seq!['/'] + decimal(section) + seq!['.'] + decimal(position)
}

pub open spec fn topic_at(
    subject_id: Seq<char>,
    section: SectionV,
    position: int,
    entry: (Option<Seq<char>>, Seq<char>),
) -> TopicV {
    TopicV {
        id: topic_id(subject_id, section.index, (position + 1) as nat),
        subject: subject_id,
        section: section.index,
        section_title: section.title,
        index: (position + 1) as nat,
        title: entry.1,
        group: entry.0,
    }
}

/// The topics a section's numbered lines produce, numbered by position from 1.
pub open spec fn section_topics(
    subject_id: Seq<char>,
    section: SectionV,
    items: Seq<RawItemV>,
) -> Seq<TopicV> {
    grouped(items).map(|p: int, e: (Option<Seq<char>>, Seq<char>)| topic_at(subject_id, section, p, e))
}

proof fn lemma_nested_run(items: Seq<RawItemV>, k: int)
    requires
        0 <= k <= items.len(),
        forall|j: int| 0 <= j < k ==> #[trigger] items[j].depth > 1,
        k == items.len() || items[k].depth <= 1,
    ensures
        nested_run(items) == k,
    decreases k,
{
    if k > 0 {
        assert forall|j: int| 0 <= j < k - 1 implies #[trigger] items.drop_first()[j].depth > 1 by {
            assert(items.drop_first()[j] == items[j + 1]);
        }
        lemma_nested_run(items.drop_first(), k - 1);
    }
}

/// Group the numbered lines of a section, as [`grouped`] describes.
fn group_items(items: &Vec<RawItem>) -> (r: Vec<(Option<Vec<char>>, Vec<char>)>)
    ensures
        r@.len() == grouped(items_view(items@)).len(),
        forall|i: int|
            0 <= i < r@.len() ==> {
                let e = #[trigger] grouped(items_view(items@))[i];
                &&& r@[i].1@ == e.1
                &&& match r@[i].0 {
                    Some(g) => e.0 == Some(g@),
                    None => e.0 is None,
                }
            },
{
    let ghost all = items_view(items@);
    let ghost mut done: Seq<(Option<Seq<char>>, Seq<char>)> = seq![];
    let mut out: Vec<(Option<Vec<char>>, Vec<char>)> = Vec::new();
    let mut index: usize = 0;
    proof {
        assert(all.skip(0) =~= all);
        assert(done + grouped(all) =~= grouped(all));
    }
    while index < items.len()
        invariant
            all == items_view(items@),
            index <= items@.len(),
            done + grouped(all.skip(index as int)) == grouped(all),
            out@.len() == done.len(),
            forall|i: int|
                0 <= i < out@.len() ==> {
                    let e = #[trigger] done[i];
                    &&& out@[i].1@ == e.1
                    &&& match out@[i].0 {
                        Some(g) => e.0 == Some(g@),
                        None => e.0 is None,
                    }
                },
        decreases items@.len() - index,
    {
        let ghost rest = all.skip(index as int);
        assert(rest[0] == items@[index as int]@);
        let has_children = index + 1 < items.len() && items[index + 1].depth > items[index].depth;
        if items[index].depth == 1 && has_children {
            assert(rest[1] == items@[index + 1]@);
            let group = slice_vec(&items[index].text, 0, items[index].text.len());
            assert(group@ =~= items@[index as int].text@);
            let first = index + 1;
            index += 1;
            while index < items.len() && items[index].depth > 1
                invariant
                    all == items_view(items@),
                    first <= index <= items@.len(),
                    first >= 1,
                    rest == all.skip(first - 1),
                    group@ == rest[0].text,
                    forall|j: int| first <= j < index ==> #[trigger] items@[j].depth > 1,
                    out@.len() == done.len() + (index - first),
                    forall|i: int|
                        0 <= i < done.len() ==> {
                            let e = #[trigger] done[i];
                            &&& out@[i].1@ == e.1
                            &&& match out@[i].0 {
                                Some(g) => e.0 == Some(g@),
                                None => e.0 is None,
                            }
                        },
                    forall|i: int|
                        done.len() <= i < out@.len() ==> {
                            &&& (#[trigger] out@[i]).1@ == items@[first + (i - done.len())].text@
                            &&& out@[i].0 matches Some(g) && g@ == group@
                        },
                decreases items@.len() - index,
            {
                let text = slice_vec(&items[index].text, 0, items[index].text.len());
                assert(text@ =~= items@[index as int].text@);
                let g = slice_vec(&group, 0, group.len());
                assert(g@ =~= group@);
                out.push((Some(g), text));
                index += 1;
            }
            proof {
                let tail = rest.drop_first();
                let k = index - first;
                assert forall|j: int| 0 <= j < k implies #[trigger] tail[j].depth > 1 by {
                    assert(tail[j] == items@[first + j]@);
                }
                if index < items@.len() {
                    assert(tail[k] == items@[index as int]@);
                }
                lemma_nested_run(tail, k);
                let piece = rest.subrange(1, 1 + k).map_values(
                    |c: RawItemV| (Some(rest[0].text), c.text),
                );
                assert(grouped(rest) == piece + grouped(rest.skip(1 + k)));
                assert(rest.skip(1 + k) =~= all.skip(index as int));
                let old_done = done;
                done = done + piece;
                assert(done + grouped(all.skip(index as int)) =~= old_done + (piece + grouped(
                    rest.skip(1 + k),
                )));
                assert forall|i: int| 0 <= i < out@.len() implies {
                    let e = #[trigger] done[i];
                    &&& out@[i].1@ == e.1
                    &&& match out@[i].0 {
                        Some(g) => e.0 == Some(g@),
                        None => e.0 is None,
                    }
                } by {
                    if i >= old_done.len() {
                        assert(done[i] == piece[i - old_done.len()]);
                        assert(rest.subrange(1, 1 + k)[i - old_done.len()] == items@[first + (i
                            - old_done.len())]@);
                    }
                }
            }
        } else {
            let text = slice_vec(&items[index].text, 0, items[index].text.len());
            assert(text@ =~= items@[index as int].text@);
            out.push((None, text));
            proof {
                if rest.len() > 1 {
                    assert(rest[1] == items@[index + 1]@);
                }
                let old_done = done;
                done = done.push((None::<Seq<char>>, rest[0].text));
                assert(rest.drop_first() =~= all.skip(index + 1));
                assert(done + grouped(all.skip(index + 1)) =~= old_done + grouped(rest));
            }
            index += 1;
        }
    }
    proof {
        assert(all.skip(index as int) =~= Seq::<RawItemV>::empty());
        assert(done =~= grouped(all));
    }
    out
}

/// Builds the id `<subject>/<section>.<position>`.
fn make_topic_id(subject_id: &[char], section: usize, position: usize) -> (r: String)
    ensures
        r@ == topic_id(subject_id@, section as nat, position as nat),
{
    let mut v = slice_vec(subject_id, 0, subject_id.len());
    assert(v@ =~= subject_id@);
    v.push('/');
    push_decimal(&mut v, section as u64);
    v.push('.');
    push_decimal(&mut v, position as u64);
    assert(v@ =~= topic_id(subject_id@, section as nat, position as nat));
    string_of(&v)
}

/// Turn the numbered lines of a section into its topics.
pub fn flatten(subject_id: &[char], section: &Section, items: &Vec<RawItem>) -> (r: Vec<Topic>)
    ensures
        topics_view(r@) == section_topics(subject_id@, section@, items_view(items@)),
{
    let collected = group_items(items);
    let ghost g = grouped(items_view(items@));
    let mut topics: Vec<Topic> = Vec::new();
    let mut position: usize = 0;
    while position < collected.len()
        invariant
            position <= collected@.len(),
            collected@.len() == g.len(),
            g == grouped(items_view(items@)),
            forall|i: int|
                0 <= i < collected@.len() ==> {
                    let e = #[trigger] g[i];
                    &&& collected@[i].1@ == e.1
                    &&& match collected@[i].0 {
                        Some(gr) => e.0 == Some(gr@),
                        None => e.0 is None,
                    }
                },
            topics_view(topics@) == section_topics(subject_id@, section@, items_view(items@)).take(
                position as int,
            ),
        decreases collected@.len() - position,
    {
        let entry = &collected[position];
        let group = match &entry.0 {
            Some(gr) => Some(string_of(gr)),
            None => None,
        };
        let topic = Topic {
            id: make_topic_id(subject_id, section.index, position + 1),
            subject: string_of(subject_id),
            section: section.index,
            section_title: section.title.clone(),
            index: position + 1,
            title: string_of(&entry.1),
            group,
        };
        proof {
            let all = section_topics(subject_id@, section@, items_view(items@));
            assert(topic@ == topic_at(subject_id@, section@, position as int, g[position as int]));
            assert(all[position as int] == topic@);
            lemma_topics_view_push(topics@, topic);
            lemma_take_next(all, position as int);
        }
        topics.push(topic);
        position += 1;
    }
    assert(section_topics(subject_id@, section@, items_view(items@)).take(position as int)
        =~= section_topics(subject_id@, section@, items_view(items@)));
    topics
}

// ---------------------------------------------------------------------------
// The whole file
// ---------------------------------------------------------------------------

/// What the parser has read so far: the subject title, the sections opened, and the
/// numbered lines of the section still open.
pub struct ParseState {
    pub title: Seq<char>,
    pub sections: Seq<SectionV>,
    pub pending: Seq<RawItemV>,
}

/// The open section with its topics filled in from the pending lines.
pub open spec fn close_last(subject_id: Seq<char>, st: ParseState) -> Seq<SectionV> {
    if st.sections.len() > 0 {
        let last = st.sections.last();
        st.sections.update(
            st.sections.len() - 1,
            SectionV { topics: section_topics(subject_id, last, st.pending), ..last },
        )
    } else {
        st.sections
    }
}

pub open spec fn heading2() -> Seq<char> {
    seq!['#', '#', ' ']
}

pub open spec fn heading1() -> Seq<char> {
    seq!['#', ' ']
}

/// What one line of the file does to the parser.
pub open spec fn parse_line(subject_id: Seq<char>, st: ParseState, line: Seq<char>) -> ParseState {
    let t = trim(line);
    if t.len() == 0 {
        st
    } else if starts_with(t, heading2()) {
        ParseState {
            title: st.title,
            sections: close_last(subject_id, st).push(
                SectionV {
                    index: st.sections.len() + 1,
                    title: trim(t.skip(3)),
                    topics: seq![],
                },
            ),
            pending: if st.sections.len() > 0 {
                seq![]
            } else {
                st.pending
            },
        }
    } else if starts_with(t, heading1()) {
        ParseState { title: trim(t.skip(2)), ..st }
    } else if t[0] == '#' {
        st
    } else if st.sections.len() == 0 {
        st
    } else {
        match numbered(t) {
            Some((path, text)) => ParseState {
                pending: st.pending.push(RawItemV { depth: path.len(), text }),
                ..st
            },
            None => if st.pending.len() > 0 {
                let last = st.pending.last();
                ParseState {
                    pending: st.pending.update(
                        st.pending.len() - 1,
                        RawItemV { text: last.text + seq![' '] + t, ..last },
                    ),
                    ..st
                }
            } else {
                st
            },
        }
    }
}

pub open spec fn parse_lines(subject_id: Seq<char>, st: ParseState, ls: Seq<Seq<char>>) -> ParseState
    decreases ls.len(),
{
    if ls.len() == 0 {
        st
    } else {
        parse_lines(subject_id, parse_line(subject_id, st, ls[0]), ls.drop_first())
    }
}

/// The subject a syllabus file describes. The title defaults to the subject id; text before
/// the first `##` section is ignored.
pub open spec fn parse_syllabus(subject_id: Seq<char>, raw: Seq<char>) -> SubjectV {
    let st = parse_lines(
        subject_id,
        ParseState { title: subject_id, sections: seq![], pending: seq![] },
        lines(raw),
    );
    SubjectV { id: subject_id, title: st.title, sections: close_last(subject_id, st) }
}

/// Section `sec`, at position `i` of its file, is numbered as its place says: index `i + 1`,
/// and its `j`-th topic has index `j + 1`, belongs to section `i + 1` of `subject_id` under
/// the section's title, and has the id `<subject_id>/<i + 1>.<j + 1>`.
pub open spec fn numbered_section(subject_id: Seq<char>, sec: SectionV, i: int) -> bool {
    &&& sec.index == i + 1
    &&& forall|j: int|
        0 <= j < sec.topics.len() ==> {
            let t = #[trigger] sec.topics[j];
            &&& t.index == j + 1
            &&& t.section == i + 1
            &&& t.subject == subject_id
            &&& t.section_title == sec.title
            &&& t.id == topic_id(subject_id, (i + 1) as nat, (j + 1) as nat)
        }
}

pub open spec fn numbered_sections(subject_id: Seq<char>, ss: Seq<SectionV>) -> bool {
    forall|i: int| 0 <= i < ss.len() ==> numbered_section(subject_id, #[trigger] ss[i], i)
}

spec fn numbered_state(subject_id: Seq<char>, st: ParseState) -> bool {
    &&& numbered_sections(subject_id, st.sections)
    &&& st.sections.len() > 0 ==> st.sections.last().topics.len() == 0
}

proof fn lemma_section_topics_numbered(subject_id: Seq<char>, sec: SectionV, items: Seq<RawItemV>, i: int)
    requires
        sec.index == i + 1,
        i >= 0,
    ensures
        numbered_section(subject_id, SectionV { topics: section_topics(subject_id, sec, items), ..sec }, i),
{
    let ts = section_topics(subject_id, sec, items);
    assert forall|j: int| 0 <= j < ts.len() implies {
        let t = #[trigger] ts[j];
        &&& t.index == j + 1
        &&& t.section == i + 1
        &&& t.subject == subject_id
        &&& t.section_title == sec.title
        &&& t.id == topic_id(subject_id, (i + 1) as nat, (j + 1) as nat)
    } by {
        assert(ts[j] == topic_at(subject_id, sec, j, grouped(items)[j]));
    }
}

proof fn lemma_close_last_numbered(subject_id: Seq<char>, st: ParseState)
    requires
        numbered_sections(subject_id, st.sections),
    ensures
        numbered_sections(subject_id, close_last(subject_id, st)),
        close_last(subject_id, st).len() == st.sections.len(),
{
    let ss = close_last(subject_id, st);
    if st.sections.len() > 0 {
        let n = st.sections.len() - 1;
        let last = st.sections.last();
        assert(numbered_section(subject_id, st.sections[n], n));
        lemma_section_topics_numbered(subject_id, last, st.pending, n);
        assert forall|i: int| 0 <= i < ss.len() implies numbered_section(subject_id, #[trigger] ss[i], i) by {
            if i < n {
                assert(ss[i] == st.sections[i]);
            }
        }
    }
}

proof fn lemma_parse_line_numbered(subject_id: Seq<char>, st: ParseState, line: Seq<char>)
    requires
        numbered_state(subject_id, st),
    ensures
        numbered_state(subject_id, parse_line(subject_id, st, line)),
{
    let t = trim(line);
    if t.len() > 0 && starts_with(t, heading2()) {
        lemma_close_last_numbered(subject_id, st);
        let closed = close_last(subject_id, st);
        let ss = parse_line(subject_id, st, line).sections;
        assert(ss == closed.push(SectionV { index: st.sections.len() + 1, title: trim(t.skip(3)), topics: seq![] }));
        assert forall|i: int| 0 <= i < ss.len() implies numbered_section(subject_id, #[trigger] ss[i], i) by {
            if i < closed.len() {
                assert(ss[i] == closed[i]);
            }
        }
    }
}

proof fn lemma_parse_lines_numbered(subject_id: Seq<char>, st: ParseState, ls: Seq<Seq<char>>)
    requires
        numbered_state(subject_id, st),
    ensures
        numbered_state(subject_id, parse_lines(subject_id, st, ls)),
    decreases ls.len(),
{
    if ls.len() > 0 {
        lemma_parse_line_numbered(subject_id, st, ls[0]);
        lemma_parse_lines_numbered(subject_id, parse_line(subject_id, st, ls[0]), ls.drop_first());
    }
}

/// A parsed syllabus is numbered by place: it keeps the subject id, section `i` has index
/// `i + 1`, and its `j`-th topic has index `j + 1`, section `i + 1`, the subject id, the
/// section's title, and the id `<subject_id>/<i + 1>.<j + 1>`.
pub proof fn lemma_parse_numbers_by_place(subject_id: Seq<char>, raw: Seq<char>)
    ensures
        parse_syllabus(subject_id, raw).id == subject_id,
        numbered_sections(subject_id, parse_syllabus(subject_id, raw).sections),
{
    let st0 = ParseState { title: subject_id, sections: seq![], pending: seq![] };
    lemma_parse_lines_numbered(subject_id, st0, lines(raw));
    lemma_close_last_numbered(subject_id, parse_lines(subject_id, st0, lines(raw)));
}

proof fn lemma_decimal_digits(n: nat)
    ensures
        decimal(n).len() >= 1,
        n >= 10 ==> decimal(n).len() >= 2,
        forall|k: int| 0 <= k < decimal(n).len() ==> is_digit(#[trigger] decimal(n)[k]),
    decreases n,
{
    if n >= 10 {
        lemma_decimal_digits(n / 10);
        let d = decimal(n / 10);
        assert forall|k: int| 0 <= k < decimal(n).len() implies is_digit(#[trigger] decimal(n)[k]) by {
            if k < d.len() {
                assert(decimal(n)[k] == d[k]);
            }
        }
    }
}

proof fn lemma_digit_char_injective(d: nat, e: nat)
    requires
        d < 10,
        e < 10,
        digit_char(d) == digit_char(e),
    ensures
        d == e,
{
}

proof fn lemma_decimal_injective(n: nat, m: nat)
    requires
        decimal(n) == decimal(m),
    ensures
        n == m,
    decreases n,
{
    lemma_decimal_digits(n);
    lemma_decimal_digits(m);
    if n >= 10 && m >= 10 {
        assert(decimal(n).drop_last() == decimal(n / 10));
        assert(decimal(m).drop_last() == decimal(m / 10));
        lemma_decimal_injective(n / 10, m / 10);
        assert(decimal(n).last() == digit_char(n % 10));
        assert(decimal(m).last() == digit_char(m % 10));
        lemma_digit_char_injective(n % 10, m % 10);
    } else {
        assert(decimal(n).len() == decimal(m).len());
        assert(n < 10 && m < 10);
        assert(decimal(n)[0] == decimal(m)[0]);
        assert(decimal(n) == seq![digit_char(n)]);
        assert(decimal(m) == seq![digit_char(m)]);
        assert(decimal(n)[0] == digit_char(n));
        assert(decimal(m)[0] == digit_char(m));
        lemma_digit_char_injective(n, m);
    }
}

proof fn lemma_topic_id_injective(subject_id: Seq<char>, a: nat, b: nat, c: nat, d: nat)
    requires
        topic_id(subject_id, a, b) == topic_id(subject_id, c, d),
    ensures
        a == c && b == d,
{
    lemma_decimal_digits(a);
    lemma_decimal_digits(b);
    lemma_decimal_digits(c);
    lemma_decimal_digits(d);
    let k = subject_id.len() + 1int;
    let x = decimal(a) + seq!['.'] + decimal(b);
    let y = decimal(c) + seq!['.'] + decimal(d);
    assert(topic_id(subject_id, a, b) =~= (subject_id + seq!['/']) + x);
    assert(topic_id(subject_id, c, d) =~= (subject_id + seq!['/']) + y);
    assert(x =~= topic_id(subject_id, a, b).skip(k));
    assert(y =~= topic_id(subject_id, c, d).skip(k));
    assert(x == y);
    let la = decimal(a).len() as int;
    let lc = decimal(c).len() as int;
    if la < lc {
        assert(x[la] == '.');
        assert(y[la] == decimal(c)[la]);
        assert(is_digit(decimal(c)[la]));
    } else if lc < la {
        assert(y[lc] == '.');
        assert(x[lc] == decimal(a)[lc]);
        assert(is_digit(decimal(a)[lc]));
    }
    assert(decimal(a) =~= x.take(la));
    assert(decimal(c) =~= y.take(lc));
    assert(decimal(b) =~= x.skip(la + 1));
    assert(decimal(d) =~= y.skip(lc + 1));
    lemma_decimal_injective(a, c);
    lemma_decimal_injective(b, d);
}

/// No two topics of a parsed syllabus share an id.
pub proof fn lemma_parsed_topic_ids_distinct(subject_id: Seq<char>, raw: Seq<char>, i1: int, j1: int, i2: int, j2: int)
    requires
        0 <= i1 < parse_syllabus(subject_id, raw).sections.len(),
        0 <= i2 < parse_syllabus(subject_id, raw).sections.len(),
        0 <= j1 < parse_syllabus(subject_id, raw).sections[i1].topics.len(),
        0 <= j2 < parse_syllabus(subject_id, raw).sections[i2].topics.len(),
        i1 != i2 || j1 != j2,
    ensures
        parse_syllabus(subject_id, raw).sections[i1].topics[j1].id != parse_syllabus(subject_id, raw).sections[
            i2
        ].topics[j2].id,
{
    lemma_parse_numbers_by_place(subject_id, raw);
    let ss = parse_syllabus(subject_id, raw).sections;
    assert(numbered_section(subject_id, ss[i1], i1));
    assert(numbered_section(subject_id, ss[i2], i2));
    let t1 = ss[i1].topics[j1];
    let t2 = ss[i2].topics[j2];
    if t1.id == t2.id {
        lemma_topic_id_injective(subject_id, (i1 + 1) as nat, (j1 + 1) as nat, (i2 + 1) as nat, (j2 + 1) as nat);
    }
}

pub open spec fn state_of(title: Seq<char>, sections: Seq<Section>, pending: Seq<RawItem>) -> ParseState {
    ParseState { title, sections: sections_view(sections), pending: items_view(pending) }
}

proof fn lemma_parse_lines_split(subject_id: Seq<char>, st: ParseState, ls: Seq<Seq<char>>)
    requires
        ls.len() > 0,
    ensures
        parse_lines(subject_id, st, ls) == parse_lines(
            subject_id,
            parse_line(subject_id, st, ls[0]),
            ls.drop_first(),
        ),
{
}

/// Fills the open section's topics from the pending lines, leaving no pending lines.
fn close_section(subject_id: &[char], sections: &mut Vec<Section>, pending: &mut Vec<RawItem>)
    requires
        old(sections)@.len() > 0,
    ensures
        sections_view(final(sections)@) == close_last(
            subject_id@,
            state_of(Seq::empty(), old(sections)@, old(pending)@),
        ),
        final(pending)@.len() == 0,
{
    let mut items: Vec<RawItem> = Vec::new();
    std::mem::swap(&mut items, pending);
    let mut last = sections.pop().unwrap();
    let topics = flatten(subject_id, &last, &items);
    last.topics = topics;
    sections.push(last);
    proof {
        let st = state_of(Seq::empty(), old(sections)@, old(pending)@);
        assert(sections_view(sections@) =~= close_last(subject_id@, st));
    }
}

/// Apply one line (`s[a..b]`) to the parser state.
fn parse_one(
    subject_id: &[char],
    title: &mut Vec<char>,
    sections: &mut Vec<Section>,
    pending: &mut Vec<RawItem>,
    s: &[char],
    a: usize,
    b: usize,
)
    requires
        a <= b <= s@.len(),
        old(sections)@.len() < usize::MAX,
    ensures
        state_of(final(title)@, final(sections)@, final(pending)@) == parse_line(
            subject_id@,
            state_of(old(title)@, old(sections)@, old(pending)@),
            s@.subrange(a as int, b as int),
        ),
        final(sections)@.len() <= old(sections)@.len() + 1,
{
    let ghost st = state_of(title@, sections@, pending@);
    let t = trim_slice(s, a, b);
    if t.len() == 0 {
        return;
    }
    let h2 = vec!['#', '#', ' '];
    let h1 = vec!['#', ' '];
    assert(h2@ =~= heading2());
    assert(h1@ =~= heading1());
    if has_prefix(&t, &h2) {
        let count = sections.len();
        if count > 0 {
            close_section(subject_id, sections, pending);
        }
        let rest = trim_slice(&t, 3, t.len());
        assert(t@.subrange(3, t@.len() as int) =~= t@.skip(3));
        let sec = Section { index: count + 1, title: string_of(&rest), topics: Vec::new() };
        proof {
            assert(topics_view(sec.topics@) =~= Seq::<TopicV>::empty());
            lemma_sections_view_push(sections@, sec);
        }
        sections.push(sec);
        proof {
            let new_st = parse_line(subject_id@, st, s@.subrange(a as int, b as int));
            assert(sections_view(sections@) =~= new_st.sections);
            if count > 0 {
                assert(items_view(pending@) =~= new_st.pending);
            }
        }
        return;
    }
    if has_prefix(&t, &h1) {
        let rest = trim_slice(&t, 2, t.len());
        assert(t@.subrange(2, t@.len() as int) =~= t@.skip(2));
        *title = rest;
        return;
    }
    if t[0] == '#' {
        return;
    }
    if sections.len() == 0 {
        return;
    }
    match split_numbered_chars(&t) {
        Some((path, text)) => {
            pending.push(RawItem { depth: path.len(), text });
            assert(items_view(pending@) =~= items_view(old(pending)@).push(
                RawItemV { depth: path@.len(), text: text@ },
            ));
        },
        None => {
            if pending.len() > 0 {
                let mut item = pending.pop().unwrap();
                let ghost popped = pending@;
                item.text.push(' ');
                extend(&mut item.text, &t);
                proof {
                    let last = st.pending.last();
                    assert(old(pending)@.last()@ == last);
                    assert(item.text@ =~= last.text + seq![' '] + t@);
                    assert(items_view(popped.push(item)) =~= st.pending.update(
                        st.pending.len() - 1,
                        RawItemV { text: last.text + seq![' '] + t@, ..last },
                    ));
                }
                pending.push(item);
            }
        },
    }
}

/// Parse a syllabus file, as [`parse_syllabus`] describes.
pub fn parse(subject_id: &str, raw: &str) -> (s: Subject)
    ensures
        s@ == parse_syllabus(subject_id@, raw@),
{
    let sid = chars_of(subject_id);
    let chars = chars_of(raw);
    let mut title = slice_vec(&sid, 0, sid.len());
    let mut sections: Vec<Section> = Vec::new();
    let mut pending: Vec<RawItem> = Vec::new();
    let ghost init = ParseState { title: subject_id@, sections: seq![], pending: seq![] };
    let ghost whole = parse_lines(subject_id@, init, lines(raw@));
    let mut pos: usize = 0;
    proof {
        assert(title@ =~= subject_id@);
        assert(chars@.skip(0) =~= chars@);
        assert(sections_view(sections@) =~= Seq::<SectionV>::empty());
        assert(items_view(pending@) =~= Seq::<RawItemV>::empty());
        assert(state_of(title@, sections@, pending@) == init);
    }
    while pos < chars.len()
        invariant
            pos <= chars@.len(),
            chars@ == raw@,
            sid@ == subject_id@,
            sections@.len() <= pos,
            parse_lines(subject_id@, state_of(title@, sections@, pending@), lines(chars@.skip(pos as int)))
                == whole,
        decreases chars@.len() - pos,
    {
        let (end, next) = next_line(&chars, pos);
        let ghost before = state_of(title@, sections@, pending@);
        parse_one(&sid, &mut title, &mut sections, &mut pending, &chars, pos, end);
        proof {
            let ls = lines(chars@.skip(pos as int));
            assert(ls[0] == chars@.subrange(pos as int, end as int));
            assert(ls.drop_first() =~= lines(chars@.skip(next as int)));
            lemma_parse_lines_split(subject_id@, before, ls);
        }
        pos = next;
    }
    proof {
        assert(chars@.skip(pos as int).len() == 0);
        crate::text::lemma_lines_empty(chars@.skip(pos as int));
    }
    let ghost st = state_of(title@, sections@, pending@);
    if sections.len() > 0 {
        close_section(&sid, &mut sections, &mut pending);
    }
    let s = Subject { id: string_of(&sid), title: string_of(&title), sections };
    proof {
        assert(sections_view(s.sections@) =~= close_last(subject_id@, whole));
    }
    s
}

// ---------------------------------------------------------------------------
// Queries
// ---------------------------------------------------------------------------

/// Every topic of the subject, section by section.
pub open spec fn all_topics(s: SubjectV) -> Seq<TopicV> {
    s.sections.map_values(|sec: SectionV| sec.topics).flatten()
}

/// Position of the first topic with the given id.
pub open spec fn first_with_id(ts: Seq<TopicV>, id: Seq<char>) -> Option<int> {
    if exists|i: int| 0 <= i < ts.len() && ts[i].id == id {
        Some(choose|i: int| 0 <= i < ts.len() && ts[i].id == id && forall|j: int| 0 <= j < i ==> ts[j].id != id)
    } else {
        None
    }
}

proof fn lemma_first_with_id(ts: Seq<TopicV>, id: Seq<char>, p: int)
    requires
        0 <= p < ts.len(),
        ts[p].id == id,
        forall|m: int| 0 <= m < p ==> ts[m].id != id,
    ensures
        first_with_id(ts, id) == Some(p),
{
    let w = choose|q: int| 0 <= q < ts.len() && ts[q].id == id && forall|m: int| 0 <= m < q ==> ts[m].id != id;
    assert(0 <= w < ts.len() && ts[w].id == id);
    if w < p {
    }
    if p < w {
        assert(ts[p].id != id);
    }
}

proof fn lemma_flatten_push(ss: Seq<Seq<TopicV>>, x: Seq<TopicV>)
    ensures
        ss.push(x).flatten() == ss.flatten() + x,
    decreases ss.len(),
{
    if ss.len() == 0 {
        let p = ss.push(x);
        assert(p.drop_first() =~= Seq::<Seq<TopicV>>::empty());
        assert(p.drop_first().flatten() =~= Seq::<TopicV>::empty());
        assert(p.first() == x);
        assert(p.flatten() == x + p.drop_first().flatten());
        assert(ss.flatten() =~= Seq::<TopicV>::empty());
        assert(ss.push(x).flatten() =~= ss.flatten() + x);
    } else {
        lemma_flatten_push(ss.drop_first(), x);
        assert(ss.push(x).drop_first() =~= ss.drop_first().push(x));
        assert(ss.push(x).flatten() =~= ss.flatten() + x);
    }
}

proof fn lemma_all_topics_prefix(s: SubjectV, i: int)
    requires
        0 <= i < s.sections.len(),
    ensures
        s.sections.take(i + 1).map_values(|sec: SectionV| sec.topics).flatten() == s.sections.take(
            i,
        ).map_values(|sec: SectionV| sec.topics).flatten() + s.sections[i].topics,
{
    let f = |sec: SectionV| sec.topics;
    assert(s.sections.take(i + 1).map_values(f) =~= s.sections.take(i).map_values(f).push(
        s.sections[i].topics,
    ));
    lemma_flatten_push(s.sections.take(i).map_values(f), s.sections[i].topics);
}

impl Subject {
    /// Every topic, in syllabus order.
    pub fn topics(&self) -> (r: Vec<Topic>)
        ensures
            topics_view(r@) == all_topics(self@),
    {
        let mut out: Vec<Topic> = Vec::new();
        let mut i: usize = 0;
        let ghost me = self@;
        proof {
            assert(me.sections.take(0).map_values(|sec: SectionV| sec.topics) =~= Seq::<
                Seq<TopicV>,
            >::empty());
        }
        while i < self.sections.len()
            invariant
                me == self@,
                i <= self.sections@.len(),
                topics_view(out@) == me.sections.take(i as int).map_values(
                    |sec: SectionV| sec.topics,
                ).flatten(),
            decreases self.sections@.len() - i,
        {
            let sec = &self.sections[i];
            let mut j: usize = 0;
            let ghost before = topics_view(out@);
            while j < sec.topics.len()
                invariant
                    j <= sec.topics@.len(),
                    topics_view(out@) == before + topics_view(sec.topics@).take(j as int),
                decreases sec.topics@.len() - j,
            {
                let t = sec.topics[j].clone();
                proof {
                    lemma_topics_view_push(out@, t);
                    lemma_take_next(topics_view(sec.topics@), j as int);
                }
                out.push(t);
                j += 1;
                assert(topics_view(out@) =~= before + topics_view(sec.topics@).take(j as int));
            }
            proof {
                assert(topics_view(sec.topics@).take(j as int) =~= topics_view(sec.topics@));
                assert(me.sections[i as int] == sec@);
                lemma_all_topics_prefix(me, i as int);
            }
            i += 1;
        }
        assert(me.sections.take(i as int) =~= me.sections);
        out
    }

    /// How many topics the subject has.
    pub fn topic_count(&self) -> (n: usize)
        requires
            all_topics(self@).len() <= usize::MAX,
        ensures
            n == all_topics(self@).len(),
    {
        let mut n: usize = 0;
        let mut i: usize = 0;
        let ghost me = self@;
        proof {
            assert(me.sections.take(0).map_values(|sec: SectionV| sec.topics) =~= Seq::<
                Seq<TopicV>,
            >::empty());
        }
        while i < self.sections.len()
            invariant
                me == self@,
                i <= self.sections@.len(),
                all_topics(me).len() <= usize::MAX,
                n == me.sections.take(i as int).map_values(|sec: SectionV| sec.topics).flatten().len(),
            decreases self.sections@.len() - i,
        {
            proof {
                lemma_all_topics_prefix(me, i as int);
                lemma_flatten_prefix_len(me, i as int + 1);
            }
            n = n + self.sections[i].topics.len();
            i += 1;
        }
        assert(me.sections.take(i as int) =~= me.sections);
        n
    }

    /// The topic with the given id, if the subject has one.
    pub fn find_topic(&self, id: &str) -> (r: Option<&Topic>)
        ensures
            match first_with_id(all_topics(self@), id@) {
                Some(i) => r matches Some(t) && t@ == all_topics(self@)[i],
                None => r is None,
            },
    {
        let ghost all = all_topics(self@);
        let ghost me = self@;
        let mut i: usize = 0;
        proof {
            assert(me.sections.take(0).map_values(|sec: SectionV| sec.topics) =~= Seq::<
                Seq<TopicV>,
            >::empty());
        }
        while i < self.sections.len()
            invariant
                me == self@,
                all == all_topics(me),
                i <= self.sections@.len(),
                forall|k: int|
                    0 <= k < me.sections.take(i as int).map_values(|sec: SectionV| sec.topics).flatten().len()
                        ==> all[k].id != id@,
                me.sections.take(i as int).map_values(|sec: SectionV| sec.topics).flatten().len()
                    <= all.len(),
                all.take(
                    me.sections.take(i as int).map_values(|sec: SectionV| sec.topics).flatten().len() as int,
                ) == me.sections.take(i as int).map_values(|sec: SectionV| sec.topics).flatten(),
            decreases self.sections@.len() - i,
        {
            let ghost before = me.sections.take(i as int).map_values(|sec: SectionV| sec.topics).flatten();
            proof {
                lemma_all_topics_prefix(me, i as int);
                lemma_flatten_prefix_is_prefix(me, i as int + 1);
            }
            let sec = &self.sections[i];
            assert(me.sections[i as int] == sec@);
            let mut j: usize = 0;
            while j < sec.topics.len()
                invariant
                    me == self@,
                    all == all_topics(me),
                    j <= sec.topics@.len(),
                    me.sections[i as int] == sec@,
                    forall|k: int| 0 <= k < before.len() + j ==> all[k].id != id@,
                    before.len() + sec.topics@.len() <= all.len(),
                    all.take((before.len() + sec.topics@.len()) as int) == before + topics_view(sec.topics@),
                decreases sec.topics@.len() - j,
            {
                let t = &sec.topics[j];
                assert(all[before.len() + j] == t@) by {
                    assert((before + topics_view(sec.topics@))[before.len() + j] == t@);
                    assert(all.take((before.len() + sec.topics@.len()) as int)[before.len() + j] == all[before.len() + j]);
                }
                if string_eq(&t.id, id) {
                    proof {
                        lemma_first_with_id(all, id@, (before.len() + j) as int);
                    }
                    return Some(t);
                }
                j += 1;
            }
            i += 1;
        }
        proof {
            assert(me.sections.take(i as int) =~= me.sections);
            if exists|q: int| 0 <= q < all.len() && all[q].id == id@ {
                let q = choose|q: int| 0 <= q < all.len() && all[q].id == id@;
                assert(all[q].id != id@);
            }
        }
        None
    }
}

proof fn lemma_flatten_prefix_len(s: SubjectV, i: int)
    requires
        0 <= i <= s.sections.len(),
    ensures
        s.sections.take(i).map_values(|sec: SectionV| sec.topics).flatten().len() <= all_topics(
            s,
        ).len(),
{
    lemma_flatten_prefix_is_prefix(s, i);
}

proof fn lemma_flatten_prefix_is_prefix(s: SubjectV, i: int)
    requires
        0 <= i <= s.sections.len(),
    ensures
        s.sections.take(i).map_values(|sec: SectionV| sec.topics).flatten().len() <= all_topics(
            s,
        ).len(),
        all_topics(s).take(
            s.sections.take(i).map_values(|sec: SectionV| sec.topics).flatten().len() as int,
        ) == s.sections.take(i).map_values(|sec: SectionV| sec.topics).flatten(),
    decreases s.sections.len() - i,
{
    let f = |sec: SectionV| sec.topics;
    if i == s.sections.len() {
        assert(s.sections.take(i) =~= s.sections);
        let a = all_topics(s);
        assert(a.take(a.len() as int) =~= a);
    } else {
        lemma_flatten_prefix_is_prefix(s, i + 1);
        lemma_all_topics_prefix(s, i);
        let p = s.sections.take(i).map_values(f).flatten();
        let q = s.sections.take(i + 1).map_values(f).flatten();
        assert(q == p + s.sections[i].topics);
        assert(all_topics(s).take(p.len() as int) =~= q.take(p.len() as int));
        assert(q.take(p.len() as int) =~= p);
    }
}

/// Whether a `String` equals a `str`.
pub fn string_eq(a: &String, b: &str) -> (r: bool)
    ensures
        r == (a@ == b@),
{
    let x = chars_of(a.as_str());
    let y = chars_of(b);
    chars_eq(&x, &y)
}

} // verus!
