//! The model access through the Antigravity CLI (`agy`): which model each tier names, what
//! the CLI is asked to do, and how its output is read.
use vstd::prelude::*;

use crate::text::{
    chars_of, cut_chars, decimal, extend, index_of_char, lines, next_line, slice_vec, starts_with,
    string_of, strings_view, trim, trim_chars, trim_slice, trim_start, Strip,
};

verus! {

/// Which model a job is allowed to use. The tier a job runs at is fixed by the job —
/// knowledge and hints are always smart, quizzes and sessions always fast — and only which
/// model each tier names is configurable.
#[derive(Clone, Copy, Debug, PartialEq, Eq, Structural)]
pub enum ModelTier {
    /// Deep reasoning: knowledge notes and hints.
    Smart,
    /// Cheap and quick: quiz and session generation.
    Fast,
}

pub const DEFAULT_SMART: &'static str = "gemini-3.1-pro-high";

pub const DEFAULT_FAST: &'static str = "gemini-3.8-flash-medium";

/// The model id each tier resolves to.
pub struct ModelSettings {
    pub smart: String,
    pub fast: String,
}

impl Default for ModelSettings {
    fn default() -> (r: Self)
        ensures
            r.smart@ == DEFAULT_SMART@,
            r.fast@ == DEFAULT_FAST@,
    {
        ModelSettings { smart: string_of(&chars_of(DEFAULT_SMART)), fast: string_of(&chars_of(DEFAULT_FAST)) }
    }
}

impl Clone for ModelSettings {
    fn clone(&self) -> (r: Self)
        ensures
            r.smart == self.smart,
            r.fast == self.fast,
    {
        ModelSettings { smart: self.smart.clone(), fast: self.fast.clone() }
    }
}

impl ModelTier {
    /// The model id this tier names under `settings`.
    pub fn model_id(self, settings: &ModelSettings) -> (r: String)
        ensures
            r == match self {
                ModelTier::Smart => settings.smart,
                ModelTier::Fast => settings.fast,
            },
    {
        match self {
            ModelTier::Smart => settings.smart.clone(),
            ModelTier::Fast => settings.fast.clone(),
        }
    }
}

/// What the settings screen shows: the models chosen, and the shipped defaults.
pub struct ModelChoice {
    pub models: ModelSettings,
    pub defaults: ModelSettings,
}

/// Tokens a call used.
pub struct Usage {
    pub input_tokens: u64,
    pub output_tokens: u64,
    pub total_tokens: u64,
}

impl Default for Usage {
    fn default() -> (r: Self)
        ensures
            r.input_tokens == 0 && r.output_tokens == 0 && r.total_tokens == 0,
    {
        Usage { input_tokens: 0, output_tokens: 0, total_tokens: 0 }
    }
}

/// One entry from `agy models`.
pub struct ModelInfo {
    pub id: String,
    pub label: String,
}

/// One `id<TAB>label` line of `agy models`: the trimmed id and label, when the line has a tab
/// and a non-blank id.
pub open spec fn model_line(line: Seq<char>) -> Option<(Seq<char>, Seq<char>)> {
    match index_of_char(line, '\t') {
        Some(k) => {
            let id = trim(line.take(k));
            if id.len() > 0 {
                Some((id, trim(line.skip(k + 1))))
            } else {
                None
            }
        },
        None => None,
    }
}

/// The models an `agy models` listing names, in order; progress chatter has no tab and is
/// skipped.
pub open spec fn listed_models(ls: Seq<Seq<char>>) -> Seq<(Seq<char>, Seq<char>)>
    decreases ls.len(),
{
    if ls.len() == 0 {
        seq![]
    } else {
        listed_models(ls.drop_last()) + match model_line(ls.last()) {
            Some(m) => seq![m],
            None => seq![],
        }
    }
}

pub open spec fn models_view(v: Seq<ModelInfo>) -> Seq<(Seq<char>, Seq<char>)> {
    v.map_values(|m: ModelInfo| (m.id@, m.label@))
}

fn model_of_line(line: &Vec<char>) -> (r: Option<ModelInfo>)
    ensures
        match model_line(line@) {
            Some((id, label)) => r matches Some(m) && m.id@ == id && m.label@ == label,
            None => r is None,
        },
{
    let mut k: usize = 0;
    while k < line.len() && line[k] != '\t'
        invariant
            k <= line@.len(),
            forall|j: int| 0 <= j < k ==> line@[j] != '\t',
        decreases line@.len() - k,
    {
        k += 1;
    }
    proof {
        crate::text::lemma_index_of_char(line@, '\t', k as int);
    }
    if k == line.len() {
        return None;
    }
    let id = trim_slice(line, 0, k);
    assert(line@.subrange(0, k as int) =~= line@.take(k as int));
    if id.len() == 0 {
        return None;
    }
    let label = trim_slice(line, k + 1, line.len());
    assert(line@.subrange(k + 1, line@.len() as int) =~= line@.skip(k + 1));
    Some(ModelInfo { id: string_of(&id), label: string_of(&label) })
}

/// `id<TAB>Human label`, one per line, after a line or two of progress chatter.
pub fn parse_models(stdout: &str) -> (r: Vec<ModelInfo>)
    ensures
        models_view(r@) == listed_models(lines(stdout@)),
{
    let s = chars_of(stdout);
    let ghost all = lines(s@);
    let mut out: Vec<ModelInfo> = Vec::new();
    let mut pos: usize = 0;
    let ghost mut done: int = 0;
    proof {
        assert(s@.skip(0) =~= s@);
        assert(all.take(0) =~= Seq::<Seq<char>>::empty());
        assert(all.skip(0) =~= all);
    }
    while pos < s.len()
        invariant
            s@ == stdout@,
            all == lines(s@),
            pos <= s@.len(),
            0 <= done <= all.len(),
            lines(s@.skip(pos as int)) == all.skip(done),
            models_view(out@) == listed_models(all.take(done)),
        decreases s@.len() - pos,
    {
        let (end, next) = next_line(&s, pos);
        let line = slice_vec(&s, pos, end);
        let ghost ls = lines(s@.skip(pos as int));
        proof {
            assert(ls[0] == line@);
            assert(ls.drop_first() =~= lines(s@.skip(next as int)));
            assert(all.skip(done)[0] == all[done]);
            assert(all.skip(done).drop_first() =~= all.skip(done + 1));
            assert(all.take(done + 1).drop_last() =~= all.take(done));
            assert(all.take(done + 1).last() == line@);
        }
        let ghost before = models_view(out@);
        match model_of_line(&line) {
            Some(m) => {
                out.push(m);
                assert(models_view(out@) =~= before + seq![(m.id@, m.label@)]);
            },
            None => {
                assert(before + Seq::<(Seq<char>, Seq<char>)>::empty() =~= before);
            },
        }
        proof {
            done = done + 1;
        }
        pos = next;
    }
    proof {
        assert(s@.skip(pos as int) =~= Seq::<char>::empty());
        crate::text::lemma_lines_empty(s@.skip(pos as int));
        assert(all.skip(done).len() == 0);
        assert(all.take(done) =~= all);
    }
    out
}

/// `text` cut after `max` characters, marked with `…` when anything was cut.
pub fn truncate(text: &str, max: usize) -> (r: String)
    ensures
        r@ == cut_chars(text@, max as nat, "…"@),
{
    string_of(&crate::text::cut(&chars_of(text), max, &chars_of("…")))
}

/// The envelope the CLI prints is the last line that opens a JSON object; anything before it
/// is CLI chatter. That line, trimmed, among the first `k` lines.
pub open spec fn last_json(ls: Seq<Seq<char>>) -> Option<Seq<char>>
    decreases ls.len(),
{
    if ls.len() == 0 {
        None
    } else if starts_with(trim_start(ls.last()), seq!['{']) {
        Some(trim(ls.last()))
    } else {
        last_json(ls.drop_last())
    }
}

/// The last line of the CLI's output that opens a JSON object, trimmed.
pub fn last_json_line(stdout: &str) -> (r: Option<String>)
    ensures
        match last_json(lines(stdout@)) {
            Some(l) => r matches Some(x) && x@ == l,
            None => r is None,
        },
{
    let s = chars_of(stdout);
    let ghost all = lines(s@);
    let mut found: Option<Vec<char>> = None;
    let mut pos: usize = 0;
    let ghost mut done: int = 0;
    proof {
        assert(s@.skip(0) =~= s@);
        assert(all.take(0) =~= Seq::<Seq<char>>::empty());
        assert(all.skip(0) =~= all);
    }
    while pos < s.len()
        invariant
            s@ == stdout@,
            all == lines(s@),
            pos <= s@.len(),
            0 <= done <= all.len(),
            lines(s@.skip(pos as int)) == all.skip(done),
            match last_json(all.take(done)) {
                Some(l) => found matches Some(v) && v@ == l,
                None => found is None,
            },
        decreases s@.len() - pos,
    {
        let (end, next) = next_line(&s, pos);
        let line = slice_vec(&s, pos, end);
        let ghost ls = lines(s@.skip(pos as int));
        proof {
            assert(ls[0] == line@);
            assert(ls.drop_first() =~= lines(s@.skip(next as int)));
            assert(all.skip(done)[0] == all[done]);
            assert(all.skip(done).drop_first() =~= all.skip(done + 1));
            assert(all.take(done + 1).drop_last() =~= all.take(done));
            assert(all.take(done + 1).last() == line@);
        }
        let st = crate::text::leading_end(&line, 0, &Strip::Whitespace);
        assert(line@.skip(0) =~= line@);
        let opens = st < line.len() && line[st] == '{';
        proof {
            let ts = line@.skip(st as int);
            if opens {
                assert(ts.take(1) =~= seq!['{']);
            } else if ts.len() >= 1 {
                assert(ts.take(1)[0] != '{');
            }
        }
        if opens {
            found = Some(crate::text::trim_chars(&line));
        }
        proof {
            done = done + 1;
        }
        pos = next;
    }
    proof {
        assert(s@.skip(pos as int) =~= Seq::<char>::empty());
        crate::text::lemma_lines_empty(s@.skip(pos as int));
        assert(all.skip(done).len() == 0);
        assert(all.take(done) =~= all);
    }
    match found {
        Some(v) => Some(string_of(&v)),
        None => None,
    }
}

/// The command line `agy` is run with for one schema-constrained prompt.
pub open spec fn agy_args_of(prompt: Seq<char>, model: Seq<char>, schema_path: Seq<char>, timeout_secs: nat) -> Seq<Seq<char>> {
    seq![
        "--print"@,
        prompt,
        "--model"@,
        model,
        "--output-format"@,
        "json"@,
        "--json-schema"@,
        schema_path,
        "--print-timeout"@,
        decimal(timeout_secs) + "s"@,
    ]
}

pub fn agy_args(prompt: &str, model: &str, schema_path: &str, timeout_secs: u64) -> (r: Vec<String>)
    ensures
        strings_view(r@) == agy_args_of(prompt@, model@, schema_path@, timeout_secs as nat),
{
    let mut v: Vec<String> = Vec::new();
    v.push(string_of(&chars_of("--print")));
    v.push(string_of(&chars_of(prompt)));
    v.push(string_of(&chars_of("--model")));
    v.push(string_of(&chars_of(model)));
    v.push(string_of(&chars_of("--output-format")));
    v.push(string_of(&chars_of("json")));
    v.push(string_of(&chars_of("--json-schema")));
    v.push(string_of(&chars_of(schema_path)));
    v.push(string_of(&chars_of("--print-timeout")));
    let mut t: Vec<char> = Vec::new();
    crate::text::push_decimal(&mut t, timeout_secs);
    extend(&mut t, &chars_of("s"));
    v.push(string_of(&t));
    assert(strings_view(v@) =~= agy_args_of(prompt@, model@, schema_path@, timeout_secs as nat));
    v
}

/// What the settings screen may store: both models named, trimmed.
pub open spec fn chosen_models(smart: Seq<char>, fast: Seq<char>) -> Option<(Seq<char>, Seq<char>)> {
    if trim(smart).len() == 0 || trim(fast).len() == 0 {
        None
    } else {
        Some((trim(smart), trim(fast)))
    }
}

/// Check a model choice before it is stored: each tier must name a model. Which tier a job
/// runs at is not negotiable; only the model each tier names changes.
pub fn checked_models(models: &ModelSettings) -> (r: Result<ModelSettings, String>)
    ensures
        match chosen_models(models.smart@, models.fast@) {
            Some((smart, fast)) => r matches Ok(m) && m.smart@ == smart && m.fast@ == fast,
            None => r matches Err(e) && e@ == "оберіть модель для обох рівнів"@,
        },
{
    let smart = trim_chars(&chars_of(models.smart.as_str()));
    let fast = trim_chars(&chars_of(models.fast.as_str()));
    if smart.len() == 0 || fast.len() == 0 {
        return Err(string_of(&chars_of("оберіть модель для обох рівнів")));
    }
    Ok(ModelSettings { smart: string_of(&smart), fast: string_of(&fast) })
}

/// What a finished `agy` run hands on: the envelope line when the process succeeded and
/// printed one; otherwise why not, quoting at most 500 characters of its output.
pub open spec fn reply_of(exited_ok: bool, exit_status: Seq<char>, stdout: Seq<char>, stderr: Seq<char>) -> Result<
    Seq<char>,
    Seq<char>,
> {
    if !exited_ok {
        Err("agy exited with "@ + exit_status + ": "@ + cut_chars(trim(stderr), 500, "…"@))
    } else {
        match last_json(lines(stdout)) {
            Some(l) => Ok(l),
            None => Err("agy produced no JSON: "@ + cut_chars(trim(stdout), 500, "…"@)),
        }
    }
}

/// Read a finished `agy` run: the envelope line to parse, or the error to report.
pub fn reply_line(exited_ok: bool, exit_status: &str, stdout: &str, stderr: &str) -> (r: Result<String, String>)
    ensures
        match reply_of(exited_ok, exit_status@, stdout@, stderr@) {
            Ok(l) => r matches Ok(x) && x@ == l,
            Err(e) => r matches Err(x) && x@ == e,
        },
{
    if !exited_ok {
        let mut v = chars_of("agy exited with ");
        extend(&mut v, &chars_of(exit_status));
        extend(&mut v, &chars_of(": "));
        let quoted = crate::text::cut(&trim_chars(&chars_of(stderr)), 500, &chars_of("…"));
        extend(&mut v, &quoted);
        return Err(string_of(&v));
    }
    match last_json_line(stdout) {
        Some(l) => Ok(l),
        None => {
            let mut v = chars_of("agy produced no JSON: ");
            let quoted = crate::text::cut(&trim_chars(&chars_of(stdout)), 500, &chars_of("…"));
            extend(&mut v, &quoted);
            Err(string_of(&v))
        },
    }
}

/// Why a parsed envelope is no answer: a status other than `SUCCESS` (with the CLI's own
/// error, if any), or no structured output.
pub open spec fn envelope_problem_of(status: Seq<char>, error: Option<Seq<char>>, has_output: bool) -> Option<
    Seq<char>,
> {
    if status != "SUCCESS"@ {
        Some(
            "agy returned status "@ + status + ": "@ + match error {
                Some(e) => e,
                None => seq![],
            },
        )
    } else if !has_output {
        Some("agy returned no structured_output"@)
    } else {
        None
    }
}

pub fn envelope_problem(status: &str, error: Option<&str>, has_output: bool) -> (r: Option<String>)
    ensures
        match envelope_problem_of(
            status@,
            match error {
                Some(e) => Some(e@),
                None => None,
            },
            has_output,
        ) {
            Some(p) => r matches Some(x) && x@ == p,
            None => r is None,
        },
{
    let st = chars_of(status);
    let ok = chars_of("SUCCESS");
    if crate::order::order_chars(&st, &ok) != 0 {
        let mut v = chars_of("agy returned status ");
        extend(&mut v, &st);
        extend(&mut v, &chars_of(": "));
        match error {
            Some(e) => extend(&mut v, &chars_of(e)),
            None => {},
        }
        proof {
            let es = match error {
                Some(e) => e@,
                None => Seq::<char>::empty(),
            };
            assert(v@ =~= "agy returned status "@ + status@ + ": "@ + es);
        }
        return Some(string_of(&v));
    }
    if !has_output {
        return Some(string_of(&chars_of("agy returned no structured_output")));
    }
    None
}

} // verus!
