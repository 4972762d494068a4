//! Text primitives the rest of the library is built on: trimming, line splitting,
//! substring search and replacement, decimal numbers, character truncation.
//!
//! Strings are handled as sequences of characters (`Seq<char>`, the view of `String`).
use vstd::prelude::*;

verus! {

// ---------------------------------------------------------------------------
// Characters
// ---------------------------------------------------------------------------

/// Unicode `White_Space`, the set `char::is_whitespace` and `str::trim` use.
pub open spec fn is_ws(c: char) -> bool {
    ||| ('\u{9}' <= c && c <= '\u{d}')
    ||| c == ' '
    ||| c == '\u{85}'
    ||| c == '\u{a0}'
    ||| c == '\u{1680}'
    ||| ('\u{2000}' <= c && c <= '\u{200a}')
    ||| c == '\u{2028}'
    ||| c == '\u{2029}'
    ||| c == '\u{202f}'
    ||| c == '\u{205f}'
    ||| c == '\u{3000}'
}

pub open spec fn is_digit(c: char) -> bool {
    '0' <= c && c <= '9'
}

pub open spec fn is_ascii_alnum(c: char) -> bool {
    ||| is_digit(c)
    ||| ('a' <= c && c <= 'z')
    ||| ('A' <= c && c <= 'Z')
}

pub fn is_whitespace(c: char) -> (b: bool)
    ensures
        b == is_ws(c),
{
    ('\u{9}' <= c && c <= '\u{d}') || c == ' ' || c == '\u{85}' || c == '\u{a0}' || c
        == '\u{1680}' || ('\u{2000}' <= c && c <= '\u{200a}') || c == '\u{2028}' || c
        == '\u{2029}' || c == '\u{202f}' || c == '\u{205f}' || c == '\u{3000}'
}

pub fn is_ascii_digit(c: char) -> (b: bool)
    ensures
        b == is_digit(c),
{
    '0' <= c && c <= '9'
}

pub fn is_ascii_alphanumeric(c: char) -> (b: bool)
    ensures
        b == is_ascii_alnum(c),
{
    ('0' <= c && c <= '9') || ('a' <= c && c <= 'z') || ('A' <= c && c <= 'Z')
}

// ---------------------------------------------------------------------------
// Conversions between `String` and characters
// ---------------------------------------------------------------------------

/// Appends one character to a string (`String::push`).
#[verifier::external_body]
pub(crate) fn push_char(s: &mut String, c: char)
    ensures
        final(s)@ == old(s)@.push(c),
{
    s.push(c);
}

/// The characters of a string, in order.
pub fn chars_of(s: &str) -> (v: Vec<char>)
    ensures
        v@ == s@,
{
    let mut v: Vec<char> = Vec::new();
    for c in it: s.chars()
        invariant
            v@ == it.seq().take(it.index() as int),
    {
        v.push(c);
    }
    v
}

/// A string holding exactly the given characters.
pub fn string_of(v: &[char]) -> (s: String)
    ensures
        s@ == v@,
{
    let mut s = String::new();
    let mut i: usize = 0;
    while i < v.len()
        invariant
            i <= v@.len(),
            s@ == v@.take(i as int),
        decreases v@.len() - i,
    {
        push_char(&mut s, v[i]);
        i += 1;
        assert(v@.take(i as int) =~= v@.take((i - 1) as int).push(v@[i - 1]));
    }
    assert(v@.take(v@.len() as int) =~= v@);
    s
}

/// `s[a..b]` as a new vector.
pub fn slice_vec(s: &[char], a: usize, b: usize) -> (v: Vec<char>)
    requires
        a <= b <= s@.len(),
    ensures
        v@ == s@.subrange(a as int, b as int),
{
    let mut v: Vec<char> = Vec::new();
    let mut i = a;
    while i < b
        invariant
            a <= i <= b <= s@.len(),
            v@ == s@.subrange(a as int, i as int),
        decreases b - i,
    {
        v.push(s[i]);
        i += 1;
        assert(v@ =~= s@.subrange(a as int, i as int));
    }
    v
}

/// Appends `t` to `v`.
pub fn extend(v: &mut Vec<char>, t: &[char])
    ensures
        final(v)@ == old(v)@ + t@,
{
    let mut i: usize = 0;
    while i < t.len()
        invariant
            i <= t@.len(),
            v@ == old(v)@ + t@.take(i as int),
        decreases t@.len() - i,
    {
        v.push(t[i]);
        i += 1;
        assert(t@.take(i as int) =~= t@.take((i - 1) as int).push(t@[i - 1]));
        assert(v@ =~= old(v)@ + t@.take(i as int));
    }
    assert(t@.take(t@.len() as int) =~= t@);
}

/// Whether two character sequences are equal.
pub fn chars_eq(a: &[char], b: &[char]) -> (r: bool)
    ensures
        r == (a@ == b@),
{
    if a.len() != b.len() {
        return false;
    }
    let mut i: usize = 0;
    while i < a.len()
        invariant
            a@.len() == b@.len(),
            i <= a@.len(),
            forall|j: int| 0 <= j < i ==> a@[j] == b@[j],
        decreases a@.len() - i,
    {
        if a[i] != b[i] {
            return false;
        }
        i += 1;
    }
    assert(a@ =~= b@);
    true
}

// ---------------------------------------------------------------------------
// Trimming
// ---------------------------------------------------------------------------

/// What a trim strips: whitespace, or one particular character.
pub enum Strip {
    Whitespace,
    Char(char),
}

pub open spec fn strips(m: Strip, c: char) -> bool {
    match m {
        Strip::Whitespace => is_ws(c),
        Strip::Char(x) => c == x,
    }
}

pub fn stripped(m: &Strip, c: char) -> (b: bool)
    ensures
        b == strips(*m, c),
{
    match m {
        Strip::Whitespace => is_whitespace(c),
        Strip::Char(x) => c == *x,
    }
}

/// `s` without its leading run of stripped characters.
pub open spec fn drop_leading(s: Seq<char>, m: Strip) -> Seq<char>
    decreases s.len(),
{
    if s.len() > 0 && strips(m, s[0]) {
        drop_leading(s.drop_first(), m)
    } else {
        s
    }
}

/// `s` without its trailing run of stripped characters.
pub open spec fn drop_trailing(s: Seq<char>, m: Strip) -> Seq<char>
    decreases s.len(),
{
    if s.len() > 0 && strips(m, s.last()) {
        drop_trailing(s.drop_last(), m)
    } else {
        s
    }
}

/// `str::trim_start`.
pub open spec fn trim_start(s: Seq<char>) -> Seq<char> {
    drop_leading(s, Strip::Whitespace)
}

/// `str::trim_end`.
pub open spec fn trim_end(s: Seq<char>) -> Seq<char> {
    drop_trailing(s, Strip::Whitespace)
}

/// `str::trim`.
pub open spec fn trim(s: Seq<char>) -> Seq<char> {
    trim_end(trim_start(s))
}

pub proof fn lemma_drop_leading_skip(s: Seq<char>, m: Strip, k: int)
    requires
        0 <= k <= s.len(),
        forall|j: int| 0 <= j < k ==> strips(m, #[trigger] s[j]),
    ensures
        drop_leading(s, m) == drop_leading(s.skip(k), m),
    decreases k,
{
    if k > 0 {
        assert(s.skip(1) =~= s.drop_first());
        lemma_drop_leading_skip(s.drop_first(), m, k - 1);
        assert(s.drop_first().skip(k - 1) =~= s.skip(k));
    } else {
        assert(s.skip(0) =~= s);
    }
}

pub proof fn lemma_drop_trailing_take(s: Seq<char>, m: Strip, k: int)
    requires
        0 <= k <= s.len(),
        forall|j: int| k <= j < s.len() ==> strips(m, #[trigger] s[j]),
    ensures
        drop_trailing(s, m) == drop_trailing(s.take(k), m),
    decreases s.len() - k,
{
    if k < s.len() {
        lemma_drop_trailing_take(s.drop_last(), m, k);
        assert(s.drop_last().take(k) =~= s.take(k));
    } else {
        assert(s.take(k) =~= s);
    }
}

/// Length of the leading run of stripped characters of `s[from..]`, as an end index.
pub fn leading_end(s: &[char], from: usize, m: &Strip) -> (k: usize)
    requires
        from <= s@.len(),
    ensures
        from <= k <= s@.len(),
        drop_leading(s@.skip(from as int), *m) == s@.skip(k as int),
        k == s@.len() || !strips(*m, s@[k as int]),
        forall|j: int| from <= j < k ==> strips(*m, #[trigger] s@[j]),
{
    let mut k = from;
    while k < s.len() && stripped(m, s[k])
        invariant
            from <= k <= s@.len(),
            forall|j: int| from <= j < k ==> strips(*m, #[trigger] s@[j]),
        decreases s@.len() - k,
    {
        k += 1;
    }
    proof {
        let t = s@.skip(from as int);
        assert forall|j: int| 0 <= j < k - from implies strips(*m, #[trigger] t[j]) by {
            assert(t[j] == s@[from + j]);
        }
        lemma_drop_leading_skip(t, *m, k - from);
        assert(t.skip(k - from) =~= s@.skip(k as int));
    }
    k
}

/// Start of the trailing run of stripped characters of `s[..to]`.
pub fn trailing_start(s: &[char], from: usize, to: usize, m: &Strip) -> (k: usize)
    requires
        from <= to <= s@.len(),
    ensures
        from <= k <= to,
        drop_trailing(s@.subrange(from as int, to as int), *m) == drop_trailing(
            s@.subrange(from as int, k as int),
            *m,
        ),
        k == from || !strips(*m, s@[k - 1]),
        forall|j: int| k <= j < to ==> strips(*m, #[trigger] s@[j]),
{
    let mut k = to;
    while k > from && stripped(m, s[k - 1])
        invariant
            from <= k <= to <= s@.len(),
            forall|j: int| k <= j < to ==> strips(*m, #[trigger] s@[j]),
        decreases k,
    {
        k -= 1;
    }
    proof {
        let t = s@.subrange(from as int, to as int);
        assert forall|j: int| k - from <= j < t.len() implies strips(*m, #[trigger] t[j]) by {
            assert(t[j] == s@[from + j]);
        }
        lemma_drop_trailing_take(t, *m, k - from);
        assert(t.take(k - from) =~= s@.subrange(from as int, k as int));
    }
    k
}

pub proof fn lemma_drop_trailing_stops(s: Seq<char>, m: Strip)
    requires
        s.len() == 0 || !strips(m, s.last()),
    ensures
        drop_trailing(s, m) == s,
{
}

/// Bounds `(a, b)` with `s[a..b]` the trim of `s[from..to]` under `m`.
pub fn strip_bounds(s: &[char], from: usize, to: usize, m: &Strip) -> (r: (usize, usize))
    requires
        from <= to <= s@.len(),
    ensures
        from <= r.0 <= r.1 <= to,
        s@.subrange(r.0 as int, r.1 as int) == drop_trailing(
            drop_leading(s@.subrange(from as int, to as int), *m),
            *m,
        ),
{
    let sub = Ghost(s@.subrange(from as int, to as int));
    let mut a = from;
    while a < to && stripped(m, s[a])
        invariant
            from <= a <= to <= s@.len(),
            forall|j: int| from <= j < a ==> strips(*m, #[trigger] s@[j]),
        decreases to - a,
    {
        a += 1;
    }
    proof {
        assert forall|j: int| 0 <= j < a - from implies strips(*m, #[trigger] sub@[j]) by {
            assert(sub@[j] == s@[from + j]);
        }
        lemma_drop_leading_skip(sub@, *m, a - from);
        assert(sub@.skip(a - from) =~= s@.subrange(a as int, to as int));
    }
    let b = trailing_start(s, a, to, m);
    proof {
        let t = s@.subrange(a as int, b as int);
        if t.len() > 0 {
            assert(t.last() == s@[b - 1]);
        }
        lemma_drop_trailing_stops(t, *m);
        if a == to {
            assert(s@.subrange(a as int, to as int).len() == 0);
        } else {
            assert(s@.subrange(a as int, to as int)[0] == s@[a as int]);
        }
    }
    (a, b)
}

/// `s[from..to].trim()` as a new vector.
pub fn trim_slice(s: &[char], from: usize, to: usize) -> (v: Vec<char>)
    requires
        from <= to <= s@.len(),
    ensures
        v@ == trim(s@.subrange(from as int, to as int)),
{
    let (a, b) = strip_bounds(s, from, to, &Strip::Whitespace);
    slice_vec(s, a, b)
}

/// `s.trim()` as a new vector.
pub fn trim_chars(s: &[char]) -> (v: Vec<char>)
    ensures
        v@ == trim(s@),
{
    assert(s@.subrange(0, s@.len() as int) =~= s@);
    trim_slice(s, 0, s.len())
}

/// `s.trim()` of a string.
pub fn trim_string(s: &str) -> (r: String)
    ensures
        r@ == trim(s@),
{
    let v = chars_of(s);
    let t = trim_chars(&v);
    string_of(&t)
}

// ---------------------------------------------------------------------------
// Prefixes, suffixes and search
// ---------------------------------------------------------------------------

pub open spec fn starts_with(s: Seq<char>, p: Seq<char>) -> bool {
    p.len() <= s.len() && s.take(p.len() as int) == p
}

pub open spec fn ends_with(s: Seq<char>, p: Seq<char>) -> bool {
    p.len() <= s.len() && s.skip(s.len() - p.len()) == p
}

/// Whether `p` occurs in `s` at position `i`.
pub open spec fn occurs_at(s: Seq<char>, p: Seq<char>, i: int) -> bool {
    0 <= i && i + p.len() <= s.len() && s.subrange(i, i + p.len()) == p
}

/// `str::find`: the first position where `p` occurs.
#[verifier::opaque]
pub open spec fn find(s: Seq<char>, p: Seq<char>) -> Option<int> {
    if exists|i: int| occurs_at(s, p, i) {
        Some(choose|i: int| occurs_at(s, p, i) && forall|j: int| 0 <= j < i ==> !occurs_at(s, p, j))
    } else {
        None
    }
}

/// Whether `p` occurs in `s[at..]` at `at`.
pub fn matches_at(s: &[char], at: usize, p: &[char]) -> (b: bool)
    requires
        at <= s@.len(),
    ensures
        b == occurs_at(s@, p@, at as int),
{
    if p.len() > s.len() - at {
        return false;
    }
    let n = s.len();
    let mut j: usize = 0;
    while j < p.len()
        invariant
            n == s@.len(),
            at + p@.len() <= n,
            j <= p@.len(),
            forall|k: int| 0 <= k < j ==> s@[at + k] == p@[k],
        decreases p@.len() - j,
    {
        if s[at + j] != p[j] {
            assert(s@.subrange(at as int, at + p@.len())[j as int] != p@[j as int]);
            return false;
        }
        j += 1;
    }
    assert(s@.subrange(at as int, at + p@.len()) =~= p@);
    true
}

pub fn has_prefix(s: &[char], p: &[char]) -> (b: bool)
    ensures
        b == starts_with(s@, p@),
{
    let b = matches_at(s, 0, p);
    proof {
        if p@.len() <= s@.len() {
            assert(s@.subrange(0, p@.len() as int) =~= s@.take(p@.len() as int));
        }
    }
    b
}

pub fn has_suffix(s: &[char], p: &[char]) -> (b: bool)
    ensures
        b == ends_with(s@, p@),
{
    if p.len() > s.len() {
        return false;
    }
    let b = matches_at(s, s.len() - p.len(), p);
    assert(s@.subrange(s@.len() - p@.len(), s@.len() as int) =~= s@.skip(s@.len() - p@.len()));
    b
}

pub proof fn lemma_find_some(s: Seq<char>, p: Seq<char>, i: int)
    requires
        occurs_at(s, p, i),
        forall|j: int| 0 <= j < i ==> !occurs_at(s, p, j),
    ensures
        find(s, p) == Some(i),
{
    reveal(find);
    let k = choose|k: int| occurs_at(s, p, k) && forall|j: int| 0 <= j < k ==> !occurs_at(s, p, j);
    assert(occurs_at(s, p, k));
    if k < i {
        assert(!occurs_at(s, p, k));
    }
    if i < k {
        assert(!occurs_at(s, p, i));
    }
}

/// Some occurrence of `p` has no earlier one.
proof fn lemma_first_occurrence(s: Seq<char>, p: Seq<char>, i: int)
    requires
        occurs_at(s, p, i),
    ensures
        exists|k: int| occurs_at(s, p, k) && forall|j: int| 0 <= j < k ==> !occurs_at(s, p, j),
    decreases i,
{
    if exists|j: int| 0 <= j < i && occurs_at(s, p, j) {
        let j = choose|j: int| 0 <= j < i && occurs_at(s, p, j);
        lemma_first_occurrence(s, p, j);
    } else {
        assert(occurs_at(s, p, i) && forall|j: int| 0 <= j < i ==> !occurs_at(s, p, j));
    }
}

/// What `find` gives is an occurrence with none before it.
pub proof fn lemma_find_bounds(s: Seq<char>, p: Seq<char>)
    ensures
        find(s, p) matches Some(i) ==> occurs_at(s, p, i) && forall|j: int|
            0 <= j < i ==> !occurs_at(s, p, j),
        find(s, p) is None ==> forall|j: int| !occurs_at(s, p, j),
{
    reveal(find);
    if exists|i: int| occurs_at(s, p, i) {
        let i = choose|i: int| occurs_at(s, p, i);
        lemma_first_occurrence(s, p, i);
    }
}

/// First position at or after `from` where `p` occurs, if any.
pub fn find_from(s: &[char], from: usize, p: &[char]) -> (r: Option<usize>)
    requires
        from <= s@.len(),
    ensures
        match r {
            Some(i) => from <= i && occurs_at(s@, p@, i as int) && forall|j: int|
                from <= j < i ==> !occurs_at(s@, p@, j),
            None => forall|j: int| from <= j ==> !occurs_at(s@, p@, j),
        },
{
    let mut i = from;
    while i < s.len()
        invariant
            from <= i <= s@.len(),
            forall|j: int| from <= j < i ==> !occurs_at(s@, p@, j),
        decreases s@.len() - i,
    {
        if matches_at(s, i, p) {
            return Some(i);
        }
        i += 1;
    }
    if matches_at(s, i, p) {
        return Some(i);
    }
    assert forall|j: int| from <= j implies !occurs_at(s@, p@, j) by {
        if j > s@.len() {
        }
    }
    None
}

/// `str::find` over the whole of `s`.
pub fn find_chars(s: &[char], p: &[char]) -> (r: Option<usize>)
    ensures
        r matches Some(i) ==> find(s@, p@) == Some(i as int),
        r is None ==> find(s@, p@) is None,
{
    let r = find_from(s, 0, p);
    proof {
        reveal(find);
        match r {
            Some(i) => lemma_find_some(s@, p@, i as int),
            None => {},
        }
    }
    r
}

// ---------------------------------------------------------------------------
// Replacement
// ---------------------------------------------------------------------------

/// `str::replace(from, to)` for a non-empty `from`: every occurrence, scanning left to right,
/// without overlaps.
pub open spec fn replace(s: Seq<char>, from: Seq<char>, to: Seq<char>) -> Seq<char>
    decreases s.len(),
{
    if from.len() == 0 || s.len() < from.len() {
        s
    } else if s.take(from.len() as int) == from {
        to + replace(s.skip(from.len() as int), from, to)
    } else {
        seq![s[0]] + replace(s.skip(1), from, to)
    }
}

pub fn replace_chars(s: &[char], from: &[char], to: &[char]) -> (r: Vec<char>)
    requires
        from@.len() > 0,
    ensures
        r@ == replace(s@, from@, to@),
{
    let mut out: Vec<char> = Vec::new();
    let mut i: usize = 0;
    assert(s@.skip(0) =~= s@);
    assert(out@ + replace(s@, from@, to@) =~= replace(s@, from@, to@));
    while i < s.len()
        invariant
            i <= s@.len(),
            from@.len() > 0,
            out@ + replace(s@.skip(i as int), from@, to@) == replace(s@, from@, to@),
        decreases s@.len() - i,
    {
        let rest = Ghost(s@.skip(i as int));
        if matches_at(s, i, from) {
            assert(rest@.take(from@.len() as int) =~= s@.subrange(i as int, i + from@.len()));
            assert(rest@.skip(from@.len() as int) =~= s@.skip(i + from@.len()));
            extend(&mut out, to);
            i += from.len();
            assert(out@ + replace(s@.skip(i as int), from@, to@) =~= replace(s@, from@, to@));
        } else {
            proof {
                if rest@.len() >= from@.len() {
                    assert(rest@.take(from@.len() as int) =~= s@.subrange(i as int, i + from@.len()));
                }
            }
            assert(rest@.skip(1) =~= s@.skip(i + 1));
            out.push(s[i]);
            i += 1;
            assert(out@ + replace(s@.skip(i as int), from@, to@) =~= replace(s@, from@, to@));
        }
    }
    assert(s@.skip(i as int).len() == 0);
    assert(out@ + seq![] =~= out@);
    out
}

/// `s.replace(from, to)` on strings.
pub fn replace_str(s: &str, from: &str, to: &str) -> (r: String)
    requires
        from@.len() > 0,
    ensures
        r@ == replace(s@, from@, to@),
{
    let sv = chars_of(s);
    let fv = chars_of(from);
    let tv = chars_of(to);
    let r = replace_chars(&sv, &fv, &tv);
    string_of(&r)
}

// ---------------------------------------------------------------------------
// Lines
// ---------------------------------------------------------------------------

/// First position of `c` in `s`.
#[verifier::opaque]
pub open spec fn index_of_char(s: Seq<char>, c: char) -> Option<int> {
    if exists|i: int| 0 <= i < s.len() && s[i] == c {
        Some(choose|i: int| 0 <= i < s.len() && s[i] == c && forall|j: int| 0 <= j < i ==> s[j] != c)
    } else {
        None
    }
}

pub proof fn lemma_index_of_char(s: Seq<char>, c: char, i: int)
    requires
        0 <= i <= s.len(),
        i < s.len() ==> s[i] == c,
        forall|j: int| 0 <= j < i ==> s[j] != c,
    ensures
        index_of_char(s, c) == (if i < s.len() { Some(i) } else { None::<int> }),
{
    reveal(index_of_char);
    if i < s.len() {
        let k = choose|k: int| 0 <= k < s.len() && s[k] == c && forall|j: int| 0 <= j < k ==> s[j] != c;
        assert(0 <= k < s.len() && s[k] == c);
        if k < i {
        }
        if i < k {
            assert(s[i] != c);
        }
    }
}

/// A line without the `\r` of a `\r\n` ending.
pub open spec fn strip_cr(l: Seq<char>) -> Seq<char> {
    if l.len() > 0 && l.last() == '\r' {
        l.drop_last()
    } else {
        l
    }
}

/// `str::lines`: split at `\n`, dropping a `\r` right before it; a final line ending is
/// optional and produces no empty last line.
#[verifier::opaque]
pub open spec fn lines(s: Seq<char>) -> Seq<Seq<char>>
    decreases s.len(),
{
    if s.len() == 0 {
        seq![]
    } else {
        match index_of_char(s, '\n') {
            Some(i) => if 0 <= i < s.len() {
                seq![strip_cr(s.take(i))] + lines(s.skip(i + 1))
            } else {
                seq![s]
            },
            None => seq![s],
        }
    }
}

pub proof fn lemma_lines_last(t: Seq<char>)
    requires
        t.len() > 0,
        forall|j: int| 0 <= j < t.len() ==> t[j] != '\n',
    ensures
        lines(t) == seq![t],
{
    reveal(lines);
    lemma_index_of_char(t, '\n', t.len() as int);
}

/// No text has no lines.
pub proof fn lemma_lines_empty(t: Seq<char>)
    requires
        t.len() == 0,
    ensures
        lines(t) == Seq::<Seq<char>>::empty(),
{
    reveal(lines);
}

pub proof fn lemma_lines_step(t: Seq<char>, i: int)
    requires
        0 <= i < t.len(),
        t[i] == '\n',
        forall|j: int| 0 <= j < i ==> t[j] != '\n',
    ensures
        lines(t) == seq![strip_cr(t.take(i))] + lines(t.skip(i + 1)),
{
    reveal(lines);
    lemma_index_of_char(t, '\n', i);
}

/// End (exclusive) of the line starting at `start`, and the start of the next one.
pub fn next_line(s: &[char], start: usize) -> (r: (usize, usize))
    requires
        start < s@.len(),
    ensures
        start <= r.0 <= r.1 <= s@.len(),
        r.1 > start,
        lines(s@.skip(start as int)) == seq![s@.subrange(start as int, r.0 as int)] + lines(
            s@.skip(r.1 as int),
        ),
{
    let mut i = start;
    while i < s.len() && s[i] != '\n'
        invariant
            start <= i <= s@.len(),
            forall|j: int| start <= j < i ==> s@[j] != '\n',
        decreases s@.len() - i,
    {
        i += 1;
    }
    let t = Ghost(s@.skip(start as int));
    if i == s.len() {
        proof {
            assert forall|j: int| 0 <= j < t@.len() implies t@[j] != '\n' by {
                assert(t@[j] == s@[start + j]);
            }
            lemma_lines_last(t@);
            assert(t@ =~= s@.subrange(start as int, i as int));
            assert(s@.skip(i as int).len() == 0);
            lemma_lines_empty(s@.skip(i as int));
            assert(seq![t@] + Seq::<Seq<char>>::empty() =~= seq![t@]);
        }
        return (i, i);
    }
    let end = if i > start && s[i - 1] == '\r' {
        i - 1
    } else {
        i
    };
    proof {
        assert forall|j: int| 0 <= j < i - start implies t@[j] != '\n' by {
            assert(t@[j] == s@[start + j]);
        }
        assert(t@[i - start] == s@[i as int]);
        lemma_lines_step(t@, i - start);
        let l = t@.take(i - start);
        assert(l =~= s@.subrange(start as int, i as int));
        if i > start {
            assert(l.last() == s@[i - 1]);
        }
        assert(strip_cr(l) =~= s@.subrange(start as int, end as int));
        assert(t@.skip(i - start + 1) =~= s@.skip(i + 1));
    }
    (end, i + 1)
}

// ---------------------------------------------------------------------------
// Decimal numbers
// ---------------------------------------------------------------------------

pub open spec fn digit_char(d: nat) -> char {
    if d == 0 {
        '0'
    } else if d == 1 {
        '1'
    } else if d == 2 {
        '2'
    } else if d == 3 {
        '3'
    } else if d == 4 {
        '4'
    } else if d == 5 {
        '5'
    } else if d == 6 {
        '6'
    } else if d == 7 {
        '7'
    } else if d == 8 {
        '8'
    } else {
        '9'
    }
}

/// The decimal digits of `n`, as `format!("{n}")` prints them.
pub open spec fn decimal(n: nat) -> Seq<char>
    decreases n,
{
    if n < 10 {
        seq![digit_char(n)]
    } else {
        decimal(n / 10).push(digit_char(n % 10))
    }
}

/// `format!("{n:02}")`: at least two digits, zero-padded.
pub open spec fn pad2(n: nat) -> Seq<char> {
    if n < 10 {
        seq!['0', digit_char(n)]
    } else {
        decimal(n)
    }
}

/// The value of a run of ASCII digits.
pub open spec fn digits_value(s: Seq<char>) -> nat
    decreases s.len(),
{
    if s.len() == 0 {
        0
    } else {
        digits_value(s.drop_last()) * 10 + ((s.last() as int - '0' as int) as nat)
    }
}

fn digit_of(d: u64) -> (c: char)
    requires
        d < 10,
    ensures
        c == digit_char(d as nat),
{
    if d == 0 {
        '0'
    } else if d == 1 {
        '1'
    } else if d == 2 {
        '2'
    } else if d == 3 {
        '3'
    } else if d == 4 {
        '4'
    } else if d == 5 {
        '5'
    } else if d == 6 {
        '6'
    } else if d == 7 {
        '7'
    } else if d == 8 {
        '8'
    } else {
        '9'
    }
}

/// Appends the decimal digits of `n`.
pub fn push_decimal(v: &mut Vec<char>, n: u64)
    ensures
        final(v)@ == old(v)@ + decimal(n as nat),
    decreases n,
{
    if n < 10 {
        v.push(digit_of(n));
        assert(old(v)@.push(digit_char(n as nat)) =~= old(v)@ + decimal(n as nat));
    } else {
        push_decimal(v, n / 10);
        v.push(digit_of(n % 10));
        assert(v@ =~= old(v)@ + decimal(n as nat));
    }
}

/// Appends `n` zero-padded to two digits.
pub fn push_pad2(v: &mut Vec<char>, n: u64)
    ensures
        final(v)@ == old(v)@ + pad2(n as nat),
{
    if n < 10 {
        v.push('0');
        v.push(digit_of(n));
        assert(v@ =~= old(v)@ + pad2(n as nat));
    } else {
        push_decimal(v, n);
    }
}

/// The decimal string of `n`.
pub fn decimal_string(n: u64) -> (s: String)
    ensures
        s@ == decimal(n as nat),
{
    let mut v: Vec<char> = Vec::new();
    push_decimal(&mut v, n);
    assert(v@ =~= decimal(n as nat));
    string_of(&v)
}

// ---------------------------------------------------------------------------
// Truncation by characters
// ---------------------------------------------------------------------------

/// The first `max` characters of `s`, followed by `marker` when anything was cut.
pub open spec fn cut_chars(s: Seq<char>, max: nat, marker: Seq<char>) -> Seq<char> {
    if s.len() <= max {
        s
    } else {
        s.take(max as int) + marker
    }
}

pub fn cut(s: &[char], max: usize, marker: &[char]) -> (r: Vec<char>)
    ensures
        r@ == cut_chars(s@, max as nat, marker@),
{
    if s.len() <= max {
        slice_vec(s, 0, s.len())
    } else {
        let mut r = slice_vec(s, 0, max);
        extend(&mut r, marker);
        r
    }
}


/// The text of each string.
pub open spec fn strings_view(v: Seq<String>) -> Seq<Seq<char>> {
    v.map_values(|s: String| s@)
}

pub fn clone_strings(v: &Vec<String>) -> (r: Vec<String>)
    ensures
        r@ == v@,
{
    let mut r: Vec<String> = Vec::new();
    let mut i: usize = 0;
    while i < v.len()
        invariant
            i <= v@.len(),
            r@ == v@.take(i as int),
        decreases v@.len() - i,
    {
        r.push(v[i].clone());
        assert(v@.take(i + 1) =~= v@.take(i as int).push(v@[i as int]));
        i += 1;
    }
    assert(v@.take(v@.len() as int) =~= v@);
    r
}

} // verus!
