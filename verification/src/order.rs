//! Orderings: text compared the way `String`'s `Ord` compares it, and a stable sort of
//! positions by a composite key.
//!
//! UTF-8 preserves the order of code points, so comparing two strings byte by byte (what
//! `String`'s `Ord` does) orders them exactly as comparing their characters in turn does.
use vstd::prelude::*;

verus! {

/// Lexicographic "strictly before" on character sequences; a proper prefix comes first.
pub open spec fn text_lt(a: Seq<char>, b: Seq<char>) -> bool
    decreases a.len(),
{
    if a.len() == 0 {
        b.len() > 0
    } else if b.len() == 0 {
        false
    } else if a[0] < b[0] {
        true
    } else if a[0] == b[0] {
        text_lt(a.drop_first(), b.drop_first())
    } else {
        false
    }
}

pub proof fn lemma_text_lt_irreflexive(a: Seq<char>)
    ensures
        !text_lt(a, a),
    decreases a.len(),
{
    if a.len() > 0 {
        lemma_text_lt_irreflexive(a.drop_first());
    }
}

pub proof fn lemma_text_lt_transitive(a: Seq<char>, b: Seq<char>, c: Seq<char>)
    requires
        text_lt(a, b),
        text_lt(b, c),
    ensures
        text_lt(a, c),
    decreases a.len(),
{
    if a.len() > 0 && b.len() > 0 && c.len() > 0 {
        if a[0] == b[0] && b[0] == c[0] {
            lemma_text_lt_transitive(a.drop_first(), b.drop_first(), c.drop_first());
        }
    }
}

pub proof fn lemma_text_lt_total(a: Seq<char>, b: Seq<char>)
    requires
        a != b,
    ensures
        text_lt(a, b) || text_lt(b, a),
    decreases a.len(),
{
    if a.len() > 0 && b.len() > 0 && a[0] == b[0] {
        if a.drop_first() == b.drop_first() {
            assert(a =~= seq![a[0]] + a.drop_first());
            assert(b =~= seq![b[0]] + b.drop_first());
        }
        lemma_text_lt_total(a.drop_first(), b.drop_first());
    } else if a.len() == 0 && b.len() == 0 {
        assert(a =~= b);
    }
}

/// `None` before any text, texts in lexicographic order (the order of `Option<String>`).
pub open spec fn opt_text_lt(a: Option<Seq<char>>, b: Option<Seq<char>>) -> bool {
    match (a, b) {
        (None, Some(_)) => true,
        (Some(x), Some(y)) => text_lt(x, y),
        _ => false,
    }
}

/// The ordering of two character sequences: -1, 0 or 1.
pub fn order_chars(a: &[char], b: &[char]) -> (r: i8)
    ensures
        r == -1 <==> text_lt(a@, b@),
        r == 0 <==> a@ == b@,
        r == 1 <==> text_lt(b@, a@),
        r == -1 || r == 0 || r == 1,
{
    let mut i: usize = 0;
    while i < a.len() && i < b.len() && a[i] == b[i]
        invariant
            i <= a@.len(),
            i <= b@.len(),
            a@.take(i as int) == b@.take(i as int),
        decreases a@.len() - i,
    {
        assert(a@.take(i + 1) =~= a@.take(i as int).push(a@[i as int]));
        assert(b@.take(i + 1) =~= b@.take(i as int).push(b@[i as int]));
        i += 1;
    }
    proof {
        lemma_text_lt_common_prefix(a@, b@, i as int);
        lemma_text_lt_common_prefix(b@, a@, i as int);
        lemma_text_lt_irreflexive(a@);
        if i == a@.len() && i == b@.len() {
            assert(a@ =~= a@.take(i as int));
            assert(b@ =~= b@.take(i as int));
        }
    }
    if i == a.len() && i == b.len() {
        0
    } else if i == a.len() {
        -1
    } else if i == b.len() {
        1
    } else if a[i] < b[i] {
        -1
    } else {
        1
    }
}

proof fn lemma_text_lt_common_prefix(a: Seq<char>, b: Seq<char>, i: int)
    requires
        0 <= i <= a.len(),
        i <= b.len(),
        a.take(i) == b.take(i),
    ensures
        text_lt(a, b) == text_lt(a.skip(i), b.skip(i)),
        a != b ==> a.skip(i) != b.skip(i),
    decreases i,
{
    if i > 0 {
        assert(a[0] == a.take(i)[0]);
        assert(b[0] == b.take(i)[0]);
        assert(a.drop_first().take(i - 1) =~= a.take(i).drop_first());
        assert(b.drop_first().take(i - 1) =~= b.take(i).drop_first());
        lemma_text_lt_common_prefix(a.drop_first(), b.drop_first(), i - 1);
        assert(a.drop_first().skip(i - 1) =~= a.skip(i));
        assert(b.drop_first().skip(i - 1) =~= b.skip(i));
        if a != b && a.skip(i) == b.skip(i) {
            assert(a =~= a.take(i) + a.skip(i));
            assert(b =~= b.take(i) + b.skip(i));
        }
    } else {
        assert(a.skip(0) =~= a);
        assert(b.skip(0) =~= b);
    }
}

// ---------------------------------------------------------------------------
// Composite keys
// ---------------------------------------------------------------------------

/// A sort key: a number, then an optional text, then a second number.
pub struct SortKey {
    pub first: u64,
    pub text: Option<Vec<char>>,
    pub second: u64,
}

pub struct KeyV {
    pub first: int,
    pub text: Option<Seq<char>>,
    pub second: int,
}

impl View for SortKey {
    type V = KeyV;

    open spec fn view(&self) -> KeyV {
        KeyV {
            first: self.first as int,
            text: match self.text {
                Some(t) => Some(t@),
                None => None,
            },
            second: self.second as int,
        }
    }
}

pub open spec fn keys_view(v: Seq<SortKey>) -> Seq<KeyV> {
    v.map_values(|k: SortKey| k@)
}

/// Lexicographic "strictly before" on keys.
pub open spec fn key_lt(a: KeyV, b: KeyV) -> bool {
    ||| a.first < b.first
    ||| (a.first == b.first && opt_text_lt(a.text, b.text))
    ||| (a.first == b.first && a.text == b.text && a.second < b.second)
}

/// Position `x` sorts before position `y`: a smaller key, or an equal key and an earlier
/// position (which makes the sort stable).
pub open spec fn sorts_before(keys: Seq<KeyV>, x: int, y: int) -> bool {
    key_lt(keys[x], keys[y]) || (keys[x] == keys[y] && x < y)
}

pub proof fn lemma_key_lt_transitive(a: KeyV, b: KeyV, c: KeyV)
    requires
        key_lt(a, b),
        key_lt(b, c),
    ensures
        key_lt(a, c),
{
    if a.first == b.first && b.first == c.first {
        match (a.text, b.text, c.text) {
            (Some(x), Some(y), Some(z)) => {
                if text_lt(x, y) && text_lt(y, z) {
                    lemma_text_lt_transitive(x, y, z);
                }
            },
            _ => {},
        }
    }
}

pub proof fn lemma_key_lt_total(a: KeyV, b: KeyV)
    requires
        a != b,
    ensures
        key_lt(a, b) || key_lt(b, a),
{
    if a.first == b.first && a.text != b.text {
        match (a.text, b.text) {
            (Some(x), Some(y)) => lemma_text_lt_total(x, y),
            _ => {},
        }
    }
}

pub proof fn lemma_key_lt_asymmetric(a: KeyV, b: KeyV)
    requires
        key_lt(a, b),
    ensures
        !key_lt(b, a),
{
    if key_lt(b, a) {
        lemma_key_lt_transitive(a, b, a);
        match a.text {
            Some(x) => lemma_text_lt_irreflexive(x),
            None => {},
        }
    }
}

/// `ps` lists positions in the order the keys sort them.
pub open spec fn sorted_by_key(keys: Seq<KeyV>, ps: Seq<int>) -> bool {
    forall|i: int, j: int| 0 <= i < j < ps.len() ==> sorts_before(keys, #[trigger] ps[i], #[trigger] ps[j])
}

/// The same positions, each once.
pub open spec fn same_positions(a: Seq<int>, b: Seq<int>) -> bool {
    &&& a.len() == b.len()
    &&& forall|i: int| 0 <= i < a.len() ==> b.contains(#[trigger] a[i])
    &&& forall|i: int| 0 <= i < b.len() ==> a.contains(#[trigger] b[i])
}

pub open spec fn positions_view(v: Seq<usize>) -> Seq<int> {
    v.map_values(|p: usize| p as int)
}

fn key_before(a: &SortKey, b: &SortKey) -> (r: bool)
    ensures
        r == key_lt(a@, b@),
{
    if a.first != b.first {
        return a.first < b.first;
    }
    match (&a.text, &b.text) {
        (None, Some(_)) => true,
        (Some(_), None) => false,
        (None, None) => a.second < b.second,
        (Some(x), Some(y)) => {
            let o = order_chars(x, y);
            if o == 0 {
                a.second < b.second
            } else {
                o == -1
            }
        },
    }
}

fn keys_equal(a: &SortKey, b: &SortKey) -> (r: bool)
    ensures
        r == (a@ == b@),
{
    if a.first != b.first || a.second != b.second {
        return false;
    }
    match (&a.text, &b.text) {
        (None, None) => true,
        (Some(x), Some(y)) => order_chars(x, y) == 0,
        _ => false,
    }
}

/// Whether position `x` sorts before position `y`.
fn position_before(keys: &Vec<SortKey>, x: usize, y: usize) -> (r: bool)
    requires
        x < keys@.len(),
        y < keys@.len(),
    ensures
        r == sorts_before(keys_view(keys@), x as int, y as int),
{
    key_before(&keys[x], &keys[y]) || (keys_equal(&keys[x], &keys[y]) && x < y)
}

proof fn lemma_sorts_before_total(keys: Seq<KeyV>, x: int, y: int)
    requires
        0 <= x < keys.len(),
        0 <= y < keys.len(),
        x != y,
    ensures
        sorts_before(keys, x, y) || sorts_before(keys, y, x),
        !(sorts_before(keys, x, y) && sorts_before(keys, y, x)),
{
    if keys[x] != keys[y] {
        lemma_key_lt_total(keys[x], keys[y]);
        if key_lt(keys[x], keys[y]) {
            lemma_key_lt_asymmetric(keys[x], keys[y]);
        } else {
            lemma_key_lt_asymmetric(keys[y], keys[x]);
        }
    } else {
        if key_lt(keys[x], keys[y]) {
            lemma_key_lt_asymmetric(keys[x], keys[y]);
        }
    }
}

proof fn lemma_sorts_before_transitive(keys: Seq<KeyV>, x: int, y: int, z: int)
    requires
        0 <= x < keys.len(),
        0 <= y < keys.len(),
        0 <= z < keys.len(),
        sorts_before(keys, x, y),
        sorts_before(keys, y, z),
    ensures
        sorts_before(keys, x, z),
{
    if key_lt(keys[x], keys[y]) && key_lt(keys[y], keys[z]) {
        lemma_key_lt_transitive(keys[x], keys[y], keys[z]);
    }
}

/// The given positions (listed in increasing order) sorted by key, equal keys keeping their
/// order.
pub fn sort_positions(keys: &Vec<SortKey>, ps: &Vec<usize>) -> (r: Vec<usize>)
    requires
        forall|i: int| 0 <= i < ps@.len() ==> (#[trigger] ps@[i]) < keys@.len(),
        forall|i: int, j: int| 0 <= i < j < ps@.len() ==> ps@[i] < ps@[j],
    ensures
        same_positions(positions_view(r@), positions_view(ps@)),
        sorted_by_key(keys_view(keys@), positions_view(r@)),
        forall|i: int| 0 <= i < r@.len() ==> (#[trigger] r@[i]) < keys@.len(),
{
    let ghost kv = keys_view(keys@);
    let mut out: Vec<usize> = Vec::new();
    let mut n: usize = 0;
    while n < ps.len()
        invariant
            kv == keys_view(keys@),
            n <= ps@.len(),
            forall|i: int| 0 <= i < ps@.len() ==> (#[trigger] ps@[i]) < keys@.len(),
            forall|i: int, j: int| 0 <= i < j < ps@.len() ==> ps@[i] < ps@[j],
            same_positions(positions_view(out@), positions_view(ps@.take(n as int))),
            sorted_by_key(kv, positions_view(out@)),
            forall|i: int| 0 <= i < out@.len() ==> (#[trigger] out@[i]) < keys@.len(),
            forall|i: int| 0 <= i < out@.len() ==> (#[trigger] out@[i]) < ps@[n as int] || n == ps@.len(),
        decreases ps@.len() - n,
    {
        let x = ps[n];
        let mut q: usize = 0;
        while q < out.len() && !position_before(keys, x, out[q])
            invariant
                kv == keys_view(keys@),
                q <= out@.len(),
                x < keys@.len(),
                forall|i: int| 0 <= i < out@.len() ==> (#[trigger] out@[i]) < keys@.len(),
                forall|i: int| 0 <= i < q ==> !sorts_before(kv, x as int, #[trigger] out@[i] as int),
            decreases out@.len() - q,
        {
            q += 1;
        }
        let ghost before = out@;
        out.insert(q, x);
        proof {
            let pv = positions_view(out@);
            let pb = positions_view(before);
            assert forall|i: int| 0 <= i < before.len() implies (#[trigger] before[i]) != x by {
                assert(before[i] < x);
            }
            // everything placed before x sorts before it
            assert forall|i: int| 0 <= i < q implies sorts_before(kv, #[trigger] before[i] as int, x as int) by {
                lemma_sorts_before_total(kv, before[i] as int, x as int);
            }
            assert forall|i: int, j: int| 0 <= i < j < pv.len() implies sorts_before(
                kv,
                #[trigger] pv[i],
                #[trigger] pv[j],
            ) by {
                if j < q {
                    assert(pv[i] == pb[i] && pv[j] == pb[j]);
                } else if j == q {
                    assert(pv[j] == x);
                    assert(pv[i] == before[i]);
                } else if i == q {
                    assert(pv[i] == x);
                    assert(pv[j] == before[j - 1]);
                    if q < before.len() {
                        assert(sorts_before(kv, x as int, before[q as int] as int));
                        if j - 1 > q {
                            assert(sorts_before(kv, pb[q as int], pb[j - 1]));
                            lemma_sorts_before_transitive(kv, x as int, before[q as int] as int, before[j - 1] as int);
                        }
                    }
                } else if i < q {
                    assert(pv[i] == pb[i] && pv[j] == pb[j - 1]);
                } else {
                    assert(pv[i] == pb[i - 1] && pv[j] == pb[j - 1]);
                }
            }
            let taken = positions_view(ps@.take(n + 1));
            let prev = positions_view(ps@.take(n as int));
            assert(taken =~= prev.push(x as int));
            assert forall|i: int| 0 <= i < pv.len() implies taken.contains(#[trigger] pv[i]) by {
                if i == q {
                    assert(taken[n as int] == x);
                } else if i < q {
                    assert(pv[i] == pb[i]);
                    assert(prev.contains(pb[i]));
                    let k = choose|k: int| 0 <= k < prev.len() && prev[k] == pb[i];
                    assert(taken[k] == prev[k]);
                } else {
                    assert(pv[i] == pb[i - 1]);
                    assert(prev.contains(pb[i - 1]));
                    let k = choose|k: int| 0 <= k < prev.len() && prev[k] == pb[i - 1];
                    assert(taken[k] == prev[k]);
                }
            }
            assert forall|i: int| 0 <= i < taken.len() implies pv.contains(#[trigger] taken[i]) by {
                if i == n {
                    assert(pv[q as int] == x);
                } else {
                    assert(taken[i] == prev[i]);
                    assert(pb.contains(prev[i]));
                    let k = choose|k: int| 0 <= k < pb.len() && pb[k] == prev[i];
                    if k < q {
                        assert(pv[k] == pb[k]);
                    } else {
                        assert(pv[k + 1] == pb[k]);
                    }
                }
            }
            assert forall|i: int| 0 <= i < out@.len() implies (#[trigger] out@[i]) < ps@[n + 1] || n + 1 == ps@.len() by {
                if n + 1 < ps@.len() {
                    assert(ps@[n as int] < ps@[n + 1]);
                    if i != q {
                        if i < q {
                            assert(out@[i] == before[i]);
                        } else {
                            assert(out@[i] == before[i - 1]);
                        }
                    }
                }
            }
        }
        n += 1;
    }
    assert(ps@.take(n as int) =~= ps@);
    out
}

// ---------------------------------------------------------------------------
// Listings ordered by a text
// ---------------------------------------------------------------------------

/// Position `x` comes before position `y` when the listing is ordered by `ts`, ascending or
/// (`descending`) newest first; equal texts keep their order.
pub open spec fn text_before(ts: Seq<Seq<char>>, descending: bool, x: int, y: int) -> bool {
    ||| (!descending && text_lt(ts[x], ts[y]))
    ||| (descending && text_lt(ts[y], ts[x]))
    ||| (ts[x] == ts[y] && x < y)
}

/// `ps` lists positions in the order the texts sort them.
pub open spec fn ordered_by_text(ts: Seq<Seq<char>>, descending: bool, ps: Seq<int>) -> bool {
    forall|i: int, j: int| 0 <= i < j < ps.len() ==> text_before(ts, descending, #[trigger] ps[i], #[trigger] ps[j])
}

/// Every position of a list of `n` items, each once.
pub open spec fn all_positions(ps: Seq<int>, n: nat) -> bool {
    &&& ps.len() == n
    &&& forall|i: int| 0 <= i < ps.len() ==> 0 <= #[trigger] ps[i] < n
    &&& forall|i: int, j: int| 0 <= i < j < ps.len() ==> ps[i] != ps[j]
}

proof fn lemma_text_before_total(ts: Seq<Seq<char>>, d: bool, x: int, y: int)
    requires
        x != y,
    ensures
        text_before(ts, d, x, y) || text_before(ts, d, y, x),
        !(text_before(ts, d, x, y) && text_before(ts, d, y, x)),
{
    if ts[x] != ts[y] {
        lemma_text_lt_total(ts[x], ts[y]);
        if text_lt(ts[x], ts[y]) && text_lt(ts[y], ts[x]) {
            lemma_text_lt_transitive(ts[x], ts[y], ts[x]);
            lemma_text_lt_irreflexive(ts[x]);
        }
    } else {
        lemma_text_lt_irreflexive(ts[x]);
    }
}

proof fn lemma_text_before_transitive(ts: Seq<Seq<char>>, d: bool, x: int, y: int, z: int)
    requires
        text_before(ts, d, x, y),
        text_before(ts, d, y, z),
    ensures
        text_before(ts, d, x, z),
{
    if !d && text_lt(ts[x], ts[y]) && text_lt(ts[y], ts[z]) {
        lemma_text_lt_transitive(ts[x], ts[y], ts[z]);
    }
    if d && text_lt(ts[y], ts[x]) && text_lt(ts[z], ts[y]) {
        lemma_text_lt_transitive(ts[z], ts[y], ts[x]);
    }
}

fn text_before_exec(texts: &[String], descending: bool, x: usize, y: usize) -> (r: bool)
    requires
        x < texts@.len(),
        y < texts@.len(),
    ensures
        r == text_before(crate::text::strings_view(texts@), descending, x as int, y as int),
{
    let a = crate::text::chars_of(texts[x].as_str());
    let b = crate::text::chars_of(texts[y].as_str());
    let o = order_chars(&a, &b);
    if o == 0 {
        x < y
    } else if descending {
        o == 1
    } else {
        o == -1
    }
}

/// The order in which a listing shows its items, by the text each carries: positions
/// `0..texts.len()`, each once, ascending by text or (`descending`) newest first, items with
/// equal texts in their listed order (the order a stable `sort_by` gives).
pub fn order_by_text(texts: &[String], descending: bool) -> (r: Vec<usize>)
    ensures
        all_positions(positions_view(r@), texts@.len()),
        ordered_by_text(crate::text::strings_view(texts@), descending, positions_view(r@)),
{
    let ghost ts = crate::text::strings_view(texts@);
    let mut out: Vec<usize> = Vec::new();
    let mut n: usize = 0;
    while n < texts.len()
        invariant
            ts == crate::text::strings_view(texts@),
            n <= texts@.len(),
            all_positions(positions_view(out@), n as nat),
            ordered_by_text(ts, descending, positions_view(out@)),
        decreases texts@.len() - n,
    {
        let mut q: usize = 0;
        assert forall|i: int| 0 <= i < out@.len() implies (#[trigger] out@[i]) < n by {
            assert(positions_view(out@)[i] == out@[i] as int);
        }
        while q < out.len() && !text_before_exec(texts, descending, n, out[q])
            invariant
                ts == crate::text::strings_view(texts@),
                n < texts@.len(),
                q <= out@.len(),
                all_positions(positions_view(out@), n as nat),
                forall|i: int| 0 <= i < out@.len() ==> (#[trigger] out@[i]) < n,
                forall|i: int| 0 <= i < q ==> !text_before(ts, descending, n as int, #[trigger] out@[i] as int),
            decreases out@.len() - q,
        {
            proof {
                assert(positions_view(out@)[q as int] == out@[q as int] as int);
            }
            q += 1;
        }
        let ghost before = out@;
        out.insert(q, n);
        proof {
            let pv = positions_view(out@);
            let pb = positions_view(before);
            assert forall|i: int| 0 <= i < before.len() implies (#[trigger] before[i]) < n by {
                assert(pb[i] == before[i] as int);
            }
            assert forall|i: int| 0 <= i < q implies text_before(ts, descending, #[trigger] before[i] as int, n as int) by {
                lemma_text_before_total(ts, descending, before[i] as int, n as int);
            }
            assert forall|i: int, j: int| 0 <= i < j < pv.len() implies text_before(
                ts,
                descending,
                #[trigger] pv[i],
                #[trigger] pv[j],
            ) by {
                if j < q {
                    assert(pv[i] == pb[i] && pv[j] == pb[j]);
                } else if j == q {
                    assert(pv[j] == n && pv[i] == before[i]);
                } else if i == q {
                    assert(pv[i] == n && pv[j] == before[j - 1]);
                    if q < before.len() {
                        assert(text_before(ts, descending, n as int, before[q as int] as int));
                        if j - 1 > q {
                            assert(text_before(ts, descending, pb[q as int], pb[j - 1]));
                            lemma_text_before_transitive(ts, descending, n as int, before[q as int] as int, before[j - 1] as int);
                        }
                    }
                } else if i < q {
                    assert(pv[i] == pb[i] && pv[j] == pb[j - 1]);
                } else {
                    assert(pv[i] == pb[i - 1] && pv[j] == pb[j - 1]);
                }
            }
            assert forall|i: int| 0 <= i < pv.len() implies 0 <= #[trigger] pv[i] < n + 1 by {
                if i < q {
                    assert(pv[i] == pb[i]);
                } else if i > q {
                    assert(pv[i] == pb[i - 1]);
                }
            }
            assert forall|i: int, j: int| 0 <= i < j < pv.len() implies pv[i] != pv[j] by {
                if i == q {
                    assert(pv[j] == pb[j - 1]);
                } else if j == q {
                    assert(pv[i] == pb[i]);
                } else if j < q {
                    assert(pv[i] == pb[i] && pv[j] == pb[j]);
                } else if i < q {
                    assert(pv[i] == pb[i] && pv[j] == pb[j - 1]);
                } else {
                    assert(pv[i] == pb[i - 1] && pv[j] == pb[j - 1]);
                }
            }
        }
        n += 1;
    }
    out
}

} // verus!
