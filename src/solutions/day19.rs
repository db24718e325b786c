//! Towels: which designs can be laid out from the available stripe
//! patterns, and in how many ways.
use crate::parser::{agrees, IsInput, Parser, Seperated, TyParser};
use crate::text::{chars_of, fields, split, split_on, text_of, trimmed, views, Delim, Separator};
use vstd::prelude::*;

verus! {

/// Whether `p` starts `t`.
pub open spec fn starts(t: Seq<char>, p: Seq<char>) -> bool {
    p.len() <= t.len() && t.take(p.len() as int) == p
}

/// Whether `t` can be laid out from the patterns.
pub open spec fn can_make(parts: Seq<Seq<char>>, t: Seq<char>) -> bool
    decreases t.len(), parts.len() + 1,
{
    if t.len() == 0 {
        true
    } else {
        can_make_via(parts, t, parts.len() as int)
    }
}

/// Whether `t` can be laid out starting with one of the first `m` patterns.
pub open spec fn can_make_via(parts: Seq<Seq<char>>, t: Seq<char>, m: int) -> bool
    decreases t.len(), m,
{
    if m <= 0 || m > parts.len() {
        false
    } else {
        can_make_via(parts, t, m - 1) || (parts[m - 1].len() > 0 && starts(t, parts[m - 1])
            && can_make(parts, t.skip(parts[m - 1].len() as int)))
    }
}

/// Number of ways to lay out `t` from the patterns.
pub open spec fn ways(parts: Seq<Seq<char>>, t: Seq<char>) -> nat
    decreases t.len(), parts.len() + 1,
{
    if t.len() == 0 {
        1
    } else {
        ways_via(parts, t, parts.len() as int)
    }
}

/// Number of ways to lay out `t` starting with one of the first `m`
/// patterns.
pub open spec fn ways_via(parts: Seq<Seq<char>>, t: Seq<char>, m: int) -> nat
    decreases t.len(), m,
{
    if m <= 0 || m > parts.len() {
        0
    } else {
        ways_via(parts, t, m - 1) + if parts[m - 1].len() > 0 && starts(t, parts[m - 1]) {
            ways(parts, t.skip(parts[m - 1].len() as int))
        } else {
            0
        }
    }
}

/// The patterns and the designs.
pub struct Input {
    pub parts: Vec<String>,
    pub towels: Vec<String>,
}

impl DeepView for Input {
    type V = (Seq<Seq<char>>, Seq<Seq<char>>);

    open spec fn deep_view(&self) -> (Seq<Seq<char>>, Seq<Seq<char>>) {
        (
            self.parts@.map_values(|p: String| p@),
            self.towels@.map_values(|t: String| t@),
        )
    }
}

/// The trimmed texts.
pub open spec fn all_trimmed(ts: Seq<Seq<char>>) -> Seq<Seq<char>>
    decreases ts.len(),
{
    if ts.len() == 0 {
        Seq::empty()
    } else {
        all_trimmed(ts.drop_last()).push(trimmed(ts.last()))
    }
}

/// Reading texts as `String`s keeps them, trimmed.
pub proof fn lemma_parse_strings(p: TyParser<String>, ts: Seq<Seq<char>>)
    ensures
        crate::parser::parse_all(p, ts) == Some(all_trimmed(ts)),
    decreases ts.len(),
{
    if ts.len() > 0 {
        lemma_parse_strings(p, ts.drop_last());
    }
}

/// The patterns (separated by `, `) and the designs (one per line), in two
/// blocks separated by a blank line.
pub open spec fn towels_of(s: Seq<char>) -> Option<(Seq<Seq<char>>, Seq<Seq<char>>)> {
    let blocks = split_on(s, Delim::Text(seq!['\n', '\n']));
    if blocks.len() < 2 {
        None
    } else {
        Some(
            (
                all_trimmed(fields(blocks[0], Delim::Text(seq![',', ' ']))),
                all_trimmed(fields(blocks[1], Delim::Text(seq!['\n']))),
            ),
        )
    }
}

/// Reads texts separated by `sep`, trimmed, dropping empty ones.
fn read_strings(text: &String, sep: &str) -> (r: Vec<String>)
    ensures
        r@.map_values(|x: String| x@) == all_trimmed(fields(text@, Delim::Text(sep@))),
{
    let mut p = Seperated::new(sep, TyParser::<String>::new());
    let ghost p0 = p;
    proof {
        lemma_parse_strings(p0.inner, fields(text@, Delim::Text(sep@)));
    }
    match p.parse(text.as_str()) {
        Some(v) => {
            assert(v@.map_values(|x: String| x@) =~= v.deep_view());
            v
        },
        None => {
            assert(false);
            Vec::new()
        },
    }
}

impl IsInput for Input {
    open spec fn spec_from_text(s: Seq<char>) -> Option<(Seq<Seq<char>>, Seq<Seq<char>>)> {
        towels_of(s)
    }

    fn from_text(s: &[char]) -> (r: Option<Input>) {
        let blank = vec!['\n', '\n'];
        assert(blank@ =~= seq!['\n', '\n']);
        let blocks = split(s, &Separator::Text(blank));
        proof {
            assert(views(blocks@).len() == blocks@.len());
        }
        if blocks.len() < 2 {
            return None;
        }
        proof {
            assert(views(blocks@)[0] == blocks@[0]@);
            assert(views(blocks@)[1] == blocks@[1]@);
        }
        let first = text_of(blocks[0].as_slice());
        let second = text_of(blocks[1].as_slice());
        let comma = ", ";
        let newline = "\n";
        proof {
            reveal_strlit(", ");
            reveal_strlit("\n");
            assert(comma@ =~= seq![',', ' ']);
            assert(newline@ =~= seq!['\n']);
        }
        let parts = read_strings(&first, comma);
        let towels = read_strings(&second, newline);
        Some(Input { parts, towels })
    }
}

/// Every pattern is non-empty.
pub open spec fn patterns_ok(parts: Seq<Seq<char>>) -> bool {
    forall|k: int| 0 <= k < parts.len() ==> (#[trigger] parts[k]).len() > 0
}

/// Whether `p` occurs in `t` at `start`.
fn starts_at(t: &Vec<char>, start: usize, p: &Vec<char>) -> (r: bool)
    requires
        start <= t@.len(),
    ensures
        r == starts(t@.skip(start as int), p@),
{
    if p.len() > t.len() - start {
        return false;
    }
    let mut k: usize = 0;
    while k < p.len()
        invariant
            start + p@.len() <= t.len(),
            k <= p@.len(),
            forall|q: int| 0 <= q < k ==> t@[start + q] == p@[q],
        decreases p@.len() - k,
    {
        if t[start + k] != p[k] {
            assert(t@.skip(start as int).take(p@.len() as int)[k as int] != p@[k as int]);
            return false;
        }
        k = k + 1;
    }
    assert(t@.skip(start as int).take(p@.len() as int) =~= p@);
    true
}

/// The characters of every pattern.
fn pattern_chars(parts: &Vec<String>) -> (r: Vec<Vec<char>>)
    ensures
        views(r@) == parts@.map_values(|p: String| p@),
{
    let mut out: Vec<Vec<char>> = Vec::new();
    let mut k: usize = 0;
    while k < parts.len()
        invariant
            k <= parts@.len(),
            views(out@) == parts@.map_values(|p: String| p@).take(k as int),
        decreases parts@.len() - k,
    {
        let cs = chars_of(parts[k].as_str());
        let ghost before = out@;
        out.push(cs);
        assert(views(out@) =~= views(before).push(cs@));
        assert(parts@.map_values(|p: String| p@).take(k + 1) =~= parts@.map_values(
            |p: String| p@,
        ).take(k as int).push(parts@[k as int]@));
        k = k + 1;
    }
    assert(parts@.map_values(|p: String| p@).take(k as int) =~= parts@.map_values(
        |p: String| p@,
    ));
    out
}

fn possible_from(parts: &Vec<Vec<char>>, t: &Vec<char>, start: usize) -> (r: bool)
    requires
        start <= t@.len(),
        patterns_ok(views(parts@)),
    ensures
        r == can_make(views(parts@), t@.skip(start as int)),
    decreases t@.len() - start,
{
    let ghost ps = views(parts@);
    let ghost rest = t@.skip(start as int);
    if start == t.len() {
        return true;
    }
    let mut m: usize = 0;
    while m < parts.len()
        invariant
            ps == views(parts@),
            patterns_ok(ps),
            start < t@.len(),
            rest == t@.skip(start as int),
            m <= parts@.len(),
            !can_make_via(ps, rest, m as int),
        decreases parts@.len() - m,
    {
        let p = &parts[m];
        proof {
            assert(ps[m as int] == p@);
            assert(p@.len() > 0);
        }
        if starts_at(t, start, p) {
            proof {
                assert(start + p@.len() <= t.len());
                assert(rest.skip(p@.len() as int) =~= t@.skip(start + p@.len()));
            }
            if possible_from(parts, t, start + p.len()) {
                proof {
                    assert(can_make_via(ps, rest, m + 1));
                    lemma_can_make_via_grows(ps, rest, m + 1, ps.len() as int);
                }
                return true;
            }
        }
        m = m + 1;
    }
    false
}

fn ways_from(
    parts: &Vec<Vec<char>>,
    t: &Vec<char>,
    start: usize,
    memo: &mut Vec<Option<usize>>,
) -> (r: Option<usize>)
    requires
        start <= t@.len(),
        patterns_ok(views(parts@)),
        old(memo)@.len() == t@.len() + 1,
        forall|k: int| #![trigger old(memo)@[k]]
            0 <= k <= t@.len() && old(memo)@[k] is Some ==> old(memo)@[k]->0 == ways(
                views(parts@),
                t@.skip(k),
            ),
    ensures
        r matches Some(v) ==> v == ways(views(parts@), t@.skip(start as int)),
        r is None ==> ways(views(parts@), t@.skip(start as int)) > usize::MAX,
        final(memo)@.len() == t@.len() + 1,
        forall|k: int| #![trigger final(memo)@[k]]
            0 <= k <= t@.len() && final(memo)@[k] is Some ==> final(memo)@[k]->0 == ways(
                views(parts@),
                t@.skip(k),
            ),
    decreases t@.len() - start,
{
    let ghost ps = views(parts@);
    let ghost rest = t@.skip(start as int);
    match memo[start] {
        Some(count) => {
            return Some(count);
        },
        None => {},
    }
    if start == t.len() {
        return Some(1);
    }
    let mut total: usize = 0;
    let mut m: usize = 0;
    while m < parts.len()
        invariant
            ps == views(parts@),
            patterns_ok(ps),
            start < t@.len(),
            rest == t@.skip(start as int),
            m <= parts@.len(),
            ways(ps, rest) == ways_via(ps, rest, ps.len() as int),
            total == ways_via(ps, rest, m as int),
            memo@.len() == t@.len() + 1,
            forall|k: int| #![trigger memo@[k]]
                0 <= k <= t@.len() && memo@[k] is Some ==> memo@[k]->0 == ways(ps, t@.skip(k)),
        decreases parts@.len() - m,
    {
        let p = &parts[m];
        proof {
            assert(ps[m as int] == p@);
            assert(p@.len() > 0);
            lemma_ways_via_grows(ps, rest, m + 1, ps.len() as int);
        }
        if starts_at(t, start, p) {
            proof {
                assert(start + p@.len() <= t.len());
                assert(rest.skip(p@.len() as int) =~= t@.skip(start + p@.len()));
            }
            match ways_from(parts, t, start + p.len(), memo) {
                Some(w) => match total.checked_add(w) {
                    Some(sum) => total = sum,
                    None => return None,
                },
                None => return None,
            }
        }
        m = m + 1;
    }
    memo.set(start, Some(total));
    Some(total)
}

/// A layout through fewer patterns is one through more.
pub proof fn lemma_can_make_via_grows(parts: Seq<Seq<char>>, t: Seq<char>, m: int, n: int)
    requires
        0 <= m <= n <= parts.len(),
        can_make_via(parts, t, m),
    ensures
        can_make_via(parts, t, n),
    decreases n,
{
    if n > m {
        lemma_can_make_via_grows(parts, t, m, n - 1);
    }
}

/// Counts through more patterns are at least as large.
pub proof fn lemma_ways_via_grows(parts: Seq<Seq<char>>, t: Seq<char>, m: int, n: int)
    requires
        0 <= m <= n <= parts.len(),
    ensures
        ways_via(parts, t, m) <= ways_via(parts, t, n),
    decreases n,
{
    if n > m {
        lemma_ways_via_grows(parts, t, m, n - 1);
    }
}

impl Input {
    /// Whether `towel` can be laid out from the patterns.
    pub fn possible(&self, towel: &str) -> (r: bool)
        requires
            patterns_ok(self.deep_view().0),
        ensures
            r == can_make(self.deep_view().0, towel@),
    {
        let parts = pattern_chars(&self.parts);
        let t = chars_of(towel);
        assert(t@.skip(0) =~= t@);
        possible_from(&parts, &t, 0)
    }

    /// Number of ways to lay out `towel` from the patterns.
    pub fn possible_ways(&self, towel: &str) -> (r: usize)
        requires
            patterns_ok(self.deep_view().0),
            ways(self.deep_view().0, towel@) <= usize::MAX,
        ensures
            r == ways(self.deep_view().0, towel@),
    {
        match self.count_ways(towel) {
            Some(n) => n,
            None => 0,
        }
    }

    /// Number of ways to lay out `towel` from the patterns, or `None` when
    /// it exceeds `usize::MAX`.
    pub fn count_ways(&self, towel: &str) -> (r: Option<usize>)
        requires
            patterns_ok(self.deep_view().0),
        ensures
            r matches Some(n) ==> n == ways(self.deep_view().0, towel@),
            r is None <==> ways(self.deep_view().0, towel@) > usize::MAX,
    {
        let parts = pattern_chars(&self.parts);
        let t = chars_of(towel);
        let mut memo: Vec<Option<usize>> = Vec::new();
        memo.push(None);
        let mut k: usize = 0;
        while k < t.len()
            invariant
                k <= t@.len(),
                memo@.len() == k + 1,
                forall|q: int| 0 <= q <= k ==> #[trigger] memo@[q] is None,
            decreases t@.len() - k,
        {
            memo.push(None);
            k = k + 1;
        }
        assert(t@.skip(0) =~= t@);
        ways_from(&parts, &t, 0, &mut memo)
    }
}

/// Number of designs among `ts` that can be laid out.
pub open spec fn makeable(parts: Seq<Seq<char>>, ts: Seq<Seq<char>>) -> nat
    decreases ts.len(),
{
    if ts.len() == 0 {
        0
    } else {
        makeable(parts, ts.drop_last()) + if can_make(parts, ts.last()) {
            1nat
        } else {
            0nat
        }
    }
}

/// Total number of ways over all of `ts`.
pub open spec fn all_ways(parts: Seq<Seq<char>>, ts: Seq<Seq<char>>) -> nat
    decreases ts.len(),
{
    if ts.len() == 0 {
        0
    } else {
        all_ways(parts, ts.drop_last()) + ways(parts, ts.last())
    }
}

/// Partial totals do not exceed the whole.
pub proof fn lemma_all_ways_grows(parts: Seq<Seq<char>>, ts: Seq<Seq<char>>, k: int)
    requires
        0 <= k <= ts.len(),
    ensures
        all_ways(parts, ts.take(k)) <= all_ways(parts, ts),
    decreases ts.len(),
{
    if ts.len() > 0 {
        if k == ts.len() {
            assert(ts.take(k) =~= ts);
        } else {
            lemma_all_ways_grows(parts, ts.drop_last(), k);
            assert(ts.drop_last().take(k) =~= ts.take(k));
        }
    } else {
        assert(ts.take(k) =~= ts);
    }
}

/// Number of designs that can be laid out.
pub fn level1(input: Input) -> (r: usize)
    requires
        patterns_ok(input.deep_view().0),
    ensures
        r == makeable(input.deep_view().0, input.deep_view().1),
{
    let ghost ts = input.deep_view().1;
    let mut n: usize = 0;
    let mut i: usize = 0;
    while i < input.towels.len()
        invariant
            ts == input.deep_view().1,
            patterns_ok(input.deep_view().0),
            i <= ts.len(),
            n <= i,
            n == makeable(input.deep_view().0, ts.take(i as int)),
        decreases ts.len() - i,
    {
        proof {
            assert(ts.take(i + 1).drop_last() =~= ts.take(i as int));
            assert(ts[i as int] == input.towels@[i as int]@);
        }
        if input.possible(input.towels[i].as_str()) {
            n = n + 1;
        }
        i = i + 1;
    }
    assert(ts.take(i as int) =~= ts);
    n
}

/// Total number of ways to lay out all the designs.
pub fn level2(input: Input) -> (r: usize)
    requires
        patterns_ok(input.deep_view().0),
        all_ways(input.deep_view().0, input.deep_view().1) <= usize::MAX,
    ensures
        r == all_ways(input.deep_view().0, input.deep_view().1),
{
    let ghost ps = input.deep_view().0;
    let ghost ts = input.deep_view().1;
    let mut n: usize = 0;
    let mut i: usize = 0;
    while i < input.towels.len()
        invariant
            ps == input.deep_view().0,
            ts == input.deep_view().1,
            patterns_ok(ps),
            all_ways(ps, ts) <= usize::MAX,
            i <= ts.len(),
            n == all_ways(ps, ts.take(i as int)),
        decreases ts.len() - i,
    {
        proof {
            assert(ts.take(i + 1).drop_last() =~= ts.take(i as int));
            assert(ts[i as int] == input.towels@[i as int]@);
            lemma_all_ways_grows(ps, ts, i + 1);
        }
        let w = input.possible_ways(input.towels[i].as_str());
        n = n + w;
        i = i + 1;
    }
    assert(ts.take(i as int) =~= ts);
    n
}

/// The total number of ways over all designs, or `None` when it exceeds
/// `usize::MAX`.
pub fn total_ways(input: &Input) -> (r: Option<usize>)
    requires
        patterns_ok(input.deep_view().0),
    ensures
        r matches Some(n) ==> n == all_ways(input.deep_view().0, input.deep_view().1),
        r is None <==> all_ways(input.deep_view().0, input.deep_view().1) > usize::MAX,
{
    let ghost ps = input.deep_view().0;
    let ghost ts = input.deep_view().1;
    let mut n: usize = 0;
    let mut i: usize = 0;
    while i < input.towels.len()
        invariant
            ps == input.deep_view().0,
            ts == input.deep_view().1,
            patterns_ok(ps),
            i <= ts.len(),
            n == all_ways(ps, ts.take(i as int)),
        decreases ts.len() - i,
    {
        proof {
            assert(ts.take(i + 1).drop_last() =~= ts.take(i as int));
            assert(ts[i as int] == input.towels@[i as int]@);
            lemma_all_ways_grows(ps, ts, i + 1);
        }
        match input.count_ways(input.towels[i].as_str()) {
            Some(w) => match n.checked_add(w) {
                Some(sum) => n = sum,
                None => return None,
            },
            None => return None,
        }
        i = i + 1;
    }
    assert(ts.take(i as int) =~= ts);
    Some(n)
}

} // verus!
