//! Hiking trails on a height map: paths that climb one step at a time from
//! height 0 to height 9, moving up, left, down or right.
use vstd::prelude::*;

verus! {

/// Whether the rows form a non-empty rectangle.
pub open spec fn rectangular(a: Seq<Seq<u8>>) -> bool {
    &&& a.len() > 0
    &&& a[0].len() > 0
    &&& forall|i: int| 0 <= i < a.len() ==> (#[trigger] a[i]).len() == a[0].len()
}

/// The neighbours of `(i, j)` inside `[0, imax] x [0, jmax]`, in the order
/// up, left, down, right.
pub open spec fn neighbours(i: int, j: int, imax: int, jmax: int) -> Seq<(usize, usize)> {
    let up = if i > 0 {
        seq![((i - 1) as usize, j as usize)]
    } else {
        Seq::empty()
    };
    let left = if j > 0 {
        seq![(i as usize, (j - 1) as usize)]
    } else {
        Seq::empty()
    };
    let down = if i < imax {
        seq![((i + 1) as usize, j as usize)]
    } else {
        Seq::empty()
    };
    let right = if j < jmax {
        seq![(i as usize, (j + 1) as usize)]
    } else {
        Seq::empty()
    };
    up + left + down + right
}

/// Number of trails from `(i, j)`, standing at height `n - 1`, to a 9.
pub open spec fn trails_from(a: Seq<Seq<u8>>, i: int, j: int, n: int) -> nat
    decreases 10 - n, 5int,
{
    if n >= 10 || n < 0 {
        1
    } else {
        trails_via(a, neighbours(i, j, a.len() - 1, a[0].len() - 1), n)
    }
}

/// Number of trails that continue through those of `ks` at height `n`.
pub open spec fn trails_via(a: Seq<Seq<u8>>, ks: Seq<(usize, usize)>, n: int) -> nat
    decreases 10 - n, ks.len(),
{
    if ks.len() == 0 || n >= 10 || n < 0 {
        0
    } else {
        let k = ks.last();
        trails_via(a, ks.drop_last(), n) + if a[k.0 as int][k.1 as int] == n {
            trails_from(a, k.0 as int, k.1 as int, n + 1)
        } else {
            0
        }
    }
}

fn surrounding(i: usize, j: usize, imax: usize, jmax: usize) -> (r: Vec<(usize, usize)>)
    ensures
        r@ == neighbours(i as int, j as int, imax as int, jmax as int),
{
    let mut v: Vec<(usize, usize)> = Vec::new();
    if i > 0 {
        v.push((i - 1, j));
    }
    if j > 0 {
        v.push((i, j - 1));
    }
    if i < imax {
        v.push((i + 1, j));
    }
    if j < jmax {
        v.push((i, j + 1));
    }
    assert(v@ =~= neighbours(i as int, j as int, imax as int, jmax as int));
    v
}

/// A trail count through a prefix of the neighbours is at most the whole.
pub proof fn lemma_trails_via_grows(a: Seq<Seq<u8>>, ks: Seq<(usize, usize)>, n: int, m: int)
    requires
        0 <= m <= ks.len(),
    ensures
        trails_via(a, ks.take(m), n) <= trails_via(a, ks, n),
    decreases ks.len(),
{
    if ks.len() > 0 {
        if m == ks.len() {
            assert(ks.take(m) =~= ks);
        } else {
            lemma_trails_via_grows(a, ks.drop_last(), n, m);
            assert(ks.drop_last().take(m) =~= ks.take(m));
        }
    } else {
        assert(ks.take(m) =~= ks);
    }
}

fn dfs2(a: &Vec<Vec<u8>>, i: usize, j: usize, n: u8) -> (r: usize)
    requires
        rectangular(a.deep_view()),
        i < a@.len(),
        j < a@[0]@.len(),
        n <= 10,
        trails_from(a.deep_view(), i as int, j as int, n as int) <= usize::MAX,
    ensures
        r == trails_from(a.deep_view(), i as int, j as int, n as int),
    decreases 10 - n,
{
    let ghost g = a.deep_view();
    if n == 10 {
        return 1;
    }
    let ks = surrounding(i, j, a.len() - 1, a[0].len() - 1);
    proof {
        assert(g.len() == a@.len());
        assert(g[0].len() == a@[0]@.len());
    }
    let mut sum: usize = 0;
    let mut k: usize = 0;
    while k < ks.len()
        invariant
            g == a.deep_view(),
            rectangular(g),
            n < 10,
            i < a@.len(),
            j < a@[0]@.len(),
            ks@ == neighbours(i as int, j as int, g.len() - 1, g[0].len() - 1),
            k <= ks@.len(),
            trails_from(g, i as int, j as int, n as int) <= usize::MAX,
            trails_from(g, i as int, j as int, n as int) == trails_via(g, ks@, n as int),
            sum == trails_via(g, ks@.take(k as int), n as int),
        decreases ks@.len() - k,
    {
        let (y, x) = ks[k];
        proof {
            assert(ks@.take(k + 1).drop_last() =~= ks@.take(k as int));
            assert(ks@.take(k + 1).last() == (y, x));
            lemma_trails_via_grows(g, ks@, n as int, k + 1);
            assert(y < g.len() && x < g[0].len());
            assert(g[y as int] == a@[y as int]@);
            assert(g[y as int].len() == g[0].len());
        }
        if a[y][x] == n {
            let t = dfs2(a, y, x, n + 1);
            sum = sum + t;
        }
        k = k + 1;
    }
    proof {
        assert(ks@.take(k as int) =~= ks@);
    }
    sum
}

/// Sum, over the cells of height 0 among the first `k` in row-major order,
/// of the trails that start there.
pub open spec fn rating_upto(a: Seq<Seq<u8>>, k: int) -> nat
    decreases k,
{
    if k <= 0 {
        0
    } else {
        let w = a[0].len() as int;
        let i = (k - 1) / w;
        let j = (k - 1) % w;
        rating_upto(a, k - 1) + if a[i][j] == 0 {
            trails_from(a, i, j, 1)
        } else {
            0
        }
    }
}

/// The sum of the ratings of all trailheads.
pub open spec fn rating(a: Seq<Seq<u8>>) -> nat {
    rating_upto(a, a.len() as int * a[0].len() as int)
}

/// Partial sums do not exceed later ones.
pub proof fn lemma_rating_grows(a: Seq<Seq<u8>>, k: int, m: int)
    requires
        0 <= k <= m,
    ensures
        rating_upto(a, k) <= rating_upto(a, m),
    decreases m,
{
    if m > k {
        lemma_rating_grows(a, k, m - 1);
    }
}

/// The sum over all trailheads of the number of distinct trails from them.
pub fn level2(input: Vec<Vec<u8>>) -> (r: usize)
    requires
        rectangular(input.deep_view()),
        rating(input.deep_view()) <= usize::MAX,
    ensures
        r == rating(input.deep_view()),
{
    let ghost g = input.deep_view();
    let h = input.len();
    let w = input[0].len();
    proof {
        assert(g.len() == h);
        assert(g[0].len() == w);
    }
    let mut sum: usize = 0;
    let mut i: usize = 0;
    while i < h
        invariant
            g == input.deep_view(),
            rectangular(g),
            h == g.len(),
            w == g[0].len(),
            i <= h,
            rating(g) <= usize::MAX,
            sum == rating_upto(g, i * w),
        decreases h - i,
    {
        let mut j: usize = 0;
        proof {
            assert(g[i as int] == input@[i as int]@);
            assert(g[i as int].len() == w);
        }
        while j < w
            invariant
                g == input.deep_view(),
                rectangular(g),
                h == g.len(),
                w == g[0].len(),
                i < h,
                j <= w,
                rating(g) <= usize::MAX,
                sum == rating_upto(g, i * w + j),
            decreases w - j,
        {
            proof {
                assert(i * w + j + 1 <= h * w) by (nonlinear_arith)
                    requires
                        i < h,
                        j < w,
                ;
                lemma_rating_grows(g, i * w + j + 1, h * w);
                let k = i * w + j + 1;
                assert((k - 1) / (w as int) == i && (k - 1) % (w as int) == j) by (nonlinear_arith)
                    requires
                        k - 1 == i * w + j,
                        j < w,
                        w > 0,
                ;
                assert(g[i as int] == input@[i as int]@);
            }
            if input[i][j] == 0 {
                let t = dfs2(&input, i, j, 1);
                sum = sum + t;
            }
            j = j + 1;
        }
        assert(i * w + w == (i + 1) * w) by (nonlinear_arith);
        i = i + 1;
    }
    sum
}

/// The 9s reachable from `(i, j)`, standing at height `n - 1`.
pub open spec fn ends_from(a: Seq<Seq<u8>>, i: int, j: int, n: int) -> Set<(usize, usize)>
    decreases 10 - n, 5int,
{
    if n >= 10 || n < 0 {
        set![(i as usize, j as usize)]
    } else {
        ends_via(a, neighbours(i, j, a.len() - 1, a[0].len() - 1), n)
    }
}

/// The 9s reachable through those of `ks` at height `n`.
pub open spec fn ends_via(a: Seq<Seq<u8>>, ks: Seq<(usize, usize)>, n: int) -> Set<
    (usize, usize),
>
    decreases 10 - n, ks.len(),
{
    if ks.len() == 0 || n >= 10 || n < 0 {
        Set::empty()
    } else {
        let k = ks.last();
        ends_via(a, ks.drop_last(), n) + if a[k.0 as int][k.1 as int] == n {
            ends_from(a, k.0 as int, k.1 as int, n + 1)
        } else {
            Set::empty()
        }
    }
}

/// Whether `v` holds `x`.
fn holds(v: &Vec<(usize, usize)>, x: (usize, usize)) -> (r: bool)
    ensures
        r == v@.contains(x),
{
    let mut k: usize = 0;
    while k < v.len()
        invariant
            k <= v@.len(),
            forall|q: int| 0 <= q < k ==> v@[q] != x,
        decreases v@.len() - k,
    {
        if v[k].0 == x.0 && v[k].1 == x.1 {
            return true;
        }
        k = k + 1;
    }
    false
}

/// Adds to `out` the elements of `more` that it lacks.
fn merge(out: &mut Vec<(usize, usize)>, more: &Vec<(usize, usize)>)
    requires
        old(out)@.no_duplicates(),
    ensures
        final(out)@.no_duplicates(),
        final(out)@.to_set() == old(out)@.to_set() + more@.to_set(),
{
    let ghost start = out@;
    let mut m: usize = 0;
    assert(more@.take(0).to_set() =~= Set::<(usize, usize)>::empty());
    assert(start.to_set() + Set::<(usize, usize)>::empty() =~= start.to_set());
    while m < more.len()
        invariant
            m <= more@.len(),
            out@.no_duplicates(),
            out@.to_set() == start.to_set() + more@.take(m as int).to_set(),
        decreases more@.len() - m,
    {
        let x = more[m];
        let ghost before = out@;
        if !holds(out, x) {
            out.push(x);
            proof {
                assert forall|p: int, q: int| 0 <= p < q < out@.len() implies out@[p] != out@[q] by {
                    if q == out@.len() - 1 {
                        assert(out@[q] == x);
                        assert(out@[p] == before[p]);
                    } else {
                        assert(out@[p] == before[p] && out@[q] == before[q]);
                    }
                }
                before.lemma_push_to_set_commute(x);
            }
        }
        proof {
            assert(more@.take(m + 1) =~= more@.take(m as int).push(x));
            more@.take(m as int).lemma_push_to_set_commute(x);
            if before.contains(x) {
                assert(before.to_set().contains(x));
            }
            assert(out@.to_set() =~= start.to_set() + more@.take(m + 1).to_set());
        }
        m = m + 1;
    }
    assert(more@.take(m as int) =~= more@);
}

fn dfs(a: &Vec<Vec<u8>>, i: usize, j: usize, n: u8) -> (r: Vec<(usize, usize)>)
    requires
        rectangular(a.deep_view()),
        i < a@.len(),
        j < a@[0]@.len(),
        n <= 10,
    ensures
        r@.no_duplicates(),
        r@.to_set() == ends_from(a.deep_view(), i as int, j as int, n as int),
    decreases 10 - n,
{
    let ghost g = a.deep_view();
    if n == 10 {
        let r = vec![(i, j)];
        assert(r@.to_set() =~= set![(i, j)]) by {
            assert(r@[0] == (i, j));
        }
        return r;
    }
    let ks = surrounding(i, j, a.len() - 1, a[0].len() - 1);
    proof {
        assert(g.len() == a@.len());
        assert(g[0].len() == a@[0]@.len());
    }
    let mut out: Vec<(usize, usize)> = Vec::new();
    let mut k: usize = 0;
    assert(out@.to_set() =~= Set::<(usize, usize)>::empty());
    while k < ks.len()
        invariant
            g == a.deep_view(),
            rectangular(g),
            n < 10,
            i < a@.len(),
            j < a@[0]@.len(),
            ks@ == neighbours(i as int, j as int, g.len() - 1, g[0].len() - 1),
            k <= ks@.len(),
            out@.no_duplicates(),
            out@.to_set() == ends_via(g, ks@.take(k as int), n as int),
        decreases ks@.len() - k,
    {
        let (y, x) = ks[k];
        proof {
            assert(ks@.take(k + 1).drop_last() =~= ks@.take(k as int));
            assert(ks@.take(k + 1).last() == (y, x));
            assert(y < g.len() && x < g[0].len());
            assert(g[y as int] == a@[y as int]@);
            assert(g[y as int].len() == g[0].len());
        }
        if a[y][x] == n {
            let child = dfs(a, y, x, n + 1);
            merge(&mut out, &child);
        } else {
            assert(out@.to_set() =~= ends_via(g, ks@.take(k + 1), n as int));
        }
        k = k + 1;
    }
    proof {
        assert(ks@.take(k as int) =~= ks@);
    }
    out
}

/// Sum, over the cells of height 0 among the first `k` in row-major order,
/// of the number of 9s reachable from them.
pub open spec fn score_upto(a: Seq<Seq<u8>>, k: int) -> nat
    decreases k,
{
    if k <= 0 {
        0
    } else {
        let w = a[0].len() as int;
        let i = (k - 1) / w;
        let j = (k - 1) % w;
        score_upto(a, k - 1) + if a[i][j] == 0 {
            ends_from(a, i, j, 1).len()
        } else {
            0
        }
    }
}

/// The sum of the scores of all trailheads.
pub open spec fn score(a: Seq<Seq<u8>>) -> nat {
    score_upto(a, a.len() as int * a[0].len() as int)
}

/// Partial sums do not exceed later ones.
pub proof fn lemma_score_grows(a: Seq<Seq<u8>>, k: int, m: int)
    requires
        0 <= k <= m,
    ensures
        score_upto(a, k) <= score_upto(a, m),
    decreases m,
{
    if m > k {
        lemma_score_grows(a, k, m - 1);
    }
}

/// The sum over all trailheads of the number of 9s they reach.
pub fn level1(input: Vec<Vec<u8>>) -> (r: usize)
    requires
        rectangular(input.deep_view()),
        score(input.deep_view()) <= usize::MAX,
    ensures
        r == score(input.deep_view()),
{
    let ghost g = input.deep_view();
    let h = input.len();
    let w = input[0].len();
    proof {
        assert(g.len() == h);
        assert(g[0].len() == w);
    }
    let mut sum: usize = 0;
    let mut i: usize = 0;
    while i < h
        invariant
            g == input.deep_view(),
            rectangular(g),
            h == g.len(),
            w == g[0].len(),
            i <= h,
            score(g) <= usize::MAX,
            sum == score_upto(g, i * w),
        decreases h - i,
    {
        let mut j: usize = 0;
        proof {
            assert(g[i as int] == input@[i as int]@);
            assert(g[i as int].len() == w);
        }
        while j < w
            invariant
                g == input.deep_view(),
                rectangular(g),
                h == g.len(),
                w == g[0].len(),
                i < h,
                j <= w,
                score(g) <= usize::MAX,
                sum == score_upto(g, i * w + j),
            decreases w - j,
        {
            proof {
                assert(i * w + j + 1 <= h * w) by (nonlinear_arith)
                    requires
                        i < h,
                        j < w,
                ;
                lemma_score_grows(g, i * w + j + 1, h * w);
                let k = i * w + j + 1;
                assert((k - 1) / (w as int) == i && (k - 1) % (w as int) == j) by (nonlinear_arith)
                    requires
                        k - 1 == i * w + j,
                        j < w,
                        w > 0,
                ;
                assert(g[i as int] == input@[i as int]@);
            }
            if input[i][j] == 0 {
                let ends = dfs(&input, i, j, 1);
                proof {
                    ends@.unique_seq_to_set();
                }
                sum = sum + ends.len();
            }
            j = j + 1;
        }
        assert(i * w + w == (i + 1) * w) by (nonlinear_arith);
        i = i + 1;
    }
    sum
}

} // verus!
