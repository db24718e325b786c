//! Two lists of location ids, read as the two columns of the input: their
//! distance when both are sorted, and their similarity score.
use vstd::prelude::*;
use vstd::relations::{sorted_by, total_ordering};

verus! {

/// The order the columns are sorted by.
pub open spec fn ascending(a: i32, b: i32) -> bool {
    a <= b
}

/// The column `c` of the rows.
pub open spec fn column(rows: Seq<Seq<i32>>, c: int) -> Seq<i32> {
    rows.map_values(|r: Seq<i32>| r[c])
}

/// The sum of `|xs[i] - ys[i]|` over the positions of `xs`.
pub open spec fn pair_distance(xs: Seq<i32>, ys: Seq<i32>) -> int
    decreases xs.len(),
{
    if xs.len() == 0 {
        0
    } else {
        pair_distance(xs.drop_last(), ys) + {
            let d = xs.last() - ys[xs.len() - 1];
            if d < 0 {
                -d
            } else {
                d
            }
        }
    }
}

/// How many times `x` occurs in `ys`.
pub open spec fn occurrences(ys: Seq<i32>, x: i32) -> int
    decreases ys.len(),
{
    if ys.len() == 0 {
        0
    } else {
        occurrences(ys.drop_last(), x) + if ys.last() == x {
            1int
        } else {
            0int
        }
    }
}

/// The sum of every `x` of `xs` times the number of its occurrences in `ys`.
pub open spec fn similarity(xs: Seq<i32>, ys: Seq<i32>) -> int
    decreases xs.len(),
{
    if xs.len() == 0 {
        0
    } else {
        similarity(xs.drop_last(), ys) + xs.last() * occurrences(ys, xs.last())
    }
}

/// The distance of the two columns once each is sorted.
pub open spec fn sorted_distance(rows: Seq<Seq<i32>>) -> int {
    let le = |a: i32, b: i32| ascending(a, b);
    pair_distance(column(rows, 0).sort_by(le), column(rows, 1).sort_by(le))
}

/// Relies on `<[T]>::sort`: sorts in ascending order, keeping the same
/// elements.
#[verifier::external_body]
fn sort_ascending(v: &mut Vec<i32>)
    ensures
        sorted_by(final(v)@, |a: i32, b: i32| ascending(a, b)),
        final(v)@.to_multiset() == old(v)@.to_multiset(),
{
    v.sort()
}

/// Column `c` of the rows, as a vector.
fn take_column(input: &Vec<Vec<i32>>, c: usize) -> (r: Vec<i32>)
    requires
        c < 2,
        forall|i: int| 0 <= i < input@.len() ==> (#[trigger] input@[i])@.len() >= 2,
    ensures
        r@ == column(input.deep_view(), c as int),
{
    let ghost rows = input.deep_view();
    let mut out: Vec<i32> = Vec::new();
    let mut i: usize = 0;
    while i < input.len()
        invariant
            c < 2,
            rows == input.deep_view(),
            forall|k: int| 0 <= k < input@.len() ==> (#[trigger] input@[k])@.len() >= 2,
            i <= input@.len(),
            out@ == column(rows, c as int).take(i as int),
        decreases input@.len() - i,
    {
        proof {
            assert(rows[i as int] == input@[i as int]@);
        }
        out.push(input[i][c]);
        assert(out@ =~= column(rows, c as int).take(i + 1));
        i = i + 1;
    }
    assert(column(rows, c as int).take(i as int) =~= column(rows, c as int));
    out
}

/// The sorted version of `v`.
fn sorted(v: Vec<i32>) -> (r: Vec<i32>)
    ensures
        r@ == v@.sort_by(|a: i32, b: i32| ascending(a, b)),
        r@.len() == v@.len(),
{
    let ghost le = |a: i32, b: i32| ascending(a, b);
    let mut v = v;
    let ghost before = v@;
    sort_ascending(&mut v);
    proof {
        assert(total_ordering(le));
        before.lemma_sort_by_ensures(le);
        vstd::seq_lib::lemma_sorted_unique(v@, before.sort_by(le), le);
        vstd::seq_lib::to_multiset_len(before);
        vstd::seq_lib::to_multiset_len(v@);
    }
    v
}

/// Partial distances do not exceed the whole.
pub proof fn lemma_pair_distance_grows(xs: Seq<i32>, ys: Seq<i32>, k: int)
    requires
        0 <= k <= xs.len(),
    ensures
        0 <= pair_distance(xs.take(k), ys) <= pair_distance(xs, ys),
    decreases xs.len(),
{
    if xs.len() > 0 {
        if k == xs.len() {
            assert(xs.take(k) =~= xs);
            lemma_pair_distance_grows(xs.drop_last(), ys, 0);
        } else {
            lemma_pair_distance_grows(xs.drop_last(), ys, k);
            assert(xs.drop_last().take(k) =~= xs.take(k));
        }
    } else {
        assert(xs.take(k) =~= xs);
    }
}

/// Total distance between the two columns, each sorted ascending.
pub fn level1(input: Vec<Vec<i32>>) -> (r: i32)
    requires
        forall|i: int| 0 <= i < input@.len() ==> (#[trigger] input@[i])@.len() >= 2,
        sorted_distance(input.deep_view()) <= i32::MAX,
    ensures
        r == sorted_distance(input.deep_view()),
{
    let side1 = sorted(take_column(&input, 0));
    let side2 = sorted(take_column(&input, 1));
    assert(column(input.deep_view(), 0).len() == column(input.deep_view(), 1).len());
    let ghost xs = side1@;
    let ghost ys = side2@;
    assert(xs.len() == ys.len());
    let mut sum: i32 = 0;
    let mut i: usize = 0;
    while i < side1.len()
        invariant
            xs == side1@,
            ys == side2@,
            xs.len() == ys.len(),
            i <= xs.len(),
            pair_distance(xs, ys) <= i32::MAX,
            sum == pair_distance(xs.take(i as int), ys),
        decreases xs.len() - i,
    {
        proof {
            lemma_pair_distance_grows(xs, ys, i + 1);
            lemma_pair_distance_grows(xs, ys, i as int);
            assert(xs.take(i + 1).drop_last() =~= xs.take(i as int));
            assert(xs.take(i + 1).last() == xs[i as int]);
            assert(xs.take(i + 1).len() == i + 1);
        }
        let a = side1[i] as i64;
        let b = side2[i] as i64;
        let d = if a > b {
            a - b
        } else {
            b - a
        };
        assert(sum + d == pair_distance(xs.take(i + 1), ys));
        sum = sum + d as i32;
        i = i + 1;
    }
    assert(xs.take(i as int) =~= xs);
    sum
}

/// Every partial similarity, and every term of it, fits in an `i32`.
pub open spec fn similarity_fits(xs: Seq<i32>, ys: Seq<i32>) -> bool {
    &&& ys.len() <= i32::MAX
    &&& forall|k: int|
        0 <= k <= xs.len() ==> i32::MIN <= #[trigger] similarity(xs.take(k), ys) <= i32::MAX
    &&& forall|k: int|
        0 <= k < xs.len() ==> i32::MIN <= #[trigger] xs[k] * occurrences(ys, xs[k]) <= i32::MAX
}

/// Number of occurrences of `x` in `ys`.
fn count(ys: &Vec<i32>, x: i32) -> (r: i32)
    requires
        ys@.len() <= i32::MAX,
    ensures
        r == occurrences(ys@, x),
        0 <= r <= ys@.len(),
{
    let mut n: i32 = 0;
    let mut j: usize = 0;
    while j < ys.len()
        invariant
            ys@.len() <= i32::MAX,
            j <= ys@.len(),
            0 <= n <= j,
            n == occurrences(ys@.take(j as int), x),
        decreases ys@.len() - j,
    {
        assert(ys@.take(j + 1).drop_last() =~= ys@.take(j as int));
        if ys[j] == x {
            n = n + 1;
        }
        j = j + 1;
    }
    assert(ys@.take(j as int) =~= ys@);
    n
}

/// Similarity score: each left id times how often it appears on the right.
pub fn level2(input: Vec<Vec<i32>>) -> (r: i32)
    requires
        forall|i: int| 0 <= i < input@.len() ==> (#[trigger] input@[i])@.len() >= 2,
        similarity_fits(column(input.deep_view(), 0), column(input.deep_view(), 1)),
    ensures
        r == similarity(column(input.deep_view(), 0), column(input.deep_view(), 1)),
{
    let side1 = take_column(&input, 0);
    let side2 = take_column(&input, 1);
    let ghost xs = side1@;
    let ghost ys = side2@;
    let mut sum: i32 = 0;
    let mut i: usize = 0;
    assert(xs.take(0) =~= Seq::<i32>::empty());
    while i < side1.len()
        invariant
            xs == side1@,
            ys == side2@,
            i <= xs.len(),
            similarity_fits(xs, ys),
            sum == similarity(xs.take(i as int), ys),
        decreases xs.len() - i,
    {
        let a = side1[i];
        let appearances = count(&side2, a);
        proof {
            assert(xs.take(i + 1).drop_last() =~= xs.take(i as int));
            assert(xs[i as int] * occurrences(ys, xs[i as int]) <= i32::MAX);
            assert(similarity(xs.take(i + 1), ys) <= i32::MAX);
        }
        let similarity = a * appearances;
        sum = sum + similarity;
        i = i + 1;
    }
    assert(xs.take(i as int) =~= xs);
    sum
}

/// Total distance of the sorted columns, or `None` when it exceeds
/// `i32::MAX`.
pub fn total_distance(input: &Vec<Vec<i32>>) -> (r: Option<i32>)
    requires
        forall|i: int| 0 <= i < input@.len() ==> (#[trigger] input@[i])@.len() >= 2,
    ensures
        r matches Some(v) ==> v == sorted_distance(input.deep_view()),
        r is None <==> sorted_distance(input.deep_view()) > i32::MAX,
{
    let side1 = sorted(take_column(input, 0));
    let side2 = sorted(take_column(input, 1));
    assert(column(input.deep_view(), 0).len() == column(input.deep_view(), 1).len());
    let ghost xs = side1@;
    let ghost ys = side2@;
    let mut sum: i64 = 0;
    let mut i: usize = 0;
    assert(xs.take(0) =~= Seq::<i32>::empty());
    while i < side1.len()
        invariant
            xs == side1@,
            ys == side2@,
            xs.len() == ys.len(),
            i <= xs.len(),
            0 <= sum <= i32::MAX,
            pair_distance(xs, ys) == sorted_distance(input.deep_view()),
            sum == pair_distance(xs.take(i as int), ys),
        decreases xs.len() - i,
    {
        proof {
            lemma_pair_distance_grows(xs, ys, i + 1);
            assert(xs.take(i + 1).drop_last() =~= xs.take(i as int));
            assert(xs.take(i + 1).last() == xs[i as int]);
            assert(xs.take(i + 1).len() == i + 1);
        }
        let a = side1[i] as i64;
        let b = side2[i] as i64;
        let d = if a > b {
            a - b
        } else {
            b - a
        };
        assert(sum + d == pair_distance(xs.take(i + 1), ys));
        if sum + d > i32::MAX as i64 {
            return None;
        }
        sum = sum + d;
        i = i + 1;
    }
    assert(xs.take(i as int) =~= xs);
    Some(sum as i32)
}

/// Similarity score, or `None` when it, a partial sum or a term of it does
/// not fit in an `i32`.
pub fn similarity_score(input: &Vec<Vec<i32>>) -> (r: Option<i32>)
    requires
        forall|i: int| 0 <= i < input@.len() ==> (#[trigger] input@[i])@.len() >= 2,
    ensures
        r matches Some(v) ==> v == similarity(
            column(input.deep_view(), 0),
            column(input.deep_view(), 1),
        ),
        r is None <==> !similarity_fits(column(input.deep_view(), 0), column(input.deep_view(), 1)),
{
    let side1 = take_column(input, 0);
    let side2 = take_column(input, 1);
    let ghost xs = side1@;
    let ghost ys = side2@;
    if side2.len() > i32::MAX as usize {
        return None;
    }
    let mut sum: i32 = 0;
    let mut i: usize = 0;
    assert(xs.take(0) =~= Seq::<i32>::empty());
    while i < side1.len()
        invariant
            xs == side1@,
            ys == side2@,
            xs == column(input.deep_view(), 0),
            ys == column(input.deep_view(), 1),
            ys.len() <= i32::MAX,
            i <= xs.len(),
            sum == similarity(xs.take(i as int), ys),
            forall|k: int|
                0 <= k <= i ==> i32::MIN <= #[trigger] similarity(xs.take(k), ys) <= i32::MAX,
            forall|k: int|
                0 <= k < i ==> i32::MIN <= #[trigger] xs[k] * occurrences(ys, xs[k]) <= i32::MAX,
        decreases xs.len() - i,
    {
        let a = side1[i];
        let appearances = count(&side2, a);
        proof {
            assert(xs.take(i + 1).drop_last() =~= xs.take(i as int));
            assert(xs.take(i + 1).last() == a);
        }
        assert(-0x8000_0000 * 0x8000_0000 <= a as i64 * appearances as i64 <= 0x8000_0000
            * 0x8000_0000) by (nonlinear_arith)
            requires
                -0x8000_0000 <= a <= 0x7fff_ffff,
                0 <= appearances <= 0x7fff_ffff,
        ;
        let term = a as i64 * appearances as i64;
        if term < i32::MIN as i64 || term > i32::MAX as i64 {
            proof {
                assert(xs[i as int] == a);
                assert(!(i32::MIN <= xs[i as int] * occurrences(ys, xs[i as int]) <= i32::MAX));
            }
            return None;
        }
        let next = sum as i64 + term;
        if next < i32::MIN as i64 || next > i32::MAX as i64 {
            assert(similarity(xs.take(i + 1), ys) == next);
            assert(!(i32::MIN <= similarity(xs.take(i + 1), ys) <= i32::MAX));
            return None;
        }
        sum = next as i32;
        i = i + 1;
    }
    assert(xs.take(i as int) =~= xs);
    Some(sum)
}

} // verus!
