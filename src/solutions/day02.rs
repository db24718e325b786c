//! Reports of levels: a report is safe when it is strictly monotone with
//! steps of 1 to 3; with the dampener, removing one level may make it safe.
use vstd::prelude::*;

verus! {

/// Whether a step size is allowed.
pub open spec fn step_ok(d: int) -> bool {
    1 <= d <= 3
}

/// A report (of at least two levels) is safe: it keeps the direction of its
/// first step and every step changes the level by 1 to 3.
pub open spec fn safe(r: Seq<i32>) -> bool {
    forall|i: int|
        0 <= i < r.len() - 1 ==> ((#[trigger] r[i + 1] - r[i] > 0) == (r[1] - r[0] > 0))
            && step_ok(if r[i] > r[i + 1] {
            r[i] - r[i + 1]
        } else {
            r[i + 1] - r[i]
        })
}

/// Removing some one level leaves a safe report.
pub open spec fn safe_dampened(r: Seq<i32>) -> bool {
    exists|i: int| 0 <= i < r.len() && safe(#[trigger] r.remove(i))
}

/// Number of reports for which `f` holds.
pub open spec fn count_where(rs: Seq<Seq<i32>>, f: spec_fn(Seq<i32>) -> bool) -> nat
    decreases rs.len(),
{
    if rs.len() == 0 {
        0
    } else {
        count_where(rs.drop_last(), f) + if f(rs.last()) {
            1nat
        } else {
            0nat
        }
    }
}

fn abs_ok(abs: i64) -> (r: bool)
    ensures
        r == step_ok(abs as int),
{
    1 <= abs && abs <= 3
}

fn ok(report: &[i32]) -> (r: bool)
    requires
        report@.len() >= 2,
    ensures
        r == safe(report@),
{
    let increasing = report[1] as i64 - report[0] as i64 > 0;
    let n = report.len();
    let mut i: usize = 0;
    while i + 1 < n
        invariant
            n == report@.len() >= 2,
            i + 1 <= n,
            increasing == (report@[1] - report@[0] > 0),
            forall|k: int|
                0 <= k < i ==> ((#[trigger] report@[k + 1] - report@[k] > 0) == increasing)
                    && step_ok(if report@[k] > report@[k + 1] {
                    report@[k] - report@[k + 1]
                } else {
                    report@[k + 1] - report@[k]
                }),
        decreases n - i,
    {
        let a = report[i] as i64;
        let b = report[i + 1] as i64;
        let d = if a > b {
            a - b
        } else {
            b - a
        };
        if (b - a > 0) != increasing || !abs_ok(d) {
            return false;
        }
        i = i + 1;
    }
    true
}

/// `report` without the level at `skip`.
fn without(report: &Vec<i32>, skip: usize) -> (r: Vec<i32>)
    requires
        skip < report@.len(),
    ensures
        r@ == report@.remove(skip as int),
{
    let mut out: Vec<i32> = Vec::new();
    let mut j: usize = 0;
    while j < report.len()
        invariant
            skip < report@.len(),
            j <= report@.len(),
            out@ == (if j <= skip {
                report@.take(j as int)
            } else {
                report@.remove(skip as int).take(j - 1)
            }),
        decreases report@.len() - j,
    {
        if j != skip {
            out.push(report[j]);
        }
        proof {
            if j < skip {
                assert(out@ =~= report@.take(j + 1));
            } else if j == skip {
                assert(report@.remove(skip as int).take(j as int) =~= report@.take(j as int));
            } else {
                assert(out@ =~= report@.remove(skip as int).take(j as int));
            }
        }
        j = j + 1;
    }
    proof {
        if report@.len() <= skip {
        } else {
            assert(report@.remove(skip as int).take(j - 1) =~= report@.remove(skip as int));
        }
    }
    out
}

fn ok_skipping(report: &Vec<i32>) -> (r: bool)
    requires
        report@.len() >= 3,
    ensures
        r == safe_dampened(report@),
{
    let mut i: usize = 0;
    while i < report.len()
        invariant
            report@.len() >= 3,
            i <= report@.len(),
            forall|k: int| 0 <= k < i ==> !safe(#[trigger] report@.remove(k)),
        decreases report@.len() - i,
    {
        let r = without(report, i);
        if ok(r.as_slice()) {
            return true;
        }
        i = i + 1;
    }
    false
}

/// Number of safe reports.
pub fn level1(input: Vec<Vec<i32>>) -> (r: usize)
    requires
        forall|i: int| 0 <= i < input@.len() ==> (#[trigger] input@[i])@.len() >= 2,
    ensures
        r == count_where(input.deep_view(), |s: Seq<i32>| safe(s)),
{
    let ghost all = input.deep_view();
    let mut n: usize = 0;
    let mut i: usize = 0;
    while i < input.len()
        invariant
            i <= input@.len(),
            all == input.deep_view(),
            forall|k: int| 0 <= k < input@.len() ==> (#[trigger] input@[k])@.len() >= 2,
            n <= i,
            n == count_where(all.take(i as int), |s: Seq<i32>| safe(s)),
        decreases input@.len() - i,
    {
        proof {
            assert(all.take(i + 1).drop_last() =~= all.take(i as int));
            assert(all[i as int] == input@[i as int]@);
        }
        if ok(input[i].as_slice()) {
            n = n + 1;
        }
        i = i + 1;
    }
    assert(all.take(i as int) =~= all);
    n
}

/// Number of reports that are safe once one level may be removed.
pub fn level2(input: Vec<Vec<i32>>) -> (r: usize)
    requires
        forall|i: int| 0 <= i < input@.len() ==> (#[trigger] input@[i])@.len() >= 3,
    ensures
        r == count_where(input.deep_view(), |s: Seq<i32>| safe_dampened(s)),
{
    let ghost all = input.deep_view();
    let mut n: usize = 0;
    let mut i: usize = 0;
    while i < input.len()
        invariant
            i <= input@.len(),
            all == input.deep_view(),
            forall|k: int| 0 <= k < input@.len() ==> (#[trigger] input@[k])@.len() >= 3,
            n <= i,
            n == count_where(all.take(i as int), |s: Seq<i32>| safe_dampened(s)),
        decreases input@.len() - i,
    {
        proof {
            assert(all.take(i + 1).drop_last() =~= all.take(i as int));
            assert(all[i as int] == input@[i as int]@);
        }
        if ok_skipping(&input[i]) {
            n = n + 1;
        }
        i = i + 1;
    }
    assert(all.take(i as int) =~= all);
    n
}

} // verus!
