//! Pseudo-random secret numbers: each secret is mixed and pruned three
//! times to give the next one.
use vstd::prelude::*;

verus! {

/// The modulus that prunes a secret.
pub const PRUNE: i64 = 16777216;

/// The secret that follows `n`, computed in 64 bits.
pub open spec fn next_secret_spec(n: isize) -> isize {
    let n = n as i64;
    let a = ((n ^ ((n * 64) as i64)) % PRUNE) as i64;
    let b = ((a ^ ((a / 32) as i64)) % PRUNE) as i64;
    ((b ^ ((b * 2048) as i64)) % PRUNE) as isize
}

/// The secret `k` steps after `n`.
pub open spec fn nth_secret(n: isize, k: nat) -> isize
    decreases k,
{
    if k == 0 {
        n
    } else {
        next_secret_spec(nth_secret(n, (k - 1) as nat))
    }
}

/// Whether `n` is a secret that can be advanced: non-negative and small
/// enough that `n * 64` fits.
pub open spec fn valid_secret(n: isize) -> bool {
    0 <= n && n * 64 <= isize::MAX
}

/// Sum of the 2000th secrets of `ns`.
pub open spec fn sum_2000(ns: Seq<isize>) -> int
    decreases ns.len(),
{
    if ns.len() == 0 {
        0
    } else {
        sum_2000(ns.drop_last()) + nth_secret(ns.last(), 2000) as int
    }
}

/// The secret that follows `n`.
pub fn next_secret(n: isize) -> (r: isize)
    requires
        valid_secret(n),
    ensures
        r == next_secret_spec(n),
        0 <= r < PRUNE,
{
    let mut n = n as i64;
    let m = n * 64;
    assert(n ^ m >= 0) by (bit_vector)
        requires
            n >= 0,
            m >= 0,
    ;
    n = n ^ m;
    n = n % 16777216;
    let m = n / 32;
    assert(n ^ m >= 0) by (bit_vector)
        requires
            n >= 0,
            m >= 0,
    ;
    n = n ^ m;
    n = n % 16777216;
    assert(0 <= n < 16777216);
    let m = n * 2048;
    assert(n ^ m >= 0) by (bit_vector)
        requires
            n >= 0,
            m >= 0,
    ;
    n = n ^ m;
    n = n % 16777216;
    n as isize
}

/// The secret 2000 steps after `n`.
pub fn next_2000(n: isize) -> (r: isize)
    requires
        valid_secret(n),
    ensures
        r == nth_secret(n, 2000),
        0 <= r < PRUNE,
{
    let mut s = next_secret(n);
    let mut k: usize = 1;
    assert(nth_secret(n, 1) == next_secret_spec(nth_secret(n, 0)));
    while k < 2000
        invariant
            1 <= k <= 2000,
            s == nth_secret(n, k as nat),
            0 <= s < PRUNE,
        decreases 2000 - k,
    {
        s = next_secret(s);
        k = k + 1;
    }
    s
}

/// Partial sums do not exceed the whole.
pub proof fn lemma_sum_2000_grows(ns: Seq<isize>, k: int)
    requires
        0 <= k <= ns.len(),
        forall|i: int| 0 <= i < ns.len() ==> valid_secret(#[trigger] ns[i]),
    ensures
        0 <= sum_2000(ns.take(k)) <= sum_2000(ns),
    decreases ns.len(),
{
    if ns.len() > 0 {
        let p = ns.drop_last();
        assert forall|i: int| 0 <= i < p.len() implies valid_secret(#[trigger] p[i]) by {
            assert(p[i] == ns[i]);
        }
        if k < ns.len() {
            lemma_sum_2000_grows(p, k);
            assert(p.take(k) =~= ns.take(k));
        } else {
            lemma_sum_2000_grows(p, 0);
            assert(ns.take(k) =~= ns);
        }
        lemma_nth_secret_range(ns.last(), 2000);
    } else {
        assert(ns.take(k) =~= ns);
    }
}

/// Every secret after the first step is pruned.
pub proof fn lemma_nth_secret_range(n: isize, k: nat)
    requires
        valid_secret(n),
    ensures
        0 <= nth_secret(n, k),
        k > 0 ==> nth_secret(n, k) < PRUNE,
    decreases k,
{
    if k > 0 {
        lemma_nth_secret_range(n, (k - 1) as nat);
        let m = nth_secret(n, (k - 1) as nat);
        if k > 1 {
            assert(m < PRUNE);
        }
        lemma_next_secret_range(m);
    }
}

/// One step from a valid secret gives a pruned one.
pub proof fn lemma_next_secret_range(n: isize)
    requires
        0 <= n,
        n * 64 <= isize::MAX,
    ensures
        0 <= next_secret_spec(n) < PRUNE,
{
    let n = n as i64;
    let m = (n * 64) as i64;
    assert(n ^ m >= 0) by (bit_vector)
        requires
            n >= 0,
            m >= 0,
    ;
    let a = ((n ^ m) % PRUNE) as i64;
    let m2 = (a / 32) as i64;
    assert(a ^ m2 >= 0) by (bit_vector)
        requires
            a >= 0,
            m2 >= 0,
    ;
    let b = ((a ^ m2) % PRUNE) as i64;
    let m3 = (b * 2048) as i64;
    assert(b ^ m3 >= 0) by (bit_vector)
        requires
            b >= 0,
            m3 >= 0,
    ;
}

/// Sum of the 2000th secret of every buyer.
pub fn level1(inputs: Vec<isize>) -> (r: isize)
    requires
        forall|i: int| 0 <= i < inputs@.len() ==> valid_secret(#[trigger] inputs@[i]),
        sum_2000(inputs@) <= isize::MAX,
    ensures
        r == sum_2000(inputs@),
{
    let mut sum: isize = 0;
    let mut i: usize = 0;
    while i < inputs.len()
        invariant
            i <= inputs@.len(),
            forall|k: int| 0 <= k < inputs@.len() ==> valid_secret(#[trigger] inputs@[k]),
            sum_2000(inputs@) <= isize::MAX,
            sum == sum_2000(inputs@.take(i as int)),
        decreases inputs@.len() - i,
    {
        let v = next_2000(inputs[i]);
        assert(inputs@.take(i + 1).drop_last() =~= inputs@.take(i as int));
        proof {
            lemma_sum_2000_grows(inputs@, i + 1);
        }
        sum = sum + v;
        i = i + 1;
    }
    assert(inputs@.take(i as int) =~= inputs@);
    sum
}

/// Number of distinct windows of four price changes: each change lies in
/// `-9..=9`.
pub const KEYS: usize = 130321;

/// The price the buyer offers at the `k`-th secret: its last digit.
pub open spec fn price(n: isize, k: nat) -> int {
    nth_secret(n, k) as int % 10
}

/// The change of price from the `k`-th to the next secret.
pub open spec fn change(n: isize, k: nat) -> int {
    price(n, k + 1) - price(n, k)
}

/// The window of four changes `[d0, d1, d2, d3]` as one number below
/// [`KEYS`].
pub open spec fn key_of(d: Seq<int>) -> int {
    (((d[0] + 9) * 19 + (d[1] + 9)) * 19 + (d[2] + 9)) * 19 + (d[3] + 9)
}

/// The window of the four changes that start at `i`.
pub open spec fn window(n: isize, i: nat) -> int {
    key_of(seq![change(n, i), change(n, i + 1), change(n, i + 2), change(n, i + 3)])
}

/// The price sold at for `key`: at the first window from `i` on (below
/// 1996) that matches, the price after its last change.
pub open spec fn first_from(n: isize, key: int, i: nat) -> Option<int>
    decreases 1996 - i,
{
    if i >= 1996 {
        None
    } else if window(n, i) == key {
        Some(price(n, i + 4))
    } else {
        first_from(n, key, i + 1)
    }
}

/// The window of four changes as an index below [`KEYS`].
pub fn window_key(d: [isize; 4]) -> (r: usize)
    requires
        forall|k: int| 0 <= k < 4 ==> -9 <= #[trigger] d@[k] <= 9,
    ensures
        r == key_of(d@.map_values(|x: isize| x as int)),
        r < KEYS,
{
    let a = (d[0] + 9) as usize;
    let b = (d[1] + 9) as usize;
    let c = (d[2] + 9) as usize;
    let e = (d[3] + 9) as usize;
    assert(((a * 19 + b) * 19 + c) * 19 + e < 130321) by (nonlinear_arith)
        requires
            a < 19,
            b < 19,
            c < 19,
            e < 19,
    ;
    ((a * 19 + b) * 19 + c) * 19 + e
}

/// The prices at the first 2001 secrets of `n`.
fn prices(n: isize) -> (r: Vec<isize>)
    requires
        valid_secret(n),
    ensures
        r@.len() == 2001,
        forall|k: int| 0 <= k < 2001 ==> #[trigger] r@[k] == price(n, k as nat),
        forall|k: int| 0 <= k < 2001 ==> 0 <= #[trigger] r@[k] < 10,
{
    let mut out: Vec<isize> = Vec::new();
    let mut s = n;
    let mut k: usize = 0;
    while k < 2001
        invariant
            valid_secret(n),
            k <= 2001,
            out@.len() == k,
            k < 2001 ==> s == nth_secret(n, k as nat),
            0 <= s,
            k > 0 ==> s < PRUNE,
            forall|q: int| 0 <= q < k ==> #[trigger] out@[q] == price(n, q as nat),
            forall|q: int| 0 <= q < k ==> 0 <= #[trigger] out@[q] < 10,
        decreases 2001 - k,
    {
        out.push(s % 10);
        if k < 2000 {
            proof {
                lemma_nth_secret_range(n, (k + 1) as nat);
            }
            assert(s * 64 <= isize::MAX) by {
                if k == 0 {
                } else {
                    assert(s < 16777216);
                }
            }
            s = next_secret(s);
            assert(nth_secret(n, (k + 1) as nat) == next_secret_spec(nth_secret(n, k as nat)));
        }
        k = k + 1;
    }
    out
}

/// The window of changes starting at `i`, read from the prices.
fn window_at(n: Ghost<isize>, costs: &Vec<isize>, i: usize) -> (r: usize)
    requires
        i < 1996,
        costs@.len() == 2001,
        forall|q: int| 0 <= q < 2001 ==> #[trigger] costs@[q] == price(n@, q as nat),
        forall|q: int| 0 <= q < 2001 ==> 0 <= #[trigger] costs@[q] < 10,
    ensures
        r == window(n@, i as nat),
        r < KEYS,
{
    let d = [
        costs[i + 1] - costs[i],
        costs[i + 2] - costs[i + 1],
        costs[i + 3] - costs[i + 2],
        costs[i + 4] - costs[i + 3],
    ];
    let key = window_key(d);
    proof {
        assert(d@.map_values(|x: isize| x as int) =~= seq![
            change(n@, i as nat),
            change(n@, (i + 1) as nat),
            change(n@, (i + 2) as nat),
            change(n@, (i + 3) as nat),
        ]);
    }
    key
}

/// Once a window matches at `i` and none before it from `j` on, the price
/// for that key is the one after window `i`.
pub proof fn lemma_first_at(n: isize, key: int, j: nat, i: nat)
    requires
        j <= i < 1996,
        window(n, i) == key,
        forall|w: nat| j <= w < i ==> window(n, w) != key,
    ensures
        first_from(n, key, j) == Some(price(n, i + 4)),
    decreases i - j,
{
    if j < i {
        lemma_first_at(n, key, j + 1, i);
    }
}

/// A key that no window from `j` on matches has no price.
pub proof fn lemma_first_none(n: isize, key: int, j: nat)
    requires
        forall|w: nat| j <= w < 1996 ==> window(n, w) != key,
    ensures
        first_from(n, key, j) is None,
    decreases 1996 - j,
{
    if j < 1996 {
        lemma_first_none(n, key, j + 1);
    }
}

/// For every window of four price changes, the price at its first
/// occurrence, indexed by [`window_key`]; `None` for windows that do not
/// occur.
pub fn find_seqs(n: isize) -> (r: Vec<Option<isize>>)
    requires
        valid_secret(n),
    ensures
        r@.len() == KEYS,
        forall|key: int|
            0 <= key < KEYS ==> (#[trigger] r@[key] matches Some(v) ==> first_from(n, key, 0)
                == Some(v as int) && 0 <= v < 10) && (r@[key] is None ==> first_from(n, key, 0)
                is None),
{
    let costs = prices(n);
    let mut seqs: Vec<Option<isize>> = Vec::new();
    let mut k: usize = 0;
    while k < KEYS
        invariant
            k <= KEYS,
            seqs@.len() == k,
            forall|q: int| 0 <= q < k ==> #[trigger] seqs@[q] is None,
        decreases KEYS - k,
    {
        seqs.push(None);
        k = k + 1;
    }
    let mut i: usize = 0;
    while i < 1996
        invariant
            i <= 1996,
            costs@.len() == 2001,
            forall|q: int| 0 <= q < 2001 ==> #[trigger] costs@[q] == price(n, q as nat),
            forall|q: int| 0 <= q < 2001 ==> 0 <= #[trigger] costs@[q] < 10,
            seqs@.len() == KEYS,
            forall|key: int|
                0 <= key < KEYS ==> (#[trigger] seqs@[key] matches Some(v) ==> first_from(
                    n,
                    key,
                    0,
                ) == Some(v as int) && 0 <= v < 10) && (seqs@[key] is None ==> forall|w: nat|
                    w < i ==> window(n, w) != key),
        decreases 1996 - i,
    {
        let key = window_at(Ghost(n), &costs, i);
        match seqs[key] {
            Some(_) => {},
            None => {
                proof {
                    lemma_first_at(n, key as int, 0, i as nat);
                }
                seqs.set(key, Some(costs[i + 4]));
            },
        }
        i = i + 1;
    }
    proof {
        assert forall|key: int| 0 <= key < KEYS && #[trigger] seqs@[key] is None implies first_from(
            n,
            key,
            0,
        ) is None by {
            lemma_first_none(n, key, 0);
        }
    }
    seqs
}

/// Bananas earned with `key` over all buyers `ns`.
pub open spec fn bananas(ns: Seq<isize>, key: int) -> int
    decreases ns.len(),
{
    if ns.len() == 0 {
        0
    } else {
        bananas(ns.drop_last(), key) + match first_from(ns.last(), key, 0) {
            Some(v) => v,
            None => 0,
        }
    }
}

/// Whether some buyer of `ns` sells on `key`.
pub open spec fn sold(ns: Seq<isize>, key: int) -> bool
    decreases ns.len(),
{
    if ns.len() == 0 {
        false
    } else {
        sold(ns.drop_last(), key) || first_from(ns.last(), key, 0) is Some
    }
}

/// The most bananas over the keys below `k` on which some buyer sells.
pub open spec fn best_upto(ns: Seq<isize>, k: int) -> Option<int>
    decreases k,
{
    if k <= 0 {
        None
    } else {
        let prev = best_upto(ns, k - 1);
        if sold(ns, k - 1) {
            match prev {
                Some(b) => Some(if b >= bananas(ns, k - 1) {
                    b
                } else {
                    bananas(ns, k - 1)
                }),
                None => Some(bananas(ns, k - 1)),
            }
        } else {
            prev
        }
    }
}

/// The most bananas one window of four price changes can earn over all
/// buyers (0 when no buyer sells at all).
pub fn level2(inputs: Vec<isize>) -> (r: isize)
    requires
        inputs@.len() >= 1,
        forall|i: int| 0 <= i < inputs@.len() ==> valid_secret(#[trigger] inputs@[i]),
        inputs@.len() * 9 <= isize::MAX,
    ensures
        r == match best_upto(inputs@, KEYS as int) {
            Some(b) => b,
            None => 0,
        },
{
    let ghost ns = inputs@;
    let mut totals: Vec<isize> = Vec::new();
    let mut seen: Vec<bool> = Vec::new();
    let mut k: usize = 0;
    while k < KEYS
        invariant
            k <= KEYS,
            totals@.len() == k,
            seen@.len() == k,
            forall|q: int| 0 <= q < k ==> #[trigger] totals@[q] == 0 && !seen@[q],
        decreases KEYS - k,
    {
        totals.push(0);
        seen.push(false);
        k = k + 1;
    }
    let mut b: usize = 0;
    assert(ns.take(0) =~= Seq::<isize>::empty());
    while b < inputs.len()
        invariant
            ns == inputs@,
            b <= ns.len(),
            ns.len() * 9 <= isize::MAX,
            forall|i: int| 0 <= i < ns.len() ==> valid_secret(#[trigger] ns[i]),
            totals@.len() == KEYS,
            seen@.len() == KEYS,
            forall|q: int|
                0 <= q < KEYS ==> #[trigger] totals@[q] == bananas(ns.take(b as int), q) && 0
                    <= totals@[q] <= 9 * b && seen@[q] == sold(ns.take(b as int), q),
        decreases ns.len() - b,
    {
        let n = inputs[b];
        let t = find_seqs(n);
        let ghost pre = ns.take(b as int);
        let ghost post = ns.take(b + 1);
        proof {
            assert(post.drop_last() =~= pre);
            assert(post.last() == n);
        }
        let mut q: usize = 0;
        while q < KEYS
            invariant
                ns == inputs@,
                b < ns.len(),
                ns.len() * 9 <= isize::MAX,
                n == ns[b as int],
                pre == ns.take(b as int),
                post == ns.take(b + 1),
                post.drop_last() == pre,
                post.last() == n,
                t@.len() == KEYS,
                forall|key: int|
                    0 <= key < KEYS ==> (#[trigger] t@[key] matches Some(v) ==> first_from(
                        n,
                        key,
                        0,
                    ) == Some(v as int) && 0 <= v < 10) && (t@[key] is None ==> first_from(
                        n,
                        key,
                        0,
                    ) is None),
                q <= KEYS,
                totals@.len() == KEYS,
                seen@.len() == KEYS,
                forall|key: int|
                    0 <= key < q ==> #[trigger] totals@[key] == bananas(post, key) && 0
                        <= totals@[key] <= 9 * (b + 1) && seen@[key] == sold(post, key),
                forall|key: int|
                    q <= key < KEYS ==> #[trigger] totals@[key] == bananas(pre, key) && 0
                        <= totals@[key] <= 9 * b && seen@[key] == sold(pre, key),
            decreases KEYS - q,
        {
            let ghost qi = q as int;
            let ghost old_totals = totals@;
            let ghost old_seen = seen@;
            proof {
                assert(bananas(post, qi) == bananas(pre, qi) + match first_from(n, qi, 0) {
                    Some(v) => v,
                    None => 0,
                });
                assert(sold(post, qi) == (sold(pre, qi) || first_from(n, qi, 0) is Some));
                assert(totals@[qi] == bananas(pre, qi) && 0 <= totals@[qi] <= 9 * b && seen@[qi]
                    == sold(pre, qi));
            }
            match t[q] {
                Some(v) => {
                    assert(9 * (b + 1) <= ns.len() * 9) by (nonlinear_arith)
                        requires
                            b < ns.len(),
                    ;
                    let nt = totals[q] + v;
                    totals.set(q, nt);
                    seen.set(q, true);
                },
                None => {},
            }
            assert(totals@[qi] == bananas(post, qi) && 0 <= totals@[qi] <= 9 * (b + 1)
                && seen@[qi] == sold(post, qi));
            assert forall|key: int| 0 <= key < KEYS && key != qi implies #[trigger] totals@[key]
                == old_totals[key] && seen@[key] == old_seen[key] by {}
            assert forall|key: int| 0 <= key < qi + 1 implies #[trigger] totals@[key] == bananas(
                post,
                key,
            ) && 0 <= totals@[key] <= 9 * (b + 1) && seen@[key] == sold(post, key) by {
                if key < qi {
                    assert(old_totals[key] == bananas(post, key));
                    assert(9 * b <= 9 * (b + 1));
                }
            }
            q = q + 1;
        }
        b = b + 1;
    }
    assert(ns.take(b as int) =~= ns);
    let mut best: Option<isize> = None;
    let mut q: usize = 0;
    assert(best_upto(ns, 0) is None);
    while q < KEYS
        invariant
            ns == inputs@,
            q <= KEYS,
            totals@.len() == KEYS,
            seen@.len() == KEYS,
            forall|key: int|
                0 <= key < KEYS ==> #[trigger] totals@[key] == bananas(ns, key) && seen@[key]
                    == sold(ns, key),
            best_upto(ns, q as int) == match best {
                Some(x) => Some(x as int),
                None => None,
            },
        decreases KEYS - q,
    {
        proof {
            assert(totals@[q as int] == bananas(ns, q as int) && seen@[q as int] == sold(
                ns,
                q as int,
            ));
            assert(best_upto(ns, q + 1) == if sold(ns, q as int) {
                match best_upto(ns, q as int) {
                    Some(b) => Some(if b >= bananas(ns, q as int) {
                        b
                    } else {
                        bananas(ns, q as int)
                    }),
                    None => Some(bananas(ns, q as int)),
                }
            } else {
                best_upto(ns, q as int)
            });
        }
        if seen[q] {
            let v = totals[q];
            best = match best {
                Some(x) => Some(if x >= v {
                    x
                } else {
                    v
                }),
                None => Some(v),
            };
        }
        q = q + 1;
    }
    match best {
        Some(x) => x,
        None => 0,
    }
}

} // verus!
