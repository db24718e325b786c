//! Calibration equations: can the numbers, combined left to right with
//! `+`, `*` (and, in the second part, digit concatenation), give the total?
use crate::parser::{agrees, IsInput};
use crate::text::{int_in, lines, lines_of, parse_int, split, split_on, views, Delim, Separator};
use vstd::prelude::*;

verus! {

/// A counter of fixed length in base `N`, least significant digit first.
pub struct NnaryCounter<const N: u8> {
    pub digits: Vec<u8>,
    pub as_num: u64,
}

/// Every digit is below `n`.
pub open spec fn digits_below(d: Seq<u8>, n: int) -> bool {
    forall|i: int| 0 <= i < d.len() ==> (#[trigger] d[i]) < n
}

/// The value of `d` read most significant digit first, in base `n`.
pub open spec fn be_value(d: Seq<u8>, n: int) -> int
    decreases d.len(),
{
    if d.len() == 0 {
        0
    } else {
        be_value(d.drop_last(), n) * n + d.last()
    }
}

/// The value of `d` read least significant digit first, in base `n`.
pub open spec fn le_value(d: Seq<u8>, n: int) -> int
    decreases d.len(),
{
    if d.len() == 0 {
        0
    } else {
        d[0] + n * le_value(d.skip(1), n)
    }
}

/// The `len` lowest base-`n` digits of `num`, least significant first.
pub open spec fn le_digits(num: int, len: nat, n: int) -> Seq<u8>
    decreases len,
{
    if len == 0 {
        Seq::empty()
    } else {
        seq![(num % n) as u8] + le_digits(num / n, (len - 1) as nat, n)
    }
}

/// What `num` has left once its `len` lowest base-`n` digits are taken off.
pub open spec fn le_rest(num: int, len: nat, n: int) -> int
    decreases len,
{
    if len == 0 {
        num
    } else {
        le_rest(num / n, (len - 1) as nat, n)
    }
}

/// `n` to the power `len`.
pub open spec fn capacity(n: int, len: nat) -> int
    decreases len,
{
    if len == 0 {
        1
    } else {
        n * capacity(n, (len - 1) as nat)
    }
}

/// The little-endian successor: add one to the lowest digit and carry;
/// all digits at `n - 1` wrap round to zeros.
pub open spec fn incremented(d: Seq<u8>, n: int) -> Seq<u8>
    decreases d.len(),
{
    if d.len() == 0 {
        d
    } else if d[0] + 1 == n {
        seq![0u8] + incremented(d.skip(1), n)
    } else {
        d.update(0, (d[0] + 1) as u8)
    }
}

/// Every digit is at `n - 1`.
pub open spec fn all_top(d: Seq<u8>, n: int) -> bool {
    forall|i: int| 0 <= i < d.len() ==> (#[trigger] d[i]) == n - 1
}

/// The digits of a number below `n` to the power `len` give it back.
pub proof fn lemma_le_round_trip(d: Seq<u8>, n: int)
    requires
        n > 0,
        digits_below(d, n),
    ensures
        le_digits(le_value(d, n), d.len(), n) == d,
        0 <= le_value(d, n) < capacity(n, d.len()),
    decreases d.len(),
{
    if d.len() > 0 {
        let r = d.skip(1);
        assert(digits_below(r, n)) by {
            assert forall|i: int| 0 <= i < r.len() implies (#[trigger] r[i]) < n by {
                assert(r[i] == d[i + 1]);
            }
        }
        lemma_le_round_trip(r, n);
        let v = le_value(d, n);
        let rv = le_value(r, n);
        let d0 = d[0] as int;
        assert(0 <= d0 < n);
        vstd::arithmetic::div_mod::lemma_fundamental_div_mod_converse(v, n, rv, d0);
        assert(v == d0 + n * rv);
        assert(seq![(v % n) as u8] + le_digits(v / n, (d.len() - 1) as nat, n) =~= d);
        assert(v < capacity(n, d.len())) by (nonlinear_arith)
            requires
                v == d0 + n * rv,
                0 <= d0 < n,
                0 <= rv < capacity(n, (d.len() - 1) as nat),
                capacity(n, d.len()) == n * capacity(n, (d.len() - 1) as nat),
        ;
        assert(v >= 0) by (nonlinear_arith)
            requires
                v == d0 + n * rv,
                0 <= d0,
                0 <= rv,
                n > 0,
        ;
    }
}

/// A zero digit at the most significant end adds nothing.
pub proof fn lemma_le_push_zero(d: Seq<u8>, n: int)
    ensures
        le_value(d.push(0), n) == le_value(d, n),
    decreases d.len(),
{
    if d.len() > 0 {
        lemma_le_push_zero(d.skip(1), n);
        assert(d.push(0).skip(1) =~= d.skip(1).push(0));
        assert(d.push(0)[0] == d[0]);
    } else {
        assert(d.push(0).skip(1) =~= Seq::<u8>::empty());
        assert(n * 0 == 0);
        assert(le_value(d.push(0), n) == d.push(0)[0] + n * le_value(d.push(0).skip(1), n));
    }
}

/// Base-`n` digits are below `n`.
pub proof fn lemma_le_digits_below(num: int, len: nat, n: int)
    requires
        n > 0,
        num >= 0,
    ensures
        digits_below(le_digits(num, len, n), n),
        le_digits(num, len, n).len() == len,
    decreases len,
{
    if len > 0 {
        lemma_le_digits_below(num / n, (len - 1) as nat, n);
        let d = le_digits(num, len, n);
        assert forall|i: int| 0 <= i < d.len() implies (#[trigger] d[i]) < n by {
            if i > 0 {
                assert(d[i] == le_digits(num / n, (len - 1) as nat, n)[i - 1]);
            }
        }
    }
}

/// A prefix of big-endian digits is worth no more than the whole.
pub proof fn lemma_be_grows(d: Seq<u8>, n: int, k: int)
    requires
        n >= 1,
        0 <= k <= d.len(),
    ensures
        0 <= be_value(d.take(k), n) <= be_value(d, n),
    decreases d.len(),
{
    if d.len() > 0 {
        if k == d.len() {
            assert(d.take(k) =~= d);
            lemma_be_grows(d.drop_last(), n, 0);
        } else {
            lemma_be_grows(d.drop_last(), n, k);
            assert(d.drop_last().take(k) =~= d.take(k));
        }
        let p = be_value(d.drop_last(), n);
        assert(p <= p * n + d.last()) by (nonlinear_arith)
            requires
                p >= 0,
                n >= 1,
        ;
    } else {
        assert(d.take(k) =~= d);
    }
}

impl<const N: u8> NnaryCounter<N> {
    /// A counter of `len` zero digits.
    pub fn new(len: usize) -> (r: Self)
        ensures
            r.digits@ == Seq::new(len as nat, |_i: int| 0u8),
            r.as_num == 0,
    {
        let digits = vec![0u8; len];
        assert(digits@ =~= Seq::new(len as nat, |_i: int| 0u8));
        NnaryCounter { digits, as_num: 0 }
    }

    /// The digits read most significant first, i.e. in the order stored.
    pub fn to_number(&self) -> (r: u64)
        requires
            N >= 1,
            be_value(self.digits@, N as int) <= u64::MAX,
        ensures
            r == be_value(self.digits@, N as int),
    {
        let mut acc: u64 = 0;
        let mut i: usize = 0;
        while i < self.digits.len()
            invariant
                N >= 1,
                i <= self.digits@.len(),
                be_value(self.digits@, N as int) <= u64::MAX,
                acc == be_value(self.digits@.take(i as int), N as int),
            decreases self.digits@.len() - i,
        {
            proof {
                assert(self.digits@.take(i + 1).drop_last() =~= self.digits@.take(i as int));
                lemma_be_grows(self.digits@, N as int, i + 1);
            }
            acc = acc * (N as u64) + self.digits[i] as u64;
            i = i + 1;
        }
        assert(self.digits@.take(i as int) =~= self.digits@);
        acc
    }

    /// The counter holding the `len` lowest base-`N` digits of `num`; what
    /// is left of `num` above them is kept in `as_num`.
    pub fn from_number(num: u64, len: usize) -> (r: Self)
        requires
            N >= 1,
        ensures
            r.digits@ == le_digits(num as int, len as nat, N as int),
            r.as_num == le_rest(num as int, len as nat, N as int),
    {
        let mut digits: Vec<u8> = Vec::new();
        let mut cur = num;
        let mut i: usize = 0;
        while i < len
            invariant
                N >= 1,
                i <= len,
                digits@ + le_digits(cur as int, (len - i) as nat, N as int) == le_digits(
                    num as int,
                    len as nat,
                    N as int,
                ),
                le_rest(cur as int, (len - i) as nat, N as int) == le_rest(
                    num as int,
                    len as nat,
                    N as int,
                ),
            decreases len - i,
        {
            let d = (cur % N as u64) as u8;
            proof {
                let rest = le_digits(cur as int / N as int, (len - i - 1) as nat, N as int);
                assert(le_digits(cur as int, (len - i) as nat, N as int) == seq![d] + rest);
                assert(digits@.push(d) + rest =~= digits@ + (seq![d] + rest));
            }
            digits.push(d);
            cur = cur / N as u64;
            i = i + 1;
        }
        assert(digits@ + Seq::<u8>::empty() =~= digits@);
        NnaryCounter { digits, as_num: cur }
    }

    /// Adds one, least significant digit first; the largest value wraps
    /// round to all zeros.
    pub fn increment(&mut self)
        requires
            N >= 1,
            digits_below(old(self).digits@, N as int),
        ensures
            final(self).digits@ == incremented(old(self).digits@, N as int),
            final(self).as_num == old(self).as_num,
    {
        let ghost d0 = self.digits@;
        let n = self.digits.len();
        let mut i: usize = 0;
        assert(d0.skip(0) =~= d0);
        assert(self.digits@.take(0) + incremented(d0, N as int) =~= incremented(d0, N as int));
        while i < n
            invariant
                N >= 1,
                n == d0.len() == self.digits@.len(),
                i <= n,
                digits_below(d0, N as int),
                self.as_num == old(self).as_num,
                d0 == old(self).digits@,
                self.digits@.skip(i as int) == d0.skip(i as int),
                incremented(d0, N as int) == self.digits@.take(i as int) + incremented(
                    d0.skip(i as int),
                    N as int,
                ),
            decreases n - i,
        {
            let v = self.digits[i] + 1;
            proof {
                assert(d0.skip(i as int)[0] == d0[i as int]);
                assert(self.digits@[i as int] == d0[i as int]);
            }
            if v == N {
                self.digits.set(i, 0);
                proof {
                    assert(d0.skip(i as int).skip(1) =~= d0.skip(i + 1));
                    assert(self.digits@.skip(i + 1) =~= d0.skip(i + 1));
                    assert(self.digits@.take(i + 1) =~= self.digits@.take(i as int).push(0));
                    assert(self.digits@.take(i as int).push(0) + incremented(d0.skip(i + 1), N as int)
                        =~= self.digits@.take(i as int) + (seq![0u8] + incremented(
                        d0.skip(i + 1),
                        N as int,
                    )));
                }
                i = i + 1;
            } else {
                let ghost before = self.digits@;
                self.digits.set(i, v);
                proof {
                    assert(self.digits@ =~= before.take(i as int) + d0.skip(i as int).update(
                        0,
                        v,
                    ));
                }
                return ;
            }
        }
        assert(d0.skip(i as int) =~= Seq::<u8>::empty());
        assert(self.digits@.take(i as int) =~= self.digits@);
    }

    /// Whether every digit is at `N - 1`.
    pub fn is_full(&self) -> (r: bool)
        requires
            N >= 1,
        ensures
            r == all_top(self.digits@, N as int),
    {
        let mut i: usize = 0;
        while i < self.digits.len()
            invariant
                N >= 1,
                i <= self.digits@.len(),
                forall|k: int| 0 <= k < i ==> (#[trigger] self.digits@[k]) == N - 1,
            decreases self.digits@.len() - i,
        {
            if self.digits[i] != N - 1 {
                return false;
            }
            i = i + 1;
        }
        true
    }

    /// Steps through the counter's values: `None` once every digit is at
    /// `N - 1`; otherwise the current value, read most significant digit
    /// first, after which the counter is incremented.
    pub fn next(&mut self) -> (r: Option<u64>)
        requires
            N >= 1,
            digits_below(old(self).digits@, N as int),
            be_value(old(self).digits@, N as int) <= u64::MAX,
        ensures
            all_top(old(self).digits@, N as int) ==> r is None && *final(self) == *old(self),
            !all_top(old(self).digits@, N as int) ==> r == Some(
                be_value(old(self).digits@, N as int) as u64,
            ) && final(self).digits@ == incremented(old(self).digits@, N as int)
                && final(self).as_num == old(self).as_num,
    {
        if self.is_full() {
            return None;
        }
        let num = self.to_number();
        self.increment();
        Some(num)
    }

    /// The digit at position `i` (least significant first).
    pub fn digit(&self, i: usize) -> (r: u8)
        requires
            i < self.digits@.len(),
        ensures
            r == self.digits@[i as int],
    {
        self.digits[i]
    }
}

/// How two numbers are combined.
#[derive(Clone, Copy, Debug, PartialEq, Eq, Structural)]
pub enum Operation {
    Add,
    Mul,
    Concat,
}

/// The operation a digit stands for: 0 adds, 1 multiplies, 2 concatenates.
pub open spec fn op_of(b: u8) -> Operation {
    if b == 0 {
        Operation::Add
    } else if b == 1 {
        Operation::Mul
    } else {
        Operation::Concat
    }
}

/// Number of decimal digits of `n` (1 for 0).
pub open spec fn decimal_len(n: int) -> nat
    decreases n,
{
    if n < 10 {
        1
    } else {
        1 + decimal_len(n / 10)
    }
}

/// `10` to the power `k`.
pub open spec fn pow10(k: nat) -> int
    decreases k,
{
    if k == 0 {
        1
    } else {
        10 * pow10((k - 1) as nat)
    }
}

/// `acc` combined with `n` by `op`; concatenation appends the digits of `n`.
pub open spec fn apply(op: Operation, acc: int, n: int) -> int {
    match op {
        Operation::Add => acc + n,
        Operation::Mul => acc * n,
        Operation::Concat => acc * pow10(decimal_len(n)) + n,
    }
}

/// `acc` combined with each of `nums` in turn, by the matching `ops`.
pub open spec fn fold_ops(acc: int, nums: Seq<u64>, ops: Seq<Operation>) -> int
    decreases nums.len(),
{
    if nums.len() == 0 || ops.len() == 0 {
        acc
    } else {
        fold_ops(apply(ops[0], acc, nums[0] as int), nums.skip(1), ops.skip(1))
    }
}

/// The value of an equation: its numbers combined left to right by `ops`.
pub open spec fn equation_value(nums: Seq<u64>, ops: Seq<Operation>) -> int
    recommends
        nums.len() >= 1,
{
    fold_ops(nums[0] as int, nums.skip(1), ops)
}

/// The operations that the digits `d` stand for.
pub open spec fn ops_of(d: Seq<u8>) -> Seq<Operation> {
    d.map_values(|b: u8| op_of(b))
}

/// Some choice of operations among the first `n` makes the numbers give
/// `total`.
pub open spec fn solvable(nums: Seq<u64>, total: u64, n: int) -> bool {
    exists|d: Seq<u8>|
        d.len() == nums.len() - 1 && digits_below(d, n) && equation_value(nums, ops_of(d))
            == total
}

impl Operation {
    fn from_bit(b: u8) -> (r: Operation)
        requires
            b < 3,
        ensures
            r == op_of(b),
    {
        match b {
            0 => Operation::Add,
            1 => Operation::Mul,
            _ => Operation::Concat,
        }
    }

    fn from_mask<const N: u8>(mask: &NnaryCounter<N>, len: usize) -> (r: Vec<Operation>)
        requires
            len <= mask.digits@.len(),
            digits_below(mask.digits@, 3),
        ensures
            r@ == ops_of(mask.digits@.take(len as int)),
    {
        let mut operations: Vec<Operation> = Vec::new();
        let mut i: usize = 0;
        while i < len
            invariant
                i <= len <= mask.digits@.len(),
                digits_below(mask.digits@, 3),
                operations@ == ops_of(mask.digits@.take(i as int)),
            decreases len - i,
        {
            let op = Operation::from_bit(mask.digit(i));
            operations.push(op);
            assert(operations@ =~= ops_of(mask.digits@.take(i + 1)));
            i = i + 1;
        }
        operations
    }
}

/// `acc * 10^(digits of n) + n`, or `None` when that exceeds `u64::MAX`.
fn concat(acc: u64, n: u64) -> (r: Option<u64>)
    ensures
        r matches Some(v) ==> v == apply(Operation::Concat, acc as int, n as int),
        r is None ==> apply(Operation::Concat, acc as int, n as int) > u64::MAX,
{
    let mut p: u64 = 1;
    let mut m: u64 = n;
    let ghost mut j: nat = 0;
    while m >= 10
        invariant
            p == pow10(j),
            p * m <= n,
            decimal_len(n as int) == j + decimal_len(m as int),
        decreases m,
    {
        assert(p * 10 <= p * m) by (nonlinear_arith)
            requires
                m >= 10,
                p >= 0,
        ;
        assert(p * 10 * (m / 10) <= p * m) by (nonlinear_arith)
            requires
                m >= 10,
                p >= 0,
        ;
        p = p * 10;
        m = m / 10;
        proof {
            j = j + 1;
        }
    }
    let p10: u128 = p as u128 * 10;
    assert(p10 == pow10(decimal_len(n as int)));
    if acc == 0 {
        return Some(n);
    }
    if p10 > u64::MAX as u128 {
        assert(acc as int * p10 + n >= p10) by (nonlinear_arith)
            requires
                acc >= 1,
                p10 >= 0,
                n >= 0,
        ;
        return None;
    }
    assert(acc as int * p10 <= 0xFFFF_FFFF_FFFF_FFFF * 0xFFFF_FFFF_FFFF_FFFF) by (nonlinear_arith)
        requires
            acc <= 0xFFFF_FFFF_FFFF_FFFF,
            p10 <= 0xFFFF_FFFF_FFFF_FFFF,
    ;
    let v: u128 = acc as u128 * p10 + n as u128;
    if v > u64::MAX as u128 {
        None
    } else {
        Some(v as u64)
    }
}

/// One calibration equation and a current choice of operations.
pub struct Problem<const N: u8> {
    pub numbers: Vec<u64>,
    pub operations: NnaryCounter<N>,
    pub total: u64,
}

impl<const N: u8> Problem<N> {
    /// The equation `numbers` = `total`, with all operations at 0.
    pub fn new(numbers: Vec<u64>, total: u64) -> (r: Self)
        ensures
            r.numbers@ == numbers@,
            r.total == total,
            r.operations.digits@ == Seq::new(numbers@.len(), |_i: int| 0u8),
    {
        let len = numbers.len();
        Problem { operations: NnaryCounter::new(len), numbers, total }
    }

    /// Whether the current operations make the numbers give the total.
    pub fn check(&self) -> (r: bool)
        requires
            self.numbers@.len() >= 1,
            self.operations.digits@.len() >= self.numbers@.len() - 1,
            digits_below(self.operations.digits@, 3),
        ensures
            r == (equation_value(
                self.numbers@,
                ops_of(self.operations.digits@.take(self.numbers@.len() - 1)),
            ) == self.total),
    {
        let len = self.numbers.len() - 1;
        let ops = Operation::from_mask(&self.operations, len);
        let ghost nums = self.numbers@.skip(1);
        let ghost want = equation_value(self.numbers@, ops@);
        let mut cur: Option<u64> = Some(self.numbers[0]);
        let ghost mut exact: int = self.numbers@[0] as int;
        let mut k: usize = 0;
        assert(nums.skip(0) =~= nums);
        assert(ops@.skip(0) =~= ops@);
        while k < len
            invariant
                len == self.numbers@.len() - 1,
                ops@.len() == len,
                nums == self.numbers@.skip(1),
                want == fold_ops(exact, nums.skip(k as int), ops@.skip(k as int)),
                k <= len,
                exact >= 0,
                match cur {
                    Some(v) => v == exact,
                    None => exact > u64::MAX,
                },
            decreases len - k,
        {
            let n = self.numbers[k + 1];
            let op = ops[k];
            proof {
                assert(nums.skip(k as int)[0] == n);
                assert(ops@.skip(k as int)[0] == op);
                assert(nums.skip(k as int).skip(1) =~= nums.skip(k + 1));
                assert(ops@.skip(k as int).skip(1) =~= ops@.skip(k + 1));
            }
            let ghost next = apply(op, exact, n as int);
            cur = match op {
                Operation::Add => match cur {
                    Some(v) => v.checked_add(n),
                    None => None,
                },
                Operation::Mul => if n == 0 {
                    Some(0)
                } else {
                    match cur {
                        Some(v) => v.checked_mul(n),
                        None => None,
                    }
                },
                Operation::Concat => match cur {
                    Some(v) => concat(v, n),
                    None => None,
                },
            };
            proof {
                match op {
                    Operation::Mul => {
                        if n == 0 {
                            assert(exact * n == 0) by (nonlinear_arith)
                                requires
                                    n == 0,
                            ;
                        }
                        if n >= 1 {
                            assert(exact * n >= exact) by (nonlinear_arith)
                                requires
                                    exact >= 0,
                                    n >= 1,
                            ;
                        }
                        assert(exact * n >= 0) by (nonlinear_arith)
                            requires
                                exact >= 0,
                                n >= 0,
                        ;
                    },
                    Operation::Concat => {
                        assert(exact * pow10(decimal_len(n as int)) >= exact) by {
                            lemma_pow10_positive(decimal_len(n as int));
                            assert(exact * pow10(decimal_len(n as int)) >= exact) by (nonlinear_arith)
                                requires
                                    exact >= 0,
                                    pow10(decimal_len(n as int)) >= 1,
                            ;
                        }
                    },
                    _ => {},
                }
                exact = next;
            }
            k = k + 1;
        }
        proof {
            assert(nums.skip(k as int) =~= Seq::<u64>::empty());
        }
        match cur {
            Some(v) => v == self.total,
            None => false,
        }
    }

    /// The total when some choice of operations among the first `N` makes
    /// the numbers give it, and 0 otherwise. Leaves the problem as it was.
    pub fn solve(&mut self) -> (r: u64)
        requires
            old(self).numbers@.len() >= 1,
            2 <= N <= 3,
            capacity(N as int, old(self).numbers@.len() as nat) <= u64::MAX,
        ensures
            r == if solvable(old(self).numbers@, old(self).total, N as int) {
                old(self).total
            } else {
                0
            },
            final(self).numbers@ == old(self).numbers@,
            final(self).total == old(self).total,
            final(self).operations.digits@ == old(self).operations.digits@,
            final(self).operations.as_num == old(self).operations.as_num,
    {
        let len = self.numbers.len();
        let cap = capacity_exec(N, len);
        let mut saved: NnaryCounter<N> = NnaryCounter::new(0);
        std::mem::swap(&mut self.operations, &mut saved);
        let ghost nums = self.numbers@;
        let ghost total = self.total;
        let ghost n = N as int;
        proof {
            lemma_capacity_grows(n, 0, len as nat);
        }
        let mut m: u64 = 0;
        while m < cap - 1
            invariant
                nums == self.numbers@,
                total == self.total,
                n == N as int,
                2 <= N <= 3,
                len == nums.len() >= 1,
                cap == capacity(n, len as nat) >= 1,
                m <= cap - 1,
                saved.digits@ == old(self).operations.digits@,
                saved.as_num == old(self).operations.as_num,
                nums == old(self).numbers@,
                total == old(self).total,
                forall|k: int|
                    0 <= k < m ==> equation_value(
                        nums,
                        ops_of(#[trigger] le_digits(k, len as nat, n).take(len - 1)),
                    ) != total,
            decreases cap - 1 - m,
        {
            self.operations = NnaryCounter::from_number(m, len);
            proof {
                lemma_le_digits_below(m as int, len as nat, n);
                assert(digits_below(self.operations.digits@, 3));
            }
            if self.check() {
                proof {
                    let d = le_digits(m as int, len as nat, n).take(len - 1);
                    assert(digits_below(d, n));
                    assert(d.len() == nums.len() - 1);
                    assert(solvable(nums, total, n));
                }
                std::mem::swap(&mut self.operations, &mut saved);
                return self.total;
            }
            m = m + 1;
        }
        proof {
            if solvable(nums, total, n) {
                let d = choose|d: Seq<u8>|
                    d.len() == nums.len() - 1 && digits_below(d, n) && equation_value(
                        nums,
                        ops_of(d),
                    ) == total;
                let e = d.push(0);
                assert(digits_below(e, n)) by {
                    assert forall|i: int| 0 <= i < e.len() implies (#[trigger] e[i]) < n by {
                        if i < d.len() {
                            assert(e[i] == d[i]);
                        }
                    }
                }
                lemma_le_push_zero(d, n);
                lemma_le_round_trip(d, n);
                lemma_le_round_trip(e, n);
                let k = le_value(e, n);
                let c1 = capacity(n, (len - 1) as nat);
                assert(capacity(n, len as nat) == n * c1);
                lemma_capacity_grows(n, 0, (len - 1) as nat);
                assert(k < n * c1 - 1) by (nonlinear_arith)
                    requires
                        k < c1,
                        c1 >= 1,
                        n >= 2,
                ;
                assert(e.take(len - 1) =~= d);
                assert(le_digits(k, len as nat, n) == e);
                assert(equation_value(nums, ops_of(le_digits(k, len as nat, n).take(len - 1))) != total);
            }
        }
        std::mem::swap(&mut self.operations, &mut saved);
        0
    }
}

/// The equations of the input, one per problem.
pub struct Input<const N: u8> {
    pub problems: Vec<Problem<N>>,
}

impl<const N: u8> DeepView for Input<N> {
    type V = Seq<(u64, Seq<u64>)>;

    open spec fn deep_view(&self) -> Seq<(u64, Seq<u64>)> {
        self.problems@.map_values(|p: Problem<N>| (p.total, p.numbers@))
    }
}

/// The `u64` written in `t`.
pub open spec fn u64_of(t: Seq<char>) -> Option<u64> {
    match int_in(t, 0, u64::MAX as int) {
        Some(v) => Some(v as u64),
        None => None,
    }
}

/// The `u64`s written in `ts`, or `None` if one is not a `u64`.
pub open spec fn u64s_of(ts: Seq<Seq<char>>) -> Option<Seq<u64>>
    decreases ts.len(),
{
    if ts.len() == 0 {
        Some(Seq::empty())
    } else {
        match (u64s_of(ts.drop_last()), u64_of(ts.last())) {
            (Some(a), Some(b)) => Some(a.push(b)),
            _ => None,
        }
    }
}

/// The equation `total: n1 n2 ...` written on `line`, as `(total, numbers)`.
pub open spec fn equation_of(line: Seq<char>) -> Option<(u64, Seq<u64>)> {
    let parts = split_on(line, Delim::Text(seq![':', ' ']));
    if parts.len() < 2 {
        None
    } else {
        match (u64_of(parts[0]), u64s_of(split_on(parts[1], Delim::Text(seq![' '])))) {
            (Some(t), Some(ns)) => Some((t, ns)),
            _ => None,
        }
    }
}

/// The equations on `ls`, one per line.
pub open spec fn equations_of(ls: Seq<Seq<char>>) -> Option<Seq<(u64, Seq<u64>)>>
    decreases ls.len(),
{
    if ls.len() == 0 {
        Some(Seq::empty())
    } else {
        match (equations_of(ls.drop_last()), equation_of(ls.last())) {
            (Some(a), Some(b)) => Some(a.push(b)),
            _ => None,
        }
    }
}

/// The `u64`s written in `parts`.
fn parse_u64s(parts: &Vec<Vec<char>>) -> (r: Option<Vec<u64>>)
    ensures
        match r {
            Some(v) => u64s_of(views(parts@)) == Some(v@),
            None => u64s_of(views(parts@)) is None,
        },
{
    let ghost pv = views(parts@);
    let mut out: Vec<u64> = Vec::new();
    let mut i: usize = 0;
    assert(pv.take(0) =~= Seq::<Seq<char>>::empty());
    while i < parts.len()
        invariant
            i <= parts@.len(),
            pv == views(parts@),
            u64s_of(pv.take(i as int)) == Some(out@),
        decreases parts@.len() - i,
    {
        proof {
            assert(pv.take(i + 1).drop_last() =~= pv.take(i as int));
            assert(pv[i as int] == parts@[i as int]@);
        }
        match parse_int(parts[i].as_slice(), 0, u64::MAX as i128) {
            Some(v) => {
                out.push(v as u64);
            },
            None => {
                proof {
                    lemma_u64s_fail(pv.take(i + 1), pv.skip(i + 1));
                    assert(pv.take(i + 1) + pv.skip(i + 1) =~= pv);
                }
                return None;
            },
        }
        i = i + 1;
    }
    assert(pv.take(i as int) =~= pv);
    Some(out)
}

/// Once a prefix holds a non-number, the whole does.
pub proof fn lemma_u64s_fail(a: Seq<Seq<char>>, b: Seq<Seq<char>>)
    requires
        u64s_of(a) is None,
    ensures
        u64s_of(a + b) is None,
    decreases b.len(),
{
    if b.len() > 0 {
        lemma_u64s_fail(a, b.drop_last());
        assert((a + b).drop_last() =~= a + b.drop_last());
    } else {
        assert(a + b =~= a);
    }
}

/// Once a prefix holds a malformed line, the whole does.
pub proof fn lemma_equations_fail(a: Seq<Seq<char>>, b: Seq<Seq<char>>)
    requires
        equations_of(a) is None,
    ensures
        equations_of(a + b) is None,
    decreases b.len(),
{
    if b.len() > 0 {
        lemma_equations_fail(a, b.drop_last());
        assert((a + b).drop_last() =~= a + b.drop_last());
    } else {
        assert(a + b =~= a);
    }
}

/// The equation written on `line`.
fn parse_equation(line: &[char]) -> (r: Option<(u64, Vec<u64>)>)
    ensures
        match r {
            Some((t, ns)) => equation_of(line@) == Some((t, ns@)),
            None => equation_of(line@) is None,
        },
{
    let colon = vec![':', ' '];
    assert(colon@ =~= seq![':', ' ']);
    let parts = split(line, &Separator::Text(colon));
    proof {
        assert(views(parts@).len() == parts@.len());
    }
    if parts.len() < 2 {
        return None;
    }
    proof {
        assert(views(parts@)[0] == parts@[0]@);
        assert(views(parts@)[1] == parts@[1]@);
    }
    let total = match parse_int(parts[0].as_slice(), 0, u64::MAX as i128) {
        Some(t) => t as u64,
        None => return None,
    };
    let space = vec![' '];
    assert(space@ =~= seq![' ']);
    let words = split(parts[1].as_slice(), &Separator::Text(space));
    match parse_u64s(&words) {
        Some(ns) => Some((total, ns)),
        None => None,
    }
}

impl<const N: u8> IsInput for Input<N> {
    /// One equation `total: n1 n2 ...` per line.
    open spec fn spec_from_text(s: Seq<char>) -> Option<Seq<(u64, Seq<u64>)>> {
        equations_of(lines_of(s))
    }

    fn from_text(s: &[char]) -> (r: Option<Input<N>>) {
        let ls = lines(s);
        let ghost lv = views(ls@);
        let mut problems: Vec<Problem<N>> = Vec::new();
        let mut i: usize = 0;
        assert(lv.take(0) =~= Seq::<Seq<char>>::empty());
        assert(problems@.map_values(|p: Problem<N>| (p.total, p.numbers@)) =~= Seq::<
            (u64, Seq<u64>),
        >::empty());
        while i < ls.len()
            invariant
                i <= ls@.len(),
                lv == views(ls@),
                lv == lines_of(s@),
                equations_of(lv.take(i as int)) == Some(
                    problems@.map_values(|p: Problem<N>| (p.total, p.numbers@)),
                ),
            decreases ls@.len() - i,
        {
            proof {
                assert(lv.take(i + 1).drop_last() =~= lv.take(i as int));
                assert(lv[i as int] == ls@[i as int]@);
            }
            match parse_equation(ls[i].as_slice()) {
                Some((t, ns)) => {
                    let ghost before = problems@;
                    let p = Problem::new(ns, t);
                    problems.push(p);
                    assert(problems@.map_values(|p: Problem<N>| (p.total, p.numbers@)) =~= before.map_values(
                        |p: Problem<N>| (p.total, p.numbers@),
                    ).push((t, ns@)));
                },
                None => {
                    proof {
                        lemma_equations_fail(lv.take(i + 1), lv.skip(i + 1));
                        assert(lv.take(i + 1) + lv.skip(i + 1) =~= lv);
                    }
                    return None;
                },
            }
            i = i + 1;
        }
        assert(lv.take(i as int) =~= lv);
        Some(Input { problems })
    }
}

/// Sum of the totals of the equations that can be made true with the first
/// `n` operations.
pub open spec fn calibration(eqs: Seq<(u64, Seq<u64>)>, n: int) -> nat
    decreases eqs.len(),
{
    if eqs.len() == 0 {
        0
    } else {
        calibration(eqs.drop_last(), n) + if solvable(eqs.last().1, eqs.last().0, n) {
            eqs.last().0 as nat
        } else {
            0nat
        }
    }
}

/// Every equation has a number and few enough that all choices of
/// operations can be counted in a `u64`.
pub open spec fn equations_fit(eqs: Seq<(u64, Seq<u64>)>, n: int) -> bool {
    forall|i: int|
        0 <= i < eqs.len() ==> (#[trigger] eqs[i]).1.len() >= 1 && capacity(n, eqs[i].1.len())
            <= u64::MAX
}

/// Sum of the totals that `+` and `*` can reach.
pub fn level1(data: Input<2>) -> (r: usize)
    requires
        equations_fit(data.deep_view(), 2),
        calibration(data.deep_view(), 2) <= usize::MAX,
    ensures
        r == calibration(data.deep_view(), 2),
{
    calibrate(data)
}

/// Sum of the totals that `+`, `*` and concatenation can reach.
pub fn level2(data: Input<3>) -> (r: usize)
    requires
        equations_fit(data.deep_view(), 3),
        calibration(data.deep_view(), 3) <= usize::MAX,
    ensures
        r == calibration(data.deep_view(), 3),
{
    calibrate(data)
}

fn calibrate<const N: u8>(data: Input<N>) -> (r: usize)
    requires
        2 <= N <= 3,
        equations_fit(data.deep_view(), N as int),
        calibration(data.deep_view(), N as int) <= usize::MAX,
    ensures
        r == calibration(data.deep_view(), N as int),
{
    let ghost all = data.deep_view();
    let mut problems = data.problems;
    let mut sum: usize = 0;
    while problems.len() > 0
        invariant
            2 <= N <= 3,
            equations_fit(all, N as int),
            calibration(all, N as int) <= usize::MAX,
            problems@.map_values(|p: Problem<N>| (p.total, p.numbers@)) == all.take(
                problems@.len() as int,
            ),
            problems@.len() <= all.len(),
            sum + calibration(all.take(problems@.len() as int), N as int) == calibration(
                all,
                N as int,
            ),
        decreases problems@.len(),
    {
        let ghost k = problems@.len() as int;
        let ghost pre = all.take(k);
        let mut p = problems.pop().unwrap();
        proof {
            assert(pre.drop_last() =~= all.take(k - 1));
            assert(pre.last() == all[k - 1]);
            assert(all[k - 1] == (p.total, p.numbers@));
            assert(problems@.map_values(|p: Problem<N>| (p.total, p.numbers@)) =~= all.take(
                k - 1,
            ));
        }
        let v = p.solve();
        sum = sum + v as usize;
    }
    assert(all.take(0) =~= Seq::<(u64, Seq<u64>)>::empty());
    sum
}

/// Powers of a positive base are positive and grow with the exponent.
pub proof fn lemma_capacity_grows(n: int, a: nat, b: nat)
    requires
        n >= 1,
        a <= b,
    ensures
        1 <= capacity(n, a) <= capacity(n, b),
    decreases b,
{
    if b > a {
        lemma_capacity_grows(n, a, (b - 1) as nat);
        let c = capacity(n, (b - 1) as nat);
        assert(c <= n * c) by (nonlinear_arith)
            requires
                n >= 1,
                c >= 1,
        ;
    } else if b > 0 {
        lemma_capacity_grows(n, 0, (b - 1) as nat);
        let c = capacity(n, (b - 1) as nat);
        assert(1 <= n * c) by (nonlinear_arith)
            requires
                n >= 1,
                c >= 1,
        ;
    }
}

/// `capacity(n, len)` computed exactly.
fn capacity_exec(n: u8, len: usize) -> (r: u64)
    requires
        n >= 1,
        capacity(n as int, len as nat) <= u64::MAX,
    ensures
        r == capacity(n as int, len as nat),
{
    let mut c: u64 = 1;
    let mut i: usize = 0;
    while i < len
        invariant
            n >= 1,
            i <= len,
            capacity(n as int, len as nat) <= u64::MAX,
            c == capacity(n as int, i as nat),
        decreases len - i,
    {
        proof {
            lemma_capacity_grows(n as int, (i + 1) as nat, len as nat);
            assert(capacity(n as int, (i + 1) as nat) == n * capacity(n as int, i as nat));
            assert(c * n == n * c) by (nonlinear_arith);
        }
        c = c * n as u64;
        i = i + 1;
    }
    c
}

/// Powers of ten are positive.
pub proof fn lemma_pow10_positive(k: nat)
    ensures
        pow10(k) >= 1,
    decreases k,
{
    if k > 0 {
        lemma_pow10_positive((k - 1) as nat);
    }
}

} // verus!
