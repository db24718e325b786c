//! Locks and keys drawn as blocks of `#` and `.`: a key fits a lock when no
//! column of the two overlaps.
use crate::parser::{agrees, IsInput};
use crate::text::{lines, lines_of, split, split_on, views, Delim, Separator};
use vstd::prelude::*;

verus! {

/// One drawing character shifted into a bitmap: `#` is a set bit. Bits
/// above the 32nd are dropped.
pub open spec fn shift_in(acc: u32, c: char) -> u32 {
    ((acc as int % 0x8000_0000) * 2 + if c == '#' {
        1int
    } else {
        0int
    }) as u32
}

/// The characters of `cs` shifted into `acc`, first character first.
pub open spec fn shift_chars(acc: u32, cs: Seq<char>) -> u32
    decreases cs.len(),
{
    if cs.len() == 0 {
        acc
    } else {
        shift_chars(shift_in(acc, cs[0]), cs.skip(1))
    }
}

/// The lines of `ls` shifted into `acc`, first line first.
pub open spec fn shift_lines(acc: u32, ls: Seq<Seq<char>>) -> u32
    decreases ls.len(),
{
    if ls.len() == 0 {
        acc
    } else {
        shift_lines(shift_chars(acc, ls[0]), ls.skip(1))
    }
}

/// The bitmap of a drawing: every character of every line, in order.
pub open spec fn bitmap(ls: Seq<Seq<char>>) -> u32 {
    shift_lines(0, ls)
}

fn parse_bitmap(s: &[Vec<char>]) -> (r: u32)
    ensures
        r == bitmap(views(s@)),
{
    let ghost lv = views(s@);
    let mut acc: u32 = 0;
    let mut i: usize = 0;
    assert(lv.skip(0) =~= lv);
    while i < s.len()
        invariant
            i <= s@.len(),
            lv == views(s@),
            bitmap(lv) == shift_lines(acc, lv.skip(i as int)),
        decreases s@.len() - i,
    {
        let line = &s[i];
        proof {
            assert(lv.skip(i as int)[0] == line@);
            assert(lv.skip(i as int).skip(1) =~= lv.skip(i + 1));
        }
        let ghost after = shift_chars(acc, line@);
        let mut j: usize = 0;
        assert(line@.skip(0) =~= line@);
        while j < line.len()
            invariant
                j <= line@.len(),
                after == shift_chars(acc, line@.skip(j as int)),
            decreases line@.len() - j,
        {
            let c = line[j];
            proof {
                assert(line@.skip(j as int)[0] == c);
                assert(line@.skip(j as int).skip(1) =~= line@.skip(j + 1));
            }
            let bit: u32 = if c == '#' {
                1
            } else {
                0
            };
            acc = (acc % 0x8000_0000) * 2 + bit;
            j = j + 1;
        }
        assert(line@.skip(j as int) =~= Seq::<char>::empty());
        i = i + 1;
    }
    assert(lv.skip(i as int) =~= Seq::<Seq<char>>::empty());
    acc
}

/// The locks and keys of the input, as bitmaps.
pub struct Input {
    pub locks: Vec<u32>,
    pub keys: Vec<u32>,
}

impl DeepView for Input {
    type V = (Seq<u32>, Seq<u32>);

    open spec fn deep_view(&self) -> (Seq<u32>, Seq<u32>) {
        (self.locks@, self.keys@)
    }
}

/// A drawing is a key when its first line starts with `#`.
pub open spec fn is_key(ls: Seq<Seq<char>>) -> bool {
    ls[0].len() > 0 && ls[0][0] == '#'
}

/// The bitmap of a drawing without its first and last line.
pub open spec fn inner_bitmap(ls: Seq<Seq<char>>) -> u32 {
    bitmap(ls.subrange(1, ls.len() - 1))
}

/// Sorts the drawings into `(locks, keys)`; `None` when a drawing has fewer
/// than two lines.
pub open spec fn sort_drawings(items: Seq<Seq<char>>) -> Option<(Seq<u32>, Seq<u32>)>
    decreases items.len(),
{
    if items.len() == 0 {
        Some((Seq::empty(), Seq::empty()))
    } else {
        let ls = lines_of(items.last());
        match sort_drawings(items.drop_last()) {
            Some((locks, keys)) => if ls.len() < 2 {
                None
            } else if is_key(ls) {
                Some((locks, keys.push(inner_bitmap(ls))))
            } else {
                Some((locks.push(inner_bitmap(ls)), keys))
            },
            None => None,
        }
    }
}

/// Once a prefix of the drawings is malformed, all of them are.
pub proof fn lemma_sort_drawings_fails(a: Seq<Seq<char>>, b: Seq<Seq<char>>)
    requires
        sort_drawings(a) is None,
    ensures
        sort_drawings(a + b) is None,
    decreases b.len(),
{
    if b.len() > 0 {
        lemma_sort_drawings_fails(a, b.drop_last());
        assert((a + b).drop_last() =~= a + b.drop_last());
    } else {
        assert(a + b =~= a);
    }
}

impl IsInput for Input {
    /// Drawings are separated by blank lines.
    open spec fn spec_from_text(s: Seq<char>) -> Option<(Seq<u32>, Seq<u32>)> {
        sort_drawings(split_on(s, Delim::Text(seq!['\n', '\n'])))
    }

    fn from_text(s: &[char]) -> (r: Option<Input>) {
        let sepv = vec!['\n', '\n'];
        assert(sepv@ =~= seq!['\n', '\n']);
        let sep = Separator::Text(sepv);
        let items = split(s, &sep);
        let ghost iv = views(items@);
        let mut locks: Vec<u32> = Vec::new();
        let mut keys: Vec<u32> = Vec::new();
        let mut i: usize = 0;
        assert(iv.take(0) =~= Seq::<Seq<char>>::empty());
        while i < items.len()
            invariant
                i <= items@.len(),
                iv == views(items@),
                iv == split_on(s@, Delim::Text(seq!['\n', '\n'])),
                sort_drawings(iv.take(i as int)) == Some((locks@, keys@)),
            decreases items@.len() - i,
        {
            let ls = lines(items[i].as_slice());
            proof {
                assert(iv[i as int] == items@[i as int]@);
                assert(iv.take(i + 1).drop_last() =~= iv.take(i as int));
                assert(views(ls@).len() == ls@.len());
            }
            if ls.len() < 2 {
                proof {
                    lemma_sort_drawings_fails(iv.take(i + 1), iv.skip(i + 1));
                    assert(iv.take(i + 1) + iv.skip(i + 1) =~= iv);
                }
                return None;
            }
            let end = ls.len() - 1;
            let b = parse_bitmap(&ls.as_slice()[1..end]);
            proof {
                assert(views(ls@.subrange(1, end as int)) =~= views(ls@).subrange(1, end as int));
                assert(views(ls@)[0] == ls@[0]@);
            }
            if ls[0].len() > 0 && ls[0][0] == '#' {
                keys.push(b);
            } else {
                locks.push(b);
            }
            i = i + 1;
        }
        assert(iv.take(i as int) =~= iv);
        Some(Input { locks, keys })
    }
}

/// Number of locks that `key` fits.
pub open spec fn fits_of(key: u32, locks: Seq<u32>) -> nat
    decreases locks.len(),
{
    if locks.len() == 0 {
        0
    } else {
        fits_of(key, locks.drop_last()) + if key & locks.last() == 0 {
            1nat
        } else {
            0nat
        }
    }
}

/// Number of (key, lock) pairs that fit.
pub open spec fn fitting_pairs(keys: Seq<u32>, locks: Seq<u32>) -> nat
    decreases keys.len(),
{
    if keys.len() == 0 {
        0
    } else {
        fitting_pairs(keys.drop_last(), locks) + fits_of(keys.last(), locks)
    }
}

/// Number of (key, lock) pairs whose drawings do not overlap.
pub fn level1(combos: Input) -> (r: usize)
    requires
        combos.keys@.len() * combos.locks@.len() <= usize::MAX,
    ensures
        r == fitting_pairs(combos.keys@, combos.locks@),
{
    let nk = combos.keys.len();
    let nl = combos.locks.len();
    let mut fit: usize = 0;
    let mut i: usize = 0;
    while i < nk
        invariant
            nk == combos.keys@.len(),
            nl == combos.locks@.len(),
            nk * nl <= usize::MAX,
            i <= nk,
            fit <= i * nl,
            fit == fitting_pairs(combos.keys@.take(i as int), combos.locks@),
        decreases nk - i,
    {
        let key = combos.keys[i];
        let mut j: usize = 0;
        let ghost base = fit;
        while j < nl
            invariant
                nk == combos.keys@.len(),
                nl == combos.locks@.len(),
                nk * nl <= usize::MAX,
                i < nk,
                j <= nl,
                base <= i * nl,
                fit <= base + j,
                fit == base + fits_of(key, combos.locks@.take(j as int)),
            decreases nl - j,
        {
            assert(combos.locks@.take(j + 1).drop_last() =~= combos.locks@.take(j as int));
            assert(base + j + 1 <= nk * nl) by (nonlinear_arith)
                requires
                    base <= i * nl,
                    j < nl,
                    i < nk,
            ;
            if key & combos.locks[j] == 0 {
                fit = fit + 1;
            }
            j = j + 1;
        }
        proof {
            assert(combos.locks@.take(j as int) =~= combos.locks@);
            assert(combos.keys@.take(i + 1).drop_last() =~= combos.keys@.take(i as int));
            assert(fit <= (i + 1) * nl) by (nonlinear_arith)
                requires
                    base <= i * nl,
                    fit <= base + nl,
            ;
        }
        i = i + 1;
    }
    assert(combos.keys@.take(i as int) =~= combos.keys@);
    fit
}

/// The last day has no second puzzle.
pub fn level2(_combos: Input) -> (r: String)
    ensures
        r@ == "Merry Christmas!"@,
{
    "Merry Christmas!".to_owned()
}

} // verus!
