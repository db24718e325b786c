//! Composable text parsers: a leaf parser for any [`IsInput`] type and
//! combinators that split, chunk and reverse.
use crate::text::{
    chars_of, fields, parse_int, split, text_of, trim, trimmed, int_in, views, Delim, Separator,
};
use crate::point::{pair_of, Direction, Point};
use itertools::Itertools;
use vstd::prelude::*;

verus! {

/// Whether an executable result `r` matches the model `m`: both fail, or
/// both succeed with equal values.
pub open spec fn agrees<T: DeepView>(r: Option<T>, m: Option<T::V>) -> bool {
    match r {
        Some(v) => m == Some(v.deep_view()),
        None => m is None,
    }
}

/// A parser turns a text into a value, or fails (`None`) on malformed text.
pub trait Parser {
    type Output: DeepView;

    /// What parsing `s` gives: the model of the value, or `None`.
    spec fn spec_parse(&self, s: Seq<char>) -> Option<<Self::Output as DeepView>::V>;

    /// Parses `s`. Parsing never changes what later calls give.
    fn parse(&mut self, s: &str) -> (r: Option<Self::Output>)
        ensures
            agrees(r, old(self).spec_parse(s@)),
            forall|t: Seq<char>| #[trigger] final(self).spec_parse(t) == old(self).spec_parse(t),
    ;
}

/// Parses each text of `parts` with `p`: all the results in order, or `None`
/// as soon as one fails.
pub open spec fn parse_all<P: Parser>(p: P, parts: Seq<Seq<char>>) -> Option<
    Seq<<P::Output as DeepView>::V>,
>
    decreases parts.len(),
{
    if parts.len() == 0 {
        Some(Seq::empty())
    } else {
        match (parse_all(p, parts.drop_last()), p.spec_parse(parts.last())) {
            (Some(a), Some(b)) => Some(a.push(b)),
            _ => None,
        }
    }
}

/// Once a prefix fails to parse, the whole sequence fails.
pub proof fn lemma_parse_all_fails<P: Parser>(p: P, a: Seq<Seq<char>>, b: Seq<Seq<char>>)
    requires
        parse_all(p, a) is None,
    ensures
        parse_all(p, a + b) is None,
    decreases b.len(),
{
    if b.len() > 0 {
        lemma_parse_all_fails(p, a, b.drop_last());
        assert((a + b).drop_last() =~= a + b.drop_last());
    } else {
        assert(a + b =~= a);
    }
}

/// When every text parses, the `k`-th result is what the `k`-th text gives.
pub proof fn lemma_parse_all_index<P: Parser>(p: P, parts: Seq<Seq<char>>, k: int)
    requires
        parse_all(p, parts) is Some,
        0 <= k < parts.len(),
    ensures
        parse_all(p, parts)->0.len() == parts.len(),
        p.spec_parse(parts[k]) == Some(parse_all(p, parts)->0[k]),
    decreases parts.len(),
{
    if k < parts.len() - 1 {
        lemma_parse_all_index(p, parts.drop_last(), k);
    } else if parts.len() > 1 {
        lemma_parse_all_index(p, parts.drop_last(), 0);
    }
}

/// Parsers whose parse results agree on every text.
pub open spec fn same_parses<P: Parser>(p: P, q: P) -> bool {
    forall|t: Seq<char>| #[trigger] p.spec_parse(t) == q.spec_parse(t)
}

/// Parsing with two parsers that agree on every text gives the same results.
pub proof fn lemma_parse_all_same<P: Parser>(p: P, q: P, parts: Seq<Seq<char>>)
    requires
        same_parses(p, q),
    ensures
        parse_all(p, parts) == parse_all(q, parts),
    decreases parts.len(),
{
    if parts.len() > 0 {
        lemma_parse_all_same(p, q, parts.drop_last());
        assert(p.spec_parse(parts.last()) == q.spec_parse(parts.last()));
    }
}

/// A type that can be read from a (trimmed) text.
pub trait IsInput: Sized + DeepView {
    /// The value that the text `s` denotes, or `None` if it denotes none.
    spec fn spec_from_text(s: Seq<char>) -> Option<<Self as DeepView>::V>;

    /// Reads a value from the text `s`.
    fn from_text(s: &[char]) -> (r: Option<Self>)
        ensures
            agrees(r, Self::spec_from_text(s@)),
    ;
}

/// The leaf parser: trims the text and reads one `T` from it.
pub struct TyParser<T: IsInput> {
    marker: std::marker::PhantomData<T>,
}

impl<T: IsInput> TyParser<T> {
    /// The leaf parser for `T`.
    pub fn new() -> (r: Self) {
        TyParser { marker: std::marker::PhantomData }
    }
}

impl<T: IsInput> Parser for TyParser<T> {
    type Output = T;

    open spec fn spec_parse(&self, s: Seq<char>) -> Option<<T as DeepView>::V> {
        T::spec_from_text(trimmed(s))
    }

    fn parse(&mut self, s: &str) -> (r: Option<T>) {
        let cs = chars_of(s);
        let t = trim(cs.as_slice());
        T::from_text(t.as_slice())
    }
}

impl IsInput for i32 {
    open spec fn spec_from_text(s: Seq<char>) -> Option<i32> {
        match int_in(s, i32::MIN as int, i32::MAX as int) {
            Some(v) => Some(v as i32),
            None => None,
        }
    }

    fn from_text(s: &[char]) -> (r: Option<i32>) {
        match parse_int(s, i32::MIN as i128, i32::MAX as i128) {
            Some(v) => Some(v as i32),
            None => None,
        }
    }
}

impl IsInput for i64 {
    open spec fn spec_from_text(s: Seq<char>) -> Option<i64> {
        match int_in(s, i64::MIN as int, i64::MAX as int) {
            Some(v) => Some(v as i64),
            None => None,
        }
    }

    fn from_text(s: &[char]) -> (r: Option<i64>) {
        match parse_int(s, i64::MIN as i128, i64::MAX as i128) {
            Some(v) => Some(v as i64),
            None => None,
        }
    }
}

impl IsInput for isize {
    open spec fn spec_from_text(s: Seq<char>) -> Option<isize> {
        match int_in(s, isize::MIN as int, isize::MAX as int) {
            Some(v) => Some(v as isize),
            None => None,
        }
    }

    fn from_text(s: &[char]) -> (r: Option<isize>) {
        match parse_int(s, isize::MIN as i128, isize::MAX as i128) {
            Some(v) => Some(v as isize),
            None => None,
        }
    }
}

impl IsInput for u8 {
    open spec fn spec_from_text(s: Seq<char>) -> Option<u8> {
        match int_in(s, 0, u8::MAX as int) {
            Some(v) => Some(v as u8),
            None => None,
        }
    }

    fn from_text(s: &[char]) -> (r: Option<u8>) {
        match parse_int(s, 0, u8::MAX as i128) {
            Some(v) => Some(v as u8),
            None => None,
        }
    }
}

impl IsInput for u32 {
    open spec fn spec_from_text(s: Seq<char>) -> Option<u32> {
        match int_in(s, 0, u32::MAX as int) {
            Some(v) => Some(v as u32),
            None => None,
        }
    }

    fn from_text(s: &[char]) -> (r: Option<u32>) {
        match parse_int(s, 0, u32::MAX as i128) {
            Some(v) => Some(v as u32),
            None => None,
        }
    }
}

impl IsInput for u64 {
    open spec fn spec_from_text(s: Seq<char>) -> Option<u64> {
        match int_in(s, 0, u64::MAX as int) {
            Some(v) => Some(v as u64),
            None => None,
        }
    }

    fn from_text(s: &[char]) -> (r: Option<u64>) {
        match parse_int(s, 0, u64::MAX as i128) {
            Some(v) => Some(v as u64),
            None => None,
        }
    }
}

impl IsInput for usize {
    open spec fn spec_from_text(s: Seq<char>) -> Option<usize> {
        match int_in(s, 0, usize::MAX as int) {
            Some(v) => Some(v as usize),
            None => None,
        }
    }

    fn from_text(s: &[char]) -> (r: Option<usize>) {
        match parse_int(s, 0, usize::MAX as i128) {
            Some(v) => Some(v as usize),
            None => None,
        }
    }
}

impl IsInput for char {
    open spec fn spec_from_text(s: Seq<char>) -> Option<char> {
        if s.len() == 1 {
            Some(s[0])
        } else {
            None
        }
    }

    fn from_text(s: &[char]) -> (r: Option<char>) {
        if s.len() == 1 {
            Some(s[0])
        } else {
            None
        }
    }
}

impl IsInput for String {
    open spec fn spec_from_text(s: Seq<char>) -> Option<Seq<char>> {
        Some(s)
    }

    fn from_text(s: &[char]) -> (r: Option<String>) {
        Some(text_of(s))
    }
}

/// Splits the text on a separator, drops empty pieces and parses each
/// remaining piece with the inner parser.
pub struct Seperated<T: Parser> {
    pub seperator: Separator,
    pub inner: T,
}

impl<T: Parser> Seperated<T> {
    /// Splits on the string `seperator`; the empty string splits between
    /// every two characters, as `str::split` does.
    pub fn new(seperator: &str, inner: T) -> (r: Self)
        ensures
            r.seperator@ == Delim::Text(seperator@),
            r.inner == inner,
    {
        Seperated { seperator: Separator::Text(chars_of(seperator)), inner }
    }

    /// Splits on `,`.
    pub fn comma(inner: T) -> (r: Self)
        ensures
            r.seperator@ == Delim::Text(seq![',']),
            r.inner == inner,
    {
        let v = vec![','];
        assert(v@ =~= seq![',']);
        Seperated { seperator: Separator::Text(v), inner }
    }

    /// Splits on line feeds.
    pub fn newline(inner: T) -> (r: Self)
        ensures
            r.seperator@ == Delim::Text(seq!['\n']),
            r.inner == inner,
    {
        let v = vec!['\n'];
        assert(v@ =~= seq!['\n']);
        Seperated { seperator: Separator::Text(v), inner }
    }

    /// Splits on every whitespace character.
    pub fn whitespace(inner: T) -> (r: Self)
        ensures
            r.seperator@ == Delim::Whitespace,
            r.inner == inner,
    {
        Seperated { seperator: Separator::Whitespace, inner }
    }
}

impl<T: Parser> Parser for Seperated<T> {
    type Output = Vec<T::Output>;

    open spec fn spec_parse(&self, s: Seq<char>) -> Option<Seq<<T::Output as DeepView>::V>> {
        parse_all(self.inner, fields(s, self.seperator@))
    }

    fn parse(&mut self, s: &str) -> (r: Option<Vec<T::Output>>) {
        let cs = chars_of(s);
        let pieces = split(cs.as_slice(), &self.seperator);
        let ghost pv = views(pieces@);
        let ghost start = *self;
        let ghost nonempty = |f: Seq<char>| f.len() > 0;
        let mut out: Vec<T::Output> = Vec::new();
        let mut i: usize = 0;
        assert(pv.take(0).filter(nonempty) =~= Seq::<Seq<char>>::empty());
        while i < pieces.len()
            invariant
                i <= pieces@.len(),
                pv == views(pieces@),
                nonempty == (|f: Seq<char>| f.len() > 0),
                pv == crate::text::split_on(s@, start.seperator@),
                self.seperator == start.seperator,
                start == *old(self),
                same_parses(self.inner, start.inner),
                parse_all(start.inner, pv.take(i as int).filter(nonempty)) == Some(
                    out.deep_view(),
                ),
            decreases pieces@.len() - i,
        {
            let piece = &pieces[i];
            proof {
                assert(pv[i as int] == piece@);
                assert(pv.take(i + 1) =~= pv.take(i as int).push(piece@));
                pv.take(i as int).lemma_filter_push(piece@, nonempty);
            }
            let ghost f = pv.take(i + 1).filter(nonempty);
            if piece.len() > 0 {
                let text = text_of(piece.as_slice());
                let ghost before = self.inner;
                let r = self.inner.parse(text.as_str());
                match r {
                    Some(v) => {
                        let ghost old_dv = out.deep_view();
                        out.push(v);
                        proof {
                            assert(out.deep_view() =~= old_dv.push(v.deep_view()));
                            assert(nonempty(piece@));
                            assert(f =~= pv.take(i as int).filter(nonempty).push(piece@));
                            assert(f.drop_last() =~= pv.take(i as int).filter(nonempty));
                        }
                    },
                    None => {
                        proof {
                            assert(nonempty(piece@));
                            assert(f =~= pv.take(i as int).filter(nonempty).push(piece@));
                            assert(f.drop_last() =~= pv.take(i as int).filter(nonempty));
                            assert(parse_all(start.inner, f) is None);
                            let g = pv.skip(i + 1).filter(nonempty);
                            lemma_parse_all_fails(start.inner, f, g);
                            Seq::filter_distributes_over_add(pv.take(i + 1), pv.skip(i + 1), nonempty);
                            assert(pv.take(i + 1) + pv.skip(i + 1) =~= pv);
                            assert(f + g == pv.filter(nonempty));
                            assert(parse_all(start.inner, pv.filter(nonempty)) is None);
                            assert forall|t: Seq<char>| #[trigger]
                                self.spec_parse(t) == start.spec_parse(t) by {
                                lemma_parse_all_same(
                                    self.inner,
                                    start.inner,
                                    fields(t, start.seperator@),
                                );
                            }
                        }
                        return None;
                    },
                }
            }
            i = i + 1;
        }
        proof {
            assert(pv.take(i as int) =~= pv);
            assert forall|t: Seq<char>| #[trigger] self.spec_parse(t) == start.spec_parse(t) by {
                lemma_parse_all_same(self.inner, start.inner, fields(t, start.seperator@));
            }
        }
        Some(out)
    }
}

/// `s` cut into consecutive groups of `n` characters; the last group is
/// shorter when the characters run out.
pub open spec fn chunks_of(s: Seq<char>, n: int) -> Seq<Seq<char>>
    recommends
        n > 0,
{
    Seq::new(
        ((s.len() + n - 1) / n) as nat,
        |i: int|
            s.subrange(
                i * n,
                if (i + 1) * n < s.len() {
                    (i + 1) * n
                } else {
                    s.len() as int
                },
            ),
    )
}

/// Relies on `Itertools::chunks` (itertools): it yields consecutive groups of
/// `n` items, the last one shorter when the items run out; it panics when
/// `n` is 0.
#[verifier::external_body]
fn chunk_text(s: &str, n: usize) -> (r: Vec<String>)
    requires
        n > 0,
    ensures
        r@.map_values(|c: String| c@) == chunks_of(s@, n as int),
{
    s.chars().chunks(n).into_iter().map(|c| c.collect::<String>()).collect()
}

/// Cuts the text into groups of `n` characters (the last may be shorter)
/// and parses each group with the inner parser. A size of 0 reads nothing.
pub struct Take<T: Parser> {
    pub n: usize,
    pub inner: T,
}

impl<T: Parser> Take<T> {
    /// Groups of `n` characters.
    pub fn new(n: usize, inner: T) -> (r: Self)
        ensures
            r.n == n,
            r.inner == inner,
    {
        Take { n, inner }
    }

    /// One character at a time.
    pub fn one(inner: T) -> (r: Self)
        ensures
            r.n == 1,
            r.inner == inner,
    {
        Take::new(1, inner)
    }
}

impl<T: Parser> Parser for Take<T> {
    type Output = Vec<T::Output>;

    open spec fn spec_parse(&self, s: Seq<char>) -> Option<Seq<<T::Output as DeepView>::V>> {
        if self.n == 0 {
            None
        } else {
            parse_all(self.inner, chunks_of(s, self.n as int))
        }
    }

    fn parse(&mut self, s: &str) -> (r: Option<Vec<T::Output>>) {
        if self.n == 0 {
            return None;
        }
        let groups = chunk_text(s, self.n);
        let ghost gv = groups@.map_values(|c: String| c@);
        let ghost start = *self;
        let mut out: Vec<T::Output> = Vec::new();
        let mut i: usize = 0;
        assert(gv.take(0) =~= Seq::<Seq<char>>::empty());
        while i < groups.len()
            invariant
                i <= groups@.len(),
                gv == groups@.map_values(|c: String| c@),
                gv == chunks_of(s@, start.n as int),
                start == *old(self),
                start.n > 0,
                self.n == start.n,
                same_parses(self.inner, start.inner),
                parse_all(start.inner, gv.take(i as int)) == Some(out.deep_view()),
            decreases groups@.len() - i,
        {
            let g = &groups[i];
            let r = self.inner.parse(g.as_str());
            proof {
                assert(gv[i as int] == g@);
                assert(gv.take(i + 1).drop_last() =~= gv.take(i as int));
            }
            match r {
                Some(v) => {
                    let ghost old_dv = out.deep_view();
                    out.push(v);
                    assert(out.deep_view() =~= old_dv.push(v.deep_view()));
                },
                None => {
                    proof {
                        lemma_parse_all_fails(start.inner, gv.take(i + 1), gv.skip(i + 1));
                        assert(gv.take(i + 1) + gv.skip(i + 1) =~= gv);
                        assert forall|t: Seq<char>| #[trigger]
                            self.spec_parse(t) == start.spec_parse(t) by {
                            lemma_parse_all_same(self.inner, start.inner, chunks_of(t, start.n as int));
                        }
                    }
                    return None;
                },
            }
            i = i + 1;
        }
        proof {
            assert(gv.take(i as int) =~= gv);
            assert forall|t: Seq<char>| #[trigger] self.spec_parse(t) == start.spec_parse(t) by {
                lemma_parse_all_same(self.inner, start.inner, chunks_of(t, start.n as int));
            }
        }
        Some(out)
    }
}

/// Parses with the inner parser and reverses the resulting sequence.
#[verifier::reject_recursive_types(T)]
pub struct Reverse<P: Parser<Output = Vec<T>>, T: DeepView> {
    pub inner: P,
}

impl<P: Parser<Output = Vec<T>>, T: DeepView> Reverse<P, T> {
    /// Reverses what `inner` gives.
    pub fn new(inner: P) -> (r: Self)
        ensures
            r.inner == inner,
    {
        Reverse { inner }
    }
}

impl<P: Parser<Output = Vec<T>>, T: DeepView> Parser for Reverse<P, T> {
    type Output = Vec<T>;

    open spec fn spec_parse(&self, s: Seq<char>) -> Option<Seq<T::V>> {
        match self.inner.spec_parse(s) {
            Some(v) => Some(v.reverse()),
            None => None,
        }
    }

    fn parse(&mut self, s: &str) -> (r: Option<Vec<T>>) {
        let mut v = match self.inner.parse(s) {
            Some(v) => v,
            None => return None,
        };
        let ghost v0 = v;
        let n = v.len();
        let mut out: Vec<T> = Vec::new();
        while v.len() > 0
            invariant
                v@ == v0@.take(v@.len() as int),
                v@.len() <= n == v0@.len(),
                out@ == v0@.skip(v@.len() as int).reverse(),
            decreases v@.len(),
        {
            let x = v.pop().unwrap();
            proof {
                assert(out@.push(x) =~= v0@.skip(v@.len() as int).reverse());
            }
            out.push(x);
        }
        proof {
            assert(v0@.skip(0) =~= v0@);
            assert(out.deep_view() =~= v0.deep_view().reverse());
        }
        Some(out)
    }
}

impl IsInput for Direction {
    /// `^`, `>`, `v` and `<` are up, right, down and left.
    open spec fn spec_from_text(s: Seq<char>) -> Option<Direction> {
        if s == seq!['^'] {
            Some(Direction::Up)
        } else if s == seq!['>'] {
            Some(Direction::Right)
        } else if s == seq!['v'] {
            Some(Direction::Down)
        } else if s == seq!['<'] {
            Some(Direction::Left)
        } else {
            None
        }
    }

    fn from_text(s: &[char]) -> (r: Option<Direction>) {
        if s.len() != 1 {
            proof {
                assert(s@ != seq!['^'] && s@ != seq!['>'] && s@ != seq!['v'] && s@ != seq!['<']);
            }
            return None;
        }
        let c = s[0];
        proof {
            assert(s@ =~= seq![c]);
        }
        if c == '^' {
            Some(Direction::Up)
        } else if c == '>' {
            Some(Direction::Right)
        } else if c == 'v' {
            Some(Direction::Down)
        } else if c == '<' {
            Some(Direction::Left)
        } else {
            proof {
                assert(seq![c] != seq!['^'] && seq![c] != seq!['>']);
                assert(seq![c][0] == c);
                assert(seq!['^'][0] == '^' && seq!['>'][0] == '>' && seq!['v'][0] == 'v'
                    && seq!['<'][0] == '<');
            }
            None
        }
    }
}

/// Reads a point `(a, b)` from exactly two numbers that the inner parser
/// gives; fails on any other count or on a number above `isize::MAX`.
pub struct PointParser<T: Parser<Output = Vec<usize>>> {
    pub inner: T,
}

impl<T: Parser<Output = Vec<usize>>> PointParser<T> {
    /// Wraps `inner`.
    pub fn new(inner: T) -> (r: Self)
        ensures
            r.inner == inner,
    {
        PointParser { inner }
    }
}

impl<T: Parser<Output = Vec<usize>>> Parser for PointParser<T> {
    type Output = Point;

    open spec fn spec_parse(&self, s: Seq<char>) -> Option<Point> {
        match self.inner.spec_parse(s) {
            Some(v) => if v.len() == 2 && v[0] <= isize::MAX && v[1] <= isize::MAX {
                Some(Point(v[0] as isize, v[1] as isize))
            } else {
                None
            },
            None => None,
        }
    }

    fn parse(&mut self, s: &str) -> (r: Option<Point>) {
        let v = match self.inner.parse(s) {
            Some(v) => v,
            None => return None,
        };
        proof {
            assert(v.deep_view().len() == v@.len());
        }
        if v.len() != 2 {
            return None;
        }
        let a = v[0];
        let b = v[1];
        proof {
            assert(v.deep_view()[0] == a && v.deep_view()[1] == b);
        }
        if a > isize::MAX as usize || b > isize::MAX as usize {
            return None;
        }
        Some(Point::new(a, b))
    }
}

/// Reads `"x<sep>y"` as the point `(y, x)` (see [`Point::parse_xy`]).
pub struct XyParser {
    pub sep: String,
}

impl XyParser {
    /// Splits on `sep`.
    pub fn new(sep: &str) -> (r: XyParser)
        ensures
            r.sep@ == sep@,
    {
        XyParser { sep: sep.to_owned() }
    }
}

impl Parser for XyParser {
    type Output = Point;

    open spec fn spec_parse(&self, s: Seq<char>) -> Option<Point> {
        match pair_of(s, self.sep@) {
            Some((x, y)) => Some(Point(y, x)),
            None => None,
        }
    }

    fn parse(&mut self, s: &str) -> (r: Option<Point>) {
        Point::parse_xy(s, self.sep.as_str())
    }
}

} // verus!
