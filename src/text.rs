//! Character-level helpers shared by the parsers: whitespace, trimming,
//! splitting on a separator, lines and decimal integers.
use vstd::prelude::*;
use vstd::std_specs::iter::IteratorSpec;

verus! {

broadcast use vstd::string::group_string_axioms;

/// The characters with the Unicode `White_Space` property.
pub open spec fn is_white(c: char) -> bool {
    c == '\t' || c == '\n' || c == '\x0B' || c == '\x0C' || c == '\r' || c == ' '
        || c == '\u{85}' || c == '\u{A0}' || c == '\u{1680}' || ('\u{2000}' <= c
        && c <= '\u{200A}') || c == '\u{2028}' || c == '\u{2029}' || c == '\u{202F}'
        || c == '\u{205F}' || c == '\u{3000}'
}

/// Whether `c` is a whitespace character.
pub fn is_whitespace(c: char) -> (r: bool)
    ensures
        r == is_white(c),
{
    c == '\t' || c == '\n' || c == '\x0B' || c == '\x0C' || c == '\r' || c == ' '
        || c == '\u{85}' || c == '\u{A0}' || c == '\u{1680}' || ('\u{2000}' <= c
        && c <= '\u{200A}') || c == '\u{2028}' || c == '\u{2029}' || c == '\u{202F}'
        || c == '\u{205F}' || c == '\u{3000}'
}

/// The characters of `s`, in order.
pub fn chars_of(s: &str) -> (r: Vec<char>)
    ensures
        r@ == s@,
{
    let n = s.unicode_len();
    let mut it = s.chars();
    let mut r: Vec<char> = Vec::new();
    let mut i: usize = 0;
    while i < n
        invariant
            n == s@.len(),
            i <= n,
            r@.len() == i,
            it.obeys_prophetic_iter_laws(),
            r@ + it.remaining() == s@,
        decreases n - i,
    {
        match it.next() {
            Some(c) => {
                proof {
                    assert(r@.push(c) + it.remaining() =~= s@);
                }
                r.push(c);
            },
            None => {
                assert(false);
            },
        }
        i = i + 1;
    }
    assert(r@ =~= s@);
    r
}

/// Relies on `String: FromIterator<char>`: the string holds exactly the
/// given characters, in order.
#[verifier::external_body]
pub(crate) fn text_of(cs: &[char]) -> (r: String)
    ensures
        r@ == cs@,
{
    cs.iter().collect()
}

/// `s` without its leading whitespace.
pub open spec fn trim_start(s: Seq<char>) -> Seq<char>
    decreases s.len(),
{
    if s.len() > 0 && is_white(s[0]) {
        trim_start(s.drop_first())
    } else {
        s
    }
}

/// `s` without its trailing whitespace.
pub open spec fn trim_end(s: Seq<char>) -> Seq<char>
    decreases s.len(),
{
    if s.len() > 0 && is_white(s.last()) {
        trim_end(s.drop_last())
    } else {
        s
    }
}

/// `s` without leading and trailing whitespace.
pub open spec fn trimmed(s: Seq<char>) -> Seq<char> {
    trim_end(trim_start(s))
}

/// The characters of `s` from `from` up to (excluding) `to`.
pub fn slice_chars(s: &[char], from: usize, to: usize) -> (r: Vec<char>)
    requires
        from <= to <= s@.len(),
    ensures
        r@ == s@.subrange(from as int, to as int),
{
    let mut r: Vec<char> = Vec::new();
    let mut i = from;
    while i < to
        invariant
            from <= i <= to <= s@.len(),
            r@ == s@.subrange(from as int, i as int),
        decreases to - i,
    {
        r.push(s[i]);
        proof {
            assert(r@ =~= s@.subrange(from as int, i + 1));
        }
        i = i + 1;
    }
    r
}

/// `s` with leading and trailing whitespace removed.
pub fn trim(s: &[char]) -> (r: Vec<char>)
    ensures
        r@ == trimmed(s@),
{
    let n = s.len();
    let mut i: usize = 0;
    assert(s@.subrange(0, n as int) =~= s@);
    while i < n && is_whitespace(s[i])
        invariant
            i <= n == s@.len(),
            trim_start(s@) == trim_start(s@.subrange(i as int, n as int)),
        decreases n - i,
    {
        assert(s@.subrange(i as int, n as int).drop_first() =~= s@.subrange(i + 1, n as int));
        i = i + 1;
    }
    let mut j: usize = n;
    assert(trim_start(s@.subrange(i as int, n as int)) == s@.subrange(i as int, n as int));
    while j > i && is_whitespace(s[j - 1])
        invariant
            i <= j <= n == s@.len(),
            trim_start(s@) == s@.subrange(i as int, n as int),
            trimmed(s@) == trim_end(s@.subrange(i as int, j as int)),
        decreases j,
    {
        assert(s@.subrange(i as int, j as int).drop_last() =~= s@.subrange(i as int, j - 1));
        j = j - 1;
    }
    slice_chars(s, i, j)
}

/// What separates the fields of a text.
#[derive(Debug)]
pub enum Separator {
    /// A fixed string.
    Text(Vec<char>),
    /// Any single whitespace character.
    Whitespace,
}

/// What a [`Separator`] stands for.
pub enum Delim {
    Text(Seq<char>),
    Whitespace,
}

impl View for Separator {
    type V = Delim;

    open spec fn view(&self) -> Delim {
        match self {
            Separator::Text(t) => Delim::Text(t@),
            Separator::Whitespace => Delim::Whitespace,
        }
    }
}

/// Length of the separator occurrence that starts at index `i` of `s`, or 0
/// when none starts there.
pub open spec fn match_len(s: Seq<char>, i: int, sep: Delim) -> int {
    match sep {
        Delim::Text(t) => if t.len() > 0 && i + t.len() <= s.len() && s.subrange(i, i + t.len())
            == t {
            t.len() as int
        } else {
            0
        },
        Delim::Whitespace => if 0 <= i < s.len() && is_white(s[i]) {
            1
        } else {
            0
        },
    }
}

/// The fields of `s` from index `i` on, scanning left to right, where
/// `cur` holds the characters already read into the current field.
pub open spec fn split_from(s: Seq<char>, sep: Delim, i: int, cur: Seq<char>) -> Seq<
    Seq<char>,
>
    decreases s.len() - i,
{
    if i < 0 || i >= s.len() {
        seq![cur]
    } else if match_len(s, i, sep) > 0 {
        seq![cur] + split_from(s, sep, i + match_len(s, i, sep), Seq::empty())
    } else {
        split_from(s, sep, i + 1, cur.push(s[i]))
    }
}

/// Whether `sep` is the empty string.
pub open spec fn is_empty_text(sep: Delim) -> bool {
    match sep {
        Delim::Text(t) => t.len() == 0,
        Delim::Whitespace => false,
    }
}

/// The pieces of `s` between occurrences of `sep`, empty ones included.
/// The empty string occurs before and after every character, as in
/// `str::split("")`: the pieces are an empty one, each character, and an
/// empty one.
pub open spec fn split_on(s: Seq<char>, sep: Delim) -> Seq<Seq<char>> {
    if is_empty_text(sep) {
        seq![Seq::empty()] + s.map_values(|c: char| seq![c]) + seq![Seq::empty()]
    } else {
        split_from(s, sep, 0, Seq::empty())
    }
}

/// The non-empty pieces of `s` between occurrences of `sep`.
pub open spec fn fields(s: Seq<char>, sep: Delim) -> Seq<Seq<char>> {
    split_on(s, sep).filter(|f: Seq<char>| f.len() > 0)
}

/// The views of a sequence of character vectors.
pub open spec fn views(v: Seq<Vec<char>>) -> Seq<Seq<char>> {
    v.map_values(|x: Vec<char>| x@)
}

/// Length of the occurrence of `sep` at index `i` of `s` (0 if none).
pub fn match_at(s: &[char], i: usize, sep: &Separator) -> (r: usize)
    requires
        i < s@.len(),
    ensures
        r == match_len(s@, i as int, sep@),
{
    match sep {
        Separator::Text(t) => {
            let m = t.len();
            if m == 0 || m > s.len() - i {
                return 0;
            }
            let mut k: usize = 0;
            while k < m
                invariant
                    0 < m == t@.len(),
                    *sep == Separator::Text(*t),
                    i < s.len(),
                    i + m <= s.len(),
                    k <= m,
                    forall|q: int| 0 <= q < k ==> s@[i + q] == t@[q],
                decreases m - k,
            {
                if s[i + k] != t[k] {
                    assert(s@.subrange(i as int, i + m)[k as int] == s@[i + k]);
                    assert(s@.subrange(i as int, i + m) != t@);
                    return 0;
                }
                k = k + 1;
            }
            assert(s@.subrange(i as int, i + m) =~= t@);
            m
        },
        Separator::Whitespace => if is_whitespace(s[i]) {
            1
        } else {
            0
        },
    }
}

/// The pieces of `s` between occurrences of `sep`, in order, empty ones
/// included (like `str::split`).
pub fn split(s: &[char], sep: &Separator) -> (r: Vec<Vec<char>>)
    ensures
        views(r@) == split_on(s@, sep@),
{
    let empty = match sep {
        Separator::Text(t) => t.len() == 0,
        Separator::Whitespace => false,
    };
    if empty {
        split_chars(s)
    } else {
        split_scan(s, sep)
    }
}

/// An empty piece, each character on its own, and an empty piece.
fn split_chars(s: &[char]) -> (r: Vec<Vec<char>>)
    ensures
        views(r@) == seq![Seq::<char>::empty()] + s@.map_values(|c: char| seq![c]) + seq![
            Seq::<char>::empty(),
        ],
{
    let mut out: Vec<Vec<char>> = Vec::new();
    out.push(Vec::new());
    let mut i: usize = 0;
    assert(views(out@) =~= seq![Seq::<char>::empty()] + s@.take(0).map_values(|c: char| seq![c]));
    while i < s.len()
        invariant
            i <= s@.len(),
            views(out@) == seq![Seq::<char>::empty()] + s@.take(i as int).map_values(
                |c: char| seq![c],
            ),
        decreases s@.len() - i,
    {
        let one = vec![s[i]];
        assert(one@ =~= seq![s@[i as int]]);
        let ghost before = views(out@);
        out.push(one);
        assert(views(out@) =~= before.push(one@));
        assert(s@.take(i + 1).map_values(|c: char| seq![c]) =~= s@.take(i as int).map_values(
            |c: char| seq![c],
        ).push(seq![s@[i as int]]));
        i = i + 1;
    }
    assert(s@.take(i as int) =~= s@);
    let ghost before = views(out@);
    out.push(Vec::new());
    assert(views(out@) =~= before + seq![Seq::<char>::empty()]);
    out
}

/// [`split`] for a separator that is not the empty string.
fn split_scan(s: &[char], sep: &Separator) -> (r: Vec<Vec<char>>)
    requires
        !is_empty_text(sep@),
    ensures
        views(r@) == split_on(s@, sep@),
{
    let n = s.len();
    let mut out: Vec<Vec<char>> = Vec::new();
    let mut cur: Vec<char> = Vec::new();
    let mut i: usize = 0;
    while i < n
        invariant
            n == s@.len(),
            i <= n,
            views(out@) + split_from(s@, sep@, i as int, cur@) == split_on(s@, sep@),
        decreases n - i,
    {
        let m = match_at(s, i, sep);
        if m > 0 {
            let piece = cur;
            cur = Vec::new();
            proof {
                assert(views(out@.push(piece)) =~= views(out@).push(piece@));
                assert(views(out@.push(piece)) + split_from(s@, sep@, i + m, cur@) =~= views(out@)
                    + split_from(s@, sep@, i as int, piece@));
            }
            out.push(piece);
            i = i + m;
        } else {
            cur.push(s[i]);
            i = i + 1;
        }
    }
    proof {
        assert(views(out@.push(cur)) =~= views(out@) + split_from(s@, sep@, i as int, cur@));
    }
    out.push(cur);
    out
}

/// Splitting always yields at least one piece.
pub proof fn lemma_split_from_len(s: Seq<char>, sep: Delim, i: int, cur: Seq<char>)
    ensures
        split_from(s, sep, i, cur).len() >= 1,
    decreases s.len() - i,
{
    if i < 0 || i >= s.len() {
    } else if match_len(s, i, sep) > 0 {
        lemma_split_from_len(s, sep, i + match_len(s, i, sep), Seq::empty());
    } else {
        lemma_split_from_len(s, sep, i + 1, cur.push(s[i]));
    }
}

/// `l` without one trailing carriage return.
pub open spec fn strip_cr(l: Seq<char>) -> Seq<char> {
    if l.len() > 0 && l.last() == '\r' {
        l.drop_last()
    } else {
        l
    }
}

/// The lines of `s` as `str::lines` gives them: pieces between line feeds,
/// each line that ended in a line feed loses one trailing carriage return,
/// and an empty final piece (after a final line feed) is no line.
pub open spec fn lines_of(s: Seq<char>) -> Seq<Seq<char>> {
    let pieces = split_on(s, Delim::Text(seq!['\n']));
    let ended = pieces.drop_last().map_values(|l: Seq<char>| strip_cr(l));
    if pieces.last().len() > 0 {
        ended.push(pieces.last())
    } else {
        ended
    }
}

/// The lines of `s` (see [`lines_of`]).
pub fn lines(s: &[char]) -> (r: Vec<Vec<char>>)
    ensures
        views(r@) == lines_of(s@),
{
    let nl = vec!['\n'];
    assert(nl@ =~= seq!['\n']);
    let sep = Separator::Text(nl);
    let pieces = split(s, &sep);
    proof {
        lemma_split_from_len(s@, sep@, 0, Seq::empty());
    }
    let ghost want = lines_of(s@);
    let ghost pv = split_on(s@, sep@);
    let k = pieces.len() - 1;
    let mut out: Vec<Vec<char>> = Vec::new();
    let mut i: usize = 0;
    while i < k
        invariant
            k + 1 == pieces@.len(),
            views(pieces@) == pv,
            pv == split_on(s@, Delim::Text(seq!['\n'])),
            i <= k,
            views(out@) == pv.drop_last().map_values(|l: Seq<char>| strip_cr(l)).take(i as int),
        decreases k - i,
    {
        let p = &pieces[i];
        let n = p.len();
        let line = if n > 0 && p[n - 1] == '\r' {
            slice_chars(p.as_slice(), 0, n - 1)
        } else {
            slice_chars(p.as_slice(), 0, n)
        };
        proof {
            assert(pv[i as int] == p@);
            assert(line@ == strip_cr(p@));
            let ended = pv.drop_last().map_values(|l: Seq<char>| strip_cr(l));
            assert(ended[i as int] == strip_cr(p@));
            assert(ended.take(i + 1) =~= ended.take(i as int).push(strip_cr(p@)));
            assert(views(out@.push(line)) =~= views(out@).push(line@));
        }
        out.push(line);
        i = i + 1;
    }
    let last = &pieces[k];
    proof {
        let ended = pv.drop_last().map_values(|l: Seq<char>| strip_cr(l));
        assert(ended.take(k as int) =~= ended);
        assert(pv.last() == last@);
    }
    if last.len() > 0 {
        let l = slice_chars(last.as_slice(), 0, last.len());
        let ghost before = views(out@);
        out.push(l);
        proof {
            let ended = pv.drop_last().map_values(|q: Seq<char>| strip_cr(q));
            assert(views(out@) =~= before.push(l@));
            assert(l@ =~= pv.last());
            assert(before == ended);
            assert(want == ended.push(pv.last()));
            assert(views(out@) == want);
        }
    } else {
        assert(views(out@) =~= want);
    }
    out
}

/// Whether `c` is an ASCII decimal digit.
pub open spec fn is_digit(c: char) -> bool {
    '0' <= c && c <= '9'
}

/// The value of a digit.
pub open spec fn digit_value(c: char) -> int {
    c as int - '0' as int
}

/// The value of a string of decimal digits (0 for none).
pub open spec fn digits_value(d: Seq<char>) -> int
    decreases d.len(),
{
    if d.len() == 0 {
        0
    } else {
        10 * digits_value(d.drop_last()) + digit_value(d.last())
    }
}

/// Whether `d` is a non-empty string of decimal digits.
pub open spec fn all_digits(d: Seq<char>) -> bool {
    d.len() > 0 && forall|i: int| 0 <= i < d.len() ==> is_digit(#[trigger] d[i])
}

/// The integer written in `s` in the form `str::parse` accepts: an optional
/// `+` (or, when `signed`, `-`) followed by one or more decimal digits.
pub open spec fn int_value(s: Seq<char>, signed: bool) -> Option<int> {
    if s.len() > 0 && (s[0] == '+' || (signed && s[0] == '-')) {
        let d = s.drop_first();
        if all_digits(d) {
            Some(
                if s[0] == '-' {
                    -digits_value(d)
                } else {
                    digits_value(d)
                },
            )
        } else {
            None
        }
    } else if all_digits(s) {
        Some(digits_value(s))
    } else {
        None
    }
}

/// The integer that `s` denotes if it lies in `[lo, hi]`.
pub open spec fn int_in(s: Seq<char>, lo: int, hi: int) -> Option<int> {
    match int_value(s, lo < 0) {
        Some(v) => if lo <= v <= hi {
            Some(v)
        } else {
            None
        },
        None => None,
    }
}

/// A longer string of digits is worth at least as much as its prefix.
pub proof fn lemma_digits_grow(d: Seq<char>, k: int)
    requires
        0 <= k <= d.len(),
        forall|i: int| 0 <= i < d.len() ==> is_digit(#[trigger] d[i]),
    ensures
        digits_value(d.take(k)) <= digits_value(d),
        0 <= digits_value(d),
    decreases d.len(),
{
    if d.len() > 0 {
        lemma_digits_grow(d.drop_last(), if k == d.len() { 0 } else { k });
        if k < d.len() {
            assert(d.drop_last().take(k) =~= d.take(k));
        } else {
            assert(d.take(k) =~= d);
        }
    } else {
        assert(d.take(k) =~= d);
    }
}

/// Parses the decimal integer in `s` and returns it if it lies in
/// `[lo, hi]`.
pub fn parse_int(s: &[char], lo: i128, hi: i128) -> (r: Option<i128>)
    requires
        -0x1_0000_0000_0000_0000 <= lo <= 0 <= hi <= 0x1_0000_0000_0000_0000,
    ensures
        r matches Some(v) ==> int_in(s@, lo as int, hi as int) == Some(v as int),
        r is None ==> int_in(s@, lo as int, hi as int) is None,
{
    let n = s.len();
    let signed = lo < 0;
    let mut start: usize = 0;
    let mut neg = false;
    if n > 0 && (s[0] == '+' || (signed && s[0] == '-')) {
        start = 1;
        neg = s[0] == '-';
    }
    if start >= n {
        return None;
    }
    let ghost d = s@.subrange(start as int, n as int);
    proof {
        if start == 0 {
            assert(d =~= s@);
        } else {
            assert(d =~= s@.drop_first());
        }
    }
    let limit: i128 = if neg { -lo } else { hi };
    let mut acc: i128 = 0;
    let mut i: usize = start;
    while i < n
        invariant
            start <= i <= n == s@.len(),
            0 < n - start,
            signed == (lo < 0),
            start == 0 <==> !(s@.len() > 0 && (s@[0] == '+' || (signed && s@[0] == '-'))),
            start <= 1,
            neg == (start == 1 && s@[0] == '-'),
            start == 1 ==> d == s@.drop_first(),
            start == 0 ==> d == s@,
            limit == if neg { -lo } else { hi as int },
            d == s@.subrange(start as int, n as int),
            0 <= limit <= 0x1_0000_0000_0000_0000,
            0 <= acc <= limit,
            acc == digits_value(d.take(i - start)),
            forall|q: int| 0 <= q < i - start ==> is_digit(#[trigger] d[q]),
        decreases n - i,
    {
        let c = s[i];
        if !('0' <= c && c <= '9') {
            assert(d[i - start] == c);
            assert(!all_digits(d));
            return None;
        }
        let dv = (c as u32 - '0' as u32) as i128;
        assert(d.take(i - start + 1).drop_last() =~= d.take(i - start));
        acc = acc * 10 + dv;
        i = i + 1;
        if acc > limit {
            proof {
                assert(forall|q: int| 0 <= q < i - start ==> is_digit(#[trigger] d[q]));
                if all_digits(d) {
                    lemma_digits_grow(d, i - start);
                    assert(digits_value(d) > limit);
                }
            }
            return None;
        }
    }
    assert(d.take(n - start) =~= d);
    if neg {
        Some(-acc)
    } else {
        Some(acc)
    }
}

} // verus!
