//! Text as sequences of characters: lines, trimming and searching.
//!
//! Every function here works on a character vector `s` and a window
//! `lo..hi` of it, and its contract speaks of `s@.subrange(lo, hi)`.
use vstd::prelude::*;

verus! {

/// The Unicode `White_Space` property, which `char::is_whitespace` tests.
pub open spec fn is_whitespace(c: char) -> bool {
    ||| '\u{9}' <= c && c <= '\u{d}'
    ||| c == ' '
    ||| c == '\u{85}'
    ||| c == '\u{a0}'
    ||| c == '\u{1680}'
    ||| '\u{2000}' <= c && c <= '\u{200a}'
    ||| c == '\u{2028}'
    ||| c == '\u{2029}'
    ||| c == '\u{202f}'
    ||| c == '\u{205f}'
    ||| c == '\u{3000}'
}

/// `s` without its leading whitespace (`str::trim_start`).
pub open spec fn trim_start(s: Seq<char>) -> Seq<char>
    decreases s.len(),
{
    if s.len() > 0 && is_whitespace(s[0]) {
        trim_start(s.drop_first())
    } else {
        s
    }
}

/// `s` without its trailing whitespace (`str::trim_end`).
pub open spec fn trim_end(s: Seq<char>) -> Seq<char>
    decreases s.len(),
{
    if s.len() > 0 && is_whitespace(s.last()) {
        trim_end(s.drop_last())
    } else {
        s
    }
}

/// `s` without leading and trailing whitespace (`str::trim`).
pub open spec fn trim(s: Seq<char>) -> Seq<char> {
    trim_end(trim_start(s))
}

/// `s` without the copies of `c` it starts with (`str::trim_start_matches`).
pub open spec fn trim_start_matches(s: Seq<char>, c: char) -> Seq<char>
    decreases s.len(),
{
    if s.len() > 0 && s[0] == c {
        trim_start_matches(s.drop_first(), c)
    } else {
        s
    }
}

/// `s` without the copies of `c` it ends with (`str::trim_end_matches`).
pub open spec fn trim_end_matches(s: Seq<char>, c: char) -> Seq<char>
    decreases s.len(),
{
    if s.len() > 0 && s.last() == c {
        trim_end_matches(s.drop_last(), c)
    } else {
        s
    }
}

/// `s` without the copies of `c` at either end (`str::trim_matches`).
pub open spec fn trim_matches(s: Seq<char>, c: char) -> Seq<char> {
    trim_end_matches(trim_start_matches(s, c), c)
}

/// The position of the first `c` in `s`, or `s.len()` where there is none.
pub open spec fn index_of(s: Seq<char>, c: char) -> int
    decreases s.len(),
{
    if s.len() == 0 {
        0
    } else if s[0] == c {
        0
    } else {
        1 + index_of(s.drop_first(), c)
    }
}

/// `t` without one carriage return at its end.
pub open spec fn strip_cr(t: Seq<char>) -> Seq<char> {
    if t.len() > 0 && t.last() == '\r' {
        t.drop_last()
    } else {
        t
    }
}

/// The lines of `s`, as `str::lines` yields them: split at each `\n`, a
/// `\r` just before the `\n` dropped, and no empty line after a final `\n`.
pub open spec fn lines(s: Seq<char>) -> Seq<Seq<char>>
    decreases s.len(),
{
    if s.len() == 0 {
        seq![]
    } else {
        let k = index_of(s, '\n');
        if k < s.len() {
            proof {
                lemma_index_of_bounds(s, '\n');
            }
            seq![strip_cr(s.take(k))] + lines(s.skip(k + 1))
        } else {
            seq![s]
        }
    }
}

/// The first `c` in `s` is where `index_of` says.
pub proof fn lemma_index_of_bounds(s: Seq<char>, c: char)
    ensures
        0 <= index_of(s, c) <= s.len(),
        forall|j: int| 0 <= j < index_of(s, c) ==> s[j] != c,
        index_of(s, c) < s.len() ==> s[index_of(s, c)] == c,
    decreases s.len(),
{
    if s.len() > 0 && s[0] != c {
        lemma_index_of_bounds(s.drop_first(), c);
        assert forall|j: int| 0 <= j < index_of(s, c) implies s[j] != c by {
            if j > 0 {
                assert(s[j] == s.drop_first()[j - 1]);
            }
        }
    }
}

/// `index_of` is the one position before which no `c` occurs and at which
/// one does (or the end).
pub proof fn lemma_index_of_at(s: Seq<char>, c: char, k: int)
    requires
        0 <= k <= s.len(),
        forall|j: int| 0 <= j < k ==> s[j] != c,
        k < s.len() ==> s[k] == c,
    ensures
        index_of(s, c) == k,
    decreases s.len(),
{
    if s.len() > 0 && k > 0 {
        assert forall|j: int| 0 <= j < k - 1 implies s.drop_first()[j] != c by {
            assert(s.drop_first()[j] == s[j + 1]);
        }
        lemma_index_of_at(s.drop_first(), c, k - 1);
    }
}

proof fn lemma_trim_start_at(s: Seq<char>, k: int)
    requires
        0 <= k <= s.len(),
        forall|j: int| 0 <= j < k ==> is_whitespace(s[j]),
        k < s.len() ==> !is_whitespace(s[k]),
    ensures
        trim_start(s) == s.skip(k),
    decreases s.len(),
{
    if k == 0 {
        assert(s.skip(0) =~= s);
    } else {
        assert forall|j: int| 0 <= j < k - 1 implies is_whitespace(s.drop_first()[j]) by {
            assert(s.drop_first()[j] == s[j + 1]);
        }
        lemma_trim_start_at(s.drop_first(), k - 1);
        assert(s.drop_first().skip(k - 1) =~= s.skip(k));
    }
}

proof fn lemma_trim_end_at(s: Seq<char>, k: int)
    requires
        0 <= k <= s.len(),
        forall|j: int| k <= j < s.len() ==> is_whitespace(s[j]),
        k > 0 ==> !is_whitespace(s[k - 1]),
    ensures
        trim_end(s) == s.take(k),
    decreases s.len(),
{
    if k == s.len() {
        assert(s.take(k) =~= s);
    } else {
        assert forall|j: int| k <= j < s.drop_last().len() implies is_whitespace(
            s.drop_last()[j],
        ) by {
            assert(s.drop_last()[j] == s[j]);
        }
        lemma_trim_end_at(s.drop_last(), k);
        assert(s.drop_last().take(k) =~= s.take(k));
    }
}

proof fn lemma_trim_start_matches_at(s: Seq<char>, c: char, k: int)
    requires
        0 <= k <= s.len(),
        forall|j: int| 0 <= j < k ==> s[j] == c,
        k < s.len() ==> s[k] != c,
    ensures
        trim_start_matches(s, c) == s.skip(k),
    decreases s.len(),
{
    if k == 0 {
        assert(s.skip(0) =~= s);
    } else {
        assert forall|j: int| 0 <= j < k - 1 implies s.drop_first()[j] == c by {
            assert(s.drop_first()[j] == s[j + 1]);
        }
        lemma_trim_start_matches_at(s.drop_first(), c, k - 1);
        assert(s.drop_first().skip(k - 1) =~= s.skip(k));
    }
}

proof fn lemma_trim_end_matches_at(s: Seq<char>, c: char, k: int)
    requires
        0 <= k <= s.len(),
        forall|j: int| k <= j < s.len() ==> s[j] == c,
        k > 0 ==> s[k - 1] != c,
    ensures
        trim_end_matches(s, c) == s.take(k),
    decreases s.len(),
{
    if k == s.len() {
        assert(s.take(k) =~= s);
    } else {
        assert forall|j: int| k <= j < s.drop_last().len() implies s.drop_last()[j] == c by {
            assert(s.drop_last()[j] == s[j]);
        }
        lemma_trim_end_matches_at(s.drop_last(), c, k);
        assert(s.drop_last().take(k) =~= s.take(k));
    }
}

/// The characters of `s`, in order.
pub fn chars_of(s: &str) -> (v: Vec<char>)
    ensures
        v@ == s@,
{
    let mut v: Vec<char> = Vec::new();
    for c in it: s.chars()
        invariant
            v@ == it.seq().take(it.index() as int),
    {
        v.push(c);
    }
    v
}

/// Whether `c` is whitespace (`char::is_whitespace`).
pub fn is_whitespace_char(c: char) -> (b: bool)
    ensures
        b == is_whitespace(c),
{
    ('\u{9}' <= c && c <= '\u{d}') || c == ' ' || c == '\u{85}' || c == '\u{a0}' || c
        == '\u{1680}' || ('\u{2000}' <= c && c <= '\u{200a}') || c == '\u{2028}' || c
        == '\u{2029}' || c == '\u{202f}' || c == '\u{205f}' || c == '\u{3000}'
}

/// The position of the first `c` in the window `lo..hi` of `s`, or `hi`.
pub fn find_char(s: &Vec<char>, lo: usize, hi: usize, c: char) -> (k: usize)
    requires
        lo <= hi <= s.len(),
    ensures
        lo <= k <= hi,
        k - lo == index_of(s@.subrange(lo as int, hi as int), c),
{
    let mut i = lo;
    while i < hi && s[i] != c
        invariant
            lo <= i <= hi <= s.len(),
            forall|j: int| lo <= j < i ==> s@[j] != c,
        decreases hi - i,
    {
        i = i + 1;
    }
    proof {
        let w = s@.subrange(lo as int, hi as int);
        if i < hi {
            assert(w[i - lo] == s@[i as int]);
        }
        assert forall|j: int| 0 <= j < i - lo implies w[j] != c by {
            assert(w[j] == s@[lo + j]);
        }
        lemma_index_of_at(w, c, i - lo);
    }
    i
}

/// The window of `s` that `trim` leaves of the window `lo..hi`.
pub fn trim_window(s: &Vec<char>, lo: usize, hi: usize) -> (r: (usize, usize))
    requires
        lo <= hi <= s.len(),
    ensures
        lo <= r.0 <= r.1 <= hi,
        s@.subrange(r.0 as int, r.1 as int) == trim(s@.subrange(lo as int, hi as int)),
{
    let mut a = lo;
    while a < hi && is_whitespace_char(s[a])
        invariant
            lo <= a <= hi <= s.len(),
            forall|j: int| lo <= j < a ==> is_whitespace(s@[j]),
        decreases hi - a,
    {
        a = a + 1;
    }
    let mut b = hi;
    while b > a && is_whitespace_char(s[b - 1])
        invariant
            lo <= a <= b <= hi <= s.len(),
            forall|j: int| b <= j < hi ==> is_whitespace(s@[j]),
        decreases b - a,
    {
        b = b - 1;
    }
    proof {
        let w = s@.subrange(lo as int, hi as int);
        assert forall|j: int| 0 <= j < a - lo implies is_whitespace(w[j]) by {
            assert(w[j] == s@[lo + j]);
        }
        if a < hi {
            assert(w[a - lo] == s@[a as int]);
        }
        lemma_trim_start_at(w, a - lo);
        let u = s@.subrange(a as int, hi as int);
        assert(w.skip(a - lo) =~= u);
        assert forall|j: int| b - a <= j < u.len() implies is_whitespace(u[j]) by {
            assert(u[j] == s@[a + j]);
        }
        if b > a {
            assert(u[b - a - 1] == s@[b - 1]);
        }
        lemma_trim_end_at(u, b - a);
        assert(u.take(b - a) =~= s@.subrange(a as int, b as int));
    }
    (a, b)
}

/// The start of what `trim_start_matches(_, c)` leaves of the window `lo..hi` of `s`.
pub fn skip_leading(s: &Vec<char>, lo: usize, hi: usize, c: char) -> (a: usize)
    requires
        lo <= hi <= s.len(),
    ensures
        lo <= a <= hi,
        s@.subrange(a as int, hi as int) == trim_start_matches(
            s@.subrange(lo as int, hi as int),
            c,
        ),
{
    let mut a = lo;
    while a < hi && s[a] == c
        invariant
            lo <= a <= hi <= s.len(),
            forall|j: int| lo <= j < a ==> s@[j] == c,
        decreases hi - a,
    {
        a = a + 1;
    }
    proof {
        let w = s@.subrange(lo as int, hi as int);
        assert forall|j: int| 0 <= j < a - lo implies w[j] == c by {
            assert(w[j] == s@[lo + j]);
        }
        if a < hi {
            assert(w[a - lo] == s@[a as int]);
        }
        lemma_trim_start_matches_at(w, c, a - lo);
        assert(w.skip(a - lo) =~= s@.subrange(a as int, hi as int));
    }
    a
}

/// The end of what `trim_end_matches(_, c)` leaves of the window `lo..hi` of `s`.
pub fn skip_trailing(s: &Vec<char>, lo: usize, hi: usize, c: char) -> (b: usize)
    requires
        lo <= hi <= s.len(),
    ensures
        lo <= b <= hi,
        s@.subrange(lo as int, b as int) == trim_end_matches(
            s@.subrange(lo as int, hi as int),
            c,
        ),
{
    let mut b = hi;
    while b > lo && s[b - 1] == c
        invariant
            lo <= b <= hi <= s.len(),
            forall|j: int| b <= j < hi ==> s@[j] == c,
        decreases b - lo,
    {
        b = b - 1;
    }
    proof {
        let u = s@.subrange(lo as int, hi as int);
        assert forall|j: int| b - lo <= j < u.len() implies u[j] == c by {
            assert(u[j] == s@[lo + j]);
        }
        if b > lo {
            assert(u[b - lo - 1] == s@[b - 1]);
        }
        lemma_trim_end_matches_at(u, c, b - lo);
        assert(u.take(b - lo) =~= s@.subrange(lo as int, b as int));
    }
    b
}

/// The window of `s` that `trim_matches(_, c)` leaves of the window `lo..hi`.
pub fn trim_matches_window(s: &Vec<char>, lo: usize, hi: usize, c: char) -> (r: (usize, usize))
    requires
        lo <= hi <= s.len(),
    ensures
        lo <= r.0 <= r.1 <= hi,
        s@.subrange(r.0 as int, r.1 as int) == trim_matches(
            s@.subrange(lo as int, hi as int),
            c,
        ),
{
    let a = skip_leading(s, lo, hi, c);
    let b = skip_trailing(s, a, hi, c);
    (a, b)
}

/// The text of the window `lo..hi` of `text`, as a new string.
pub fn window_string(text: &str, lo: usize, hi: usize) -> (r: String)
    requires
        lo <= hi <= text@.len(),
    ensures
        r@ == text@.subrange(lo as int, hi as int),
{
    text.substring_char(lo, hi).to_owned()
}

/// Whether the window `lo..hi` of `s` is exactly `p`.
pub fn window_equals(s: &Vec<char>, lo: usize, hi: usize, p: &Vec<char>) -> (b: bool)
    requires
        lo <= hi <= s.len(),
    ensures
        b == (s@.subrange(lo as int, hi as int) == p@),
{
    if hi - lo != p.len() {
        return false;
    }
    window_equals_at(s, lo, p)
}

/// The pieces of `s` between the copies of `c` (`str::split`): one more
/// piece than there are copies of `c`.
pub open spec fn split(s: Seq<char>, c: char) -> Seq<Seq<char>>
    decreases s.len(),
{
    let k = index_of(s, c);
    if k < s.len() {
        proof {
            lemma_index_of_bounds(s, c);
        }
        seq![s.take(k)] + split(s.skip(k + 1), c)
    } else {
        seq![s]
    }
}

/// The second piece of `s` split at `c` (`s.split(c).nth(1)`): the text
/// between the first and the second `c`, or after the first `c` where it is
/// the only one; `None` where `s` holds no `c`.
pub open spec fn second_piece(s: Seq<char>, c: char) -> Option<Seq<char>> {
    let k = index_of(s, c);
    if k < s.len() {
        let rest = s.skip(k + 1);
        Some(rest.take(index_of(rest, c)))
    } else {
        None
    }
}

/// The window of `second_piece` in the window `lo..hi` of `s`.
pub fn second_piece_window(s: &Vec<char>, lo: usize, hi: usize, c: char) -> (r: Option<
    (usize, usize),
>)
    requires
        lo <= hi <= s.len(),
    ensures
        match r {
            None => second_piece(s@.subrange(lo as int, hi as int), c) is None,
            Some((a, b)) => lo <= a <= b <= hi && second_piece(
                s@.subrange(lo as int, hi as int),
                c,
            ) == Some(s@.subrange(a as int, b as int)),
        },
{
    let k1 = find_char(s, lo, hi, c);
    if k1 == hi {
        return None;
    }
    let k2 = find_char(s, k1 + 1, hi, c);
    proof {
        let w = s@.subrange(lo as int, hi as int);
        let rest = w.skip(k1 - lo + 1);
        assert(rest =~= s@.subrange(k1 + 1, hi as int));
        assert(rest.take(k2 - (k1 + 1)) =~= s@.subrange(k1 + 1, k2 as int));
    }
    Some((k1 + 1, k2))
}

/// The texts of the windows `r` of `s`.
pub open spec fn windows(s: Seq<char>, r: Seq<(usize, usize)>) -> Seq<Seq<char>> {
    Seq::new(r.len(), |i: int| s.subrange(r[i].0 as int, r[i].1 as int))
}

/// Whether every window of `r` lies inside `s`.
pub open spec fn windows_inside(s: Seq<char>, r: Seq<(usize, usize)>) -> bool {
    forall|i: int| 0 <= i < r.len() ==> (#[trigger] r[i]).0 <= r[i].1 <= s.len()
}

/// The windows of `s` that hold its lines.
pub fn line_windows(s: &Vec<char>) -> (r: Vec<(usize, usize)>)
    ensures
        windows_inside(s@, r@),
        windows(s@, r@) == lines(s@),
{
    let n = s.len();
    let mut pos: usize = 0;
    let mut r: Vec<(usize, usize)> = Vec::new();
    proof {
        assert(windows(s@, r@) =~= Seq::<Seq<char>>::empty());
        assert(s@.skip(0) =~= s@);
        assert(windows(s@, r@) + lines(s@.skip(0)) =~= lines(s@));
    }
    while pos < n
        invariant
            pos <= n == s.len(),
            windows_inside(s@, r@),
            windows(s@, r@) + lines(s@.skip(pos as int)) == lines(s@),
        decreases n - pos,
    {
        let ghost before = windows(s@, r@);
        let ghost t = s@.skip(pos as int);
        let k = find_char(s, pos, n, '\n');
        proof {
            assert(s@.subrange(pos as int, n as int) =~= t);
            lemma_index_of_bounds(t, '\n');
        }
        if k < n {
            let end = if k > pos && s[k - 1] == '\r' {
                k - 1
            } else {
                k
            };
            r.push((pos, end));
            proof {
                let kk = k - pos;
                assert(t.skip(kk + 1) =~= s@.skip(k + 1));
                assert(strip_cr(t.take(kk)) =~= s@.subrange(pos as int, end as int));
                assert(lines(t) == seq![strip_cr(t.take(kk))] + lines(t.skip(kk + 1)));
                assert(windows(s@, r@) =~= before.push(s@.subrange(pos as int, end as int)));
                assert(windows(s@, r@) + lines(s@.skip(k + 1)) =~= before + lines(t));
            }
            pos = k + 1;
        } else {
            r.push((pos, n));
            proof {
                assert(t.len() > 0);
                assert(lines(t) == seq![t]);
                assert(windows(s@, r@) =~= before.push(t));
                assert(s@.skip(n as int) =~= Seq::<char>::empty());
                assert(lines(s@.skip(n as int)) =~= Seq::<Seq<char>>::empty());
                assert(windows(s@, r@) + lines(s@.skip(n as int)) =~= before + lines(t));
            }
            pos = n;
        }
    }
    proof {
        assert(s@.skip(n as int) =~= Seq::<char>::empty());
        assert(windows(s@, r@) + lines(s@.skip(n as int)) =~= windows(s@, r@));
    }
    r
}

/// Whether the window `lo..hi` of `s` begins with `p`.
pub fn window_starts_with(s: &Vec<char>, lo: usize, hi: usize, p: &Vec<char>) -> (b: bool)
    requires
        lo <= hi <= s.len(),
    ensures
        b == p@.is_prefix_of(s@.subrange(lo as int, hi as int)),
{
    if p.len() > hi - lo {
        return false;
    }
    let b = window_equals_at(s, lo, p);
    proof {
        assert(s@.subrange(lo as int, hi as int).subrange(0, p@.len() as int) =~= s@.subrange(
            lo as int,
            lo + p@.len(),
        ));
    }
    b
}

/// Whether the window `lo..hi` of `s` ends with `p`.
pub fn window_ends_with(s: &Vec<char>, lo: usize, hi: usize, p: &Vec<char>) -> (b: bool)
    requires
        lo <= hi <= s.len(),
    ensures
        b == p@.is_suffix_of(s@.subrange(lo as int, hi as int)),
{
    if p.len() > hi - lo {
        return false;
    }
    let b = window_equals_at(s, hi - p.len(), p);
    proof {
        let w = s@.subrange(lo as int, hi as int);
        assert(w.subrange(w.len() - p@.len(), w.len() as int) =~= s@.subrange(
            hi - p@.len(),
            hi as int,
        ));
    }
    b
}

/// Whether `p` occurs in `s` at position `i`.
pub fn window_equals_at(s: &Vec<char>, i: usize, p: &Vec<char>) -> (b: bool)
    requires
        i + p.len() <= s.len(),
    ensures
        b == (s@.subrange(i as int, i + p@.len()) == p@),
{
    let mut j: usize = 0;
    while j < p.len()
        invariant
            j <= p.len(),
            i + p.len() <= s.len(),
            forall|m: int| 0 <= m < j ==> s@[i + m] == p@[m],
        decreases p.len() - j,
    {
        if s[i + j] != p[j] {
            proof {
                assert(s@.subrange(i as int, i + p@.len())[j as int] == s@[i + j]);
            }
            return false;
        }
        j = j + 1;
    }
    proof {
        assert(s@.subrange(i as int, i + p@.len()) =~= p@);
    }
    true
}

/// The position of the first occurrence of `p` in `s` (`str::find`).
pub open spec fn find_pattern(s: Seq<char>, p: Seq<char>) -> Option<int>
    decreases s.len(),
{
    if s.len() < p.len() {
        None
    } else if s.take(p.len() as int) == p {
        Some(0)
    } else if s.len() == 0 {
        None
    } else {
        match find_pattern(s.drop_first(), p) {
            Some(k) => Some(k + 1),
            None => None,
        }
    }
}

/// `find_pattern` gives the first position at which `p` occurs.
pub proof fn lemma_find_pattern_at(s: Seq<char>, p: Seq<char>, k: int)
    requires
        0 <= k,
        k + p.len() <= s.len(),
        s.subrange(k, k + p.len()) == p,
        forall|j: int| 0 <= j < k ==> #[trigger] s.subrange(j, j + p.len()) != p,
    ensures
        find_pattern(s, p) == Some(k),
    decreases s.len(),
{
    if k > 0 {
        assert(s.subrange(0int, 0int + p.len()) != p);
        assert(s.take(p.len() as int) =~= s.subrange(0int, 0int + p.len()));
        let t = s.drop_first();
        assert forall|j: int| 0 <= j < k - 1 implies #[trigger] t.subrange(j, j + p.len()) != p by {
            assert(t.subrange(j, j + p.len()) =~= s.subrange(j + 1, j + 1 + p.len()));
        }
        assert(t.subrange(k - 1, k - 1 + p.len()) =~= s.subrange(k, k + p.len()));
        lemma_find_pattern_at(t, p, k - 1);
    } else {
        assert(s.take(p.len() as int) =~= s.subrange(0int, 0int + p.len()));
    }
}

/// `find_pattern` finds nothing where `p` occurs nowhere.
pub proof fn lemma_find_pattern_none(s: Seq<char>, p: Seq<char>)
    requires
        forall|j: int| 0 <= j && j + p.len() <= s.len() ==> #[trigger] s.subrange(j, j + p.len()) != p,
    ensures
        find_pattern(s, p) is None,
    decreases s.len(),
{
    if s.len() >= p.len() {
        assert(s.subrange(0int, 0int + p.len()) != p);
        assert(s.take(p.len() as int) =~= s.subrange(0int, 0int + p.len()));
        if s.len() > 0 {
            let t = s.drop_first();
            assert forall|j: int| 0 <= j && j + p.len() <= t.len() implies #[trigger] t.subrange(j, j + p.len()) != p by {
                assert(t.subrange(j, j + p.len()) =~= s.subrange(j + 1, j + 1 + p.len()));
            }
            lemma_find_pattern_none(t, p);
        }
    }
}

/// Where `find_pattern` finds `p`, it occurs there.
pub proof fn lemma_find_pattern_bounds(s: Seq<char>, p: Seq<char>)
    ensures
        find_pattern(s, p) matches Some(k) ==> 0 <= k && k + p.len() <= s.len(),
    decreases s.len(),
{
    if s.len() >= p.len() && s.take(p.len() as int) != p && s.len() > 0 {
        lemma_find_pattern_bounds(s.drop_first(), p);
    }
}

/// The first occurrence of `p` in the window `lo..hi` of `s`.
pub fn find_in_window(s: &Vec<char>, lo: usize, hi: usize, p: &Vec<char>) -> (r: Option<usize>)
    requires
        lo <= hi <= s.len(),
    ensures
        match r {
            Some(k) => lo <= k && k + p.len() <= hi && find_pattern(
                s@.subrange(lo as int, hi as int),
                p@,
            ) == Some(k - lo),
            None => find_pattern(s@.subrange(lo as int, hi as int), p@) is None,
        },
{
    let ghost w = s@.subrange(lo as int, hi as int);
    if p.len() == 0 {
        proof {
            assert(w.take(0) =~= p@);
        }
        return Some(lo);
    }
    let mut i = lo;
    while p.len() <= hi - i
        invariant
            p.len() > 0,
            lo <= i <= hi <= s.len(),
            w == s@.subrange(lo as int, hi as int),
            forall|j: int| 0 <= j < i - lo ==> #[trigger] w.subrange(j, j + p@.len()) != p@,
        decreases hi - i,
    {
        if window_equals_at(s, i, p) {
            proof {
                assert(w.subrange(i - lo, i - lo + p@.len()) =~= s@.subrange(i as int, i + p@.len()));
                lemma_find_pattern_at(w, p@, i - lo);
            }
            return Some(i);
        }
        proof {
            assert(w.subrange(i - lo, i - lo + p@.len()) =~= s@.subrange(i as int, i + p@.len()));
        }
        i = i + 1;
    }
    proof {
        lemma_find_pattern_none(w, p@);
    }
    None
}

/// Trimming keeps no character that was not there.
pub proof fn lemma_trim_adds_nothing(s: Seq<char>, c: char)
    requires
        !s.contains(c),
    ensures
        !trim_start(s).contains(c),
        !trim_end(s).contains(c),
        !trim(s).contains(c),
    decreases s.len(),
{
    if s.len() > 0 {
        assert(!s.drop_first().contains(c)) by {
            if s.drop_first().contains(c) {
                let j = choose|j: int| 0 <= j < s.drop_first().len() && s.drop_first()[j] == c;
                assert(s[j + 1] == c);
            }
        }
        assert(!s.drop_last().contains(c)) by {
            if s.drop_last().contains(c) {
                let j = choose|j: int| 0 <= j < s.drop_last().len() && s.drop_last()[j] == c;
                assert(s[j] == c);
            }
        }
        lemma_trim_adds_nothing(s.drop_first(), c);
        lemma_trim_adds_nothing(s.drop_last(), c);
    }
    lemma_trim_end_adds_nothing(trim_start(s), c);
}

proof fn lemma_trim_end_adds_nothing(s: Seq<char>, c: char)
    requires
        !s.contains(c),
    ensures
        !trim_end(s).contains(c),
    decreases s.len(),
{
    if s.len() > 0 {
        assert(!s.drop_last().contains(c)) by {
            if s.drop_last().contains(c) {
                let j = choose|j: int| 0 <= j < s.drop_last().len() && s.drop_last()[j] == c;
                assert(s[j] == c);
            }
        }
        lemma_trim_end_adds_nothing(s.drop_last(), c);
    }
}

/// The line window at `i`, and the lines from `i` on.
pub proof fn lemma_line_window(s: Seq<char>, wins: Seq<(usize, usize)>, i: int)
    requires
        windows_inside(s, wins),
        0 <= i < wins.len(),
    ensures
        wins[i].0 <= wins[i].1 <= s.len(),
        windows(s, wins)[i] == s.subrange(wins[i].0 as int, wins[i].1 as int),
        windows(s, wins).skip(i)[0] == windows(s, wins)[i],
        windows(s, wins).skip(i).drop_first() == windows(s, wins).skip(i + 1),
{
    assert(wins[i].0 <= wins[i].1 <= s.len());
    assert(windows(s, wins).skip(i).drop_first() =~= windows(s, wins).skip(i + 1));
}

/// The position of the last `c` in `s` (`str::rfind`), where there is one.
pub open spec fn last_index_of(s: Seq<char>, c: char) -> Option<int>
    decreases s.len(),
{
    if s.len() == 0 {
        None
    } else if s.last() == c {
        Some(s.len() - 1)
    } else {
        last_index_of(s.drop_last(), c)
    }
}

/// `last_index_of` is the one position after which no `c` occurs and at
/// which one does.
pub proof fn lemma_last_index_of_at(s: Seq<char>, c: char, k: int)
    requires
        0 <= k < s.len(),
        s[k] == c,
        forall|j: int| k < j < s.len() ==> s[j] != c,
    ensures
        last_index_of(s, c) == Some(k),
    decreases s.len(),
{
    if k < s.len() - 1 {
        assert(s.drop_last()[k] == s[k]);
        assert forall|j: int| k < j < s.drop_last().len() implies s.drop_last()[j] != c by {
            assert(s.drop_last()[j] == s[j]);
        }
        lemma_last_index_of_at(s.drop_last(), c, k);
    }
}

/// `last_index_of` finds nothing where `c` does not occur.
pub proof fn lemma_last_index_of_none(s: Seq<char>, c: char)
    requires
        forall|j: int| 0 <= j < s.len() ==> s[j] != c,
    ensures
        last_index_of(s, c) is None,
    decreases s.len(),
{
    if s.len() > 0 {
        assert forall|j: int| 0 <= j < s.drop_last().len() implies s.drop_last()[j] != c by {
            assert(s.drop_last()[j] == s[j]);
        }
        lemma_last_index_of_none(s.drop_last(), c);
    }
}

/// Where `last_index_of` finds `c`, it lies in `s`.
pub proof fn lemma_last_index_of_bounds(s: Seq<char>, c: char)
    ensures
        last_index_of(s, c) matches Some(k) ==> 0 <= k < s.len(),
    decreases s.len(),
{
    if s.len() > 0 && s.last() != c {
        lemma_last_index_of_bounds(s.drop_last(), c);
    }
}

/// The position of the last `c` in the window `lo..hi` of `s`.
pub fn find_last_char(s: &Vec<char>, lo: usize, hi: usize, c: char) -> (r: Option<usize>)
    requires
        lo <= hi <= s.len(),
    ensures
        match r {
            Some(k) => lo <= k < hi && last_index_of(s@.subrange(lo as int, hi as int), c) == Some(
                k - lo,
            ),
            None => last_index_of(s@.subrange(lo as int, hi as int), c) is None,
        },
{
    let ghost w = s@.subrange(lo as int, hi as int);
    let mut i = hi;
    while i > lo && s[i - 1] != c
        invariant
            lo <= i <= hi <= s.len(),
            forall|j: int| i <= j < hi ==> s@[j] != c,
        decreases i - lo,
    {
        i = i - 1;
    }
    if i == lo {
        proof {
            assert forall|j: int| 0 <= j < w.len() implies w[j] != c by {
                assert(w[j] == s@[lo + j]);
            }
            lemma_last_index_of_none(w, c);
        }
        None
    } else {
        proof {
            assert(w[i - 1 - lo] == s@[i - 1]);
            assert forall|j: int| i - 1 - lo < j < w.len() implies w[j] != c by {
                assert(w[j] == s@[lo + j]);
            }
            lemma_last_index_of_at(w, c, i - 1 - lo);
        }
        Some(i - 1)
    }
}

/// The lines of a text joined after a complete line are the lines of the
/// first part, then those of the second.
pub proof fn lemma_lines_concat(a: Seq<char>, b: Seq<char>)
    requires
        a.len() == 0 || a.last() == '\n',
    ensures
        lines(a + b) == lines(a) + lines(b),
    decreases a.len(),
{
    if a.len() == 0 {
        assert(a + b =~= b);
        assert(lines(a) + lines(b) =~= lines(b));
    } else {
        let k = index_of(a, '\n');
        lemma_index_of_bounds(a, '\n');
        if k == a.len() {
            assert(a[a.len() - 1] != '\n');
        }
        assert forall|j: int| 0 <= j < k implies (a + b)[j] != '\n' by {
            assert((a + b)[j] == a[j]);
        }
        assert((a + b)[k] == a[k]);
        lemma_index_of_at(a + b, '\n', k);
        let a2 = a.skip(k + 1);
        assert((a + b).take(k) =~= a.take(k));
        assert((a + b).skip(k + 1) =~= a2 + b);
        if a2.len() > 0 {
            assert(a2.last() == a.last());
        }
        lemma_lines_concat(a2, b);
        assert(lines(a + b) == seq![strip_cr(a.take(k))] + lines(a2 + b));
        assert(lines(a) == seq![strip_cr(a.take(k))] + lines(a2));
        assert(lines(a + b) =~= lines(a) + lines(b));
    }
}

/// What `last_index_of` finds is a `c` with none after it; where it finds
/// nothing, there is no `c`.
pub proof fn lemma_last_index_of_found(s: Seq<char>, c: char)
    ensures
        match last_index_of(s, c) {
            Some(k) => 0 <= k < s.len() && s[k] == c && forall|j: int| k < j < s.len() ==> s[j] != c,
            None => forall|j: int| 0 <= j < s.len() ==> s[j] != c,
        },
    decreases s.len(),
{
    if s.len() > 0 && s.last() != c {
        lemma_last_index_of_found(s.drop_last(), c);
        assert forall|j: int| 0 <= j < s.len() - 1 implies s.drop_last()[j] == s[j] by {}
    }
}

} // verus!
