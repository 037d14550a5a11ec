//! Character sequences: the spec vocabulary shared by the text parsers, and
//! executable helpers that work on index ranges of a `Vec<char>`.
use vstd::prelude::*;

verus! {

broadcast use vstd::string::axiom_spec_iter;

/// Unicode `White_Space`, the set that `char::is_whitespace` and `str::trim` use.
pub open spec fn is_ws(c: char) -> bool {
    ||| c == '\t' || c == '\n' || c == '\u{0B}' || c == '\u{0C}' || c == '\r' || c == ' '
    ||| c == '\u{85}' || c == '\u{A0}' || c == '\u{1680}'
    ||| ('\u{2000}' <= c && c <= '\u{200A}')
    ||| c == '\u{2028}' || c == '\u{2029}' || c == '\u{202F}' || c == '\u{205F}'
    ||| c == '\u{3000}'
}

pub open spec fn trim_start_ws(s: Seq<char>) -> Seq<char>
    decreases s.len(),
{
    if s.len() > 0 && is_ws(s[0]) {
        trim_start_ws(s.drop_first())
    } else {
        s
    }
}

pub open spec fn trim_end_ws(s: Seq<char>) -> Seq<char>
    decreases s.len(),
{
    if s.len() > 0 && is_ws(s.last()) {
        trim_end_ws(s.drop_last())
    } else {
        s
    }
}

/// `str::trim`: whitespace removed from both ends.
pub open spec fn trim_ws(s: Seq<char>) -> Seq<char> {
    trim_end_ws(trim_start_ws(s))
}

pub open spec fn trim_start_char(s: Seq<char>, c: char) -> Seq<char>
    decreases s.len(),
{
    if s.len() > 0 && s[0] == c {
        trim_start_char(s.drop_first(), c)
    } else {
        s
    }
}

pub open spec fn trim_end_char(s: Seq<char>, c: char) -> Seq<char>
    decreases s.len(),
{
    if s.len() > 0 && s.last() == c {
        trim_end_char(s.drop_last(), c)
    } else {
        s
    }
}

/// `str::trim_matches` with one character: every copy of `c` removed from both ends.
pub open spec fn trim_char(s: Seq<char>, c: char) -> Seq<char> {
    trim_end_char(trim_start_char(s, c), c)
}

/// The first position at or after `i` where `pat` occurs in `s`.
pub open spec fn find_from(s: Seq<char>, pat: Seq<char>, i: int) -> Option<int>
    decreases s.len() - i,
{
    if i < 0 || i >= s.len() || i + pat.len() > s.len() {
        None
    } else if s.subrange(i, i + pat.len()) == pat {
        Some(i)
    } else {
        find_from(s, pat, i + 1)
    }
}

/// The first position where `pat` occurs in `s`.
pub open spec fn find(s: Seq<char>, pat: Seq<char>) -> Option<int> {
    find_from(s, pat, 0)
}

/// `str::split` with a nonempty pattern: the pieces between the occurrences of `pat`.
pub open spec fn split_all(s: Seq<char>, pat: Seq<char>) -> Seq<Seq<char>>
    decreases s.len(),
{
    if pat.len() == 0 {
        seq![s]
    } else {
        match find(s, pat) {
            Some(i) => if 0 <= i && i + pat.len() <= s.len() {
                seq![s.take(i)] + split_all(s.skip(i + pat.len()), pat)
            } else {
                seq![s]
            },
            None => seq![s],
        }
    }
}

proof fn lemma_find_from_bounds(s: Seq<char>, pat: Seq<char>, i: int)
    ensures
        find_from(s, pat, i) matches Some(j) ==> i <= j && j + pat.len() <= s.len()
            && s.subrange(j, j + pat.len()) == pat,
    decreases s.len() - i,
{
    if !(i < 0 || i >= s.len() || i + pat.len() > s.len()) && s.subrange(i, i + pat.len()) != pat {
        lemma_find_from_bounds(s, pat, i + 1);
    }
}

pub proof fn lemma_find_bounds(s: Seq<char>, pat: Seq<char>)
    ensures
        find(s, pat) matches Some(j) ==> 0 <= j && j + pat.len() <= s.len() && s.subrange(
            j,
            j + pat.len(),
        ) == pat,
{
    lemma_find_from_bounds(s, pat, 0);
}

proof fn lemma_find_from_char(s: Seq<char>, c: char, i: int, k: int)
    requires
        0 <= i <= k < s.len(),
        s[k] == c,
        forall|j: int| 0 <= j < k ==> s[j] != c,
    ensures
        find_from(s, seq![c], i) == Some(k),
    decreases k - i,
{
    if i < k {
        assert(s.subrange(i, i + 1)[0] == s[i]);
        lemma_find_from_char(s, c, i + 1, k);
    } else {
        assert(s.subrange(i, i + 1) =~= seq![c]);
    }
}

/// The first occurrence of a single character is where `find` stops.
pub proof fn lemma_find_char(s: Seq<char>, c: char, k: int)
    requires
        0 <= k < s.len(),
        s[k] == c,
        forall|j: int| 0 <= j < k ==> s[j] != c,
    ensures
        find(s, seq![c]) == Some(k),
{
    lemma_find_from_char(s, c, 0, k);
}

proof fn lemma_find_from_char_none(s: Seq<char>, c: char, i: int)
    requires
        0 <= i,
        forall|j: int| 0 <= j < s.len() ==> s[j] != c,
    ensures
        find_from(s, seq![c], i) is None,
    decreases s.len() - i,
{
    if i < s.len() {
        assert(s.subrange(i, i + 1)[0] == s[i]);
        lemma_find_from_char_none(s, c, i + 1);
    }
}

/// A character that does not occur is not found.
pub proof fn lemma_find_char_none(s: Seq<char>, c: char)
    requires
        forall|j: int| 0 <= j < s.len() ==> s[j] != c,
    ensures
        find(s, seq![c]) is None,
{
    lemma_find_from_char_none(s, c, 0);
}

/// Whether `pat` occurs in `cs` at position `at`.
pub fn occurs_at(cs: &Vec<char>, at: usize, hi: usize, pat: &Vec<char>) -> (r: bool)
    requires
        at <= hi <= cs@.len(),
    ensures
        r == (at + pat@.len() <= hi && cs@.subrange(at as int, at + pat@.len()) == pat@),
{
    if pat.len() > hi - at {
        return false;
    }
    let mut k: usize = 0;
    while k < pat.len()
        invariant
            at + pat@.len() <= hi <= cs@.len(),
            0 <= k <= pat@.len(),
            cs@.subrange(at as int, at + k) == pat@.take(k as int),
        decreases pat@.len() - k,
    {
        if cs[at + k] != pat[k] {
            assert(cs@.subrange(at as int, at + pat@.len())[k as int] != pat@[k as int]);
            return false;
        }
        assert(cs@.subrange(at as int, at + k + 1) =~= pat@.take(k + 1));
        k = k + 1;
    }
    assert(pat@.take(k as int) =~= pat@);
    true
}

/// The first position in `cs[lo..hi]` where `pat` occurs, as an index of `cs`.
pub fn find_range(cs: &Vec<char>, lo: usize, hi: usize, pat: &Vec<char>) -> (r: Option<usize>)
    requires
        lo <= hi <= cs@.len(),
        pat@.len() > 0,
    ensures
        match find(cs@.subrange(lo as int, hi as int), pat@) {
            Some(j) => r == Some((lo + j) as usize),
            None => r is None,
        },
{
    let ghost s = cs@.subrange(lo as int, hi as int);
    let mut i = lo;
    while i < hi
        invariant
            lo <= i <= hi <= cs@.len(),
            pat@.len() > 0,
            s == cs@.subrange(lo as int, hi as int),
            find(s, pat@) == find_from(s, pat@, i - lo),
        decreases hi - i,
    {
        if occurs_at(cs, i, hi, pat) {
            assert(s.subrange(i - lo, i - lo + pat@.len()) =~= cs@.subrange(
                i as int,
                i + pat@.len(),
            ));
            return Some(i);
        }
        if pat.len() <= hi - i {
            assert(s.subrange(i - lo, i - lo + pat@.len()) =~= cs@.subrange(
                i as int,
                i + pat@.len(),
            ));
        }
        i = i + 1;
    }
    None
}

/// The pieces of `cs[lo..hi]` between the occurrences of `pat`, as index ranges of `cs`.
pub fn split_ranges(cs: &Vec<char>, lo: usize, hi: usize, pat: &Vec<char>) -> (r: Vec<(usize, usize)>)
    requires
        lo <= hi <= cs@.len(),
        pat@.len() > 0,
    ensures
        r@.len() == split_all(cs@.subrange(lo as int, hi as int), pat@).len(),
        forall|k: int|
            0 <= k < r@.len() ==> lo <= (#[trigger] r@[k]).0 <= r@[k].1 <= hi && cs@.subrange(
                r@[k].0 as int,
                r@[k].1 as int,
            ) == split_all(cs@.subrange(lo as int, hi as int), pat@)[k],
{
    let ghost whole = split_all(cs@.subrange(lo as int, hi as int), pat@);
    let ghost mut done: Seq<Seq<char>> = Seq::empty();
    let mut r: Vec<(usize, usize)> = Vec::new();
    let mut pos = lo;
    loop
        invariant
            lo <= pos <= hi <= cs@.len(),
            pat@.len() > 0,
            whole == split_all(cs@.subrange(lo as int, hi as int), pat@),
            done + split_all(cs@.subrange(pos as int, hi as int), pat@) == whole,
            r@.len() == done.len(),
            forall|k: int|
                0 <= k < r@.len() ==> lo <= (#[trigger] r@[k]).0 <= r@[k].1 <= hi
                    && cs@.subrange(r@[k].0 as int, r@[k].1 as int) == done[k],
        decreases hi - pos,
    {
        let ghost t = cs@.subrange(pos as int, hi as int);
        proof {
            lemma_find_bounds(t, pat@);
        }
        match find_range(cs, pos, hi, pat) {
            Some(j) => {
                assert(t.take(j - pos) =~= cs@.subrange(pos as int, j as int));
                assert(t.skip(j - pos + pat@.len()) =~= cs@.subrange(j + pat@.len(), hi as int));
                assert(split_all(t, pat@) == seq![t.take(j - pos)] + split_all(
                    t.skip(j - pos + pat@.len()),
                    pat@,
                ));
                r.push((pos, j));
                proof {
                    let old_done = done;
                    done = done.push(t.take(j - pos));
                    assert(done + split_all(t.skip(j - pos + pat@.len()), pat@) =~= old_done
                        + split_all(t, pat@));
                }
                pos = j + pat.len();
            },
            None => {
                assert(split_all(t, pat@) == seq![t]);
                r.push((pos, hi));
                proof {
                    done = done.push(t);
                    assert(done =~= whole);
                }
                return r;
            },
        }
    }
}

/// Collects the characters of `s`, in order.
pub fn chars_of(s: &str) -> (r: Vec<char>)
    ensures
        r@ == s@,
{
    let mut r: Vec<char> = Vec::new();
    for c in it: s.chars()
        invariant
            it.seq() == s@,
            r@ == s@.take(it.index() as int),
    {
        r.push(c);
        proof {
            assert(r@ =~= s@.take(it.index() as int + 1));
        }
    }
    assert(r@ =~= s@);
    r
}

/// Trims whitespace from both ends of `cs[lo..hi]`, as index bounds.
pub fn trim_ws_range(cs: &Vec<char>, lo: usize, hi: usize) -> (r: (usize, usize))
    requires
        lo <= hi <= cs@.len(),
    ensures
        lo <= r.0 <= r.1 <= hi,
        cs@.subrange(r.0 as int, r.1 as int) == trim_ws(cs@.subrange(lo as int, hi as int)),
{
    let mut a = lo;
    while a < hi && is_ws_exec(cs[a])
        invariant
            lo <= a <= hi <= cs@.len(),
            trim_start_ws(cs@.subrange(lo as int, hi as int)) == trim_start_ws(
                cs@.subrange(a as int, hi as int),
            ),
        decreases hi - a,
    {
        assert(cs@.subrange(a as int, hi as int).drop_first() =~= cs@.subrange(
            a + 1,
            hi as int,
        ));
        a = a + 1;
    }
    let mut b = hi;
    while b > a && is_ws_exec(cs[b - 1])
        invariant
            lo <= a <= b <= hi <= cs@.len(),
            trim_start_ws(cs@.subrange(lo as int, hi as int)) == cs@.subrange(a as int, hi as int),
            trim_ws(cs@.subrange(lo as int, hi as int)) == trim_end_ws(
                cs@.subrange(a as int, b as int),
            ),
        decreases b - a,
    {
        assert(cs@.subrange(a as int, b as int).drop_last() =~= cs@.subrange(
            a as int,
            b - 1,
        ));
        b = b - 1;
    }
    (a, b)
}

/// Trims every copy of `c` from both ends of `cs[lo..hi]`, as index bounds.
pub fn trim_char_range(cs: &Vec<char>, lo: usize, hi: usize, c: char) -> (r: (usize, usize))
    requires
        lo <= hi <= cs@.len(),
    ensures
        lo <= r.0 <= r.1 <= hi,
        cs@.subrange(r.0 as int, r.1 as int) == trim_char(cs@.subrange(lo as int, hi as int), c),
{
    let mut a = lo;
    while a < hi && cs[a] == c
        invariant
            lo <= a <= hi <= cs@.len(),
            trim_start_char(cs@.subrange(lo as int, hi as int), c) == trim_start_char(
                cs@.subrange(a as int, hi as int),
                c,
            ),
        decreases hi - a,
    {
        assert(cs@.subrange(a as int, hi as int).drop_first() =~= cs@.subrange(
            a + 1,
            hi as int,
        ));
        a = a + 1;
    }
    let mut b = hi;
    while b > a && cs[b - 1] == c
        invariant
            lo <= a <= b <= hi <= cs@.len(),
            trim_start_char(cs@.subrange(lo as int, hi as int), c) == cs@.subrange(
                a as int,
                hi as int,
            ),
            trim_char(cs@.subrange(lo as int, hi as int), c) == trim_end_char(
                cs@.subrange(a as int, b as int),
                c,
            ),
        decreases b - a,
    {
        assert(cs@.subrange(a as int, b as int).drop_last() =~= cs@.subrange(
            a as int,
            b - 1,
        ));
        b = b - 1;
    }
    (a, b)
}

pub fn is_ws_exec(c: char) -> (r: bool)
    ensures
        r == is_ws(c),
{
    c == '\t' || c == '\n' || c == '\u{0B}' || c == '\u{0C}' || c == '\r' || c == ' ' || c
        == '\u{85}' || c == '\u{A0}' || c == '\u{1680}' || ('\u{2000}' <= c && c <= '\u{200A}')
        || c == '\u{2028}' || c == '\u{2029}' || c == '\u{202F}' || c == '\u{205F}' || c
        == '\u{3000}'
}

} // verus!
