//! Character-level helpers: the library does its string processing on
//! sequences of `char`, and these functions move between `str`/`String` and
//! such sequences.
use vstd::prelude::*;
use vstd::std_specs::iter::IteratorSpec;

verus! {

broadcast use vstd::string::group_string_axioms;

/// The characters of `s`, in order.
pub fn chars_of(s: &str) -> (v: Vec<char>)
    ensures
        v@ == s@,
{
    let mut v: Vec<char> = Vec::new();
    for c in it: s.chars()
        invariant
            v@ == it.seq().take(it.index() as int),
    {
        v.push(c);
    }
    v
}

/// Appends one character to a string (`String::push`).
#[verifier::external_body]
pub fn push_char(s: &mut String, c: char)
    ensures
        final(s)@ == old(s)@.push(c),
{
    s.push(c)
}

/// The string made of the characters `v[from..to]`.
pub fn string_of_range(v: &Vec<char>, from: usize, to: usize) -> (s: String)
    requires
        from <= to <= v@.len(),
    ensures
        s@ == v@.subrange(from as int, to as int),
{
    let mut s = String::new();
    let mut i = from;
    while i < to
        invariant
            from <= i <= to <= v@.len(),
            s@ == v@.subrange(from as int, i as int),
        decreases to - i,
    {
        push_char(&mut s, v[i]);
        assert(v@.subrange(from as int, i + 1) == v@.subrange(from as int, i as int).push(v@[i as int]));
        i = i + 1;
    }
    s
}

/// The string made of all the characters of `v`.
pub fn string_of(v: &Vec<char>) -> (s: String)
    ensures
        s@ == v@,
{
    let s = string_of_range(v, 0, v.len());
    assert(v@.subrange(0, v@.len() as int) == v@);
    s
}

/// `pat` occurs in `s` at position `i`.
pub open spec fn matches_at(s: Seq<char>, pat: Seq<char>, i: int) -> bool {
    0 <= i && i + pat.len() <= s.len() && s.subrange(i, i + pat.len()) == pat
}

/// The first position at or after `i` where `pat` occurs in `s`.
pub open spec fn find_from(s: Seq<char>, pat: Seq<char>, i: int) -> Option<int>
    decreases s.len() + 1 - i,
{
    if i < 0 || i + pat.len() > s.len() {
        None
    } else if matches_at(s, pat, i) {
        Some(i)
    } else {
        find_from(s, pat, i + 1)
    }
}

/// `pat` occurs somewhere in `s`.
pub open spec fn contains_pat(s: Seq<char>, pat: Seq<char>) -> bool {
    find_from(s, pat, 0) is Some
}

/// The pieces of `s[start..]` between the successive leftmost occurrences of
/// `pat`, as `str::split` gives them.
pub open spec fn split_from(s: Seq<char>, pat: Seq<char>, start: int) -> Seq<Seq<char>>
    decreases s.len() + 1 - start,
{
    if pat.len() == 0 || start < 0 || start > s.len() {
        seq![]
    } else {
        match find_from(s, pat, start) {
            Some(i) => {
                if start <= i && i + pat.len() <= s.len() {
                    seq![s.subrange(start, i)] + split_from(s, pat, i + pat.len())
                } else {
                    seq![]
                }
            },
            None => seq![s.subrange(start, s.len() as int)],
        }
    }
}

/// The pieces of `s` between the occurrences of `pat` (`str::split`).
pub open spec fn split_pat(s: Seq<char>, pat: Seq<char>) -> Seq<Seq<char>> {
    split_from(s, pat, 0)
}

/// A found position lies at or after the start and `pat` occurs there; no
/// position in between holds it.
pub proof fn lemma_find_from(s: Seq<char>, pat: Seq<char>, i: int)
    requires
        i >= 0,
    ensures
        match find_from(s, pat, i) {
            Some(j) => i <= j && matches_at(s, pat, j) && forall|k: int|
                i <= k < j ==> !matches_at(s, pat, k),
            None => forall|k: int| i <= k ==> !matches_at(s, pat, k),
        },
    decreases s.len() + 1 - i,
{
    if i + pat.len() > s.len() {
    } else if matches_at(s, pat, i) {
    } else {
        lemma_find_from(s, pat, i + 1);
    }
}

/// Whether `c` is white space for `str::trim` (the Unicode `White_Space`
/// property).
pub open spec fn is_white(c: char) -> bool {
    ||| '\u{9}' <= c <= '\u{d}'
    ||| c == ' '
    ||| c == '\u{85}'
    ||| c == '\u{a0}'
    ||| c == '\u{1680}'
    ||| '\u{2000}' <= c <= '\u{200a}'
    ||| c == '\u{2028}'
    ||| c == '\u{2029}'
    ||| c == '\u{202f}'
    ||| c == '\u{205f}'
    ||| c == '\u{3000}'
}

pub fn is_white_exec(c: char) -> (res: bool)
    ensures
        res == is_white(c),
{
    ('\u{9}' <= c && c <= '\u{d}') || c == ' ' || c == '\u{85}' || c == '\u{a0}' || c
        == '\u{1680}' || ('\u{2000}' <= c && c <= '\u{200a}') || c == '\u{2028}' || c
        == '\u{2029}' || c == '\u{202f}' || c == '\u{205f}' || c == '\u{3000}'
}

/// The position of the first character at or after `i` that is not white
/// space (`s.len()` if there is none).
pub open spec fn skip_white(s: Seq<char>, i: int) -> int
    decreases s.len() - i,
{
    if 0 <= i < s.len() && is_white(s[i]) {
        skip_white(s, i + 1)
    } else {
        i
    }
}

/// The end of `s[..j]` once the white space at its end is removed.
pub open spec fn skip_white_back(s: Seq<char>, j: int) -> int
    decreases j,
{
    if 0 < j <= s.len() && is_white(s[j - 1]) {
        skip_white_back(s, j - 1)
    } else {
        j
    }
}

/// `s` without white space at either end (`str::trim`).
pub open spec fn trim(s: Seq<char>) -> Seq<char> {
    let a = skip_white(s, 0);
    if a >= s.len() {
        seq![]
    } else {
        s.subrange(a, skip_white_back(s, s.len() as int))
    }
}

/// `s` without its first and last character (none is left of a string of one
/// character).
pub open spec fn strip_ends(s: Seq<char>) -> Seq<char> {
    if s.len() <= 1 {
        seq![]
    } else {
        s.subrange(1, s.len() - 1)
    }
}

/// The views of a sequence of character vectors.
pub open spec fn views(v: Seq<Vec<char>>) -> Seq<Seq<char>> {
    v.map_values(|p: Vec<char>| p@)
}

/// A copy of `v[from..to]`.
pub fn slice(v: &Vec<char>, from: usize, to: usize) -> (res: Vec<char>)
    requires
        from <= to <= v@.len(),
    ensures
        res@ == v@.subrange(from as int, to as int),
{
    let mut res: Vec<char> = Vec::new();
    let mut i = from;
    while i < to
        invariant
            from <= i <= to <= v@.len(),
            res@ == v@.subrange(from as int, i as int),
        decreases to - i,
    {
        res.push(v[i]);
        assert(v@.subrange(from as int, i + 1) == v@.subrange(from as int, i as int).push(v@[i as int]));
        i = i + 1;
    }
    res
}

/// Whether `pat` occurs in `v` at position `i`.
pub fn matches_at_exec(v: &Vec<char>, pat: &Vec<char>, i: usize) -> (res: bool)
    ensures
        res == matches_at(v@, pat@, i as int),
{
    if i > v.len() || pat.len() > v.len() - i {
        return false;
    }
    let vlen = v.len();
    let mut k: usize = 0;
    while k < pat.len()
        invariant
            vlen == v@.len(),
            i + pat@.len() <= v@.len(),
            k <= pat@.len(),
            forall|m: int| 0 <= m < k ==> v@[i + m] == pat@[m],
        decreases pat@.len() - k,
    {
        if v[i + k] != pat[k] {
            assert(v@.subrange(i as int, i + pat@.len())[k as int] != pat@[k as int]);
            return false;
        }
        k = k + 1;
    }
    assert(v@.subrange(i as int, i + pat@.len()) =~= pat@);
    true
}

/// The first position at or after `from` where `pat` occurs in `v`.
pub fn find(v: &Vec<char>, pat: &Vec<char>, from: usize) -> (res: Option<usize>)
    requires
        pat@.len() > 0,
    ensures
        match res {
            Some(j) => find_from(v@, pat@, from as int) == Some(j as int),
            None => find_from(v@, pat@, from as int) is None,
        },
{
    let mut i = from;
    loop
        invariant
            pat@.len() > 0,
            from <= i,
            find_from(v@, pat@, from as int) == find_from(v@, pat@, i as int),
        decreases v@.len() + 1 - i,
    {
        if i >= v.len() || pat.len() > v.len() - i {
            return None;
        }
        if matches_at_exec(v, pat, i) {
            return Some(i);
        }
        i = i + 1;
    }
}

/// Whether `pat` occurs in `v`.
pub fn contains(v: &Vec<char>, pat: &Vec<char>) -> (res: bool)
    requires
        pat@.len() > 0,
    ensures
        res == contains_pat(v@, pat@),
{
    find(v, pat, 0).is_some()
}

/// The pieces of `v` between the occurrences of `pat` (`str::split`).
pub fn split(v: &Vec<char>, pat: &Vec<char>) -> (res: Vec<Vec<char>>)
    requires
        pat@.len() > 0,
    ensures
        views(res@) == split_pat(v@, pat@),
{
    let mut pieces: Vec<Vec<char>> = Vec::new();
    let mut start: usize = 0;
    let vlen = v.len();
    loop
        invariant
            vlen == v@.len(),
            pat@.len() > 0,
            start <= v@.len(),
            split_pat(v@, pat@) == views(pieces@) + split_from(v@, pat@, start as int),
        decreases v@.len() + 1 - start,
    {
        let ghost old_pieces = pieces@;
        match find(v, pat, start) {
            Some(i) => {
                proof {
                    lemma_find_from(v@, pat@, start as int);
                }
                let piece = slice(v, start, i);
                pieces.push(piece);
                proof {
                    assert(views(pieces@) =~= views(old_pieces).push(v@.subrange(start as int, i as int)));
                    assert(split_from(v@, pat@, start as int) == seq![v@.subrange(start as int, i as int)]
                        + split_from(v@, pat@, i + pat@.len()));
                    assert(views(pieces@) + split_from(v@, pat@, i + pat@.len()) =~= views(old_pieces)
                        + split_from(v@, pat@, start as int));
                }
                start = i + pat.len();
            },
            None => {
                let piece = slice(v, start, v.len());
                pieces.push(piece);
                proof {
                    assert(views(pieces@) =~= views(old_pieces).push(v@.subrange(start as int, v@.len() as int)));
                    assert(split_from(v@, pat@, start as int) == seq![v@.subrange(start as int, v@.len() as int)]);
                    assert(views(pieces@) =~= views(old_pieces) + split_from(v@, pat@, start as int));
                }
                return pieces;
            },
        }
    }
}

/// `v` without white space at either end (`str::trim`).
pub fn trim_exec(v: &Vec<char>) -> (res: Vec<char>)
    ensures
        res@ == trim(v@),
{
    let mut a: usize = 0;
    while a < v.len() && is_white_exec(v[a])
        invariant
            a <= v@.len(),
            skip_white(v@, 0) == skip_white(v@, a as int),
        decreases v@.len() - a,
    {
        a = a + 1;
    }
    if a >= v.len() {
        return Vec::new();
    }
    let mut b: usize = v.len();
    while b > 0 && is_white_exec(v[b - 1])
        invariant
            a < b <= v@.len(),
            !is_white(v@[a as int]),
            skip_white_back(v@, v@.len() as int) == skip_white_back(v@, b as int),
        decreases b,
    {
        b = b - 1;
    }
    slice(v, a, b)
}

/// `v` without its first and last character.
pub fn strip_ends_exec(v: &Vec<char>) -> (res: Vec<char>)
    ensures
        res@ == strip_ends(v@),
{
    if v.len() <= 1 {
        Vec::new()
    } else {
        slice(v, 1, v.len() - 1)
    }
}

/// `v` followed by the characters of `w`.
pub fn append_chars(v: &mut Vec<char>, w: &Vec<char>)
    ensures
        final(v)@ == old(v)@ + w@,
{
    let mut i: usize = 0;
    while i < w.len()
        invariant
            i <= w@.len(),
            v@ == old(v)@ + w@.subrange(0, i as int),
        decreases w@.len() - i,
    {
        v.push(w[i]);
        assert(w@.subrange(0, i + 1) == w@.subrange(0, i as int).push(w@[i as int]));
        i = i + 1;
    }
    assert(w@.subrange(0, w@.len() as int) == w@);
}

/// Splitting at a valid start gives at least one piece; when `pat` occurs at
/// or after the start it gives at least two.
pub proof fn lemma_split_from_len(s: Seq<char>, pat: Seq<char>, start: int)
    requires
        pat.len() > 0,
        0 <= start <= s.len(),
    ensures
        split_from(s, pat, start).len() >= 1,
        find_from(s, pat, start) is Some ==> split_from(s, pat, start).len() >= 2,
    decreases s.len() + 1 - start,
{
    lemma_find_from(s, pat, start);
    match find_from(s, pat, start) {
        Some(i) => {
            lemma_split_from_len(s, pat, i + pat.len());
        },
        None => {},
    }
}

/// Whether the last character of `v` is `c`.
pub fn ends_with_char(v: &Vec<char>, c: char) -> (res: bool)
    ensures
        res == (v@.len() > 0 && v@.last() == c),
{
    v.len() > 0 && v[v.len() - 1] == c
}

/// Whether the first character of `v` is `c`.
pub fn starts_with_char(v: &Vec<char>, c: char) -> (res: bool)
    ensures
        res == (v@.len() > 0 && v@[0] == c),
{
    v.len() > 0 && v[0] == c
}

/// Whether `a` and `b` hold the same characters.
pub fn eq_chars(a: &Vec<char>, b: &Vec<char>) -> (res: bool)
    ensures
        res == (a@ == b@),
{
    if a.len() != b.len() {
        return false;
    }
    let mut i: usize = 0;
    while i < a.len()
        invariant
            a@.len() == b@.len(),
            i <= a@.len(),
            forall|k: int| 0 <= k < i ==> a@[k] == b@[k],
        decreases a@.len() - i,
    {
        if a[i] != b[i] {
            return false;
        }
        i = i + 1;
    }
    assert(a@ =~= b@);
    true
}

} // verus!
