//! Character-level text helpers shared by the parsers: whitespace, trimming,
//! searching, splitting into lines, and building owned strings.
use vstd::prelude::*;

verus! {

/// Unicode `White_Space`, the set that `char::is_whitespace` and `str::trim` use.
pub open spec fn is_ws(c: char) -> bool {
    ||| c == '\t'
    ||| c == '\n'
    ||| c == '\u{0B}'
    ||| c == '\u{0C}'
    ||| c == '\r'
    ||| c == ' '
    ||| c == '\u{85}'
    ||| c == '\u{A0}'
    ||| c == '\u{1680}'
    ||| ('\u{2000}' <= c && c <= '\u{200A}')
    ||| c == '\u{2028}'
    ||| c == '\u{2029}'
    ||| c == '\u{202F}'
    ||| c == '\u{205F}'
    ||| c == '\u{3000}'
}

/// The text with leading whitespace removed.
pub open spec fn trim_start(s: Seq<char>) -> Seq<char>
    decreases s.len(),
{
    if s.len() > 0 && is_ws(s[0]) {
        trim_start(s.drop_first())
    } else {
        s
    }
}

/// The text with trailing whitespace removed.
pub open spec fn trim_end(s: Seq<char>) -> Seq<char>
    decreases s.len(),
{
    if s.len() > 0 && is_ws(s.last()) {
        trim_end(s.drop_last())
    } else {
        s
    }
}

/// The text with whitespace removed at both ends.
pub open spec fn trim(s: Seq<char>) -> Seq<char> {
    trim_end(trim_start(s))
}

/// `i` is the position of the first `c` in `s`.
pub open spec fn is_first_index(s: Seq<char>, c: char, i: int) -> bool {
    &&& 0 <= i < s.len()
    &&& s[i] == c
    &&& forall|j: int| 0 <= j < i ==> s[j] != c
}

/// Position of the first `c` in `s`, if any.
pub open spec fn first_index(s: Seq<char>, c: char) -> Option<int> {
    if exists|i: int| is_first_index(s, c, i) {
        Some(choose|i: int| is_first_index(s, c, i))
    } else {
        None
    }
}

/// `i` is the position of the last `c` in `s`.
pub open spec fn is_last_index(s: Seq<char>, c: char, i: int) -> bool {
    &&& 0 <= i < s.len()
    &&& s[i] == c
    &&& forall|j: int| i < j < s.len() ==> s[j] != c
}

/// Position of the last `c` in `s`, if any.
pub open spec fn last_index(s: Seq<char>, c: char) -> Option<int> {
    if exists|i: int| is_last_index(s, c, i) {
        Some(choose|i: int| is_last_index(s, c, i))
    } else {
        None
    }
}

/// An arrow `->` starts at position `i` of `s`.
pub open spec fn arrow_at(s: Seq<char>, i: int) -> bool {
    &&& 0 <= i
    &&& i + 1 < s.len()
    &&& s[i] == '-'
    &&& s[i + 1] == '>'
}

/// `s` holds exactly one arrow `->`, starting at `p`.
pub open spec fn is_single_arrow(s: Seq<char>, p: int) -> bool {
    &&& arrow_at(s, p)
    &&& forall|q: int| arrow_at(s, q) ==> q == p
}

/// Where `s` splits on `->` into exactly two parts, the position of that arrow.
pub open spec fn single_arrow(s: Seq<char>) -> Option<int> {
    if exists|p: int| is_single_arrow(s, p) {
        Some(choose|p: int| is_single_arrow(s, p))
    } else {
        None
    }
}

/// End of the line that starts at `pos`: the next `\n` at or after `pos`, or the end.
pub open spec fn line_end(s: Seq<char>, pos: int) -> int
    decreases s.len() - pos,
{
    if pos < 0 || pos >= s.len() {
        s.len() as int
    } else if s[pos] == '\n' {
        pos
    } else {
        line_end(s, pos + 1)
    }
}

/// The pieces of `s` from `pos` on, cut at each `\n`.
pub open spec fn pieces_from(s: Seq<char>, pos: int) -> Seq<Seq<char>>
    decreases s.len() - pos,
{
    if pos < 0 || pos > s.len() {
        Seq::empty()
    } else {
        let e = line_end(s, pos);
        if e >= s.len() {
            seq![s.subrange(pos, s.len() as int)]
        } else {
            proof {
                lemma_line_end_bounds(s, pos);
            }
            seq![s.subrange(pos, e)] + pieces_from(s, e + 1)
        }
    }
}

/// The pieces of `s` between newlines (`s.split('\n')`).
pub open spec fn split_newlines(s: Seq<char>) -> Seq<Seq<char>> {
    pieces_from(s, 0)
}

/// The first whitespace-separated token of `s`, or the empty text if there is none.
pub open spec fn first_token(s: Seq<char>) -> Seq<char> {
    let t = trim_start(s);
    t.take(token_end(t, 0))
}

/// End of the run of non-whitespace characters that starts at `pos`.
pub open spec fn token_end(s: Seq<char>, pos: int) -> int
    decreases s.len() - pos,
{
    if pos < 0 || pos >= s.len() {
        s.len() as int
    } else if is_ws(s[pos]) {
        pos
    } else {
        token_end(s, pos + 1)
    }
}

pub proof fn lemma_line_end_bounds(s: Seq<char>, pos: int)
    requires
        0 <= pos <= s.len(),
    ensures
        pos <= line_end(s, pos) <= s.len(),
        line_end(s, pos) < s.len() ==> s[line_end(s, pos)] == '\n',
        forall|j: int| pos <= j < line_end(s, pos) ==> s[j] != '\n',
    decreases s.len() - pos,
{
    if pos < s.len() && s[pos] != '\n' {
        lemma_line_end_bounds(s, pos + 1);
    }
}

pub proof fn lemma_first_index(s: Seq<char>, c: char, i: int)
    requires
        is_first_index(s, c, i),
    ensures
        first_index(s, c) == Some(i),
{
    let k = choose|k: int| is_first_index(s, c, k);
    assert(is_first_index(s, c, k));
    assert(k == i) by {
        if k < i {
            assert(s[k] != c);
        }
        if i < k {
            assert(s[i] != c);
        }
    }
}

pub proof fn lemma_last_index(s: Seq<char>, c: char, i: int)
    requires
        is_last_index(s, c, i),
    ensures
        last_index(s, c) == Some(i),
{
    let k = choose|k: int| is_last_index(s, c, k);
    assert(is_last_index(s, c, k));
    assert(k == i) by {
        if k < i {
            assert(s[i] != c);
        }
        if i < k {
            assert(s[k] != c);
        }
    }
}

pub proof fn lemma_single_arrow(s: Seq<char>, p: int)
    requires
        is_single_arrow(s, p),
    ensures
        single_arrow(s) == Some(p),
{
    let k = choose|k: int| is_single_arrow(s, k);
    assert(is_single_arrow(s, k));
}

/// Appends one character (`String::push`).
#[verifier::external_body]
pub fn push_char(s: &mut String, c: char)
    ensures
        final(s)@ == old(s)@.push(c),
{
    s.push(c);
}

/// The characters of `s`, in order.
pub fn to_chars(s: &str) -> (v: Vec<char>)
    ensures
        v@ == s@,
{
    let mut v: Vec<char> = Vec::new();
    for c in it: s.chars()
        invariant
            v@ == it.seq().take(it.index() as int),
    {
        v.push(c);
    }
    v
}

/// An owned string holding `v[lo..hi]`.
pub fn string_of(v: &Vec<char>, lo: usize, hi: usize) -> (r: String)
    requires
        lo <= hi <= v.len(),
    ensures
        r@ == v@.subrange(lo as int, hi as int),
{
    let mut r = String::new();
    let mut i: usize = lo;
    while i < hi
        invariant
            lo <= i <= hi <= v.len(),
            r@ == v@.subrange(lo as int, i as int),
        decreases hi - i,
    {
        push_char(&mut r, v[i]);
        assert(v@.subrange(lo as int, i + 1) =~= v@.subrange(lo as int, i as int).push(v@[i as int]));
        i += 1;
    }
    r
}

/// Whether `c` is Unicode whitespace.
pub fn is_whitespace(c: char) -> (b: bool)
    ensures
        b == is_ws(c),
{
    c == '\t' || c == '\n' || c == '\u{0B}' || c == '\u{0C}' || c == '\r' || c == ' ' || c
        == '\u{85}' || c == '\u{A0}' || c == '\u{1680}' || ('\u{2000}' <= c && c <= '\u{200A}')
        || c == '\u{2028}' || c == '\u{2029}' || c == '\u{202F}' || c == '\u{205F}' || c
        == '\u{3000}'
}

/// Start of `v[lo..hi]` once leading whitespace is skipped.
pub fn skip_whitespace(v: &Vec<char>, lo: usize, hi: usize) -> (i: usize)
    requires
        lo <= hi <= v.len(),
    ensures
        lo <= i <= hi,
        v@.subrange(i as int, hi as int) == trim_start(v@.subrange(lo as int, hi as int)),
{
    let mut i: usize = lo;
    while i < hi && is_whitespace(v[i])
        invariant
            lo <= i <= hi <= v.len(),
            trim_start(v@.subrange(lo as int, hi as int)) == trim_start(
                v@.subrange(i as int, hi as int),
            ),
        decreases hi - i,
    {
        assert(v@.subrange(i as int, hi as int).drop_first() =~= v@.subrange(i + 1, hi as int));
        i += 1;
    }
    i
}

/// The bounds of `v[lo..hi]` with whitespace trimmed at both ends.
pub fn trim_range(v: &Vec<char>, lo: usize, hi: usize) -> (r: (usize, usize))
    requires
        lo <= hi <= v.len(),
    ensures
        lo <= r.0 <= r.1 <= hi,
        v@.subrange(r.0 as int, r.1 as int) == trim(v@.subrange(lo as int, hi as int)),
{
    let i = skip_whitespace(v, lo, hi);
    let mut j: usize = hi;
    while j > i && is_whitespace(v[j - 1])
        invariant
            lo <= i <= j <= hi <= v.len(),
            trim_start(v@.subrange(lo as int, hi as int)) == v@.subrange(i as int, hi as int),
            trim_end(v@.subrange(i as int, hi as int)) == trim_end(
                v@.subrange(i as int, j as int),
            ),
        decreases j - i,
    {
        assert(v@.subrange(i as int, j as int).drop_last() =~= v@.subrange(i as int, j - 1));
        j -= 1;
    }
    (i, j)
}

/// Position of the first `c` in `v[lo..hi]`.
pub fn find_char(v: &Vec<char>, lo: usize, hi: usize, c: char) -> (r: Option<usize>)
    requires
        lo <= hi <= v.len(),
    ensures
        r matches Some(i) ==> lo <= i < hi && first_index(v@.subrange(lo as int, hi as int), c)
            == Some(i - lo),
        r is None ==> first_index(v@.subrange(lo as int, hi as int), c) is None,
{
    let ghost s = v@.subrange(lo as int, hi as int);
    let mut i: usize = lo;
    while i < hi
        invariant
            lo <= i <= hi <= v.len(),
            s == v@.subrange(lo as int, hi as int),
            forall|j: int| 0 <= j < i - lo ==> s[j] != c,
        decreases hi - i,
    {
        if v[i] == c {
            proof {
                lemma_first_index(s, c, i - lo);
            }
            return Some(i);
        }
        i += 1;
    }
    assert(!exists|k: int| is_first_index(s, c, k));
    None
}

/// Position of the last `c` in `v[lo..hi]`.
pub fn rfind_char(v: &Vec<char>, lo: usize, hi: usize, c: char) -> (r: Option<usize>)
    requires
        lo <= hi <= v.len(),
    ensures
        r matches Some(i) ==> lo <= i < hi && last_index(v@.subrange(lo as int, hi as int), c)
            == Some(i - lo),
        r is None ==> last_index(v@.subrange(lo as int, hi as int), c) is None,
{
    let ghost s = v@.subrange(lo as int, hi as int);
    let mut i: usize = hi;
    while i > lo
        invariant
            lo <= i <= hi <= v.len(),
            s == v@.subrange(lo as int, hi as int),
            forall|j: int| i - lo <= j < s.len() ==> s[j] != c,
        decreases i - lo,
    {
        if v[i - 1] == c {
            proof {
                lemma_last_index(s, c, i - 1 - lo);
            }
            return Some(i - 1);
        }
        i -= 1;
    }
    assert(!exists|k: int| is_last_index(s, c, k));
    None
}

/// Where `v[lo..hi]` holds exactly one `->`, its position.
pub fn find_single_arrow(v: &Vec<char>, lo: usize, hi: usize) -> (r: Option<usize>)
    requires
        lo <= hi <= v.len(),
    ensures
        r matches Some(p) ==> lo <= p && p + 2 <= hi && single_arrow(
            v@.subrange(lo as int, hi as int),
        ) == Some(p - lo),
        r is None ==> single_arrow(v@.subrange(lo as int, hi as int)) is None,
{
    let ghost s = v@.subrange(lo as int, hi as int);
    let mut found: Option<usize> = None;
    let mut i: usize = lo;
    while hi - i >= 2
        invariant
            lo <= i <= hi <= v.len(),
            s == v@.subrange(lo as int, hi as int),
            found matches Some(p) ==> lo <= p < i && arrow_at(s, p - lo) && forall|q: int|
                0 <= q < i - lo && arrow_at(s, q) ==> q == p - lo,
            found is None ==> forall|q: int| 0 <= q < i - lo ==> !arrow_at(s, q),
        decreases hi - i,
    {
        if v[i] == '-' && v[i + 1] == '>' {
            assert(arrow_at(s, i - lo));
            match found {
                Some(p) => {
                    assert(!is_single_arrow(s, p - lo));
                    assert forall|k: int| !is_single_arrow(s, k) by {
                        if is_single_arrow(s, k) {
                            assert(arrow_at(s, i - lo));
                            assert(arrow_at(s, p - lo));
                        }
                    }
                    return None;
                },
                None => {
                    found = Some(i);
                },
            }
        }
        i += 1;
    }
    match found {
        Some(p) => {
            assert forall|q: int| arrow_at(s, q) implies q == p - lo by {
                assert(q < i - lo);
            }
            proof {
                lemma_single_arrow(s, p - lo);
            }
            Some(p)
        },
        None => {
            assert forall|k: int| !is_single_arrow(s, k) by {
                if is_single_arrow(s, k) {
                    assert(k < i - lo);
                }
            }
            None
        },
    }
}

/// End of the line of `v` that starts at `pos`.
pub fn find_line_end(v: &Vec<char>, pos: usize) -> (e: usize)
    requires
        pos <= v.len(),
    ensures
        e == line_end(v@, pos as int),
        pos <= e <= v.len(),
{
    let mut i: usize = pos;
    while i < v.len() && v[i] != '\n'
        invariant
            pos <= i <= v.len(),
            line_end(v@, pos as int) == line_end(v@, i as int),
        decreases v.len() - i,
    {
        i += 1;
    }
    i
}

/// End of the run of non-whitespace characters of `v[..hi]` that starts at `pos`.
pub fn find_token_end(v: &Vec<char>, pos: usize, hi: usize) -> (e: usize)
    requires
        pos <= hi <= v.len(),
    ensures
        pos <= e <= hi,
        e - pos == token_end(v@.subrange(pos as int, hi as int), 0),
{
    let ghost s = v@.subrange(pos as int, hi as int);
    let mut i: usize = pos;
    while i < hi && !is_whitespace(v[i])
        invariant
            pos <= i <= hi <= v.len(),
            s == v@.subrange(pos as int, hi as int),
            token_end(s, 0) == token_end(s, i - pos),
        decreases hi - i,
    {
        i += 1;
    }
    i
}

/// Whether `v[lo..hi]` begins with `p`.
pub fn has_prefix(v: &Vec<char>, lo: usize, hi: usize, p: &Vec<char>) -> (b: bool)
    requires
        lo <= hi <= v.len(),
    ensures
        b == p@.is_prefix_of(v@.subrange(lo as int, hi as int)),
{
    if p.len() > hi - lo {
        return false;
    }
    let mut k: usize = 0;
    while k < p.len()
        invariant
            p.len() <= hi - lo,
            lo <= hi <= v.len(),
            0 <= k <= p.len(),
            forall|j: int| 0 <= j < k ==> p@[j] == v@[lo + j],
        decreases p.len() - k,
    {
        if p[k] != v[lo + k] {
            assert(p@[k as int] != v@.subrange(lo as int, hi as int)[k as int]);
            return false;
        }
        k += 1;
    }
    assert(p@ =~= v@.subrange(lo as int, hi as int).take(p@.len() as int));
    true
}

/// Whether `v[lo..hi]` ends with `p`.
pub fn has_suffix(v: &Vec<char>, lo: usize, hi: usize, p: &Vec<char>) -> (b: bool)
    requires
        lo <= hi <= v.len(),
    ensures
        b == p@.is_suffix_of(v@.subrange(lo as int, hi as int)),
{
    if p.len() > hi - lo {
        return false;
    }
    let start = hi - p.len();
    let mut k: usize = 0;
    while k < p.len()
        invariant
            p.len() <= hi - lo,
            start == hi - p.len(),
            lo <= hi <= v.len(),
            0 <= k <= p.len(),
            forall|j: int| 0 <= j < k ==> p@[j] == v@[start + j],
        decreases p.len() - k,
    {
        if p[k] != v[start + k] {
            assert(p@[k as int] != v@.subrange(lo as int, hi as int).subrange(
                (hi - lo - p.len()) as int,
                (hi - lo) as int,
            )[k as int]);
            return false;
        }
        k += 1;
    }
    assert(p@ =~= v@.subrange(lo as int, hi as int).subrange(
        (hi - lo - p.len()) as int,
        (hi - lo) as int,
    ));
    true
}

} // verus!
