//! Character-level helpers shared by the rule and instruction parsers.
use vstd::prelude::*;

verus! {

/// Whether `c` is a Unicode `White_Space` code point.
pub open spec fn is_space(c: char) -> bool {
    let u = c as u32;
    (0x09 <= u && u <= 0x0d) || u == 0x20 || u == 0x85 || u == 0xa0 || u == 0x1680 || (0x2000
        <= u && u <= 0x200a) || u == 0x2028 || u == 0x2029 || u == 0x202f || u == 0x205f || u
        == 0x3000
}

/// Index of the first non-space character at or after `i`.
pub open spec fn skip_spaces(s: Seq<char>, i: int) -> int
    decreases s.len() - i,
{
    if 0 <= i < s.len() && is_space(s[i]) {
        skip_spaces(s, i + 1)
    } else {
        i
    }
}

/// Index just after the last non-space character of `s[lo..j]`.
pub open spec fn trim_end_index(s: Seq<char>, lo: int, j: int) -> int
    decreases j - lo,
{
    if lo < j && j <= s.len() && is_space(s[j - 1]) {
        trim_end_index(s, lo, j - 1)
    } else {
        j
    }
}

/// `s` without its leading and trailing white space.
pub open spec fn trimmed(s: Seq<char>) -> Seq<char> {
    let a = skip_spaces(s, 0);
    s.subrange(a, trim_end_index(s, a, s.len() as int))
}

/// Index of the first white space character at or after `i`.
pub open spec fn word_end(s: Seq<char>, i: int) -> int
    decreases s.len() - i,
{
    if 0 <= i < s.len() && !is_space(s[i]) {
        word_end(s, i + 1)
    } else {
        i
    }
}

/// The maximal runs of non-space characters of `s[i..]`, in order.
pub open spec fn words_from(s: Seq<char>, i: int) -> Seq<Seq<char>>
    decreases s.len() - i,
{
    if i < 0 || i >= s.len() {
        seq![]
    } else if is_space(s[i]) {
        words_from(s, i + 1)
    } else {
        let k = word_end(s, i);
        if i < k <= s.len() {
            seq![s.subrange(i, k)] + words_from(s, k)
        } else {
            seq![]
        }
    }
}

/// The white-space separated words of `s`.
pub open spec fn words(s: Seq<char>) -> Seq<Seq<char>> {
    words_from(s, 0)
}

/// Index of the first line feed at or after `i`, or the length of `s`.
pub open spec fn line_end(s: Seq<char>, i: int) -> int
    decreases s.len() - i,
{
    if 0 <= i < s.len() && s[i] != '\n' {
        line_end(s, i + 1)
    } else {
        i
    }
}

/// A line as it stands before its line feed: a carriage return just before the
/// line feed belongs to the line ending.
pub open spec fn line_body(s: Seq<char>, i: int, k: int) -> Seq<char> {
    if k < s.len() && i < k && s[k - 1] == '\r' {
        s.subrange(i, k - 1)
    } else {
        s.subrange(i, k)
    }
}

/// The lines of `s[i..]`; a final line feed does not start another line.
pub open spec fn lines_from(s: Seq<char>, i: int) -> Seq<Seq<char>>
    decreases s.len() - i,
{
    if i < 0 || i >= s.len() {
        seq![]
    } else {
        let k = line_end(s, i);
        if i <= k < s.len() {
            seq![line_body(s, i, k)] + lines_from(s, k + 1)
        } else {
            seq![line_body(s, i, k)]
        }
    }
}

/// The lines of `s`.
pub open spec fn lines(s: Seq<char>) -> Seq<Seq<char>> {
    lines_from(s, 0)
}

proof fn lemma_word_end_bounds(s: Seq<char>, i: int)
    requires
        0 <= i <= s.len(),
    ensures
        i <= word_end(s, i) <= s.len(),
    decreases s.len() - i,
{
    if i < s.len() && !is_space(s[i]) {
        lemma_word_end_bounds(s, i + 1);
    }
}

proof fn lemma_line_end_bounds(s: Seq<char>, i: int)
    requires
        0 <= i <= s.len(),
    ensures
        i <= line_end(s, i) <= s.len(),
        line_end(s, i) < s.len() ==> s[line_end(s, i)] == '\n',
    decreases s.len() - i,
{
    if i < s.len() && s[i] != '\n' {
        lemma_line_end_bounds(s, i + 1);
    }
}

/// Whether `c` is white space.
pub fn is_space_char(c: char) -> (r: bool)
    ensures
        r == is_space(c),
{
    let u = c as u32;
    (0x09 <= u && u <= 0x0d) || u == 0x20 || u == 0x85 || u == 0xa0 || u == 0x1680 || (0x2000
        <= u && u <= 0x200a) || u == 0x2028 || u == 0x2029 || u == 0x202f || u == 0x205f || u
        == 0x3000
}

/// Relies on `String::push`: appends one character.
#[verifier::external_body]
fn push_char(s: &mut String, c: char)
    ensures
        final(s)@ == old(s)@.push(c),
{
    s.push(c);
}

/// The characters of `s`, in order.
pub fn chars_of(s: &str) -> (r: Vec<char>)
    ensures
        r@ == s@,
{
    let mut r: Vec<char> = Vec::new();
    for c in it: s.chars()
        invariant
            it.seq() == s@,
            r@ == it.seq().subrange(0, it.index() as int),
    {
        r.push(c);
    }
    r
}

/// The string made of the characters `v[lo..hi]`.
pub fn string_of(v: &[char], lo: usize, hi: usize) -> (r: String)
    requires
        lo <= hi <= v@.len(),
    ensures
        r@ == v@.subrange(lo as int, hi as int),
{
    let mut r = String::new();
    let mut i: usize = lo;
    while i < hi
        invariant
            lo <= i <= hi <= v@.len(),
            r@ == v@.subrange(lo as int, i as int),
        decreases hi - i,
    {
        push_char(&mut r, v[i]);
        assert(v@.subrange(lo as int, i + 1) =~= v@.subrange(lo as int, i as int).push(v@[i as int]));
        i = i + 1;
    }
    r
}

/// Whether the characters `v[lo..hi]` spell `t`.
pub fn spells(v: &[char], lo: usize, hi: usize, t: &str) -> (r: bool)
    requires
        lo <= hi <= v@.len(),
    ensures
        r == (v@.subrange(lo as int, hi as int) == t@),
{
    let n = t.unicode_len();
    if hi - lo != n {
        return false;
    }
    let mut i: usize = 0;
    while i < n
        invariant
            lo <= hi <= v@.len(),
            hi - lo == n == t@.len(),
            0 <= i <= n,
            forall|j: int| 0 <= j < i ==> v@[lo + j] == t@[j],
        decreases n - i,
    {
        if v[lo + i] != t.get_char(i) {
            assert(v@.subrange(lo as int, hi as int)[i as int] != t@[i as int]);
            return false;
        }
        i = i + 1;
    }
    assert(v@.subrange(lo as int, hi as int) =~= t@);
    true
}

/// Index of the first line feed in `v[i..]`, or the length of `v`.
pub fn find_line_end(v: &[char], i: usize) -> (k: usize)
    requires
        i <= v@.len(),
    ensures
        k == line_end(v@, i as int),
        i <= k <= v@.len(),
{
    proof {
        lemma_line_end_bounds(v@, i as int);
    }
    let mut k = i;
    while k < v.len() && v[k] != '\n'
        invariant
            i <= k <= v@.len(),
            line_end(v@, k as int) == line_end(v@, i as int),
        decreases v@.len() - k,
    {
        k = k + 1;
    }
    k
}

/// The bounds of the line that starts at `i`, without its line ending, and
/// where the next line starts.
pub fn line_at(v: &[char], i: usize) -> (r: (usize, usize, usize))
    requires
        i < v@.len(),
    ensures
        i <= r.1 <= v@.len(),
        r.0 == i,
        i <= line_end(v@, i as int) <= v@.len(),
        v@.subrange(r.0 as int, r.1 as int) == line_body(v@, i as int, line_end(v@, i as int)),
        r.2 == if line_end(v@, i as int) < v@.len() {
            line_end(v@, i as int) + 1
        } else {
            v@.len() as int
        },
{
    let k = find_line_end(v, i);
    let next = if k < v.len() {
        k + 1
    } else {
        k
    };
    if k < v.len() && i < k && v[k - 1] == '\r' {
        (i, k - 1, next)
    } else {
        (i, k, next)
    }
}

/// The bounds of `v[lo..hi]` without leading and trailing white space.
pub fn trim_bounds(v: &[char], lo: usize, hi: usize) -> (r: (usize, usize))
    requires
        lo <= hi <= v@.len(),
    ensures
        lo <= r.0 <= r.1 <= hi,
        v@.subrange(r.0 as int, r.1 as int) == trimmed(v@.subrange(lo as int, hi as int)),
{
    let ghost s = v@.subrange(lo as int, hi as int);
    let mut a = lo;
    while a < hi && is_space_char(v[a])
        invariant
            lo <= a <= hi <= v@.len(),
            s == v@.subrange(lo as int, hi as int),
            skip_spaces(s, a - lo) == skip_spaces(s, 0),
        decreases hi - a,
    {
        a = a + 1;
    }
    let mut b = hi;
    while b > a && is_space_char(v[b - 1])
        invariant
            lo <= a <= b <= hi <= v@.len(),
            s == v@.subrange(lo as int, hi as int),
            skip_spaces(s, 0) == a - lo,
            trim_end_index(s, a - lo, b - lo) == trim_end_index(s, a - lo, hi - lo),
        decreases b - a,
    {
        b = b - 1;
    }
    assert(v@.subrange(a as int, b as int) =~= s.subrange(a - lo, b - lo));
    (a, b)
}

/// The words of `v[lo..hi]`, each as the bounds of its characters.
pub fn word_bounds(v: &[char], lo: usize, hi: usize) -> (r: Vec<(usize, usize)>)
    requires
        lo <= hi <= v@.len(),
    ensures
        r@.len() == words(v@.subrange(lo as int, hi as int)).len(),
        forall|j: int|
            0 <= j < r@.len() ==> lo <= (#[trigger] r@[j]).0 <= r@[j].1 <= hi && v@.subrange(
                r@[j].0 as int,
                r@[j].1 as int,
            ) == words(v@.subrange(lo as int, hi as int))[j],
{
    let ghost s = v@.subrange(lo as int, hi as int);
    let mut r: Vec<(usize, usize)> = Vec::new();
    let mut i = lo;
    while i < hi
        invariant
            lo <= i <= hi <= v@.len(),
            s == v@.subrange(lo as int, hi as int),
            words(s) == r@.map_values(|p: (usize, usize)| v@.subrange(p.0 as int, p.1 as int))
                + words_from(s, i - lo),
            forall|j: int| 0 <= j < r@.len() ==> lo <= (#[trigger] r@[j]).0 <= r@[j].1 <= hi,
        decreases hi - i,
    {
        if is_space_char(v[i]) {
            i = i + 1;
        } else {
            let start = i;
            proof {
                lemma_word_end_bounds(s, i - lo);
            }
            while i < hi && !is_space_char(v[i])
                invariant
                    lo <= start <= i <= hi <= v@.len(),
                    s == v@.subrange(lo as int, hi as int),
                    word_end(s, i - lo) == word_end(s, start - lo),
                decreases hi - i,
            {
                i = i + 1;
            }
            let ghost before = r@;
            r.push((start, i));
            proof {
                assert(v@.subrange(start as int, i as int) =~= s.subrange(start - lo, i - lo));
                assert(r@.map_values(|p: (usize, usize)| v@.subrange(p.0 as int, p.1 as int))
                    =~= before.map_values(
                    |p: (usize, usize)| v@.subrange(p.0 as int, p.1 as int),
                ).push(v@.subrange(start as int, i as int)));
            }
        }
    }
    proof {
        let m = r@.map_values(|p: (usize, usize)| v@.subrange(p.0 as int, p.1 as int));
        assert(words(s) =~= m);
        assert forall|j: int| 0 <= j < r@.len() implies v@.subrange(
            (#[trigger] r@[j]).0 as int,
            r@[j].1 as int,
        ) == words(s)[j] by {
            assert(m[j] == v@.subrange(r@[j].0 as int, r@[j].1 as int));
        }
    }
    r
}

} // verus!
