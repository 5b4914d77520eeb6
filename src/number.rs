//! The decimal number syntax that instruction arguments must follow: an
//! optional sign, then `inf`, `infinity` or `nan` in any case, or digits with an
//! optional fraction and an optional exponent (`1`, `1.`, `.5`, `2.5e-3`).
use vstd::prelude::*;

verus! {

pub open spec fn is_digit(c: char) -> bool {
    '0' <= c && c <= '9'
}

pub open spec fn all_digits(s: Seq<char>) -> bool {
    forall|i: int| 0 <= i < s.len() ==> is_digit(#[trigger] s[i])
}

/// The length of a leading `+` or `-`, if any.
pub open spec fn sign_len(s: Seq<char>) -> int {
    if s.len() > 0 && (s[0] == '+' || s[0] == '-') {
        1
    } else {
        0
    }
}

/// Whether `s` spells the lower-case word `w`, letters in either case.
pub open spec fn spells_any_case(s: Seq<char>, w: Seq<char>) -> bool {
    s.len() == w.len() && forall|i: int|
        0 <= i < s.len() ==> #[trigger] s[i] == w[i] || (w[i] as u32 >= 32 && s[i] as u32 == w[i] as u32 - 32)
}

/// The index of the first `a` or `b` in `s` at or after `i`, or the length of `s`.
pub open spec fn find_either(s: Seq<char>, i: int, a: char, b: char) -> int
    decreases s.len() - i,
{
    if i < 0 || i >= s.len() {
        s.len() as int
    } else if s[i] == a || s[i] == b {
        i
    } else {
        find_either(s, i + 1, a, b)
    }
}

/// Digits, with at most one `.` among them, and at least one digit.
pub open spec fn is_mantissa(m: Seq<char>) -> bool {
    let d = find_either(m, 0, '.', '.');
    &&& all_digits(m.subrange(0, d))
    &&& (d >= m.len() || all_digits(m.subrange(d + 1, m.len() as int)))
    &&& (d > 0 || m.len() > d + 1)
}

/// An optional sign followed by at least one digit.
pub open spec fn is_exponent(x: Seq<char>) -> bool {
    let t = x.subrange(sign_len(x), x.len() as int);
    t.len() > 0 && all_digits(t)
}

/// Whether `s` is the text of a number.
pub open spec fn is_number(s: Seq<char>) -> bool {
    let b = s.subrange(sign_len(s), s.len() as int);
    let e = find_either(b, 0, 'e', 'E');
    ||| spells_any_case(b, seq!['i', 'n', 'f'])
    ||| spells_any_case(b, seq!['i', 'n', 'f', 'i', 'n', 'i', 't', 'y'])
    ||| spells_any_case(b, seq!['n', 'a', 'n'])
    ||| (is_mantissa(b.subrange(0, e)) && (e >= b.len() || is_exponent(
        b.subrange(e + 1, b.len() as int),
    )))
}

proof fn lemma_find_either_bounds(s: Seq<char>, i: int, a: char, b: char)
    requires
        0 <= i <= s.len(),
    ensures
        i <= find_either(s, i, a, b) <= s.len(),
    decreases s.len() - i,
{
    if i < s.len() && !(s[i] == a || s[i] == b) {
        lemma_find_either_bounds(s, i + 1, a, b);
    }
}

/// The index of the first `a` or `b` in `v[lo..hi]`, counted from `lo`, or `hi - lo`.
fn find_either_in(v: &[char], lo: usize, hi: usize, a: char, b: char) -> (r: usize)
    requires
        lo <= hi <= v@.len(),
    ensures
        r == find_either(v@.subrange(lo as int, hi as int), 0, a, b),
        r <= hi - lo,
{
    let ghost s = v@.subrange(lo as int, hi as int);
    proof {
        lemma_find_either_bounds(s, 0, a, b);
    }
    let mut k: usize = 0;
    while k < hi - lo && v[lo + k] != a && v[lo + k] != b
        invariant
            lo <= hi <= v@.len(),
            k <= hi - lo,
            s == v@.subrange(lo as int, hi as int),
            find_either(s, k as int, a, b) == find_either(s, 0, a, b),
        decreases hi - lo - k,
    {
        k = k + 1;
    }
    k
}

/// Whether `v[lo..hi]` is all decimal digits.
pub fn digits_only(v: &[char], lo: usize, hi: usize) -> (r: bool)
    requires
        lo <= hi <= v@.len(),
    ensures
        r == all_digits(v@.subrange(lo as int, hi as int)),
{
    let ghost s = v@.subrange(lo as int, hi as int);
    let mut k = lo;
    while k < hi
        invariant
            lo <= k <= hi <= v@.len(),
            s == v@.subrange(lo as int, hi as int),
            forall|i: int| 0 <= i < k - lo ==> is_digit(#[trigger] s[i]),
        decreases hi - k,
    {
        if !('0' <= v[k] && v[k] <= '9') {
            assert(!is_digit(s[k - lo]));
            return false;
        }
        k = k + 1;
    }
    true
}

fn sign_length(v: &[char], lo: usize, hi: usize) -> (r: usize)
    requires
        lo <= hi <= v@.len(),
    ensures
        r == sign_len(v@.subrange(lo as int, hi as int)),
        r <= hi - lo,
{
    if lo < hi && (v[lo] == '+' || v[lo] == '-') {
        1
    } else {
        0
    }
}

fn spelled_any_case(v: &[char], lo: usize, hi: usize, w: &str) -> (r: bool)
    requires
        lo <= hi <= v@.len(),
    ensures
        r == spells_any_case(v@.subrange(lo as int, hi as int), w@),
{
    let ghost s = v@.subrange(lo as int, hi as int);
    let n = w.unicode_len();
    if hi - lo != n {
        return false;
    }
    let mut i: usize = 0;
    while i < n
        invariant
            lo <= hi <= v@.len(),
            hi - lo == n == w@.len(),
            s == v@.subrange(lo as int, hi as int),
            i <= n,
            forall|j: int|
                0 <= j < i ==> #[trigger] s[j] == w@[j] || (w@[j] as u32 >= 32 && s[j] as u32 == w@[j] as u32
                    - 32),
        decreases n - i,
    {
        let c = v[lo + i];
        let l = w.get_char(i);
        if !(c == l || (l as u32 >= 32 && c as u32 == l as u32 - 32)) {
            assert(s[i as int] == c);
            return false;
        }
        i = i + 1;
    }
    true
}

/// Whether `v[lo..hi]` is the text of a number.
pub fn is_number_text(v: &[char], lo: usize, hi: usize) -> (r: bool)
    requires
        lo <= hi <= v@.len(),
    ensures
        r == is_number(v@.subrange(lo as int, hi as int)),
{
    let ghost s = v@.subrange(lo as int, hi as int);
    let start = lo + sign_length(v, lo, hi);
    let ghost b = v@.subrange(start as int, hi as int);
    assert(b =~= s.subrange(sign_len(s), s.len() as int));
    proof {
        reveal_strlit("inf");
        reveal_strlit("infinity");
        reveal_strlit("nan");
    }
    assert("inf"@ =~= seq!['i', 'n', 'f']);
    assert("infinity"@ =~= seq!['i', 'n', 'f', 'i', 'n', 'i', 't', 'y']);
    assert("nan"@ =~= seq!['n', 'a', 'n']);
    if spelled_any_case(v, start, hi, "inf") || spelled_any_case(v, start, hi, "infinity")
        || spelled_any_case(v, start, hi, "nan") {
        return true;
    }
    let e = start + find_either_in(v, start, hi, 'e', 'E');
    let ghost m = v@.subrange(start as int, e as int);
    assert(m =~= b.subrange(0, e - start));
    let d = start + find_either_in(v, start, e, '.', '.');
    assert(v@.subrange(start as int, d as int) =~= m.subrange(0, d - start));
    let mantissa = digits_only(v, start, d) && (d >= e || digits_only(v, d + 1, e)) && (d > start
        || e - d > 1);
    if d < e {
        assert(v@.subrange(d + 1, e as int) =~= m.subrange(d - start + 1, m.len() as int));
    }
    if !mantissa {
        return false;
    }
    if e >= hi {
        return true;
    }
    let ghost x = v@.subrange(e + 1, hi as int);
    assert(x =~= b.subrange(e - start + 1, b.len() as int));
    let t = e + 1 + sign_length(v, e + 1, hi);
    assert(v@.subrange(t as int, hi as int) =~= x.subrange(sign_len(x), x.len() as int));
    t < hi && digits_only(v, t, hi)
}

} // verus!
