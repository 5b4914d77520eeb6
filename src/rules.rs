//! Rewrite rules and the single left-to-right rewriting pass.
use vstd::prelude::*;

use crate::text::{
    chars_of, line_at, line_end, lines, lines_from, string_of, trim_bounds, trimmed,
};

verus! {

/// A rule as its pattern and its replacement.
pub type RuleModel = (Seq<char>, Seq<char>);

/// Whether `p` is a prefix of `s`.
pub open spec fn is_prefix(p: Seq<char>, s: Seq<char>) -> bool {
    p.len() <= s.len() && s.subrange(0, p.len() as int) == p
}

/// Whether `rule` matches at the start of `s`. A rule with an empty pattern
/// consumes nothing and never matches.
pub open spec fn matches(rule: RuleModel, s: Seq<char>) -> bool {
    rule.0.len() > 0 && is_prefix(rule.0, s)
}

/// The first rule, from index `k` on, that matches at the start of `s`.
pub open spec fn first_match_from(rules: Seq<RuleModel>, s: Seq<char>, k: int) -> Option<int>
    decreases rules.len() - k,
{
    if k < 0 || k >= rules.len() {
        None
    } else if matches(rules[k], s) {
        Some(k)
    } else {
        first_match_from(rules, s, k + 1)
    }
}

/// The first rule that matches at the start of `s`.
pub open spec fn first_match(rules: Seq<RuleModel>, s: Seq<char>) -> Option<int> {
    first_match_from(rules, s, 0)
}

/// One rewriting pass over `s`: at each position the first matching rule's
/// replacement is written and its pattern consumed; where no rule matches the
/// character is kept.
pub open spec fn rewrite(rules: Seq<RuleModel>, s: Seq<char>) -> Seq<char>
    decreases s.len(),
{
    if s.len() == 0 {
        seq![]
    } else {
        match first_match(rules, s) {
            // a matching rule's pattern is nonempty and fits in `s`, so the
            // second branch is never taken
            Some(k) => if 0 <= k < rules.len() && 0 < rules[k].0.len() <= s.len() {
                rules[k].1 + rewrite(rules, s.subrange(rules[k].0.len() as int, s.len() as int))
            } else {
                seq![]
            },
            None => seq![s[0]] + rewrite(rules, s.subrange(1, s.len() as int)),
        }
    }
}

/// `n` rewriting passes over `s`.
pub open spec fn expand(rules: Seq<RuleModel>, s: Seq<char>, n: nat) -> Seq<char>
    decreases n,
{
    if n == 0 {
        s
    } else {
        rewrite(rules, expand(rules, s, (n - 1) as nat))
    }
}

/// The index of the first `->` in `s` at or after `i`, or the length of `s`.
pub open spec fn arrow_from(s: Seq<char>, i: int) -> int
    decreases s.len() - i,
{
    if i < 0 || i + 1 >= s.len() {
        s.len() as int
    } else if s[i] == '-' && s[i + 1] == '>' {
        i
    } else {
        arrow_from(s, i + 1)
    }
}

/// A rule line: the text before the first `->` is the pattern and the text
/// after it the replacement, both trimmed. A line without `->` is no rule.
pub open spec fn rule_of_line(line: Seq<char>) -> Option<RuleModel> {
    let a = arrow_from(line, 0);
    if a >= line.len() {
        None
    } else {
        Some((trimmed(line.subrange(0, a)), trimmed(line.subrange(a + 2, line.len() as int))))
    }
}

/// The rules of the given lines, in order, skipping lines that hold none.
pub open spec fn rules_of_lines(ls: Seq<Seq<char>>) -> Seq<RuleModel>
    decreases ls.len(),
{
    if ls.len() == 0 {
        seq![]
    } else {
        let rest = rules_of_lines(ls.subrange(1, ls.len() as int));
        match rule_of_line(ls[0]) {
            Some(r) => seq![r] + rest,
            None => rest,
        }
    }
}

/// Zero passes leave the start string as it is.
pub proof fn law_zero_iterations(rules: Seq<RuleModel>, s: Seq<char>)
    ensures
        expand(rules, s, 0) == s,
{
}

/// A rewriting pass depends on nothing but the rules and the input: equal rules
/// and equal inputs give equal outputs.
pub proof fn law_rewrite_is_pure(r1: Seq<RuleModel>, r2: Seq<RuleModel>, s1: Seq<char>, s2: Seq<
    char,
>)
    requires
        r1 == r2,
        s1 == s2,
    ensures
        rewrite(r1, s1) == rewrite(r2, s2),
{
}

proof fn lemma_no_match_from(rules: Seq<RuleModel>, s: Seq<char>, k: int)
    requires
        0 <= k,
        forall|j: int| k <= j < rules.len() ==> !matches(#[trigger] rules[j], s),
    ensures
        first_match_from(rules, s, k) is None,
    decreases rules.len() - k,
{
    if k < rules.len() {
        lemma_no_match_from(rules, s, k + 1);
    }
}

/// Where no rule's pattern matches at any position of `s`, a pass returns `s`
/// unchanged.
pub proof fn law_no_match_is_identity(rules: Seq<RuleModel>, s: Seq<char>)
    requires
        forall|j: int, i: int|
            0 <= j < rules.len() && 0 <= i < s.len() ==> !matches(
                #[trigger] rules[j],
                #[trigger] s.subrange(i, s.len() as int),
            ),
    ensures
        rewrite(rules, s) == s,
    decreases s.len(),
{
    if s.len() > 0 {
        let t = s.subrange(1, s.len() as int);
        assert forall|j: int| 0 <= j < rules.len() implies !matches(#[trigger] rules[j], s) by {
            assert(s.subrange(0, s.len() as int) =~= s);
            assert(!matches(rules[j], s.subrange(0, s.len() as int)));
        }
        lemma_no_match_from(rules, s, 0);
        assert forall|j: int, i: int|
            0 <= j < rules.len() && 0 <= i < t.len() implies !matches(
                #[trigger] rules[j],
                #[trigger] t.subrange(i, t.len() as int),
            ) by {
            assert(t.subrange(i, t.len() as int) =~= s.subrange(i + 1, s.len() as int));
            assert(!matches(rules[j], s.subrange(i + 1, s.len() as int)));
        }
        law_no_match_is_identity(rules, t);
        assert(seq![s[0]] + t =~= s);
    }
}

/// An index of `rules.remove(k)` as an index of `rules`.
pub open spec fn past(k: int, x: Option<int>) -> Option<int> {
    match x {
        Some(i) => Some(if i >= k { i + 1 } else { i }),
        None => None,
    }
}

proof fn lemma_first_after(rules: Seq<RuleModel>, k: int, s: Seq<char>, m: int)
    requires
        0 <= k < m <= rules.len(),
    ensures
        first_match_from(rules, s, m) == past(k, first_match_from(rules.remove(k), s, m - 1)),
    decreases rules.len() - m,
{
    if m < rules.len() {
        assert(rules.remove(k)[m - 1] == rules[m]);
        lemma_first_after(rules, k, s, m + 1);
    }
}

proof fn lemma_first_before(rules: Seq<RuleModel>, j: int, k: int, s: Seq<char>, m: int)
    requires
        0 <= j < k < rules.len(),
        rules[j].0 == rules[k].0,
        0 <= m <= k,
        m <= j || !matches(rules[k], s),
    ensures
        first_match_from(rules, s, m) == past(k, first_match_from(rules.remove(k), s, m)),
    decreases k - m,
{
    if m == k {
        lemma_first_after(rules, k, s, k + 1);
    } else {
        assert(rules.remove(k)[m] == rules[m]);
        if !matches(rules[m], s) {
            lemma_first_before(rules, j, k, s, m + 1);
        }
    }
}

/// Of two rules with the same pattern, the later one is never used: a pass
/// with both gives what a pass without the later one gives.
pub proof fn law_earlier_rule_wins(rules: Seq<RuleModel>, j: int, k: int, s: Seq<char>)
    requires
        0 <= j < k < rules.len(),
        rules[j].0 == rules[k].0,
    ensures
        rewrite(rules, s) == rewrite(rules.remove(k), s),
        first_match(rules, s) != Some(k),
    decreases s.len(),
{
    lemma_first_before(rules, j, k, s, 0);
    if s.len() > 0 {
        match first_match(rules.remove(k), s) {
            Some(x) => {
                lemma_first_range(rules.remove(k), s, 0);
                let y = if x >= k { x + 1 } else { x };
                assert(rules.remove(k)[x] == rules[y]);
                if 0 < rules[y].0.len() <= s.len() {
                    law_earlier_rule_wins(
                        rules,
                        j,
                        k,
                        s.subrange(rules[y].0.len() as int, s.len() as int),
                    );
                }
            },
            None => {
                law_earlier_rule_wins(rules, j, k, s.subrange(1, s.len() as int));
            },
        }
    }
}

proof fn lemma_first_range(rules: Seq<RuleModel>, s: Seq<char>, m: int)
    requires
        0 <= m,
    ensures
        match first_match_from(rules, s, m) {
            Some(x) => m <= x < rules.len() && matches(rules[x], s),
            None => true,
        },
    decreases rules.len() - m,
{
    if m < rules.len() && !matches(rules[m], s) {
        lemma_first_range(rules, s, m + 1);
    }
}

/// A string that a pass leaves unchanged is left unchanged by a second pass
/// too.
pub proof fn law_fixed_point(rules: Seq<RuleModel>, s: Seq<char>)
    requires
        rewrite(rules, s) == s,
    ensures
        rewrite(rules, rewrite(rules, s)) == s,
{
}

/// A rewrite rule: every occurrence of `rule` is replaced by `replace`.
#[derive(Clone, Debug, PartialEq)]
pub struct Rule {
    pub rule: String,
    pub replace: String,
}

impl View for Rule {
    type V = RuleModel;

    open spec fn view(&self) -> RuleModel {
        (self.rule@, self.replace@)
    }
}

impl Rule {
    /// A rule from its pattern and its replacement.
    pub fn new(rule: &str, replace: &str) -> (r: Rule)
        ensures
            r@ == (rule@, replace@),
    {
        Rule { rule: rule.to_string(), replace: replace.to_string() }
    }

    /// Parses a line of the form `pattern -> replacement`.
    pub fn parse(input: &str) -> (r: Option<Rule>)
        ensures
            match r {
                Some(rule) => rule_of_line(input@) == Some(rule@),
                None => rule_of_line(input@) is None,
            },
    {
        let v = chars_of(input);
        assert(v@.subrange(0, v@.len() as int) =~= v@);
        parse_chars(&v, 0, v.len())
    }

    /// The rule written as `pattern -> replacement`.
    pub fn to_string(&self) -> (r: String)
        ensures
            r@ == self.rule@ + " -> "@ + self.replace@,
    {
        let r = self.rule.clone();
        let r = r.concat(" -> ");
        r.concat(self.replace.as_str())
    }
}

/// The index of the first `->` in `v[i..hi]`, or `hi`.
fn find_arrow(v: &[char], i: usize, hi: usize) -> (r: usize)
    requires
        i <= hi <= v@.len(),
    ensures
        r as int == arrow_from(v@.subrange(0, hi as int), i as int),
        i <= r <= hi,
        r < hi ==> r + 1 < hi,
{
    let ghost s = v@.subrange(0, hi as int);
    let mut k = i;
    while hi - k > 1 && !(v[k] == '-' && v[k + 1] == '>')
        invariant
            i <= k <= hi <= v@.len(),
            s == v@.subrange(0, hi as int),
            arrow_from(s, k as int) == arrow_from(s, i as int),
        decreases hi - k,
    {
        k = k + 1;
    }
    if hi - k > 1 {
        k
    } else {
        hi
    }
}

/// Parses the rule line `v[lo..hi]`.
fn parse_chars(v: &[char], lo: usize, hi: usize) -> (r: Option<Rule>)
    requires
        lo <= hi <= v@.len(),
    ensures
        match r {
            Some(rule) => rule_of_line(v@.subrange(lo as int, hi as int)) == Some(rule@),
            None => rule_of_line(v@.subrange(lo as int, hi as int)) is None,
        },
{
    let ghost s = v@.subrange(lo as int, hi as int);
    let a = find_arrow(v, lo, hi);
    proof {
        lemma_arrow_shift(v@, lo as int, hi as int, lo as int);
    }
    if a >= hi {
        return None;
    }
    let (pat_lo, pat_hi) = trim_bounds(v, lo, a);
    let (rep_lo, rep_hi) = trim_bounds(v, a + 2, hi);
    assert(v@.subrange(lo as int, a as int) =~= s.subrange(0, a - lo));
    assert(v@.subrange(a + 2, hi as int) =~= s.subrange(a + 2 - lo, s.len() as int));
    let pattern = string_of(v, pat_lo, pat_hi);
    let replacement = string_of(v, rep_lo, rep_hi);
    Some(Rule { rule: pattern, replace: replacement })
}

/// Whether the nonempty pattern `p` occurs in `v` at `i`.
fn starts_with_at(v: &Vec<char>, i: usize, p: &Vec<char>) -> (r: bool)
    requires
        i <= v@.len(),
    ensures
        r == (p@.len() > 0 && is_prefix(p@, v@.subrange(i as int, v@.len() as int))),
{
    if p.len() == 0 || p.len() > v.len() - i {
        return false;
    }
    let ghost t = v@.subrange(i as int, v@.len() as int);
    let mut j: usize = 0;
    while j < p.len()
        invariant
            i <= v@.len(),
            0 < p@.len(),
            i + p.len() <= v.len(),
            t == v@.subrange(i as int, v@.len() as int),
            j <= p@.len(),
            forall|m: int| 0 <= m < j ==> v@[i + m] == p@[m],
        decreases p@.len() - j,
    {
        let at: usize = i + j;
        if v[at] != p[j] {
            assert(t.subrange(0, p@.len() as int)[j as int] != p@[j as int]);
            return false;
        }
        j = j + 1;
    }
    assert(t.subrange(0, p@.len() as int) =~= p@);
    true
}

/// The first rule whose pattern, given in `pats`, matches `v` at `i`.
fn first_rule(pats: &Vec<Vec<char>>, v: &Vec<char>, i: usize, rules: Ghost<Seq<RuleModel>>) -> (r:
    Option<usize>)
    requires
        i < v@.len(),
        pats@.len() == rules@.len(),
        forall|j: int| 0 <= j < rules@.len() ==> (#[trigger] pats@[j])@ == rules@[j].0,
    ensures
        match r {
            Some(k) => first_match(rules@, v@.subrange(i as int, v@.len() as int)) == Some(
                k as int,
            ) && k < rules@.len() && 0 < rules@[k as int].0.len() && i + rules@[k as int].0.len()
                <= v@.len(),
            None => first_match(rules@, v@.subrange(i as int, v@.len() as int)) is None,
        },
{
    let ghost t = v@.subrange(i as int, v@.len() as int);
    let mut k: usize = 0;
    while k < pats.len()
        invariant
            i < v@.len(),
            k <= pats@.len() == rules@.len(),
            t == v@.subrange(i as int, v@.len() as int),
            forall|j: int| 0 <= j < rules@.len() ==> (#[trigger] pats@[j])@ == rules@[j].0,
            first_match_from(rules@, t, k as int) == first_match(rules@, t),
        decreases pats@.len() - k,
    {
        if starts_with_at(v, i, &pats[k]) {
            return Some(k);
        }
        k = k + 1;
    }
    None
}

/// Looking for `->` in a window of a longer text gives the same place, shifted.
proof fn lemma_arrow_shift(v: Seq<char>, lo: int, hi: int, i: int)
    requires
        0 <= lo <= i <= hi <= v.len(),
    ensures
        arrow_from(v.subrange(0, hi), i) - lo == arrow_from(v.subrange(lo, hi), i - lo),
    decreases hi - i,
{
    if i + 1 < hi {
        lemma_arrow_shift(v, lo, hi, i + 1);
    }
}

/// An ordered list of rewrite rules; earlier rules take precedence.
#[derive(Clone, Debug, Default, PartialEq)]
pub struct Rules {
    rules: Vec<Rule>,
}

impl View for Rules {
    type V = Seq<RuleModel>;

    closed spec fn view(&self) -> Seq<RuleModel> {
        self.rules@.map_values(|r: Rule| r@)
    }
}

impl Rules {
    /// No rules.
    pub fn new() -> (r: Rules)
        ensures
            r@ == Seq::<RuleModel>::empty(),
    {
        let r = Rules { rules: Vec::new() };
        assert(r@ =~= Seq::<RuleModel>::empty());
        r
    }

    /// The rules of each line of `input` that holds one, in order.
    pub fn parse(input: &str) -> (r: Rules)
        ensures
            r@ == rules_of_lines(lines(input@)),
    {
        let v = chars_of(input);
        let mut r = Rules::new();
        let mut i: usize = 0;
        while i < v.len()
            invariant
                i <= v@.len(),
                v@ == input@,
                rules_of_lines(lines(v@)) == r@ + rules_of_lines(lines_from(v@, i as int)),
            decreases v@.len() - i,
        {
            let (lo, hi, next) = line_at(&v, i);
            let ghost ls = lines_from(v@, i as int);
            assert(ls[0] == v@.subrange(lo as int, hi as int));
            assert(ls.subrange(1, ls.len() as int) =~= lines_from(v@, next as int)) by {
                if line_end(v@, i as int) < v@.len() {
                    assert(ls == seq![ls[0]] + lines_from(v@, next as int));
                } else {
                    assert(ls =~= seq![ls[0]]);
                }
            }
            let ghost before = r@;
            match parse_chars(&v, lo, hi) {
                Some(rule) => {
                    r.push(rule.rule.as_str(), rule.replace.as_str());
                    assert(r@ =~= before.push(rule@));
                    assert(before.push(rule@) + rules_of_lines(lines_from(v@, next as int)) =~= before
                        + rules_of_lines(ls));
                },
                None => {},
            }
            i = next;
        }
        assert(r@ + rules_of_lines(lines_from(v@, i as int)) =~= r@);
        r
    }

    /// Appends a rule, after all others.
    pub fn push(&mut self, rule: &str, replace: &str)
        ensures
            final(self)@ == old(self)@.push((rule@, replace@)),
    {
        self.rules.push(Rule::new(rule, replace));
        assert(self@ =~= old(self)@.push((rule@, replace@)));
    }

    /// One rewriting pass over `input`. At each position the first rule, in list
    /// order, whose pattern starts there writes its replacement; the rest of the
    /// matched characters are then skipped. Characters where no rule matches are
    /// copied.
    pub fn apply(&self, input: &str) -> (r: String)
        ensures
            r@ == rewrite(self@, input@),
    {
        let v = chars_of(input);
        let n = v.len();
        let ghost rules = self@;
        let mut pats: Vec<Vec<char>> = Vec::new();
        let mut reps: Vec<Vec<char>> = Vec::new();
        let mut k: usize = 0;
        while k < self.rules.len()
            invariant
                k <= self.rules@.len(),
                rules == self@,
                pats@.len() == k,
                reps@.len() == k,
                forall|j: int| 0 <= j < k ==> (#[trigger] pats@[j])@ == rules[j].0,
                forall|j: int| 0 <= j < k ==> (#[trigger] reps@[j])@ == rules[j].1,
            decreases self.rules@.len() - k,
        {
            pats.push(chars_of(self.rules[k].rule.as_str()));
            reps.push(chars_of(self.rules[k].replace.as_str()));
            k = k + 1;
        }
        let mut out: Vec<char> = Vec::new();
        assert(v@.subrange(0, n as int) =~= v@);
        assert(out@ + rewrite(rules, v@) =~= rewrite(rules, v@));
        // characters of the last match that are still to be dropped
        let mut skip: usize = 0;
        let mut i: usize = 0;
        while i < n
            invariant
                n == v@.len(),
                v@ == input@,
                rules == self@,
                pats@.len() == rules.len(),
                reps@.len() == rules.len(),
                forall|j: int| 0 <= j < rules.len() ==> (#[trigger] pats@[j])@ == rules[j].0,
                forall|j: int| 0 <= j < rules.len() ==> (#[trigger] reps@[j])@ == rules[j].1,
                i + skip <= n,
                out@ + rewrite(rules, v@.subrange(i + skip, n as int)) == rewrite(rules, v@),
            decreases n - i,
        {
            if skip > 0 {
                skip = skip - 1;
                i = i + 1;
            } else {
                let ghost t = v@.subrange(i as int, n as int);
                let ghost before = out@;
                match first_rule(&pats, &v, i, Ghost(rules)) {
                    Some(k) => {
                        let rep = &reps[k];
                        let mut j: usize = 0;
                        while j < rep.len()
                            invariant
                                j <= rep@.len(),
                                out@ == before + rep@.subrange(0, j as int),
                            decreases rep@.len() - j,
                        {
                            out.push(rep[j]);
                            assert(rep@.subrange(0, j + 1) =~= rep@.subrange(0, j as int).push(
                                rep@[j as int],
                            ));
                            j = j + 1;
                        }
                        assert(rep@.subrange(0, j as int) =~= rep@);
                        skip = pats[k].len() - 1;
                        assert(t.subrange(rules[k as int].0.len() as int, t.len() as int)
                            =~= v@.subrange(i + 1 + skip, n as int));
                    },
                    None => {
                        out.push(v[i]);
                        assert(t.subrange(1, t.len() as int) =~= v@.subrange(i + 1, n as int));
                    },
                }
                i = i + 1;
            }
        }
        assert(rewrite(rules, v@.subrange(i + skip, n as int)) =~= Seq::<char>::empty());
        assert(out@ + Seq::<char>::empty() =~= out@);
        string_of(&out, 0, out.len())
    }

    /// `iterations` rewriting passes, starting from `start`.
    pub fn expand(&self, start: &str, iterations: usize) -> (r: String)
        ensures
            r@ == expand(self@, start@, iterations as nat),
            iterations == 0 ==> r@ == start@,
    {
        let mut s = start.to_string();
        let mut n: usize = 0;
        while n < iterations
            invariant
                n <= iterations,
                s@ == expand(self@, start@, n as nat),
            decreases iterations - n,
        {
            s = self.apply(s.as_str());
            n = n + 1;
        }
        s
    }

    /// The number of rules.
    pub fn len(&self) -> (r: usize)
        ensures
            r == self@.len(),
    {
        self.rules.len()
    }

    /// The rule at `i`.
    pub fn get(&self, i: usize) -> (r: &Rule)
        requires
            i < self@.len(),
        ensures
            r@ == self@[i as int],
    {
        &self.rules[i]
    }
}

} // verus!
