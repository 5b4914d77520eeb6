//! The whole pipeline: expand a start string, map it to instructions, and lay
//! out the mesh.
use vstd::prelude::*;

use crate::instructions::{commands_of, map_of_lines, views, Command, Instruction, Instructions};
use crate::number::{all_digits, digits_only};
use crate::rules::{expand, rules_of_lines, Rules};
use crate::text::{chars_of, lines};
use crate::turtle::{generate_mesh, run, MeshPlan};

verus! {

/// The value of a string of decimal digits.
pub open spec fn digits_value(s: Seq<char>) -> nat
    decreases s.len(),
{
    if s.len() == 0 {
        0
    } else {
        digits_value(s.drop_last()) * 10 + (s.last() as u32 - '0' as u32) as nat
    }
}

/// An iteration count: decimal digits, with an optional leading `+`, whose
/// value fits in `usize`. Anything else counts as zero.
pub open spec fn iterations_of(s: Seq<char>) -> nat {
    let d = s.subrange(if s.len() > 0 && s[0] == '+' { 1 } else { 0 }, s.len() as int);
    if d.len() > 0 && all_digits(d) && digits_value(d) <= usize::MAX {
        digits_value(d)
    } else {
        0
    }
}

proof fn lemma_value_grows(s: Seq<char>, j: int)
    requires
        0 <= j <= s.len(),
        all_digits(s),
    ensures
        digits_value(s.subrange(0, j)) <= digits_value(s),
    decreases s.len(),
{
    if j == s.len() {
        assert(s.subrange(0, j) =~= s);
    } else {
        let t = s.drop_last();
        assert(all_digits(t)) by {
            assert forall|i: int| 0 <= i < t.len() implies crate::number::is_digit(
                #[trigger] t[i],
            ) by {
                assert(t[i] == s[i]);
            }
        }
        lemma_value_grows(t, j);
        assert(t.subrange(0, j) =~= s.subrange(0, j));
        assert(crate::number::is_digit(s[s.len() - 1]));
    }
}

/// The iteration count written in `text`; zero where it is not one.
pub fn parse_iterations(text: &str) -> (r: usize)
    ensures
        r == iterations_of(text@),
{
    let v = chars_of(text);
    let start: usize = if v.len() > 0 && v[0] == '+' {
        1
    } else {
        0
    };
    let n = v.len();
    let ghost d = v@.subrange(start as int, n as int);
    if start >= n || !digits_only(&v, start, n) {
        return 0;
    }
    let mut value: usize = 0;
    let mut i = start;
    while i < n
        invariant
            start <= i <= n == v@.len(),
            v@ == text@,
            start == (if v@.len() > 0 && v@[0] == '+' { 1int } else { 0int }),
            d == v@.subrange(start as int, n as int),
            all_digits(d),
            value == digits_value(d.subrange(0, i - start)),
        decreases n - i,
    {
        assert(d[i - start] == v@[i as int]);
        let digit = (v[i] as u32 - '0' as u32) as usize;
        assert(d.subrange(0, i + 1 - start).drop_last() =~= d.subrange(0, i - start));
        assert(d.subrange(0, i + 1 - start).last() == v@[i as int]);
        assert(crate::number::is_digit(d[i - start]));
        assert(digit <= 9);
        assert(digits_value(d.subrange(0, i + 1 - start)) == value * 10 + digit);
        if value > (usize::MAX - digit) / 10 {
            proof {
                let m = usize::MAX - digit;
                assert(value * 10 + digit > usize::MAX) by (nonlinear_arith)
                    requires
                        value > m / 10,
                        m == usize::MAX - digit,
                        0 <= digit <= 9,
                ;
                lemma_value_grows(d, i + 1 - start);
                assert(digits_value(d) > usize::MAX);
            }
            return 0;
        }
        value = value * 10 + digit;
        i = i + 1;
    }
    assert(d.subrange(0, n - start) =~= d);
    value
}

/// The map given by the instruction text, with `[` bound to push and `]` to
/// pop.
pub open spec fn instruction_map(instructions: Seq<char>) -> Map<char, Command> {
    map_of_lines(lines(instructions)).insert('[', Command::Push).insert(']', Command::Pop)
}

/// The commands that the pipeline hands to the turtle.
pub open spec fn system_commands(
    start: Seq<char>,
    rules: Seq<char>,
    instructions: Seq<char>,
    iterations: nat,
) -> Seq<Command> {
    commands_of(
        instruction_map(instructions),
        expand(rules_of_lines(lines(rules)), start, iterations),
    )
}

/// Expands `start` by `iterations` passes of the rules written in `rules`,
/// maps the result to the instructions written in `instructions` (with `[` and
/// `]` bound to push and pop) and lays out the mesh. Gives the instructions
/// with the mesh, or `None` where there are too many instructions for 32-bit
/// vertex indices.
pub fn plan_system(start: &str, rules: &str, instructions: &str, iterations: usize) -> (r: Option<
    (Vec<Instruction>, MeshPlan),
>)
    ensures
        ({
            let cs = system_commands(start@, rules@, instructions@, iterations as nat);
            match r {
                Some((list, plan)) => cs.len() < 0x7fff_fff0 && views(list@) == cs && plan.poses@
                    == run(cs).poses && plan.vertices@ == run(cs).vertices && plan.indices@ == run(
                    cs,
                ).indices && (iterations == 0 ==> views(list@) == commands_of(
                    instruction_map(instructions@),
                    start@,
                )),
                None => cs.len() >= 0x7fff_fff0,
            }
        }),
{
    let rs = Rules::parse(rules);
    let grown = rs.expand(start, iterations);
    let map = Instructions::parse_with_brackets(instructions);
    let list = map.apply(grown.as_str());
    proof {
        assert(views(list@).len() == list@.len());
    }
    if list.len() >= 0x7fff_fff0 {
        return None;
    }
    assert(expand(rules_of_lines(lines(rules@)), start@, 0) == start@);
    let plan = generate_mesh(&list);
    Some((list, plan))
}

} // verus!
