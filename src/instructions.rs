//! Turtle commands and the map from symbols to them.
use vstd::prelude::*;

use crate::number::{is_number, is_number_text};
use crate::text::{chars_of, line_at, line_end, lines, lines_from, string_of, word_bounds, words, spells};

verus! {

/// A turtle command. Numeric arguments are kept as the text they were written
/// in, which follows the syntax of `number::is_number`.
#[derive(Clone, Debug, PartialEq)]
pub enum Instruction {
    /// Move forward by a length, scaled by the branch's scale.
    Forward(String),
    /// Turn by an angle in degrees.
    Turn(String),
    /// Multiply the branch's scale by a factor.
    Scale(String),
    /// Start a branch as a copy of the current one.
    Push,
    /// Return to the branch below the current one.
    Pop,
}

/// What an instruction is, with its argument as characters.
pub enum Command {
    Forward(Seq<char>),
    Turn(Seq<char>),
    Scale(Seq<char>),
    Push,
    Pop,
}

impl View for Instruction {
    type V = Command;

    open spec fn view(&self) -> Command {
        match self {
            Instruction::Forward(a) => Command::Forward(a@),
            Instruction::Turn(a) => Command::Turn(a@),
            Instruction::Scale(a) => Command::Scale(a@),
            Instruction::Push => Command::Push,
            Instruction::Pop => Command::Pop,
        }
    }
}

impl Instruction {
    /// A copy of the instruction.
    pub fn copy(&self) -> (r: Instruction)
        ensures
            r@ == self@,
    {
        match self {
            Instruction::Forward(a) => Instruction::Forward(a.clone()),
            Instruction::Turn(a) => Instruction::Turn(a.clone()),
            Instruction::Scale(a) => Instruction::Scale(a.clone()),
            Instruction::Push => Instruction::Push,
            Instruction::Pop => Instruction::Pop,
        }
    }
}

/// The command named by `word` with the words after it: `forward`, `turn` and
/// `scale` take a number, `push` and `pop` nothing; extra words are ignored.
pub open spec fn command_of(word: Seq<char>, rest: Seq<Seq<char>>) -> Option<Command> {
    let numeric = rest.len() > 0 && is_number(rest[0]);
    if word == "forward"@ {
        if numeric { Some(Command::Forward(rest[0])) } else { None }
    } else if word == "turn"@ {
        if numeric { Some(Command::Turn(rest[0])) } else { None }
    } else if word == "scale"@ {
        if numeric { Some(Command::Scale(rest[0])) } else { None }
    } else if word == "push"@ {
        Some(Command::Push)
    } else if word == "pop"@ {
        Some(Command::Pop)
    } else {
        None
    }
}

/// A line `<symbol> = <command> [<argument>]`: the symbol is the first
/// character of the first word.
pub open spec fn instruction_of_line(line: Seq<char>) -> Option<(char, Command)> {
    let w = words(line);
    if w.len() >= 3 && w[0].len() > 0 && w[1] == "="@ {
        match command_of(w[2], w.subrange(3, w.len() as int)) {
            Some(c) => Some((w[0][0], c)),
            None => None,
        }
    } else {
        None
    }
}

/// The map given by the lines, in order; a later line for a symbol wins.
pub open spec fn map_of_lines(ls: Seq<Seq<char>>) -> Map<char, Command>
    decreases ls.len(),
{
    if ls.len() == 0 {
        Map::empty()
    } else {
        let m = map_of_lines(ls.drop_last());
        match instruction_of_line(ls.last()) {
            Some((c, cmd)) => m.insert(c, cmd),
            None => m,
        }
    }
}

/// The commands for the symbols of `s`, in order; symbols without one are
/// skipped.
pub open spec fn commands_of(m: Map<char, Command>, s: Seq<char>) -> Seq<Command>
    decreases s.len(),
{
    if s.len() == 0 {
        seq![]
    } else {
        let rest = commands_of(m, s.drop_last());
        if m.contains_key(s.last()) {
            rest.push(m[s.last()])
        } else {
            rest
        }
    }
}

/// The views of a list of instructions.
pub open spec fn views(s: Seq<Instruction>) -> Seq<Command> {
    s.map_values(|i: Instruction| i@)
}

/// The map held by a list of entries with distinct symbols.
pub open spec fn map_of_entries(es: Seq<(char, Instruction)>) -> Map<char, Command>
    decreases es.len(),
{
    if es.len() == 0 {
        Map::empty()
    } else {
        map_of_entries(es.drop_last()).insert(es.last().0, es.last().1@)
    }
}

pub open spec fn distinct_symbols(es: Seq<(char, Instruction)>) -> bool {
    forall|i: int, j: int| 0 <= i < j < es.len() ==> (#[trigger] es[i]).0 != (#[trigger] es[j]).0
}

proof fn lemma_in_dom(es: Seq<(char, Instruction)>, i: int)
    requires
        0 <= i < es.len(),
    ensures
        map_of_entries(es).contains_key(es[i].0),
    decreases es.len(),
{
    if i < es.len() - 1 {
        lemma_in_dom(es.drop_last(), i);
    }
}

proof fn lemma_last(es: Seq<(char, Instruction)>, i: int)
    requires
        0 <= i < es.len(),
        forall|j: int| i < j < es.len() ==> (#[trigger] es[j]).0 != es[i].0,
    ensures
        map_of_entries(es).contains_key(es[i].0),
        map_of_entries(es)[es[i].0] == es[i].1@,
    decreases es.len(),
{
    if i < es.len() - 1 {
        assert(es.last() == es[es.len() - 1]);
        lemma_last(es.drop_last(), i);
    }
}

proof fn lemma_in_entries(es: Seq<(char, Instruction)>, c: char)
    requires
        map_of_entries(es).contains_key(c),
    ensures
        exists|j: int| 0 <= j < es.len() && (#[trigger] es[j]).0 == c,
    decreases es.len(),
{
    if es.last().0 != c {
        lemma_in_entries(es.drop_last(), c);
        let j = choose|j: int| 0 <= j < es.len() - 1 && (#[trigger] es.drop_last()[j]).0 == c;
        assert(es[j].0 == c);
    } else {
        assert(es[es.len() - 1].0 == c);
    }
}

proof fn lemma_absent(es: Seq<(char, Instruction)>, c: char)
    requires
        forall|i: int| 0 <= i < es.len() ==> (#[trigger] es[i]).0 != c,
    ensures
        !map_of_entries(es).contains_key(c),
    decreases es.len(),
{
    if es.len() > 0 {
        lemma_absent(es.drop_last(), c);
    }
}

proof fn lemma_replace(es: Seq<(char, Instruction)>, i: int, e: (char, Instruction))
    requires
        distinct_symbols(es),
        0 <= i < es.len(),
        es[i].0 == e.0,
    ensures
        map_of_entries(es.update(i, e)) == map_of_entries(es).insert(e.0, e.1@),
    decreases es.len(),
{
    let n = es.len() - 1;
    if i == n {
        assert(es.update(i, e).drop_last() =~= es.drop_last());
        assert(map_of_entries(es.update(i, e)) =~= map_of_entries(es).insert(e.0, e.1@));
    } else {
        assert(es.update(i, e).drop_last() =~= es.drop_last().update(i, e));
        lemma_replace(es.drop_last(), i, e);
        assert(es[n].0 != e.0);
        assert(map_of_entries(es.update(i, e)) =~= map_of_entries(es).insert(e.0, e.1@));
    }
}

/// A map from symbols to instructions; each symbol has at most one.
#[derive(Clone, Debug, Default)]
pub struct Instructions {
    entries: Vec<(char, Instruction)>,
}

impl View for Instructions {
    type V = Map<char, Command>;

    closed spec fn view(&self) -> Map<char, Command> {
        map_of_entries(self.entries@)
    }
}

impl Instructions {
    /// Holds when each symbol has one entry.
    pub closed spec fn wf(&self) -> bool {
        distinct_symbols(self.entries@)
    }

    /// The empty map.
    pub fn new() -> (r: Instructions)
        ensures
            r.wf(),
            r@ == Map::<char, Command>::empty(),
    {
        Instructions { entries: Vec::new() }
    }

    /// Binds `c` to `instruction`, replacing what `c` had.
    pub fn insert(&mut self, c: char, instruction: Instruction)
        requires
            old(self).wf(),
        ensures
            final(self).wf(),
            final(self)@ == old(self)@.insert(c, instruction@),
    {
        let ghost es = self.entries@;
        let ghost e = (c, instruction);
        let mut i: usize = 0;
        while i < self.entries.len()
            invariant
                i <= self.entries@.len(),
                self.entries@ == es,
                e == (c, instruction),
                es == old(self).entries@,
                distinct_symbols(es),
                forall|j: int| 0 <= j < i ==> (#[trigger] es[j]).0 != c,
            decreases self.entries@.len() - i,
        {
            if self.entries[i].0 == c {
                proof {
                    lemma_replace(es, i as int, e);
                }
                self.entries.set(i, (c, instruction));
                assert(self.entries@ == es.update(i as int, e));
                assert(distinct_symbols(self.entries@));
                return;
            }
            i = i + 1;
        }
        self.entries.push((c, instruction));
        assert(self.entries@.drop_last() =~= es);
    }

    /// The instruction bound to `c`.
    pub fn get(&self, c: char) -> (r: Option<&Instruction>)
        ensures
            match r {
                Some(x) => self@.contains_key(c) && self@[c] == x@,
                None => !self@.contains_key(c),
            },
    {
        let mut i: usize = self.entries.len();
        while i > 0
            invariant
                i <= self.entries@.len(),
                forall|j: int| i <= j < self.entries@.len() ==> (#[trigger] self.entries@[j]).0 != c,
            decreases i,
        {
            i = i - 1;
            if self.entries[i].0 == c {
                proof {
                    lemma_last(self.entries@, i as int);
                }
                return Some(&self.entries[i].1);
            }
        }
        proof {
            lemma_absent(self.entries@, c);
        }
        None
    }

    /// Whether every symbol bound in `self` is bound to the same instruction in
    /// `other`.
    fn bindings_within(&self, other: &Instructions) -> (r: bool)
        ensures
            r == (forall|c: char|
                #[trigger] self@.contains_key(c) ==> other@.contains_key(c) && other@[c]
                    == self@[c]),
    {
        let mut i: usize = 0;
        while i < self.entries.len()
            invariant
                i <= self.entries@.len(),
                forall|j: int|
                    0 <= j < i ==> other@.contains_key((#[trigger] self.entries@[j]).0)
                        && other@[self.entries@[j].0] == self@[self.entries@[j].0],
            decreases self.entries@.len() - i,
        {
            let c = self.entries[i].0;
            let mine = self.get(c);
            let theirs = other.get(c);
            proof {
                lemma_in_dom(self.entries@, i as int);
            }
            match (mine, theirs) {
                (Some(x), Some(y)) => {
                    if !same_instruction(x, y) {
                        assert(self@.contains_key(c));
                        return false;
                    }
                },
                _ => {
                    assert(self@.contains_key(c));
                    return false;
                },
            }
            i = i + 1;
        }
        proof {
            assert forall|c: char| #[trigger] self@.contains_key(c) implies other@.contains_key(c)
                && other@[c] == self@[c] by {
                lemma_in_entries(self.entries@, c);
                let j = choose|j: int| 0 <= j < self.entries@.len() && (#[trigger] self.entries@[j]).0 == c;
                assert(self.entries@[j].0 == c);
                assert(other@.contains_key(self.entries@[j].0));
            }
        }
        true
    }

    /// The instructions for the symbols of `input`, in order; symbols without
    /// one are skipped.
    pub fn apply(&self, input: &str) -> (r: Vec<Instruction>)
        ensures
            views(r@) == commands_of(self@, input@),
    {
        let v = chars_of(input);
        let mut out: Vec<Instruction> = Vec::new();
        let mut i: usize = 0;
        while i < v.len()
            invariant
                i <= v@.len(),
                v@ == input@,
                views(out@) == commands_of(self@, v@.subrange(0, i as int)),
            decreases v@.len() - i,
        {
            let ghost before = out@;
            assert(v@.subrange(0, i + 1).drop_last() =~= v@.subrange(0, i as int));
            match self.get(v[i]) {
                Some(x) => {
                    out.push(x.copy());
                    assert(views(out@) =~= views(before).push(x@));
                },
                None => {},
            }
            i = i + 1;
        }
        assert(v@.subrange(0, i as int) =~= v@);
        out
    }

    /// The map given by the lines of `input` that hold an instruction; a later
    /// line for a symbol wins.
    pub fn parse(input: &str) -> (r: Instructions)
        ensures
            r.wf(),
            r@ == map_of_lines(lines(input@)),
    {
        let v = chars_of(input);
        let mut r = Instructions::new();
        let ghost mut done: Seq<Seq<char>> = seq![];
        let mut i: usize = 0;
        while i < v.len()
            invariant
                i <= v@.len(),
                v@ == input@,
                r.wf(),
                done + lines_from(v@, i as int) == lines(v@),
                r@ == map_of_lines(done),
            decreases v@.len() - i,
        {
            let (lo, hi, next) = line_at(&v, i);
            let ghost ls = lines_from(v@, i as int);
            assert(ls[0] == v@.subrange(lo as int, hi as int));
            assert(ls =~= seq![ls[0]] + lines_from(v@, next as int)) by {
                if line_end(v@, i as int) >= v@.len() {
                    assert(lines_from(v@, next as int) =~= Seq::<Seq<char>>::empty());
                }
            }
            match parse_line(&v, lo, hi) {
                Some((c, ins)) => {
                    r.insert(c, ins);
                },
                None => {},
            }
            proof {
                let d2 = done.push(ls[0]);
                assert(d2.drop_last() =~= done);
                assert(d2 + lines_from(v@, next as int) =~= done + ls);
                done = d2;
            }
            i = next;
        }
        assert(done + lines_from(v@, i as int) =~= done);
        r
    }

    /// The map of `input`, with `[` bound to `Push` and `]` to `Pop` whatever
    /// `input` says of them.
    pub fn parse_with_brackets(input: &str) -> (r: Instructions)
        ensures
            r.wf(),
            r@ == map_of_lines(lines(input@)).insert('[', Command::Push).insert(']', Command::Pop),
    {
        let mut r = Instructions::parse(input);
        r.insert('[', Instruction::Push);
        r.insert(']', Instruction::Pop);
        r
    }
}

impl PartialEq for Instructions {
    fn eq(&self, other: &Instructions) -> (r: bool) {
        let r = self.bindings_within(other) && other.bindings_within(self);
        proof {
            if r {
                assert(self@ =~= other@);
            }
        }
        r
    }
}

impl vstd::std_specs::cmp::PartialEqSpecImpl for Instructions {
    open spec fn obeys_eq_spec() -> bool {
        true
    }

    open spec fn eq_spec(&self, other: &Instructions) -> bool {
        self@ == other@
    }
}

/// Whether two instructions are the same command with the same argument.
fn same_instruction(a: &Instruction, b: &Instruction) -> (r: bool)
    ensures
        r == (a@ == b@),
{
    match (a, b) {
        (Instruction::Forward(x), Instruction::Forward(y)) => x.eq(y),
        (Instruction::Turn(x), Instruction::Turn(y)) => x.eq(y),
        (Instruction::Scale(x), Instruction::Scale(y)) => x.eq(y),
        (Instruction::Push, Instruction::Push) => true,
        (Instruction::Pop, Instruction::Pop) => true,
        _ => false,
    }
}

/// Parses the instruction line `v[lo..hi]`.
fn parse_line(v: &Vec<char>, lo: usize, hi: usize) -> (r: Option<(char, Instruction)>)
    requires
        lo <= hi <= v@.len(),
    ensures
        match r {
            Some((c, ins)) => instruction_of_line(v@.subrange(lo as int, hi as int)) == Some(
                (c, ins@),
            ),
            None => instruction_of_line(v@.subrange(lo as int, hi as int)) is None,
        },
{
    let ghost w = words(v@.subrange(lo as int, hi as int));
    let b = word_bounds(v, lo, hi);
    if b.len() < 3 {
        return None;
    }
    let (k0, k1) = b[0];
    let (e0, e1) = b[1];
    let (c0, c1) = b[2];
    assert(w[0] == v@.subrange(k0 as int, k1 as int));
    assert(w[1] == v@.subrange(e0 as int, e1 as int));
    assert(w[2] == v@.subrange(c0 as int, c1 as int));
    if k0 >= k1 || !spells(v, e0, e1, "=") {
        return None;
    }
    let c = v[k0];
    assert(w[0][0] == c);
    let ghost rest = w.subrange(3, w.len() as int);
    let numeric = if b.len() > 3 {
        let (a0, a1) = b[3];
        assert(rest[0] == v@.subrange(a0 as int, a1 as int));
        is_number_text(v, a0, a1)
    } else {
        false
    };
    let ins = if spells(v, c0, c1, "forward") || spells(v, c0, c1, "turn") || spells(
        v,
        c0,
        c1,
        "scale",
    ) {
        if !numeric {
            return None;
        }
        let (a0, a1) = b[3];
        assert(rest[0] == v@.subrange(a0 as int, a1 as int));
        let arg = string_of(v, a0, a1);
        if spells(v, c0, c1, "forward") {
            Instruction::Forward(arg)
        } else if spells(v, c0, c1, "turn") {
            Instruction::Turn(arg)
        } else {
            Instruction::Scale(arg)
        }
    } else if spells(v, c0, c1, "push") {
        Instruction::Push
    } else if spells(v, c0, c1, "pop") {
        Instruction::Pop
    } else {
        return None;
    };
    Some((c, ins))
}

} // verus!
