use lily::instructions::{Instruction, Instructions};

fn fwd(s: &str) -> Instruction {
    Instruction::Forward(s.to_string())
}

#[test]
fn example_three_commands() {
    let map = Instructions::parse("F = forward 10\n[ = push\n] = pop");
    assert_eq!(
        map.apply("F[F]F"),
        vec![fwd("10"), Instruction::Push, fwd("10"), Instruction::Pop, fwd("10")]
    );
}

#[test]
fn unmapped_symbols_are_skipped() {
    let map = Instructions::parse("F = forward 1");
    assert_eq!(map.apply("XFYF"), vec![fwd("1"), fwd("1")]);
}

#[test]
fn empty_map_gives_no_commands() {
    assert!(Instructions::new().apply("F[F]").is_empty());
}

#[test]
fn all_command_words_parse() {
    let map = Instructions::parse("F = forward 2.5\n+ = turn -25\nS = scale 0.5\n[ = push\n] = pop");
    assert_eq!(
        map.apply("F+S[]"),
        vec![
            fwd("2.5"),
            Instruction::Turn("-25".to_string()),
            Instruction::Scale("0.5".to_string()),
            Instruction::Push,
            Instruction::Pop
        ]
    );
}

#[test]
fn bad_lines_are_dropped() {
    let map = Instructions::parse(
        "F forward 10\nG = jump 3\nH = forward\nI = forward ten\nJ = turn 1.5.2\nK = scale .5",
    );
    assert_eq!(map.apply("FGHIJK"), vec![Instruction::Scale(".5".to_string())]);
}

#[test]
fn number_forms_are_accepted() {
    let map = Instructions::parse("a = forward 1e3\nb = forward +2.\nc = forward -INF\nd = forward NaN\ne = forward 1e\nf = forward .");
    assert_eq!(
        map.apply("abcdef"),
        vec![fwd("1e3"), fwd("+2."), fwd("-INF"), fwd("NaN")]
    );
}

#[test]
fn last_line_for_a_symbol_wins() {
    let map = Instructions::parse("F = forward 1\nF = forward 2\nF = bogus 3");
    assert_eq!(map.apply("F"), vec![fwd("2")]);
}

#[test]
fn brackets_are_reserved() {
    let map = Instructions::parse_with_brackets("[ = forward 1\n] = turn 3\nF = forward 4");
    assert_eq!(map.apply("[F]"), vec![Instruction::Push, fwd("4"), Instruction::Pop]);
}

#[test]
fn insert_replaces_binding() {
    let mut map = Instructions::new();
    map.insert('x', Instruction::Push);
    map.insert('x', Instruction::Pop);
    assert_eq!(map.get('x'), Some(&Instruction::Pop));
    assert_eq!(map.get('y'), None);
}

#[test]
fn symbol_is_first_character_of_first_word() {
    let map = Instructions::parse("  Fx   =   forward   3   extra");
    assert_eq!(map.apply("F"), vec![fwd("3")]);
}

#[test]
fn maps_compare_by_bindings() {
    let a = Instructions::parse("F = forward 1\n+ = turn 5");
    let b = Instructions::parse("+ = turn 5\nF = forward 1");
    let c = Instructions::parse("+ = turn 6\nF = forward 1");
    let d = Instructions::parse("F = forward 1");
    assert!(a == b);
    assert!(a != c);
    assert!(a != d);
    assert!(d != a);
    assert!(Instructions::new() == Instructions::parse("junk"));
}
