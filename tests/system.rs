use lily::system::{parse_iterations, plan_system};

#[test]
fn iterations_parse_digits() {
    assert_eq!(parse_iterations("7"), 7);
    assert_eq!(parse_iterations("+12"), 12);
    assert_eq!(parse_iterations("0042"), 42);
}

#[test]
fn malformed_iterations_are_zero() {
    assert_eq!(parse_iterations(""), 0);
    assert_eq!(parse_iterations("+"), 0);
    assert_eq!(parse_iterations("-1"), 0);
    assert_eq!(parse_iterations(" 3"), 0);
    assert_eq!(parse_iterations("3x"), 0);
    assert_eq!(parse_iterations("99999999999999999999999999"), 0);
}

#[test]
fn pipeline_builds_mesh() {
    let (list, plan) = plan_system("A", "A -> F[F]F", "F = forward 10", 1).unwrap();
    assert_eq!(list.len(), 5);
    // three forwards: seed pair plus three pairs
    assert_eq!(plan.vertices.len(), 8);
    assert_eq!(plan.indices.len(), 18);
    assert_eq!(&plan.indices[12..18], &[2, 3, 6, 3, 6, 7]);
}

#[test]
fn pipeline_with_zero_iterations_uses_start() {
    let (_, plan) = plan_system("FF", "F -> FFF", "F = forward 1", 0).unwrap();
    assert_eq!(plan.vertices.len(), 6);
}

#[test]
fn pipeline_zero_iterations_ignores_rules() {
    let (list, _) = plan_system("F[F]", "F -> FFFF\n[ -> F", "F = forward 2", 0).unwrap();
    assert_eq!(list.len(), 4);
    let (list, _) = plan_system("F[F]", "F -> FFFF\n[ -> F", "F = forward 2", 1).unwrap();
    assert_eq!(list.len(), 10);
}
