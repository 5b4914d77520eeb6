use lily::instructions::Instruction;
use lily::turtle::{apply_instruction, generate_mesh, Branch, MeshPlan, Pose, Side, VertexPlace};

fn fwd(s: &str) -> Instruction {
    Instruction::Forward(s.to_string())
}

#[test]
fn example_four_single_forward() {
    let plan = generate_mesh(&vec![fwd("10")]);
    assert_eq!(plan.vertices.len(), 4);
    assert_eq!(plan.indices, vec![0, 1, 2, 1, 2, 3]);
    assert_eq!(plan.vertices[0], VertexPlace { pose: 0, depth: 0, side: Side::Left });
    assert_eq!(plan.vertices[3], VertexPlace { pose: 0, depth: 1, side: Side::Right });
    assert_eq!(plan.poses, vec![Pose::Origin, Pose::Step { parent: 0, instruction: 0 }]);
}

#[test]
fn empty_instructions_give_seed_vertices() {
    let plan = generate_mesh(&vec![]);
    assert_eq!(plan.vertices.len(), 2);
    assert!(plan.indices.is_empty());
}

#[test]
fn each_forward_adds_two_vertices_six_indices() {
    for n in 0..5usize {
        let list: Vec<Instruction> = (0..n).map(|_| fwd("1")).collect();
        let plan = generate_mesh(&list);
        assert_eq!(plan.vertices.len(), 2 + 2 * n);
        assert_eq!(plan.indices.len(), 6 * n);
    }
}

#[test]
fn strip_joins_trailing_edge() {
    let plan = generate_mesh(&vec![fwd("1"), Instruction::Turn("30".to_string()), fwd("1")]);
    assert_eq!(plan.indices, vec![0, 1, 2, 1, 2, 3, 2, 3, 4, 3, 4, 5]);
    assert_eq!(plan.vertices[4].pose, 2);
}

#[test]
fn push_then_pop_restores_branch() {
    let plan = generate_mesh(&vec![
        fwd("1"),
        Instruction::Push,
        Instruction::Pop,
        fwd("1"),
    ]);
    let direct = generate_mesh(&vec![fwd("1"), fwd("1")]);
    assert_eq!(plan.indices, direct.indices);
    assert_eq!(plan.poses.len(), direct.poses.len());
    assert_eq!(plan.vertices[4].pose, direct.vertices[4].pose);
}

#[test]
fn pop_returns_to_saved_edge_and_depth() {
    let plan = generate_mesh(&vec![
        fwd("1"),
        Instruction::Push,
        fwd("1"),
        Instruction::Pop,
        fwd("1"),
    ]);
    // the branch drew vertices 4, 5 at depth 2; after the pop the strip goes on from 2, 3
    assert_eq!(plan.vertices[4].depth, 2);
    assert_eq!(plan.vertices[6].depth, 1);
    assert_eq!(&plan.indices[12..18], &[2, 3, 6, 3, 6, 7]);
}

#[test]
fn extra_pops_keep_root() {
    let plan = generate_mesh(&vec![Instruction::Pop, Instruction::Pop, fwd("1")]);
    assert_eq!(plan.vertices.len(), 4);
    assert_eq!(plan.indices, vec![0, 1, 2, 1, 2, 3]);
}

#[test]
fn turn_and_scale_record_poses() {
    let plan = generate_mesh(&vec![
        Instruction::Scale("0.5".to_string()),
        Instruction::Turn("10".to_string()),
    ]);
    assert_eq!(
        plan.poses,
        vec![
            Pose::Origin,
            Pose::Step { parent: 0, instruction: 0 },
            Pose::Step { parent: 1, instruction: 1 }
        ]
    );
    assert_eq!(plan.vertices.len(), 2);
}

#[test]
fn push_pop_pair_inside_list_changes_no_shape() {
    let with_pair = generate_mesh(&vec![
        fwd("1"),
        Instruction::Push,
        Instruction::Turn("5".to_string()),
        Instruction::Push,
        Instruction::Pop,
        fwd("1"),
    ]);
    let without = generate_mesh(&vec![fwd("1"), Instruction::Push, Instruction::Turn("5".to_string()), fwd("1")]);
    assert_eq!(with_pair.vertices, without.vertices);
    assert_eq!(with_pair.indices, without.indices);
    assert_eq!(with_pair.poses.len(), without.poses.len());
}

#[test]
fn leading_pops_change_no_shape() {
    let with_pops = generate_mesh(&vec![Instruction::Pop, Instruction::Pop, Instruction::Pop, fwd("1"), Instruction::Push, fwd("2")]);
    let without = generate_mesh(&vec![fwd("1"), Instruction::Push, fwd("2")]);
    assert_eq!(with_pops.vertices, without.vertices);
    assert_eq!(with_pops.indices, without.indices);
}

#[test]
fn vertex_count_follows_forward_count() {
    let plan = generate_mesh(&vec![
        fwd("1"),
        Instruction::Pop,
        Instruction::Push,
        fwd("1"),
        Instruction::Pop,
        Instruction::Pop,
        fwd("1"),
    ]);
    assert_eq!(plan.vertices.len(), 2 + 2 * 3);
    assert_eq!(plan.indices.len(), 6 * 3);
}

#[test]
fn apply_instruction_steps_one_command() {
    let mut plan = MeshPlan {
        poses: vec![Pose::Origin],
        vertices: vec![
            VertexPlace { pose: 0, depth: 0, side: Side::Left },
            VertexPlace { pose: 0, depth: 0, side: Side::Right },
        ],
        indices: vec![],
    };
    let mut stack = vec![Branch { pose: 0, left: 0, right: 1 }];
    apply_instruction(&mut plan, &mut stack, &Instruction::Pop, 0);
    assert_eq!(stack.len(), 1);
    apply_instruction(&mut plan, &mut stack, &fwd("3"), 1);
    assert_eq!(plan.vertices.len(), 4);
    assert_eq!(plan.indices, vec![0, 1, 2, 1, 2, 3]);
    assert_eq!(stack, vec![Branch { pose: 1, left: 2, right: 3 }]);
    assert_eq!(plan.poses[1], Pose::Step { parent: 0, instruction: 1 });
}
