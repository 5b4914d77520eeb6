//! The branch-stack turtle. It lays out a triangle strip for each branch: each
//! forward move adds two vertices and two triangles joined to the branch's
//! trailing edge.
//!
//! Geometry is kept symbolic: a turtle pose (position, heading and scale) is an
//! entry of an arena that names the pose it came from and the instruction that
//! moved it, and a vertex names the pose it stands beside, the branch depth
//! that sets its width, and its side.
use vstd::prelude::*;

use crate::instructions::{views, Command, Instruction};

verus! {

/// The side of the turtle's path a vertex stands on.
#[derive(Clone, Copy, Debug, PartialEq, Eq, Structural)]
pub enum Side {
    Left,
    Right,
}

/// A turtle pose.
#[derive(Clone, Copy, Debug, PartialEq, Eq, Structural)]
pub enum Pose {
    /// At the origin, heading along the reference axis, scale one.
    Origin,
    /// The pose `parent` moved by the instruction at index `instruction`.
    Step { parent: usize, instruction: usize },
}

/// A vertex beside the pose `pose`, half the width of a branch at `depth` away
/// on side `side`.
#[derive(Clone, Copy, Debug, PartialEq, Eq, Structural)]
pub struct VertexPlace {
    pub pose: usize,
    pub depth: usize,
    pub side: Side,
}

/// The state of one branch: its pose and the two vertices of its trailing edge.
#[derive(Clone, Copy, Debug, PartialEq, Eq, Structural)]
pub struct Branch {
    pub pose: usize,
    pub left: u32,
    pub right: u32,
}

/// A mesh laid out by the turtle: poses, vertices, and triangles as runs of
/// three vertex indices.
#[derive(Clone, Debug, PartialEq)]
pub struct MeshPlan {
    pub poses: Vec<Pose>,
    pub vertices: Vec<VertexPlace>,
    pub indices: Vec<u32>,
}

/// The whole turtle state.
pub struct Turtle {
    pub stack: Seq<Branch>,
    pub poses: Seq<Pose>,
    pub vertices: Seq<VertexPlace>,
    pub indices: Seq<u32>,
}

/// One root branch at the origin, whose trailing edge is two seed vertices on
/// either side of the origin.
pub open spec fn initial() -> Turtle {
    Turtle {
        stack: seq![Branch { pose: 0, left: 0, right: 1 }],
        poses: seq![Pose::Origin],
        vertices: seq![
            VertexPlace { pose: 0, depth: 0, side: Side::Left },
            VertexPlace { pose: 0, depth: 0, side: Side::Right },
        ],
        indices: seq![],
    }
}

/// The state after the instruction `c`, found at index `at`, acts on the top
/// branch. Pop never removes the last branch.
pub open spec fn step(t: Turtle, c: Command, at: nat) -> Turtle {
    if t.stack.len() == 0 {
        t
    } else {
        let top = t.stack.len() - 1;
        let b = t.stack[top];
        let moved = Pose::Step { parent: b.pose, instruction: at as usize };
        match c {
            Command::Forward(_) => {
                let n = t.vertices.len();
                let d = t.stack.len() as usize;
                Turtle {
                    stack: t.stack.update(
                        top,
                        Branch { pose: t.poses.len() as usize, left: n as u32, right: (n + 1) as u32 },
                    ),
                    poses: t.poses.push(moved),
                    vertices: t.vertices.push(
                        VertexPlace { pose: b.pose, depth: d, side: Side::Left },
                    ).push(VertexPlace { pose: b.pose, depth: d, side: Side::Right }),
                    indices: t.indices + seq![
                        b.left,
                        b.right,
                        n as u32,
                        b.right,
                        n as u32,
                        (n + 1) as u32,
                    ],
                }
            },
            Command::Turn(_) | Command::Scale(_) => Turtle {
                stack: t.stack.update(top, Branch { pose: t.poses.len() as usize, ..b }),
                poses: t.poses.push(moved),
                ..t
            },
            Command::Push => Turtle { stack: t.stack.push(b), ..t },
            Command::Pop => if t.stack.len() > 1 {
                Turtle { stack: t.stack.drop_last(), ..t }
            } else {
                t
            },
        }
    }
}

/// The state after the commands `cs`, in order, from the initial state.
pub open spec fn run(cs: Seq<Command>) -> Turtle
    decreases cs.len(),
{
    if cs.len() == 0 {
        initial()
    } else {
        step(run(cs.drop_last()), cs.last(), (cs.len() - 1) as nat)
    }
}

/// A forward move adds exactly two vertices and six indices (two triangles).
pub proof fn law_forward_adds_quad(t: Turtle, length: Seq<char>, at: nat)
    requires
        t.stack.len() >= 1,
    ensures
        step(t, Command::Forward(length), at).vertices.len() == t.vertices.len() + 2,
        step(t, Command::Forward(length), at).indices.len() == t.indices.len() + 6,
{
}

/// A push at once followed by a pop leaves the whole state as it was: the top
/// branch's pose (position, heading and scale) and trailing edge included.
pub proof fn law_push_then_pop(t: Turtle, at: nat, next: nat)
    requires
        t.stack.len() >= 1,
    ensures
        step(step(t, Command::Push, at), Command::Pop, next) == t,
{
    assert(t.stack.push(t.stack.last()).drop_last() =~= t.stack);
}

/// A pop on the root branch alone changes nothing.
pub proof fn law_pop_keeps_root(t: Turtle, at: nat)
    requires
        t.stack.len() == 1,
    ensures
        step(t, Command::Pop, at) == t,
{
}

/// Whatever the commands, pops among them included, the root branch is never
/// removed: the stack is never empty, and pushes add what pops take off.
pub proof fn law_stack_never_empty(cs: Seq<Command>)
    ensures
        run(cs).stack.len() >= 1,
    decreases cs.len(),
{
    if cs.len() > 0 {
        law_stack_never_empty(cs.drop_last());
    }
}

/// Every index names a vertex, and every branch's trailing edge names vertices.
pub proof fn law_indices_name_vertices(cs: Seq<Command>)
    requires
        cs.len() < 0x7fff_fff0,
    ensures
        run(cs).vertices.len() <= 2 + 2 * cs.len(),
        forall|i: int|
            0 <= i < run(cs).indices.len() ==> (#[trigger] run(cs).indices[i]) < run(
                cs,
            ).vertices.len(),
        forall|k: int|
            0 <= k < run(cs).stack.len() ==> (#[trigger] run(cs).stack[k]).left < run(
                cs,
            ).vertices.len() && run(cs).stack[k].right < run(cs).vertices.len(),
    decreases cs.len(),
{
    if cs.len() > 0 {
        law_indices_name_vertices(cs.drop_last());
        law_stack_never_empty(cs.drop_last());
        let t = run(cs.drop_last());
        let u = run(cs);
        assert forall|i: int| 0 <= i < u.indices.len() implies (#[trigger] u.indices[i])
            < u.vertices.len() by {
            if i >= t.indices.len() {
                let b = t.stack[t.stack.len() - 1];
                assert(b.left < t.vertices.len());
            }
        }
    }
}

/// The number of forward moves among `cs`.
pub open spec fn forwards(cs: Seq<Command>) -> nat
    decreases cs.len(),
{
    if cs.len() == 0 {
        0
    } else {
        forwards(cs.drop_last()) + if cs.last() is Forward {
            1nat
        } else {
            0nat
        }
    }
}

/// Over a whole run, the mesh has the two seed vertices plus two for each
/// forward move, and six indices for each forward move.
pub proof fn law_forward_count(cs: Seq<Command>)
    ensures
        run(cs).vertices.len() == 2 + 2 * forwards(cs),
        run(cs).indices.len() == 6 * forwards(cs),
    decreases cs.len(),
{
    if cs.len() > 0 {
        law_forward_count(cs.drop_last());
        law_stack_never_empty(cs.drop_last());
    }
}

/// Two states with the same branches, vertices and indices, and as many
/// poses; they differ at most in which instruction each pose records.
pub open spec fn same_shape(t1: Turtle, t2: Turtle) -> bool {
    &&& t1.stack == t2.stack
    &&& t1.vertices == t2.vertices
    &&& t1.indices == t2.indices
    &&& t1.poses.len() == t2.poses.len()
}

proof fn lemma_step_same_shape(t1: Turtle, t2: Turtle, c: Command, i1: nat, i2: nat)
    requires
        same_shape(t1, t2),
    ensures
        same_shape(step(t1, c, i1), step(t2, c, i2)),
{
}

/// Runs that reach states of the same shape keep the same shape under the same
/// further commands.
pub proof fn law_same_shape_suffix(p: Seq<Command>, q: Seq<Command>, b: Seq<Command>)
    requires
        same_shape(run(p), run(q)),
    ensures
        same_shape(run(p + b), run(q + b)),
    decreases b.len(),
{
    if b.len() == 0 {
        assert(p + b =~= p);
        assert(q + b =~= q);
    } else {
        let b1 = b.drop_last();
        law_same_shape_suffix(p, q, b1);
        assert((p + b).drop_last() =~= p + b1);
        assert((q + b).drop_last() =~= q + b1);
        lemma_step_same_shape(
            run(p + b1),
            run(q + b1),
            b.last(),
            (p.len() + b.len() - 1) as nat,
            (q.len() + b.len() - 1) as nat,
        );
    }
}

/// A push at once followed by a pop, anywhere in a command list, leaves the
/// branches, vertices and indices that the run produces as they are without
/// the pair.
pub proof fn law_push_pop_pair(a: Seq<Command>, b: Seq<Command>)
    ensures
        same_shape(run(a + seq![Command::Push, Command::Pop] + b), run(a + b)),
{
    let a2 = a + seq![Command::Push, Command::Pop];
    law_stack_never_empty(a);
    assert(a2.drop_last().drop_last() =~= a);
    assert(a2.drop_last() =~= a.push(Command::Push));
    law_push_then_pop(run(a), a.len(), a.len() + 1);
    assert(run(a2.drop_last()) == step(run(a), Command::Push, a.len()));
    assert(run(a2) == step(run(a2.drop_last()), Command::Pop, a.len() + 1));
    law_same_shape_suffix(a2, a, b);
}

/// Pops before anything else, however many, are ignored: the run makes the
/// same branches, vertices and indices as without them.
pub proof fn law_leading_pops(k: nat, a: Seq<Command>)
    ensures
        same_shape(run(Seq::new(k, |i: int| Command::Pop) + a), run(a)),
    decreases k,
{
    let pops = Seq::new(k, |i: int| Command::Pop);
    if k == 0 {
        assert(pops + a =~= a);
    } else {
        let fewer = Seq::new((k - 1) as nat, |i: int| Command::Pop);
        assert(pops.drop_last() =~= fewer);
        law_leading_pops((k - 1) as nat, seq![]);
        assert(fewer + seq![] =~= fewer);
        assert(Seq::<Command>::empty() + seq![] =~= Seq::<Command>::empty());
        assert(run(Seq::<Command>::empty()).stack.len() == 1);
        assert(run(fewer).stack.len() == 1);
        law_same_shape_suffix(pops, Seq::<Command>::empty(), a);
        assert(Seq::<Command>::empty() + a =~= a);
    }
}

/// The turtle state held by a plan under construction and a branch stack.
pub open spec fn state_of(plan: MeshPlan, stack: Seq<Branch>) -> Turtle {
    Turtle {
        stack,
        poses: plan.poses@,
        vertices: plan.vertices@,
        indices: plan.indices@,
    }
}

/// Applies the instruction found at index `at` to the top branch.
pub fn apply_instruction(
    plan: &mut MeshPlan,
    stack: &mut Vec<Branch>,
    instruction: &Instruction,
    at: usize,
)
    requires
        old(plan).vertices@.len() + 1 <= u32::MAX,
    ensures
        state_of(*final(plan), final(stack)@) == step(
            state_of(*old(plan), old(stack)@),
            instruction@,
            at as nat,
        ),
        old(stack)@.len() >= 1 ==> final(stack)@.len() >= 1,
        old(stack)@.len() >= 1 && instruction@ is Forward ==> final(plan).vertices@.len()
            == old(plan).vertices@.len() + 2 && final(plan).indices@.len()
            == old(plan).indices@.len() + 6,
        old(stack)@.len() == 1 && instruction@ is Pop ==> final(stack)@ == old(stack)@
            && *final(plan) == *old(plan),
{
    let depth = stack.len();
    if depth == 0 {
        return;
    }
    let top = depth - 1;
    let b = stack[top];
    let moved = Pose::Step { parent: b.pose, instruction: at };
    match instruction {
        Instruction::Forward(_) => {
            let n = plan.vertices.len() as u32;
            plan.vertices.push(VertexPlace { pose: b.pose, depth, side: Side::Left });
            plan.vertices.push(VertexPlace { pose: b.pose, depth, side: Side::Right });
            let ghost before = plan.indices@;
            plan.indices.push(b.left);
            plan.indices.push(b.right);
            plan.indices.push(n);
            plan.indices.push(b.right);
            plan.indices.push(n);
            plan.indices.push(n + 1);
            assert(plan.indices@ =~= before + seq![b.left, b.right, n, b.right, n, (n + 1) as u32]);
            let p = plan.poses.len();
            plan.poses.push(moved);
            stack.set(top, Branch { pose: p, left: n, right: n + 1 });
        },
        Instruction::Turn(_) | Instruction::Scale(_) => {
            let p = plan.poses.len();
            plan.poses.push(moved);
            stack.set(top, Branch { pose: p, ..b });
        },
        Instruction::Push => {
            stack.push(b);
        },
        Instruction::Pop => {
            if depth > 1 {
                stack.pop();
            }
        },
    }
}

/// Lays out the mesh for `instructions`, the instruction at index `i` moving
/// poses as `Pose::Step { instruction: i, .. }` records.
pub fn generate_mesh(instructions: &Vec<Instruction>) -> (r: MeshPlan)
    requires
        instructions@.len() < 0x7fff_fff0,
    ensures
        r.poses@ == run(views(instructions@)).poses,
        r.vertices@ == run(views(instructions@)).vertices,
        r.indices@ == run(views(instructions@)).indices,
{
    let mut plan = MeshPlan { poses: Vec::new(), vertices: Vec::new(), indices: Vec::new() };
    plan.poses.push(Pose::Origin);
    plan.vertices.push(VertexPlace { pose: 0, depth: 0, side: Side::Left });
    plan.vertices.push(VertexPlace { pose: 0, depth: 0, side: Side::Right });
    let mut stack: Vec<Branch> = Vec::new();
    stack.push(Branch { pose: 0, left: 0, right: 1 });
    let ghost cs = views(instructions@);
    assert(plan.vertices@ =~= initial().vertices);
    assert(plan.poses@ =~= initial().poses);
    assert(plan.indices@ =~= initial().indices);
    assert(stack@ =~= initial().stack);
    assert(cs.subrange(0, 0) =~= Seq::<Command>::empty());
    let mut i: usize = 0;
    while i < instructions.len()
        invariant
            i <= instructions@.len() < 0x7fff_fff0,
            cs == views(instructions@),
            state_of(plan, stack@) == run(cs.subrange(0, i as int)),
            plan.vertices@.len() <= 2 + 2 * i,
        decreases instructions@.len() - i,
    {
        apply_instruction(&mut plan, &mut stack, &instructions[i], i);
        assert(cs.subrange(0, i + 1).drop_last() =~= cs.subrange(0, i as int));
        i = i + 1;
    }
    assert(cs.subrange(0, i as int) =~= cs);
    plan
}

} // verus!
