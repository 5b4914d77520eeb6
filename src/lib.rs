//! An L-system: string rewriting by ordered rules, a map from symbols to turtle
//! commands, and a branch-stack turtle that lays out a triangle strip mesh.

pub mod instructions;
pub mod number;
pub mod rules;
pub mod system;
pub mod text;
pub mod turtle;

pub use instructions::{Instruction, Instructions};
pub use rules::{Rule, Rules};
pub use system::{parse_iterations, plan_system};
pub use turtle::{generate_mesh, MeshPlan};
