//! Skill-tree records, their decoding from a JSON document, and the
//! dependency graph built from them.

pub mod graph;
pub mod json;
pub mod skills;

pub use graph::{build_skill_graph, within_index_limit};
pub use json::JsonValue;
pub use skills::{extract_edges, skill_from_json, skills_from_json, Skill, SkillError, SkillView};
