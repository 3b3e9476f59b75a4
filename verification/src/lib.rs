//! Skill registry with semantic versions, dependency constraints, conflict
//! declarations, a symmetric compatibility matrix and cross-room comparison.

pub mod seq_facts;
pub mod version;
pub mod text;
pub mod dep;
pub mod registry;
pub mod compat;
pub mod sync;

pub use compat::SkillCompat;
pub use dep::{SkillConflict, SkillDep};
pub use registry::RegistryV2;
pub use sync::{NameSet, RegistrySync, SkillsByRoom};
pub use version::SkillVersion;
