use std::collections::HashSet;
use ternary_registry_v2::{RegistrySync, RegistryV2, SkillCompat, SkillConflict, SkillDep, SkillVersion};

#[test]
fn test_version_parse() {
    let v = SkillVersion::parse("1.2.3").unwrap();
    assert_eq!(v, SkillVersion::new(1, 2, 3));
    assert!(SkillVersion::parse("invalid").is_none());
    assert!(SkillVersion::parse("1.2").is_none());
}

#[test]
fn test_version_display() {
    let v = SkillVersion::new(2, 1, 0);
    assert_eq!(v.to_string(), "2.1.0");
}

#[test]
fn test_version_compatible() {
    let v1 = SkillVersion::new(1, 0, 0);
    let v2 = SkillVersion::new(1, 5, 3);
    let v3 = SkillVersion::new(2, 0, 0);
    assert!(v1.is_compatible_with(&v2));
    assert!(!v1.is_compatible_with(&v3));
}

#[test]
fn test_version_newer() {
    let v1 = SkillVersion::new(1, 0, 0);
    let v2 = SkillVersion::new(1, 0, 1);
    let v3 = SkillVersion::new(2, 0, 0);
    assert!(v2.is_newer_than(&v1));
    assert!(v3.is_newer_than(&v1));
    assert!(!v1.is_newer_than(&v2));
}

#[test]
fn test_dep_satisfied() {
    let dep = SkillDep::required("foo").with_min_version(SkillVersion::new(1, 0, 0));
    assert!(dep.is_satisfied_by(&SkillVersion::new(1, 5, 0)));
    assert!(dep.is_satisfied_by(&SkillVersion::new(1, 0, 0)));
    assert!(!dep.is_satisfied_by(&SkillVersion::new(0, 9, 9)));
}

#[test]
fn test_dep_with_max() {
    let dep = SkillDep::required("bar")
        .with_min_version(SkillVersion::new(1, 0, 0))
        .with_max_version(SkillVersion::new(2, 0, 0));
    assert!(dep.is_satisfied_by(&SkillVersion::new(1, 5, 0)));
    assert!(!dep.is_satisfied_by(&SkillVersion::new(2, 1, 0)));
}

#[test]
fn test_dep_optional() {
    let dep = SkillDep::optional("opt");
    assert!(dep.optional);
}

#[test]
fn test_registry_register_and_query() {
    let mut reg = RegistryV2::new();
    reg.register("skill-a", SkillVersion::new(1, 0, 0), vec![]);
    reg.register("skill-b", SkillVersion::new(2, 3, 1), vec![]);
    assert_eq!(reg.skill_count(), 2);
    assert_eq!(reg.version_of("skill-a"), Some(SkillVersion::new(1, 0, 0)));
    assert_eq!(reg.version_of("unknown"), None);
}

#[test]
fn test_registry_deprecate() {
    let mut reg = RegistryV2::new();
    reg.register("old", SkillVersion::new(0, 1, 0), vec![]);
    assert!(reg.deprecate("old"));
    assert!(reg.is_deprecated("old"));
    assert!(!reg.deprecate("nonexistent"));
}

#[test]
fn test_registry_check_deps_ok() {
    let mut reg = RegistryV2::new();
    reg.register("base", SkillVersion::new(1, 0, 0), vec![]);
    reg.register(
        "consumer",
        SkillVersion::new(1, 0, 0),
        vec![SkillDep::required("base")],
    );
    assert!(reg.check_dependencies("consumer").is_ok());
}

#[test]
fn test_registry_check_deps_missing() {
    let mut reg = RegistryV2::new();
    reg.register(
        "consumer",
        SkillVersion::new(1, 0, 0),
        vec![SkillDep::required("missing")],
    );
    assert!(reg.check_dependencies("consumer").is_err());
}

#[test]
fn test_registry_check_deps_version_mismatch() {
    let mut reg = RegistryV2::new();
    reg.register("base", SkillVersion::new(1, 0, 0), vec![]);
    reg.register(
        "consumer",
        SkillVersion::new(1, 0, 0),
        vec![SkillDep::required("base").with_min_version(SkillVersion::new(2, 0, 0))],
    );
    assert!(reg.check_dependencies("consumer").is_err());
}

#[test]
fn test_conflict_detection() {
    let mut reg = RegistryV2::new();
    reg.register("a", SkillVersion::new(1, 0, 0), vec![]);
    reg.register("b", SkillVersion::new(1, 0, 0), vec![]);
    reg.declare_conflict(SkillConflict::new("a", "b", "incompatible APIs"));
    assert!(!reg.can_coexist("a", "b"));
    assert_eq!(reg.conflicts_for("a").len(), 1);
}

#[test]
fn test_no_conflict() {
    let reg = RegistryV2::new();
    assert!(reg.can_coexist("x", "y"));
}

#[test]
fn test_compat_matrix() {
    let mut cm = SkillCompat::new();
    cm.set("a", "b", true);
    cm.set("a", "c", false);
    assert!(cm.is_compatible("a", "b"));
    assert!(!cm.is_compatible("a", "c"));
    assert!(cm.is_compatible("b", "c")); // no entry, assumed compatible
}

#[test]
fn test_compat_incompatible_with() {
    let mut cm = SkillCompat::new();
    cm.set("a", "b", false);
    cm.set("a", "c", false);
    let incompat: HashSet<&str> = cm.incompatible_with("a").into_iter().collect();
    assert_eq!(incompat.len(), 2);
    assert!(incompat.contains("b"));
    assert!(incompat.contains("c"));
}

#[test]
fn test_sync_common_skills() {
    let mut sync = RegistrySync::new();
    let mut r1 = RegistryV2::new();
    r1.register("shared", SkillVersion::new(1, 0, 0), vec![]);
    r1.register("only-r1", SkillVersion::new(1, 0, 0), vec![]);
    let mut r2 = RegistryV2::new();
    r2.register("shared", SkillVersion::new(1, 0, 0), vec![]);
    r2.register("only-r2", SkillVersion::new(1, 0, 0), vec![]);
    sync.add_room("r1", r1);
    sync.add_room("r2", r2);
    let common = sync.common_skills();
    assert!(common.contains("shared"));
    assert!(!common.contains("only-r1"));
}

#[test]
fn test_sync_version_mismatches() {
    let mut sync = RegistrySync::new();
    let mut r1 = RegistryV2::new();
    r1.register("skill", SkillVersion::new(1, 0, 0), vec![]);
    let mut r2 = RegistryV2::new();
    r2.register("skill", SkillVersion::new(2, 0, 0), vec![]);
    sync.add_room("r1", r1);
    sync.add_room("r2", r2);
    let mismatches = sync.version_mismatches();
    assert_eq!(mismatches.len(), 1);
    assert_eq!(mismatches[0].0, "skill");
}

#[test]
fn test_sync_unique_skills() {
    let mut sync = RegistrySync::new();
    let mut r1 = RegistryV2::new();
    r1.register("unique-to-r1", SkillVersion::new(1, 0, 0), vec![]);
    let mut r2 = RegistryV2::new();
    r2.register("unique-to-r2", SkillVersion::new(1, 0, 0), vec![]);
    sync.add_room("r1", r1);
    sync.add_room("r2", r2);
    let unique = sync.unique_skills();
    assert!(unique.contains_key("r1"));
    assert!(unique.contains_key("r2"));
}

#[test]
fn test_sync_no_rooms() {
    let sync = RegistrySync::new();
    assert!(sync.common_skills().is_empty());
    assert_eq!(sync.room_count(), 0);
}

#[test]
fn test_conflict_involves() {
    let c = SkillConflict::new("a", "b", "reason");
    assert!(c.involves("a"));
    assert!(c.involves("b"));
    assert!(!c.involves("c"));
}
