use std::collections::HashSet;
use ternary_registry_v2::{RegistrySync, RegistryV2, SkillCompat, SkillConflict, SkillDep, SkillVersion};

#[test]
fn parse_accepts_plus_sign_and_leading_zeros() {
    assert_eq!(SkillVersion::parse("+1.02.3"), Some(SkillVersion::new(1, 2, 3)));
    assert_eq!(SkillVersion::parse("0.0.0"), Some(SkillVersion::new(0, 0, 0)));
    assert_eq!(
        SkillVersion::parse("4294967295.0.7"),
        Some(SkillVersion::new(4294967295, 0, 7))
    );
}

#[test]
fn parse_rejects_malformed_text() {
    assert_eq!(SkillVersion::parse(""), None);
    assert_eq!(SkillVersion::parse("1.2.3."), None);
    assert_eq!(SkillVersion::parse("1..3"), None);
    assert_eq!(SkillVersion::parse("1.2.3.4"), None);
    assert_eq!(SkillVersion::parse("-1.2.3"), None);
    assert_eq!(SkillVersion::parse("+.2.3"), None);
    assert_eq!(SkillVersion::parse("1.2.x"), None);
    assert_eq!(SkillVersion::parse("1. 2.3"), None);
    assert_eq!(SkillVersion::parse("4294967296.0.0"), None);
    assert_eq!(SkillVersion::parse("99999999999999999999.0.0"), None);
}

#[test]
fn display_then_parse_roundtrip() {
    for v in [
        SkillVersion::new(0, 0, 0),
        SkillVersion::new(10, 200, 3000),
        SkillVersion::new(4294967295, 4294967295, 4294967295),
    ] {
        assert_eq!(SkillVersion::parse(&v.to_string()), Some(v));
    }
    assert_eq!(SkillVersion::new(10, 0, 4294967295).to_string(), "10.0.4294967295");
}

#[test]
fn newer_is_strict_order() {
    let a = SkillVersion::new(1, 2, 3);
    let b = SkillVersion::new(1, 3, 0);
    assert!(!a.is_newer_than(&a));
    assert!(b.is_newer_than(&a));
    assert!(!a.is_newer_than(&b));
    assert!(SkillVersion::new(2, 0, 0).is_newer_than(&SkillVersion::new(1, 99, 99)));
    assert!(a.is_compatible_with(&b) && b.is_compatible_with(&a));
}

#[test]
fn dependency_bounds_are_inclusive() {
    let dep = SkillDep::optional("x")
        .with_min_version(SkillVersion::new(1, 0, 0))
        .with_max_version(SkillVersion::new(2, 0, 0));
    assert!(dep.optional);
    assert!(dep.is_satisfied_by(&SkillVersion::new(1, 0, 0)));
    assert!(dep.is_satisfied_by(&SkillVersion::new(2, 0, 0)));
    assert!(!dep.is_satisfied_by(&SkillVersion::new(2, 0, 1)));
    assert!(!dep.is_satisfied_by(&SkillVersion::new(0, 99, 0)));
    assert!(SkillDep::required("y").is_satisfied_by(&SkillVersion::new(0, 0, 0)));
    let only_max = SkillDep::required("z").with_max_version(SkillVersion::new(1, 0, 0));
    assert!(only_max.is_satisfied_by(&SkillVersion::new(0, 5, 0)));
    assert!(!only_max.is_satisfied_by(&SkillVersion::new(1, 0, 1)));
}

#[test]
fn check_dependencies_messages() {
    let mut reg = RegistryV2::new();
    assert_eq!(reg.check_dependencies("ghost"), Err("skill 'ghost' not found".to_string()));
    reg.register("base", SkillVersion::new(1, 4, 2), vec![]);
    reg.register(
        "needs-missing",
        SkillVersion::new(1, 0, 0),
        vec![SkillDep::required("base"), SkillDep::required("absent")],
    );
    assert_eq!(
        reg.check_dependencies("needs-missing"),
        Err("dependency 'absent' not registered".to_string())
    );
    reg.register(
        "needs-new",
        SkillVersion::new(1, 0, 0),
        vec![SkillDep::required("base").with_min_version(SkillVersion::new(2, 0, 0))],
    );
    assert_eq!(
        reg.check_dependencies("needs-new"),
        Err("dependency 'base' version 1.4.2 does not satisfy constraint".to_string())
    );
    reg.register(
        "lenient",
        SkillVersion::new(1, 0, 0),
        vec![SkillDep::optional("absent"), SkillDep::required("base")],
    );
    assert_eq!(reg.check_dependencies("lenient"), Ok(()));
    assert!(reg.deprecate("base"));
    assert_eq!(
        reg.check_dependencies("lenient"),
        Err("dependency 'base' is deprecated".to_string())
    );
}

#[test]
fn first_failing_dependency_is_reported() {
    let mut reg = RegistryV2::new();
    reg.register("old", SkillVersion::new(0, 1, 0), vec![]);
    reg.deprecate("old");
    reg.register(
        "app",
        SkillVersion::new(1, 0, 0),
        vec![SkillDep::required("old"), SkillDep::required("absent")],
    );
    assert_eq!(
        reg.check_dependencies("app"),
        Err("dependency 'old' is deprecated".to_string())
    );
}

#[test]
fn register_again_replaces_entry() {
    let mut reg = RegistryV2::new();
    reg.register("s", SkillVersion::new(1, 0, 0), vec![SkillDep::required("t")]);
    reg.deprecate("s");
    reg.register("s", SkillVersion::new(2, 0, 0), vec![]);
    assert_eq!(reg.skill_count(), 1);
    assert_eq!(reg.version_of("s"), Some(SkillVersion::new(2, 0, 0)));
    assert!(!reg.is_deprecated("s"));
    assert!(reg.dependencies_of("s").is_empty());
    assert!(!reg.is_deprecated("unknown"));
}

#[test]
fn names_and_dependencies_listed() {
    let mut reg = RegistryV2::new();
    reg.register("a", SkillVersion::new(1, 0, 0), vec![]);
    reg.register(
        "b",
        SkillVersion::new(1, 0, 0),
        vec![SkillDep::required("a"), SkillDep::optional("c")],
    );
    let names: HashSet<&str> = reg.skill_names().into_iter().collect();
    assert_eq!(names, HashSet::from(["a", "b"]));
    let deps = reg.dependencies_of("b");
    assert_eq!(deps.len(), 2);
    assert_eq!(deps[0].skill_name, "a");
    assert!(deps[1].optional);
    assert!(reg.dependencies_of("zzz").is_empty());
}

#[test]
fn conflicts_listing_and_coexistence() {
    let mut reg = RegistryV2::new();
    reg.declare_conflict(SkillConflict::new("a", "b", "r1"));
    reg.declare_conflict(SkillConflict::new("c", "a", "r2"));
    reg.declare_conflict(SkillConflict::new("d", "e", "r3"));
    assert_eq!(reg.conflict_count(), 3);
    let for_a = reg.conflicts_for("a");
    assert_eq!(for_a.len(), 2);
    assert_eq!(for_a[0].reason, "r1");
    assert_eq!(for_a[1].reason, "r2");
    assert!(!reg.can_coexist("b", "a"));
    assert!(!reg.can_coexist("a", "c"));
    assert!(reg.can_coexist("b", "c"));
    assert!(reg.conflicts_for("zzz").is_empty());
}

#[test]
fn compat_is_symmetric_and_counts_pairs() {
    let mut cm = SkillCompat::new();
    assert_eq!(cm.entry_count(), 0);
    cm.set("a", "b", false);
    assert!(!cm.is_compatible("b", "a"));
    cm.set("b", "a", true);
    assert!(cm.is_compatible("a", "b"));
    assert_eq!(cm.entry_count(), 1);
    cm.set("x", "x", false);
    assert_eq!(cm.entry_count(), 1);
    assert!(!cm.is_compatible("x", "x"));
}

#[test]
fn incompatible_with_lists_each_stored_direction() {
    let mut cm = SkillCompat::new();
    cm.set("a", "b", false);
    cm.set("c", "a", false);
    cm.set("a", "d", true);
    let list = cm.incompatible_with("a");
    assert_eq!(list, vec!["b", "b", "c", "c"]);
    assert!(cm.incompatible_with("d").is_empty());
}

#[test]
fn sync_rooms_and_registries() {
    let mut sync = RegistrySync::new();
    let mut r1 = RegistryV2::new();
    r1.register("x", SkillVersion::new(1, 0, 0), vec![]);
    sync.add_room("r1", r1);
    assert_eq!(sync.room_count(), 1);
    assert_eq!(
        sync.room_registry("r1").unwrap().version_of("x"),
        Some(SkillVersion::new(1, 0, 0))
    );
    assert!(sync.room_registry("r2").is_none());
    sync.add_room("r1", RegistryV2::new());
    assert_eq!(sync.room_count(), 1);
    assert_eq!(sync.room_registry("r1").unwrap().skill_count(), 0);
}

#[test]
fn sync_common_and_mismatch_details() {
    let mut sync = RegistrySync::new();
    let mut r1 = RegistryV2::new();
    r1.register("s", SkillVersion::new(1, 0, 0), vec![]);
    r1.register("t", SkillVersion::new(3, 0, 0), vec![]);
    r1.register("u", SkillVersion::new(1, 0, 0), vec![]);
    let mut r2 = RegistryV2::new();
    r2.register("t", SkillVersion::new(3, 0, 0), vec![]);
    r2.register("s", SkillVersion::new(1, 1, 0), vec![]);
    sync.add_room("r1", r1);
    sync.add_room("r2", r2);
    let common = sync.common_skills();
    assert_eq!(common.len(), 2);
    assert!(common.contains("s") && common.contains("t") && !common.contains("u"));
    let m = sync.version_mismatches();
    assert_eq!(m.len(), 1);
    assert_eq!(m[0].0, "s");
    assert_eq!(
        m[0].1,
        vec![
            ("r1".to_string(), SkillVersion::new(1, 0, 0)),
            ("r2".to_string(), SkillVersion::new(1, 1, 0)),
        ]
    );
}

#[test]
fn sync_unique_lists_every_unique_skill() {
    let mut sync = RegistrySync::new();
    let mut r1 = RegistryV2::new();
    r1.register("p", SkillVersion::new(1, 0, 0), vec![]);
    r1.register("shared", SkillVersion::new(1, 0, 0), vec![]);
    r1.register("q", SkillVersion::new(1, 0, 0), vec![]);
    let mut r2 = RegistryV2::new();
    r2.register("shared", SkillVersion::new(1, 0, 0), vec![]);
    sync.add_room("r1", r1);
    sync.add_room("r2", r2);
    let unique = sync.unique_skills();
    assert_eq!(unique.len(), 1);
    assert!(!unique.contains_key("r2"));
    let list = unique.get("r1").unwrap();
    assert_eq!(list, &vec!["p".to_string(), "q".to_string()]);
}

#[test]
fn sync_unique_across_two_rooms() {
    let v = SkillVersion::new(1, 0, 0);
    let mut r1 = RegistryV2::new();
    r1.register("a", v, vec![]);
    r1.register("b", v, vec![]);
    r1.register("s", v, vec![]);
    let mut r2 = RegistryV2::new();
    r2.register("s", v, vec![]);
    r2.register("c", v, vec![]);
    let mut sync = RegistrySync::new();
    sync.add_room("r1", r1);
    sync.add_room("r2", r2);
    let u = sync.unique_skills();
    assert_eq!(u.len(), 2);
    assert_eq!(u.get("r1").unwrap(), &vec!["a".to_string(), "b".to_string()]);
    assert_eq!(u.get("r2").unwrap(), &vec!["c".to_string()]);
}

#[test]
fn compat_history_last_set_wins_and_counts_pairs() {
    let mut cm = SkillCompat::new();
    cm.set("a", "b", true);
    cm.set("b", "a", false);
    cm.set("a", "c", false);
    assert!(!cm.is_compatible("a", "b"));
    assert!(!cm.is_compatible("b", "a"));
    assert!(!cm.is_compatible("c", "a"));
    assert!(cm.is_compatible("b", "c"));
    assert_eq!(cm.entry_count(), 2);
}

#[test]
fn dependencies_follow_last_register() {
    let mut reg = RegistryV2::new();
    reg.register("s", SkillVersion::new(1, 0, 0), vec![SkillDep::required("x")]);
    reg.register(
        "s",
        SkillVersion::new(1, 1, 0),
        vec![SkillDep::optional("y"), SkillDep::required("z")],
    );
    reg.deprecate("s");
    let deps = reg.dependencies_of("s");
    assert_eq!(deps.len(), 2);
    assert_eq!(deps[0].skill_name, "y");
    assert!(deps[0].optional);
    assert_eq!(deps[1].skill_name, "z");
}

#[test]
fn single_room_has_everything_common() {
    let mut sync = RegistrySync::default();
    let mut r = RegistryV2::default();
    r.register("a", SkillVersion::new(1, 0, 0), vec![]);
    sync.add_room("only", r);
    assert!(sync.common_skills().contains("a"));
    assert!(sync.version_mismatches().is_empty());
    assert!(sync.unique_skills().contains_key("only"));
    assert!(SkillCompat::default().is_compatible("a", "b"));
}

#[test]
fn only_direct_dependencies_are_checked() {
    let mut reg = RegistryV2::new();
    reg.register("a", SkillVersion::new(1, 0, 0), vec![SkillDep::required("b")]);
    reg.register("b", SkillVersion::new(1, 0, 0), vec![SkillDep::required("c")]);
    assert_eq!(reg.check_dependencies("a"), Ok(()));
    assert!(reg.check_dependencies("b").is_err());
}

#[test]
fn circular_dependencies_pass_individually() {
    let mut reg = RegistryV2::new();
    reg.register("a", SkillVersion::new(1, 0, 0), vec![SkillDep::required("b")]);
    reg.register("b", SkillVersion::new(1, 0, 0), vec![SkillDep::required("a")]);
    assert!(reg.check_dependencies("a").is_ok());
    assert!(reg.check_dependencies("b").is_ok());
}

#[test]
fn no_rooms_nothing_to_report() {
    let sync = RegistrySync::new();
    assert!(sync.version_mismatches().is_empty());
    assert_eq!(sync.unique_skills().len(), 0);
    assert_eq!(sync.common_skills().len(), 0);
}
