# ternary_registry_v2

A skill registry with semantic versions, dependency constraints, conflict
declarations, a symmetric compatibility matrix and comparison of the
registries of several rooms, written in Verus with its behaviour stated in
contracts and proved.

- `src/version.rs`: `SkillVersion`, its ordering, its text form and `parse`.
- `src/text.rs`: decimal digits, reading and writing `u32` text, splitting text.
- `src/dep.rs`: `SkillDep` (version bounds) and `SkillConflict`.
- `src/registry.rs`: `RegistryV2`: registration, deprecation, dependency
  checks with their exact error messages, conflicts.
- `src/compat.rs`: `SkillCompat`, the symmetric compatibility matrix.
- `src/sync.rs`: `RegistrySync`, with `NameSet` and `SkillsByRoom` as results.
- `src/seq_facts.rs`: sequence lemmas used by the tables.
- `app/lib.rs`: a copy of `SkillVersion` that implements `Display`.
