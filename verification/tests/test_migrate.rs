use toro::{migration_step, MigrationStep};

#[test]
fn fresh_database_runs_the_initial_migration() {
    assert_eq!(migration_step(None).ok(), Some(MigrationStep::RunInitial));
    assert_eq!(migration_step(Some("0")).ok(), Some(MigrationStep::RunInitial));
}

#[test]
fn current_schema_needs_nothing() {
    assert_eq!(migration_step(Some("1")).ok(), Some(MigrationStep::UpToDate));
}

#[test]
fn unknown_schema_version_is_reported() {
    let err = migration_step(Some("2")).err().expect("an error");
    assert_eq!(err.version, "2");
    assert!(migration_step(Some("10")).is_err());
    assert!(migration_step(Some("")).is_err());
}
