//! The schema version check run at start-up.
use vstd::prelude::*;
use vstd::string::StrSliceExecFns;

verus! {

/// What to do for the stored schema version.
#[derive(Debug, Clone, Copy, PartialEq, Eq, Structural)]
pub enum MigrationStep {
    /// Version "0" (or none stored): run the initial migration, which
    /// creates the readings table and records version "1".
    RunInitial,
    /// Version "1": the schema is current.
    UpToDate,
}

/// A stored schema version that this server does not know.
pub struct UnknownSchemaVersion {
    pub version: String,
}

/// The step for a stored version (`None`: no version stored, read as "0").
pub open spec fn migration_step_spec(version: Option<Seq<char>>) -> Option<MigrationStep> {
    let v = match version {
        Some(v) => v,
        None => seq!['0'],
    };
    if v == seq!['0'] {
        Some(MigrationStep::RunInitial)
    } else if v == seq!['1'] {
        Some(MigrationStep::UpToDate)
    } else {
        None
    }
}

/// The text of an optional string slice.
pub open spec fn str_option_view(o: Option<&str>) -> Option<Seq<char>> {
    match o {
        Some(s) => Some(s@),
        None => None,
    }
}

/// Decides the migration step for the stored schema version.
pub fn migration_step(version: Option<&str>) -> (r: Result<MigrationStep, UnknownSchemaVersion>)
    ensures
        r matches Ok(s) ==> migration_step_spec(str_option_view(version)) == Some(s),
        r matches Err(e) ==> (migration_step_spec(str_option_view(version)) is None && (version
            matches Some(v) && e.version@ == v@)),
        migration_step_spec(str_option_view(version)) is None ==> r is Err,
{
    match version {
        None => Ok(MigrationStep::RunInitial),
        Some(v) => {
            if v.unicode_len() == 1 {
                let c = v.get_char(0);
                if c == '0' {
                    assert(v@ =~= seq!['0']);
                    return Ok(MigrationStep::RunInitial);
                } else if c == '1' {
                    assert(v@ =~= seq!['1']);
                    return Ok(MigrationStep::UpToDate);
                }
            }
            assert(v@ != seq!['0'] && v@ != seq!['1']);
            Err(UnknownSchemaVersion { version: v.to_owned() })
        },
    }
}

/// Law: the initial migration records version "1", and with version "1"
/// stored no migration runs, so starting the server again is
/// harmless.
pub proof fn law_migration_idempotent()
    ensures
        migration_step_spec(None) == Some(MigrationStep::RunInitial),
        migration_step_spec(Some(seq!['1'])) == Some(MigrationStep::UpToDate),
{
    assert(seq!['1'][0] != seq!['0'][0]);
}

} // verus!
