//! The maintenance gate: what the sentinel file's state means. The stat
//! itself is filesystem work and lives in the application shell; the
//! reading of its outcome is fixed here.

use vstd::prelude::*;

verus! {

/// The process-wide maintenance gate.
pub struct MaintenanceMode;

impl MaintenanceMode {
    /// Maintenance is active exactly when the sentinel path exists and
    /// is a regular file; a failed stat counts as not active.
    pub fn interpret_sentinel(stat: Option<bool>) -> (r: bool)
        ensures
            r == (stat == Some(true)),
    {
        match stat {
            Some(is_file) => is_file,
            None => false,
        }
    }
}

} // verus!
