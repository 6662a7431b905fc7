//! Throwaway repositories made from fixtures.

use crate::paths::{file_name, join_path, joined_path, name_of};
use vstd::prelude::*;

verus! {

/// A repository made from a fixture.
pub struct TestRepo {
    pub dir: String,
    pub changed_files: Vec<String>,
    /// Whether it outlives the value that stands for it.
    pub persist: bool,
}

impl TestRepo {
    /// Whether the directory goes away with this value.
    pub fn is_removed_on_drop(&self) -> (r: bool)
        ensures
            r == !self.persist,
    {
        !self.persist
    }
}

/// The name of the scenario that a fixture is: that of its directory, or
/// `unknown` where it has none.
pub open spec fn scenario_of(fixture_dir: Seq<char>) -> Seq<char> {
    match file_name(fixture_dir) {
        Some(name) => name,
        None => "unknown"@,
    }
}

/// Where the repository of a fixture is made: in a directory of its own below
/// `base_temp_dir` when given, else below `temp_dir`, the system's.
pub fn repo_dir(fixture_dir: &str, base_temp_dir: Option<&str>, temp_dir: &str) -> (dir: String)
    ensures
        dir@ == joined_path(
            joined_path(
                match base_temp_dir {
                    Some(base) => base@,
                    None => temp_dir@,
                },
                "stoat-dev"@,
            ),
            scenario_of(fixture_dir@),
        ),
{
    let scenario: String = match name_of(fixture_dir) {
        Some(name) => name,
        None => "unknown".to_owned(),
    };
    let base: &str = match base_temp_dir {
        Some(base) => base,
        None => temp_dir,
    };
    join_path(join_path(base, "stoat-dev").as_str(), scenario.as_str())
}

} // verus!
