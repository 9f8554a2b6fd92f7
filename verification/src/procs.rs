//! Selection of the server's host process from a process-table snapshot
//! the caller supplies as plain process ids and names.

use vstd::prelude::*;

verus! {

use crate::text::{contains_seq, lower_seq, contains_lower};

/// One row of a process-table snapshot: a process id and a process name.
pub struct ProcEntry {
    pub pid: u64,
    pub name: String,
}

/// Whether a process name, case-folded, contains the needle.
pub open spec fn entry_matches(name: Seq<char>, needle: Seq<char>) -> bool {
    contains_seq(lower_seq(name), needle)
}

/// Finds the first process whose case-folded name contains `needle`, and
/// returns its id.
///
/// Known imprecision, kept deliberately: when several instances run, all
/// their host processes match the same name, so the first match need not
/// belong to the instance under inspection.
pub fn find_process(procs: &Vec<ProcEntry>, needle: &str) -> (r: Option<u64>)
    ensures
        match r {
            Option::Some(pid) => exists|i: int|
                0 <= i < procs.len() && entry_matches((#[trigger] procs@[i]).name@, needle@)
                    && procs@[i].pid == pid && (forall|j: int|
                    0 <= j < i ==> !entry_matches((#[trigger] procs@[j]).name@, needle@)),
            Option::None => forall|i: int|
                0 <= i < procs.len() ==> !entry_matches((#[trigger] procs@[i]).name@, needle@),
        },
{
    let mut i: usize = 0;
    while i < procs.len()
        invariant
            i <= procs.len(),
            forall|j: int| 0 <= j < i ==> !entry_matches((#[trigger] procs@[j]).name@, needle@),
        decreases procs.len() - i,
    {
        if contains_lower(procs[i].name.as_str(), needle) {
            proof {
                assert(entry_matches(procs@[i as int].name@, needle@));
            }
            return Some(procs[i].pid);
        }
        i += 1;
    }
    None
}

} // verus!
