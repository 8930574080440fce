//! Process-table inspection: a snapshot of the executable paths of the
//! processes now running, and the case-insensitive path test the watchdog
//! applies to it. A fresh snapshot is taken each polling tick; a process
//! whose own image path cannot be resolved is simply absent from the
//! snapshot, so it never matches and never aborts a tick.
use vstd::prelude::*;

use crate::text::{bytes_eq, lower_bytes, lower_vec};

verus! {

/// Whether some snapshotted process image path equals `path`, compared
/// case-insensitively.
pub open spec fn snap_has_path(snap: Seq<Seq<u8>>, path: Seq<u8>) -> bool {
    exists|i: int| 0 <= i < snap.len() && lower_bytes(snap[i]) == lower_bytes(path)
}

/// Relies on sysinfo's `System::new_all`, `System::processes` and
/// `Process::exe`: the executable paths of the processes running at the
/// moment of the call, one entry per process whose path the OS reveals.
/// The result depends on the machine's state, so nothing is promised of
/// its contents.
#[verifier::external_body]
pub(crate) fn snapshot_process_paths() -> Vec<Vec<u8>> {
    let sys = sysinfo::System::new_all();
    sys.processes()
        .values()
        .filter_map(|p| p.exe())
        .map(|p| p.to_string_lossy().into_owned().into_bytes())
        .collect()
}

/// Decides whether an executable path is running, given a snapshot.
pub fn is_path_running(snap: &Vec<Vec<u8>>, path: &[u8]) -> (r: bool)
    ensures
        r == snap_has_path(snap.deep_view(), path@),
{
    let needle = lower_vec(path);
    let n = snap.len();
    let mut i: usize = 0;
    while i < n
        invariant
            n == snap@.len(),
            i <= n,
            needle@ == lower_bytes(path@),
            forall|m: int|
                0 <= m < i ==> lower_bytes(snap.deep_view()[m]) != lower_bytes(path@),
        decreases n - i,
    {
        let cand = lower_vec(snap[i].as_slice());
        proof {
            assert(snap.deep_view()[i as int] == snap@[i as int]@);
        }
        if bytes_eq(cand.as_slice(), needle.as_slice()) {
            proof {
                assert(lower_bytes(snap.deep_view()[i as int]) == lower_bytes(path@));
            }
            return true;
        }
        i = i + 1;
    }
    false
}

} // verus!
