//! Schema migrations: which ones a store still needs.
use vstd::prelude::*;

verus! {

/// One numbered schema change.
pub struct Migration {
    pub version: i32,
    pub description: &'static str,
    pub sql: &'static str,
}

/// The version a store is at: the highest applied version, or 0 when none
/// was applied.
pub fn current_version(applied: &[i32]) -> (r: i32)
    ensures
        applied@.len() == 0 ==> r == 0,
        forall|i: int| 0 <= i < applied@.len() ==> applied@[i] <= r,
        applied@.len() > 0 ==> exists|i: int| 0 <= i < applied@.len() && applied@[i] == r,
{
    if applied.len() == 0 {
        return 0;
    }
    let mut best = applied[0];
    let mut i: usize = 1;
    while i < applied.len()
        invariant
            1 <= i <= applied@.len(),
            forall|j: int| 0 <= j < i ==> applied@[j] <= best,
            exists|j: int| 0 <= j < i && applied@[j] == best,
        decreases applied.len() - i,
    {
        if applied[i] > best {
            best = applied[i];
        }
        i = i + 1;
    }
    best
}

/// Positions, in order, of the migrations newer than `current`.
pub fn pending_migrations(migrations: &[Migration], current: i32) -> (r: Vec<usize>)
    ensures
        forall|k: int| 0 <= k < r@.len() ==> r@[k] < migrations@.len() && migrations@[r@[k] as int].version > current,
        forall|k: int, l: int| 0 <= k < l < r@.len() ==> r@[k] < r@[l],
        forall|i: int| 0 <= i < migrations@.len() && migrations@[i].version > current ==> r@.contains(i as usize),
{
    let mut out: Vec<usize> = Vec::new();
    let mut i: usize = 0;
    while i < migrations.len()
        invariant
            0 <= i <= migrations@.len(),
            forall|k: int| 0 <= k < out@.len() ==> out@[k] < i && migrations@[out@[k] as int].version > current,
            forall|k: int, l: int| 0 <= k < l < out@.len() ==> out@[k] < out@[l],
            forall|j: int| 0 <= j < i && migrations@[j].version > current ==> out@.contains(j as usize),
        decreases migrations.len() - i,
    {
        if migrations[i].version > current {
            let ghost before = out@;
            out.push(i);
            proof {
                assert forall|j: int| 0 <= j < i + 1 && migrations@[j].version > current implies out@.contains(j as usize) by {
                    if j < i {
                        let k = choose|k: int| 0 <= k < before.len() && before[k] == j as usize;
                        assert(out@[k] == j as usize);
                    } else {
                        assert(out@[before.len() as int] == i);
                    }
                }
            }
        }
        i = i + 1;
    }
    out
}

} // verus!
