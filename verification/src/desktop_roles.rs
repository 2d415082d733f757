//! Least-authority role matrix of the desktop configuration: which roles
//! receive, and which endpoint each role's send slot reaches. It extends the
//! platform mechanisms and carries no policy of its own.
use vstd::prelude::*;

verus! {

/// Number of desktop roles that are started.
pub const ACTIVE: usize = 8;

/// Roles that own a receive endpoint.
pub fn receives(role: usize) -> (r: bool)
    ensures
        r == (role == 0 || role == 1 || role == 3 || role == 4 || role == 5 || role == 6),
{
    role == 0 || role == 1 || role == 3 || role == 4 || role == 5 || role == 6
}

/// Whether `role` may use send slot `slot`.
pub open spec fn may_send(role: usize, slot: usize) -> bool {
    if role == 0 {
        slot == 2 || slot == 4 || slot == 5 || slot == 6
    } else if role == 1 {
        slot == 4 || slot == 6
    } else if role == 2 {
        slot == 1
    } else if role == 4 || role == 6 {
        slot == 2 || slot == 3
    } else if role == 5 {
        slot == 1 || slot == 2
    } else {
        false
    }
}

/// The role a send slot reaches.
pub open spec fn slot_target(slot: usize) -> Option<usize> {
    if slot == 1 {
        Some(0)
    } else if slot == 2 {
        Some(3)
    } else if slot == 3 {
        Some(1)
    } else if 4 <= slot <= 6 {
        Some(slot)
    } else {
        None
    }
}

/// The endpoint role `role` reaches through send slot `slot`, if it may.
pub fn send_target(role: usize, slot: usize) -> (r: Option<usize>)
    ensures
        r == (if may_send(role, slot) { slot_target(slot) } else { None }),
{
    let allowed = if role == 0 {
        slot == 2 || slot == 4 || slot == 5 || slot == 6
    } else if role == 1 {
        slot == 4 || slot == 6
    } else if role == 2 {
        slot == 1
    } else if role == 4 || role == 6 {
        slot == 2 || slot == 3
    } else if role == 5 {
        slot == 1 || slot == 2
    } else {
        false
    };
    if !allowed {
        return None;
    }
    if slot == 1 {
        Some(0)
    } else if slot == 2 {
        Some(3)
    } else if slot == 3 {
        Some(1)
    } else if 4 <= slot && slot <= 6 {
        Some(slot)
    } else {
        None
    }
}

} // verus!
